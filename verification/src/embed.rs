//! Lua code read in one place and written in another: the scan for the brace
//! that closes a Lua block depends only on the characters it reads.
use vstd::prelude::*;

use crate::formatter::opaque_body_text;
use crate::lexer::{lemma_lua_close_bounds, lua_close, lua_code_like, lua_next, LuaMode};
use crate::printed::{lua_body_ok, no_cr};
use crate::shape::lemma_trimmed_prefix;
use crate::text::{spec_is_whitespace, trimmed_end};

verus! {

/// A newline ends every comment and string but a long one: after it the scan
/// reads code, or goes on in the long string or comment.
pub proof fn lemma_lua_newline(m: LuaMode, d: int)
    ensures
        !(m is Long || m is LongClose) ==> lua_next(m, d, '\n') == (LuaMode::Code, d),
        (m is Long || m is LongClose) ==> lua_next(m, d, '\n').0 is Long && lua_next(m, d, '\n').1 == d,
{
}

/// Whitespace other than a newline leaves code as it is.
pub proof fn lemma_lua_blank(d: int, c: char)
    requires
        spec_is_whitespace(c),
        c != '\n',
    ensures
        lua_next(LuaMode::Code, d, c) == (LuaMode::Code, d),
{
}

/// Whitespace never changes the depth of braces.
proof fn lemma_lua_ws_depth(m: LuaMode, d: int, c: char)
    requires
        spec_is_whitespace(c),
    ensures
        lua_next(m, d, c).1 == d,
{
}

/// The scan over the same `n` characters in two texts, when it closes no brace
/// among them, ends in the same mode and depth; after a newline, in code.
pub proof fn lemma_lua_window(
    s1: Seq<char>,
    j1: int,
    s2: Seq<char>,
    j2: int,
    n: int,
    m: LuaMode,
    d: int,
) -> (r: (LuaMode, int))
    requires
        0 <= j1,
        0 <= j2,
        0 <= n,
        j1 + n <= s1.len(),
        j2 + n <= s2.len(),
        forall|i: int| 0 <= i < n ==> s1[j1 + i] == #[trigger] s2[j2 + i],
        !(lua_close(s1, j1, m, d) matches Some(e) && e < j1 + n),
    ensures
        lua_close(s1, j1, m, d) == lua_close(s1, j1 + n, r.0, r.1),
        lua_close(s2, j2, m, d) == lua_close(s2, j2 + n, r.0, r.1),
        n > 0 && s1[j1 + n - 1] == '\n' ==> r.0 == LuaMode::Code || r.0 is Long,
        n == 0 ==> r == (m, d),
    decreases n,
{
    if n == 0 {
        (m, d)
    } else {
        assert(s1[j1 + 0] == s2[j2 + 0]);
        let c = s1[j1];
        if lua_code_like(m) && c == '}' && d == 1 {
            assert(lua_close(s1, j1, m, d) == Some(j1));
        }
        let nx = lua_next(m, d, c);
        assert forall|i: int| 0 <= i < n - 1 implies s1[(j1 + 1) + i] == #[trigger] s2[(j2 + 1) + i] by {
            assert(s1[j1 + (i + 1)] == s2[j2 + (i + 1)]);
        }
        let r = lemma_lua_window(s1, j1 + 1, s2, j2 + 1, n - 1, nx.0, nx.1);
        if n == 1 && c == '\n' {
            lemma_lua_newline(m, d);
        }
        assert((j1 + 1) + (n - 1) - 1 == j1 + n - 1);
        r
    }
}

/// Blanks between code and a brace are skipped.
pub proof fn lemma_lua_blanks(s: Seq<char>, j: int, n: int, d: int)
    requires
        0 <= j,
        0 <= n,
        j + n <= s.len(),
        forall|i: int| j <= i < j + n ==> spec_is_whitespace(#[trigger] s[i]) && s[i] != '\n',
    ensures
        lua_close(s, j, LuaMode::Code, d) == lua_close(s, j + n, LuaMode::Code, d),
    decreases n,
{
    if n > 0 {
        assert(spec_is_whitespace(s[j]) && s[j] != '\n');
        lemma_lua_blank(d, s[j]);
        assert(s[j] != '}');
        lemma_lua_blanks(s, j + 1, n - 1, d);
    }
}

/// A brace closing Lua code after only whitespace closes it at depth one, and
/// the scan is then in no long string or comment.
proof fn lemma_lua_ws_close(s: Seq<char>, j: int, e: int, m: LuaMode, d: int)
    requires
        0 <= j <= e < s.len(),
        forall|i: int| j <= i < e ==> spec_is_whitespace(#[trigger] s[i]),
        lua_close(s, j, m, d) == Some(e),
    ensures
        d == 1,
        !(m is Long || m is LongClose),
    decreases e - j,
{
    if j < e {
        assert(spec_is_whitespace(s[j]));
        assert(s[j] != '}');
        assert(s[j] != ']');
        assert(s[j] != '=');
        let nx = lua_next(m, d, s[j]);
        lemma_lua_ws_depth(m, d, s[j]);
        lemma_lua_ws_close(s, j + 1, e, nx.0, nx.1);
    } else {
        if !(lua_code_like(m) && s[j] == '}' && d == 1) {
            let nx = lua_next(m, d, s[j]);
            lemma_lua_close_bounds(s, j + 1, nx.0, nx.1);
        }
    }
}

/// The body of a Lua block that the lexer finds, written as the formatter
/// writes it, is a well-formed Lua body.
pub proof fn lemma_lua_body_text(s: Seq<char>, b: int, e: int)
    requires
        no_cr(s),
        0 <= b <= e < s.len(),
        lua_close(s, b, LuaMode::Code, 1) == Some(e),
    ensures
        lua_body_ok(opaque_body_text(s.subrange(b, e))),
{
    let body = s.subrange(b, e);
    assert forall|i: int| 0 <= i < body.len() implies body[i] != '\r' by {
        assert(body[i] == s[b + i]);
    }
    crate::laws::lemma_normalized_identity(body);
    let strip = body.len() > 0 && body[0] == '\n';
    let s1 = if strip {
        b + 1
    } else {
        b
    };
    if strip {
        assert(s[b] == '\n');
        lemma_lua_newline(LuaMode::Code, 1);
        assert(lua_close(s, b, LuaMode::Code, 1) == lua_close(s, b + 1, LuaMode::Code, 1));
    }
    let x = s.subrange(s1, e);
    assert(x == (if strip {
        body.drop_first()
    } else {
        body
    }));
    lemma_trimmed_prefix(x);
    let o = trimmed_end(x);
    assert(opaque_body_text(body) == o);
    let l = o.len() as int;
    let t = o + seq!['\n', '}'];
    assert forall|i: int| 0 <= i < l implies s[s1 + i] == #[trigger] t[0 + i] by {
        assert(t[i] == o[i]);
        assert(o[i] == x[i]);
    }
    let r = lemma_lua_window(s, s1, t, 0, l, LuaMode::Code, 1);
    assert forall|i: int| s1 + l <= i < e implies spec_is_whitespace(#[trigger] s[i]) by {
        assert(s[i] == x[i - s1]);
    }
    lemma_lua_ws_close(s, s1 + l, e, r.0, r.1);
    assert(t[l] == '\n');
    assert(t[l + 1] == '}');
    lemma_lua_newline(r.0, 1);
    assert(lua_close(t, l + 1, LuaMode::Code, 1) == Some(l + 1));
    assert(lua_close(t, l, r.0, 1) == lua_close(t, l + 1, LuaMode::Code, 1));
    assert forall|i: int| 0 <= i < o.len() implies #[trigger] o[i] != '\r' by {
        assert(o[i] == s[s1 + i]);
    }
}

/// Where a Lua body stands after a newline, followed by a newline, blanks and a
/// brace, the scan from that first newline closes at that brace.
pub proof fn lemma_lua_printed(p: Seq<char>, o: int, b: Seq<char>, pe: int)
    requires
        lua_body_ok(b),
        1 <= o,
        o + b.len() < pe < p.len(),
        p[o - 1] == '\n',
        forall|i: int| 0 <= i < b.len() ==> p[o + i] == #[trigger] b[i],
        p[o + b.len()] == '\n',
        forall|i: int| o + b.len() + 1 <= i < pe ==> spec_is_whitespace(#[trigger] p[i]) && p[i] != '\n',
        p[pe] == '}',
    ensures
        lua_close(p, o - 1, LuaMode::Code, 1) == Some(pe),
{
    lemma_lua_newline(LuaMode::Code, 1);
    assert(lua_close(p, o - 1, LuaMode::Code, 1) == lua_close(p, o, LuaMode::Code, 1));
    let t = b + seq!['\n', '}'];
    let n: int = b.len() + 1int;
    assert forall|i: int| 0 <= i < n implies t[0 + i] == #[trigger] p[o + i] by {
        if i < b.len() {
            assert(t[i] == b[i]);
        } else {
            assert(t[i] == '\n');
        }
    }
    let r = lemma_lua_window(t, 0, p, o, n, LuaMode::Code, 1);
    assert(t[n - 1] == '\n');
    assert(t[n] == '}');
    if r.0 is Long {
        let nx = lua_next(r.0, r.1, t[n]);
        assert(lua_close(t, n, r.0, r.1) == lua_close(t, n + 1, nx.0, nx.1));
        assert(lua_close(t, n + 1, nx.0, nx.1) is None);
    }
    assert(r.0 == LuaMode::Code);
    if r.1 != 1 {
        let nx = lua_next(r.0, r.1, t[n]);
        lemma_lua_close_bounds(t, n + 1, nx.0, nx.1);
        assert(lua_close(t, n, r.0, r.1) == lua_close(t, n + 1, nx.0, nx.1));
    }
    lemma_lua_blanks(p, o + n, pe - (o + n), 1);
}

} // verus!
