//! Where TinyTemplate's compiler (1.2) would panic on a template text rather than accept or
//! refuse it. The compiler reads a text as a run of tags and literal text:
//! - `{# .. #}` is a comment; one written `{#}` closes inside its own opening, and the
//!   compiler slices backwards;
//! - `{{ .. }}` is a block; in `{{ if not .. }}` the compiler skips four bytes after `if`, past
//!   the end of a condition that is just `not`, or into the middle of a non-ASCII character
//!   that follows `not`;
//! - `{ .. }` is a value;
//! - literal text runs to the next `{`; text ending in a backslash escapes that `{`, and at
//!   the end of the text the escape looks past it.
//!
//! [`trips_compiler`] follows the compiler's reading up to the first such point. The compiler
//! stops earlier with an error on some texts (an unknown block, a tag left open on its line);
//! those texts fail either way.
use vstd::prelude::*;

use crate::text::{is_whitespace, is_ws, slice_of, trim, trimmed};

verus! {

/// The first position from `i` on that holds `c`, or the text's length.
pub open spec fn next_at(t: Seq<char>, c: char, i: int) -> int
    decreases t.len() - i,
{
    if 0 <= i < t.len() {
        if t[i] == c {
            i
        } else {
            next_at(t, c, i + 1)
        }
    } else {
        t.len() as int
    }
}

/// The first position from `i` on where `a` is followed by `b`.
pub open spec fn pair_at(t: Seq<char>, a: char, b: char, i: int) -> Option<int>
    decreases t.len() - i,
{
    if 0 <= i && i + 1 < t.len() {
        if t[i] == a && t[i + 1] == b {
            Some(i)
        } else {
            pair_at(t, a, b, i + 1)
        }
    } else {
        None
    }
}

/// The position of the first whitespace character of `s`, or its length.
pub open spec fn first_ws(s: Seq<char>, i: int) -> int
    decreases s.len() - i,
{
    if 0 <= i < s.len() {
        if is_ws(s[i]) {
            i
        } else {
            first_ws(s, i + 1)
        }
    } else {
        s.len() as int
    }
}

/// A block tag's content once the compiler has trimmed it and dropped a leading and a
/// trailing `-`.
pub open spec fn block_content(raw: Seq<char>) -> Seq<char> {
    let c0 = trim(raw);
    let c1 = if c0.len() > 0 && c0[0] == '-' { trim(c0.subrange(1, c0.len() as int)) } else { c0 };
    if c1.len() > 0 && c1[c1.len() - 1] == '-' {
        trim(c1.subrange(0, c1.len() - 1))
    } else {
        c1
    }
}

/// The block tag whose content is `t[a..b]` is an `if` whose condition starts with `not` and
/// is just `not`, or goes on with a non-ASCII character.
pub open spec fn cut_if_not(t: Seq<char>, a: int, b: int) -> bool {
    let c = block_content(t.subrange(a, b));
    let w = first_ws(c, 0);
    let rest = trim(c.subrange(w, c.len() as int));
    &&& w == 2
    &&& c[0] == 'i'
    &&& c[1] == 'f'
    &&& rest.len() >= 3
    &&& rest[0] == 'n'
    &&& rest[1] == 'o'
    &&& rest[2] == 't'
    &&& (rest.len() == 3 || (rest[3] as u32) >= 128)
}

/// After literal text from `p` up to the next `{` at or after `from`.
pub open spec fn scan_literal(t: Seq<char>, p: int, from: int) -> bool
    decreases t.len() - p, 0int,
{
    let e = next_at(t, '{', from);
    if p < e && p <= from <= e <= t.len() {
        if t[e - 1] == '\\' {
            if e >= t.len() {
                true
            } else {
                scan(t, e, true)
            }
        } else {
            scan(t, e, false)
        }
    } else {
        false
    }
}

/// Reading `t` from `p` on reaches a point where the compiler panics; `escaped` when the `{`
/// at `p` is literal text, escaped by a backslash before it.
pub open spec fn scan(t: Seq<char>, p: int, escaped: bool) -> bool
    decreases t.len() - p, 1int,
{
    if p < 0 || p >= t.len() {
        false
    } else if escaped {
        scan_literal(t, p, p + 1)
    } else if t[p] == '{' {
        if p + 1 < t.len() && t[p + 1] == '#' {
            match pair_at(t, '#', '}', p) {
                None => false,
                Some(q) => if q == p + 1 {
                    true
                } else if p < q && q + 2 <= t.len() {
                    scan(t, q + 2, false)
                } else {
                    false
                },
            }
        } else if p + 1 < t.len() && t[p + 1] == '{' {
            match pair_at(t, '}', '}', p) {
                None => false,
                Some(q) => if p + 2 <= q && q + 2 <= t.len() {
                    if cut_if_not(t, p + 2, q) {
                        true
                    } else {
                        scan(t, q + 2, false)
                    }
                } else {
                    false
                },
            }
        } else {
            let q = next_at(t, '}', p);
            if p <= q < t.len() {
                scan(t, q + 1, false)
            } else {
                false
            }
        }
    } else {
        scan_literal(t, p, p)
    }
}

/// TinyTemplate's compiler would panic on `t` if it read it without an error that far.
pub open spec fn trips_compiler(t: Seq<char>) -> bool {
    scan(t, 0, false)
}

/// `next_at` lies between its start and the end.
proof fn lemma_next_at(t: Seq<char>, c: char, i: int)
    requires
        0 <= i <= t.len(),
    ensures
        i <= next_at(t, c, i) <= t.len(),
        next_at(t, c, i) < t.len() ==> t[next_at(t, c, i)] == c,
    decreases t.len() - i,
{
    if i < t.len() && t[i] != c {
        lemma_next_at(t, c, i + 1);
    }
}

/// `pair_at` finds a position from its start on.
proof fn lemma_pair_at(t: Seq<char>, a: char, b: char, i: int)
    requires
        0 <= i,
    ensures
        pair_at(t, a, b, i) matches Some(q) ==> i <= q && q + 1 < t.len() && t[q] == a && t[q + 1] == b,
    decreases t.len() - i,
{
    if i + 1 < t.len() && !(t[i] == a && t[i + 1] == b) {
        lemma_pair_at(t, a, b, i + 1);
    }
}

/// The first position from `i` on that holds `c` (see [`next_at`]).
fn next_at_exec(t: &Vec<char>, c: char, i: usize) -> (r: usize)
    requires
        i <= t@.len(),
    ensures
        r == next_at(t@, c, i as int),
        i <= r <= t@.len(),
{
    let mut k = i;
    while k < t.len()
        invariant
            i <= k <= t@.len(),
            next_at(t@, c, i as int) == next_at(t@, c, k as int),
        decreases t@.len() - k,
    {
        if t[k] == c {
            return k;
        }
        k = k + 1;
    }
    k
}

/// The first position from `i` on where `a` is followed by `b` (see [`pair_at`]).
fn pair_at_exec(t: &Vec<char>, a: char, b: char, i: usize) -> (r: Option<usize>)
    ensures
        match r {
            Some(q) => pair_at(t@, a, b, i as int) == Some(q as int),
            None => pair_at(t@, a, b, i as int) is None,
        },
{
    let mut k = i;
    while k < t.len() && t.len() - k >= 2
        invariant
            i <= k,
            pair_at(t@, a, b, i as int) == pair_at(t@, a, b, k as int),
        decreases t@.len() - k,
    {
        if t[k] == a && t[k + 1] == b {
            return Some(k);
        }
        k = k + 1;
    }
    None
}

/// The position of the first whitespace character of `s` (see [`first_ws`]).
fn first_ws_exec(s: &Vec<char>) -> (r: usize)
    ensures
        r == first_ws(s@, 0),
        r <= s@.len(),
{
    let mut k: usize = 0;
    while k < s.len()
        invariant
            k <= s@.len(),
            first_ws(s@, 0) == first_ws(s@, k as int),
        decreases s@.len() - k,
    {
        if is_whitespace(s[k]) {
            return k;
        }
        k = k + 1;
    }
    k
}

/// Whether the block tag with content `t[a..b]` cuts an `if not` short (see [`cut_if_not`]).
fn cut_if_not_exec(t: &Vec<char>, a: usize, b: usize) -> (r: bool)
    requires
        a <= b <= t@.len(),
    ensures
        r == cut_if_not(t@, a as int, b as int),
{
    let c0 = trimmed(&slice_of(t, a, b));
    let c1 = if c0.len() > 0 && c0[0] == '-' { trimmed(&slice_of(&c0, 1, c0.len())) } else { c0 };
    let c = if c1.len() > 0 && c1[c1.len() - 1] == '-' { trimmed(&slice_of(&c1, 0, c1.len() - 1)) } else { c1 };
    proof {
        assert(c@ == block_content(t@.subrange(a as int, b as int)));
    }
    let w = first_ws_exec(&c);
    let rest = trimmed(&slice_of(&c, w, c.len()));
    w == 2 && c[0] == 'i' && c[1] == 'f' && rest.len() >= 3 && rest[0] == 'n' && rest[1] == 'o' && rest[2] == 't'
        && (rest.len() == 3 || (rest[3] as u32) >= 128)
}

/// Whether TinyTemplate's compiler would panic on `t` (see [`trips_compiler`]).
pub fn trips_compiler_check(t: &Vec<char>) -> (r: bool)
    ensures
        r == trips_compiler(t@),
{
    let n = t.len();
    let mut p: usize = 0;
    let mut escaped = false;
    while p < n
        invariant
            n == t@.len(),
            p <= n,
            trips_compiler(t@) == scan(t@, p as int, escaped),
        decreases n - p,
    {
        if !escaped && t[p] == '{' {
            if n - p > 1 && t[p + 1] == '#' {
                proof { lemma_pair_at(t@, '#', '}', p as int); }
                match pair_at_exec(t, '#', '}', p) {
                    None => { return false; },
                    Some(q) => {
                        if q == p + 1 {
                            return true;
                        }
                        p = q + 2;
                    },
                }
            } else if n - p > 1 && t[p + 1] == '{' {
                proof { lemma_pair_at(t@, '}', '}', p as int); }
                match pair_at_exec(t, '}', '}', p) {
                    None => { return false; },
                    Some(q) => {
                        assert(q >= p + 2);
                        if cut_if_not_exec(t, p + 2, q) {
                            return true;
                        }
                        p = q + 2;
                    },
                }
            } else {
                let q = next_at_exec(t, '}', p);
                if q >= n {
                    return false;
                }
                p = q + 1;
            }
        } else {
            let from = if escaped { p + 1 } else { p };
            let e = next_at_exec(t, '{', from);
            proof {
                lemma_next_at(t@, '{', from as int);
                if !escaped {
                    assert(t@[p as int] != '{');
                    assert(e > p);
                }
                assert(scan(t@, p as int, escaped) == scan_literal(t@, p as int, from as int));
                assert(e == next_at(t@, '{', from as int));
                assert(p < e && p <= from <= e <= t@.len());
            }
            if t[e - 1] == '\\' {
                if e >= n {
                    return true;
                }
                escaped = true;
            } else {
                escaped = false;
            }
            p = e;
        }
    }
    false
}

} // verus!
