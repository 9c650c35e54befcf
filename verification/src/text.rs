//! Sequence and string helpers shared by the whole library.
use vstd::prelude::*;
use vstd::string::*;

verus! {

/// `s` with repeated elements removed, keeping each element's first occurrence.
pub open spec fn unique_seq<A>(s: Seq<A>) -> Seq<A>
    decreases s.len(),
{
    if s.len() == 0 {
        s
    } else {
        let prefix = unique_seq(s.drop_last());
        if s.drop_last().contains(s.last()) {
            prefix
        } else {
            prefix.push(s.last())
        }
    }
}

/// `parts` joined by `sep`.
pub open spec fn join(parts: Seq<Seq<char>>, sep: Seq<char>) -> Seq<char>
    decreases parts.len(),
{
    if parts.len() == 0 {
        Seq::empty()
    } else if parts.len() == 1 {
        parts[0]
    } else {
        join(parts.drop_last(), sep) + sep + parts.last()
    }
}

/// The first index from `k` below `n` satisfying `p`.
pub open spec fn first_where(n: int, p: spec_fn(int) -> bool, k: int) -> Option<int>
    decreases n - k,
{
    if 0 <= k < n {
        if p(k) {
            Some(k)
        } else {
            first_where(n, p, k + 1)
        }
    } else {
        None
    }
}

/// `first_where` finds exactly the least index satisfying the predicate.
pub proof fn lemma_first_where(n: int, p: spec_fn(int) -> bool, k: int)
    requires
        0 <= k,
    ensures
        first_where(n, p, k) matches Some(i) ==> k <= i < n && p(i) && forall|j: int| k <= j < i ==> !#[trigger] p(j),
        first_where(n, p, k) is None ==> forall|j: int| k <= j < n ==> !#[trigger] p(j),
    decreases n - k,
{
    if k < n {
        lemma_first_where(n, p, k + 1);
    }
}

/// A copy of `s` as an owned string.
pub fn owned(s: &str) -> (r: String)
    ensures
        r@ == s@,
{
    s.to_owned()
}

/// `parts` joined by `sep` into one string.
pub fn join_strings(parts: &Vec<String>, sep: &str) -> (r: String)
    ensures
        r@ == join(parts@.map_values(|p: String| p@), sep@),
{
    let ghost views = parts@.map_values(|p: String| p@);
    let mut r = String::new();
    let mut i: usize = 0;
    while i < parts.len()
        invariant
            i <= parts@.len(),
            views == parts@.map_values(|p: String| p@),
            r@ == join(views.take(i as int), sep@),
        decreases parts@.len() - i,
    {
        proof {
            assert(views.take(i + 1).drop_last() =~= views.take(i as int));
            assert(views.take(i + 1).last() == parts@[i as int]@);
        }
        if i != 0 {
            r.append(sep);
        } else {
            proof {
                assert(views.take(0) =~= Seq::<Seq<char>>::empty());
            }
        }
        r.append(parts[i].as_str());
        i = i + 1;
    }
    proof {
        assert(views.take(parts@.len() as int) =~= views);
    }
    r
}

/// `str::chars`, collected: the characters of `s`.
#[verifier::external_body]
pub fn chars_of(s: &str) -> (r: Vec<char>)
    ensures
        r@ == s@,
{
    s.chars().collect()
}

/// `String::from_iter`: the string made of the characters `cs`.
#[verifier::external_body]
pub fn string_of(cs: &[char]) -> (r: String)
    ensures
        r@ == cs@,
{
    cs.iter().collect()
}

/// `c` has the Unicode `White_Space` property.
pub open spec fn is_ws(c: char) -> bool {
    let u = c as u32;
    ||| 0x9 <= u <= 0xd
    ||| u == 0x20
    ||| u == 0x85
    ||| u == 0xa0
    ||| u == 0x1680
    ||| 0x2000 <= u <= 0x200a
    ||| u == 0x2028
    ||| u == 0x2029
    ||| u == 0x202f
    ||| u == 0x205f
    ||| u == 0x3000
}

/// Whether `c` has the Unicode `White_Space` property.
pub fn is_whitespace(c: char) -> (r: bool)
    ensures
        r == is_ws(c),
{
    let u = c as u32;
    (0x9 <= u && u <= 0xd) || u == 0x20 || u == 0x85 || u == 0xa0 || u == 0x1680 || (0x2000 <= u && u <= 0x200a)
        || u == 0x2028 || u == 0x2029 || u == 0x202f || u == 0x205f || u == 0x3000
}

/// `s` is empty or made of whitespace only.
pub open spec fn is_blank(s: Seq<char>) -> bool {
    forall|i: int| 0 <= i < s.len() ==> is_ws(#[trigger] s[i])
}

/// Whether `s` is empty or made of whitespace only.
pub fn blank(s: &str) -> (r: bool)
    ensures
        r == is_blank(s@),
{
    let cs = chars_of(s);
    let mut i: usize = 0;
    while i < cs.len()
        invariant
            cs@ == s@,
            i <= cs@.len(),
            forall|j: int| 0 <= j < i ==> is_ws(#[trigger] cs@[j]),
        decreases cs@.len() - i,
    {
        if !is_whitespace(cs[i]) {
            return false;
        }
        i = i + 1;
    }
    true
}

/// `s` cut at every `c`: the pieces between separators, in order (one empty piece for an
/// empty `s`).
pub open spec fn split_on(s: Seq<char>, c: char) -> Seq<Seq<char>>
    decreases s.len(),
{
    if s.len() == 0 {
        seq![Seq::<char>::empty()]
    } else {
        let prev = split_on(s.drop_last(), c);
        if s.last() == c {
            prev.push(Seq::<char>::empty())
        } else {
            prev.update(prev.len() - 1, prev.last().push(s.last()))
        }
    }
}

/// The lines of `s`: the pieces between newlines, without a last empty piece after a final
/// newline (so an empty text has no lines).
pub open spec fn lines(s: Seq<char>) -> Seq<Seq<char>> {
    let p = split_on(s, '\n');
    if p.last().len() == 0 {
        p.drop_last()
    } else {
        p
    }
}

/// The index of the first non-whitespace character of `s` from `i` on (or its length).
pub open spec fn lead_end(s: Seq<char>, i: int) -> int
    decreases s.len() - i,
{
    if 0 <= i < s.len() && is_ws(s[i]) {
        lead_end(s, i + 1)
    } else {
        i
    }
}

/// The end of `s[lo..j]` once trailing whitespace is dropped.
pub open spec fn trail_end(s: Seq<char>, j: int, lo: int) -> int
    decreases j - lo,
{
    if lo < j <= s.len() && is_ws(s[j - 1]) {
        trail_end(s, j - 1, lo)
    } else {
        j
    }
}

/// `s` without leading and trailing whitespace.
pub open spec fn trim(s: Seq<char>) -> Seq<char> {
    let a = lead_end(s, 0);
    s.subrange(a, trail_end(s, s.len() as int, a))
}

/// The index of the first `c` in `s` from `i` on, if any.
pub open spec fn index_from(s: Seq<char>, c: char, i: int) -> Option<int>
    decreases s.len() - i,
{
    if 0 <= i < s.len() {
        if s[i] == c {
            Some(i)
        } else {
            index_from(s, c, i + 1)
        }
    } else {
        None
    }
}

/// The index of the first `c` in `s`, if any.
pub open spec fn index_of(s: Seq<char>, c: char) -> Option<int> {
    index_from(s, c, 0)
}

/// Facts about `split_on`: it always has a piece, and its pieces hold no separator.
pub proof fn lemma_split_on(s: Seq<char>, c: char)
    ensures
        split_on(s, c).len() >= 1,
    decreases s.len(),
{
    if s.len() > 0 {
        lemma_split_on(s.drop_last(), c);
    }
}

/// The lines of `s` (see [`lines`]).
pub fn split_lines(s: &Vec<char>) -> (r: Vec<Vec<char>>)
    ensures
        r@.map_values(|l: Vec<char>| l@) == lines(s@),
{
    let ghost sv = s@;
    let mut pieces: Vec<Vec<char>> = Vec::new();
    let mut cur: Vec<char> = Vec::new();
    let mut i: usize = 0;
    while i < s.len()
        invariant
            sv == s@,
            i <= sv.len(),
            pieces@.map_values(|l: Vec<char>| l@).push(cur@) == split_on(sv.take(i as int), '\n'),
        decreases sv.len() - i,
    {
        let ghost before = pieces@.map_values(|l: Vec<char>| l@).push(cur@);
        proof {
            assert(sv.take(i + 1).drop_last() =~= sv.take(i as int));
            assert(sv.take(i + 1).last() == sv[i as int]);
            lemma_split_on(sv.take(i as int), '\n');
        }
        if s[i] == '\n' {
            let done = cur;
            let ghost pv = pieces@.map_values(|l: Vec<char>| l@);
            pieces.push(done);
            cur = Vec::new();
            proof {
                assert(pieces@.map_values(|l: Vec<char>| l@) =~= pv.push(done@));
                assert(pieces@.map_values(|l: Vec<char>| l@).push(cur@) =~= before.push(Seq::<char>::empty()));
            }
        } else {
            cur.push(s[i]);
            proof {
                assert(pieces@.map_values(|l: Vec<char>| l@).push(cur@) =~= before.update(before.len() - 1, before.last().push(sv[i as int])));
            }
        }
        i = i + 1;
    }
    proof { assert(sv.take(sv.len() as int) =~= sv); }
    if cur.len() > 0 {
        let ghost pv = pieces@.map_values(|l: Vec<char>| l@);
        pieces.push(cur);
        proof { assert(pieces@.map_values(|l: Vec<char>| l@) =~= pv.push(cur@)); }
    } else {
        proof {
            let p = split_on(sv, '\n');
            assert(pieces@.map_values(|l: Vec<char>| l@) =~= p.drop_last());
        }
    }
    pieces
}

/// `s[a..b]` as a new vector.
pub fn slice_of(s: &Vec<char>, a: usize, b: usize) -> (r: Vec<char>)
    requires
        a <= b <= s@.len(),
    ensures
        r@ == s@.subrange(a as int, b as int),
{
    let mut r: Vec<char> = Vec::new();
    let mut i = a;
    while i < b
        invariant
            a <= i <= b,
            b <= s@.len(),
            r@ == s@.subrange(a as int, i as int),
        decreases b - i,
    {
        r.push(s[i]);
        proof { assert(r@ =~= s@.subrange(a as int, i + 1)); }
        i = i + 1;
    }
    r
}

/// `s` without leading and trailing whitespace.
pub fn trimmed(s: &Vec<char>) -> (r: Vec<char>)
    ensures
        r@ == trim(s@),
{
    let mut a: usize = 0;
    while a < s.len() && is_whitespace(s[a])
        invariant
            a <= s@.len(),
            lead_end(s@, 0) == lead_end(s@, a as int),
        decreases s@.len() - a,
    {
        a = a + 1;
    }
    let mut b: usize = s.len();
    while b > a && is_whitespace(s[b - 1])
        invariant
            a <= b <= s@.len(),
            a == lead_end(s@, 0),
            trail_end(s@, s@.len() as int, a as int) == trail_end(s@, b as int, a as int),
        decreases b,
    {
        b = b - 1;
    }
    slice_of(s, a, b)
}

/// The index of the first `c` in `s` (see [`index_of`]).
pub fn find_char(s: &Vec<char>, c: char) -> (r: Option<usize>)
    ensures
        match r {
            Some(i) => index_of(s@, c) == Some(i as int) && i < s@.len(),
            None => index_of(s@, c) is None,
        },
{
    let mut i: usize = 0;
    while i < s.len()
        invariant
            i <= s@.len(),
            index_of(s@, c) == index_from(s@, c, i as int),
        decreases s@.len() - i,
    {
        if s[i] == c {
            return Some(i);
        }
        i = i + 1;
    }
    None
}

/// `s` begins with `p`.
pub open spec fn has_prefix(s: Seq<char>, p: Seq<char>) -> bool {
    p.len() <= s.len() && s.subrange(0, p.len() as int) == p
}

/// The first position from `i` on where `p` occurs in `s`, if any.
pub open spec fn find_from(s: Seq<char>, p: Seq<char>, i: int) -> Option<int>
    decreases s.len() + 1 - i,
{
    if 0 <= i && i + p.len() <= s.len() {
        if s.subrange(i, i + p.len()) == p {
            Some(i)
        } else {
            find_from(s, p, i + 1)
        }
    } else {
        None
    }
}

/// Whether `s` begins with `p`.
pub fn starts_with(s: &Vec<char>, p: &str) -> (r: bool)
    ensures
        r == has_prefix(s@, p@),
{
    let pc = chars_of(p);
    if pc.len() > s.len() {
        return false;
    }
    let mut i: usize = 0;
    while i < pc.len()
        invariant
            pc@ == p@,
            pc@.len() <= s@.len(),
            i <= pc@.len(),
            forall|q: int| 0 <= q < i ==> s@[q] == pc@[q],
        decreases pc@.len() - i,
    {
        if s[i] != pc[i] {
            proof { assert(s@.subrange(0, pc@.len() as int)[i as int] != pc@[i as int]); }
            return false;
        }
        i = i + 1;
    }
    proof { assert(s@.subrange(0, pc@.len() as int) =~= pc@); }
    true
}

/// Whether `p` occurs in `s` at position `i`.
fn occurs_at(s: &Vec<char>, pc: &Vec<char>, i: usize) -> (r: bool)
    requires
        i + pc@.len() <= s@.len(),
    ensures
        r == (s@.subrange(i as int, i + pc@.len()) == pc@),
{
    let n = s.len();
    let mut q: usize = 0;
    while q < pc.len()
        invariant
            n == s@.len(),
            i + pc@.len() <= s@.len(),
            q <= pc@.len(),
            forall|k: int| 0 <= k < q ==> s@[i + k] == pc@[k],
        decreases pc@.len() - q,
    {
        if s[i + q] != pc[q] {
            proof { assert(s@.subrange(i as int, i + pc@.len())[q as int] != pc@[q as int]); }
            return false;
        }
        q = q + 1;
    }
    proof { assert(s@.subrange(i as int, i + pc@.len()) =~= pc@); }
    true
}

/// The first position where `p` occurs in `s` (see [`find_from`]).
pub fn find_text(s: &Vec<char>, p: &str) -> (r: Option<usize>)
    ensures
        match r {
            Some(i) => find_from(s@, p@, 0) == Some(i as int) && i + p@.len() <= s@.len(),
            None => find_from(s@, p@, 0) is None,
        },
{
    let pc = chars_of(p);
    if pc.len() > s.len() {
        return None;
    }
    if pc.len() == 0 {
        proof { assert(s@.subrange(0, 0) =~= p@); }
        return Some(0);
    }
    let last = s.len() - pc.len();
    let mut i: usize = 0;
    while i <= last
        invariant
            pc@ == p@,
            pc@.len() <= s@.len(),
            last == s@.len() - pc@.len(),
            last < s@.len(),
            s@.len() <= usize::MAX,
            pc@.len() > 0,
            i <= last + 1,
            find_from(s@, p@, 0) == find_from(s@, p@, i as int),
        decreases last + 1 - i,
    {
        if occurs_at(s, &pc, i) {
            return Some(i);
        }
        i = i + 1;
    }
    None
}

/// The pieces of `s` between commas, each trimmed.
pub open spec fn comma_items(s: Seq<char>) -> Seq<Seq<char>> {
    split_on(s, ',').map_values(|p: Seq<char>| trim(p))
}

/// The pieces of `s` between occurrences of `c`.
pub fn split_char(s: &Vec<char>, c: char) -> (r: Vec<Vec<char>>)
    ensures
        r@.map_values(|l: Vec<char>| l@) == split_on(s@, c),
{
    let ghost sv = s@;
    let mut pieces: Vec<Vec<char>> = Vec::new();
    let mut cur: Vec<char> = Vec::new();
    let mut i: usize = 0;
    while i < s.len()
        invariant
            sv == s@,
            i <= sv.len(),
            pieces@.map_values(|l: Vec<char>| l@).push(cur@) == split_on(sv.take(i as int), c),
        decreases sv.len() - i,
    {
        let ghost before = pieces@.map_values(|l: Vec<char>| l@).push(cur@);
        proof {
            assert(sv.take(i + 1).drop_last() =~= sv.take(i as int));
            assert(sv.take(i + 1).last() == sv[i as int]);
            lemma_split_on(sv.take(i as int), c);
        }
        if s[i] == c {
            let done = cur;
            let ghost pv = pieces@.map_values(|l: Vec<char>| l@);
            pieces.push(done);
            cur = Vec::new();
            proof {
                assert(pieces@.map_values(|l: Vec<char>| l@) =~= pv.push(done@));
                assert(pieces@.map_values(|l: Vec<char>| l@).push(cur@) =~= before.push(Seq::<char>::empty()));
            }
        } else {
            cur.push(s[i]);
            proof {
                assert(pieces@.map_values(|l: Vec<char>| l@).push(cur@) =~= before.update(before.len() - 1, before.last().push(sv[i as int])));
            }
        }
        i = i + 1;
    }
    proof { assert(sv.take(sv.len() as int) =~= sv); }
    let ghost pv = pieces@.map_values(|l: Vec<char>| l@);
    pieces.push(cur);
    proof { assert(pieces@.map_values(|l: Vec<char>| l@) =~= pv.push(cur@)); }
    pieces
}

/// Whether two character vectors are equal.
pub fn same_chars(a: &Vec<char>, b: &Vec<char>) -> (r: bool)
    ensures
        r == (a@ == b@),
{
    if a.len() != b.len() {
        return false;
    }
    let mut i: usize = 0;
    while i < a.len()
        invariant
            a@.len() == b@.len(),
            i <= a@.len(),
            forall|q: int| 0 <= q < i ==> a@[q] == b@[q],
        decreases a@.len() - i,
    {
        if a[i] != b[i] {
            return false;
        }
        i = i + 1;
    }
    assert(a@ =~= b@);
    true
}

/// Whether two strings are equal.
pub fn same_text(a: &str, b: &str) -> (r: bool)
    ensures
        r == (a@ == b@),
{
    let x = chars_of(a);
    let y = chars_of(b);
    same_chars(&x, &y)
}

/// Where one string falls against another in lexicographic order.
#[derive(Debug, Clone, Copy, PartialEq, Eq)]
pub enum TextOrder {
    Before,
    Same,
    After,
}

/// The lexicographic order of `a` against `b`, comparing characters by their code points
/// from position `i` on; a proper prefix comes first.
pub open spec fn text_order_from(a: Seq<char>, b: Seq<char>, i: int) -> TextOrder
    decreases a.len() - i,
{
    if i >= a.len() {
        if i >= b.len() { TextOrder::Same } else { TextOrder::Before }
    } else if i >= b.len() {
        TextOrder::After
    } else if (a[i] as u32) < (b[i] as u32) {
        TextOrder::Before
    } else if (a[i] as u32) > (b[i] as u32) {
        TextOrder::After
    } else {
        text_order_from(a, b, i + 1)
    }
}

/// The lexicographic order of `a` against `b` (that of `str`'s comparison: UTF-8 bytes
/// order as code points do).
pub open spec fn text_order(a: Seq<char>, b: Seq<char>) -> TextOrder {
    text_order_from(a, b, 0)
}

/// The lexicographic order of `a` against `b`.
pub fn compare_text(a: &str, b: &str) -> (r: TextOrder)
    ensures
        r == text_order(a@, b@),
{
    let x = chars_of(a);
    let y = chars_of(b);
    let mut i: usize = 0;
    while i < x.len() && i < y.len()
        invariant
            x@ == a@,
            y@ == b@,
            i <= x@.len(),
            i <= y@.len(),
            text_order(a@, b@) == text_order_from(a@, b@, i as int),
        decreases x@.len() - i,
    {
        let p: u32 = x[i] as u32;
        let q: u32 = y[i] as u32;
        if p < q {
            return TextOrder::Before;
        }
        if p > q {
            return TextOrder::After;
        }
        i = i + 1;
    }
    if i < x.len() {
        TextOrder::After
    } else if i < y.len() {
        TextOrder::Before
    } else {
        TextOrder::Same
    }
}

} // verus!
