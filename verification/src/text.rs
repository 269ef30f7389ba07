//! Character-level helpers shared by the parsers: whitespace trimming,
//! prefix tests, first-occurrence splitting, and building `String`s.
use vstd::prelude::*;

verus! {

broadcast use vstd::string::axiom_spec_iter;

/// `char::is_whitespace`: the Unicode `White_Space` property.
pub open spec fn is_ws(c: char) -> bool {
    let u = c as u32;
    ||| u == 0x20
    ||| 0x09 <= u <= 0x0d
    ||| u == 0x85
    ||| u == 0xa0
    ||| u == 0x1680
    ||| 0x2000 <= u <= 0x200a
    ||| u == 0x2028
    ||| u == 0x2029
    ||| u == 0x202f
    ||| u == 0x205f
    ||| u == 0x3000
}

/// `s` with its leading whitespace removed.
pub open spec fn trim_start(s: Seq<char>) -> Seq<char>
    decreases s.len(),
{
    if s.len() > 0 && is_ws(s[0]) {
        trim_start(s.drop_first())
    } else {
        s
    }
}

/// `s` with its trailing whitespace removed.
pub open spec fn trim_end(s: Seq<char>) -> Seq<char>
    decreases s.len(),
{
    if s.len() > 0 && is_ws(s.last()) {
        trim_end(s.drop_last())
    } else {
        s
    }
}

/// `str::trim`: whitespace removed at both ends.
pub open spec fn trim(s: Seq<char>) -> Seq<char> {
    trim_end(trim_start(s))
}

/// `i` is the position of the first `c` in `s`.
pub open spec fn is_first_index(s: Seq<char>, c: char, i: int) -> bool {
    &&& 0 <= i < s.len()
    &&& s[i] == c
    &&& forall|j: int| 0 <= j < i ==> s[j] != c
}

/// `str::split_once(c)`: the parts before and after the first `c`.
pub open spec fn split_at_first(s: Seq<char>, c: char) -> Option<(Seq<char>, Seq<char>)> {
    if exists|i: int| is_first_index(s, c, i) {
        let i = choose|i: int| is_first_index(s, c, i);
        Some((s.take(i), s.skip(i + 1)))
    } else {
        None
    }
}

/// There is at most one first position.
pub proof fn lemma_first_index_unique(s: Seq<char>, c: char, i: int, k: int)
    requires
        is_first_index(s, c, i),
        is_first_index(s, c, k),
    ensures
        i == k,
{
    if i < k {
        assert(s[i] != c);
    } else if k < i {
        assert(s[k] != c);
    }
}

/// Whenever `prefix` (free of `c`) is followed by `c`, the split happens there.
pub proof fn lemma_split_at_known(prefix: Seq<char>, c: char, rest: Seq<char>)
    requires
        !prefix.contains(c),
    ensures
        split_at_first(prefix + seq![c] + rest, c) == Some((prefix, rest)),
{
    let s = prefix + seq![c] + rest;
    let i = prefix.len() as int;
    assert forall|j: int| 0 <= j < i implies s[j] != c by {
        assert(s[j] == prefix[j]);
    }
    assert(is_first_index(s, c, i));
    let k = choose|k: int| is_first_index(s, c, k);
    lemma_first_index_unique(s, c, i, k);
    assert(s.take(i) =~= prefix);
    assert(s.skip(i + 1) =~= rest);
}

/// Splitting fails exactly when `c` does not occur.
pub proof fn lemma_split_none(s: Seq<char>, c: char)
    requires
        !s.contains(c),
    ensures
        split_at_first(s, c) is None,
{
    if exists|i: int| is_first_index(s, c, i) {
        let i = choose|i: int| is_first_index(s, c, i);
        assert(s.contains(c));
    }
}

proof fn lemma_trim_start_shape(s: Seq<char>)
    ensures
        trim_start(s).len() == 0 || !is_ws(trim_start(s)[0]),
    decreases s.len(),
{
    if s.len() > 0 && is_ws(s[0]) {
        lemma_trim_start_shape(s.drop_first());
    }
}

proof fn lemma_trim_end_shape(s: Seq<char>)
    ensures
        trim_end(s).len() <= s.len(),
        trim_end(s) == s.take(trim_end(s).len() as int),
        trim_end(s).len() == 0 || !is_ws(trim_end(s).last()),
    decreases s.len(),
{
    if s.len() > 0 && is_ws(s.last()) {
        lemma_trim_end_shape(s.drop_last());
        assert(s.drop_last().take(trim_end(s).len() as int) =~= s.take(trim_end(s).len() as int));
    } else {
        assert(s.take(s.len() as int) =~= s);
    }
}

/// Trimming twice is trimming once; a trimmed sequence neither starts nor
/// ends with whitespace.
pub proof fn lemma_trim_idempotent(s: Seq<char>)
    ensures
        trim(trim(s)) == trim(s),
        trim(s).len() > 0 ==> !is_ws(trim(s)[0]) && !is_ws(trim(s).last()),
{
    let a = trim_start(s);
    lemma_trim_start_shape(s);
    lemma_trim_end_shape(a);
    let b = trim_end(a);
    if b.len() > 0 {
        assert(b[0] == a[0]);
        assert(trim_start(b) == b);
        assert(trim_end(b) == b);
    } else {
        assert(trim_start(b) == b);
        assert(trim_end(b) == b);
    }
}

/// Exact test of `char::is_whitespace`.
pub fn is_whitespace(c: char) -> (res: bool)
    ensures
        res == is_ws(c),
{
    let u = c as u32;
    u == 0x20 || (0x09 <= u && u <= 0x0d) || u == 0x85 || u == 0xa0 || u == 0x1680 || (0x2000
        <= u && u <= 0x200a) || u == 0x2028 || u == 0x2029 || u == 0x202f || u == 0x205f || u
        == 0x3000
}

/// The characters of a string slice, in order.
pub fn chars_of(s: &str) -> (res: Vec<char>)
    ensures
        res@ == s@,
{
    let mut out: Vec<char> = Vec::new();
    for c in it: s.chars()
        invariant
            out@ == it.seq().take(it.index() as int),
            it.seq() == s@,
    {
        out.push(c);
    }
    out
}

/// Appends one character (`String::push`).
#[verifier::external_body]
pub(crate) fn push_char(s: &mut String, c: char)
    ensures
        final(s)@ == old(s)@.push(c),
{
    s.push(c);
}

/// A `String` holding `v[lo..hi]`.
pub fn string_from_range(v: &Vec<char>, lo: usize, hi: usize) -> (res: String)
    requires
        lo <= hi <= v.len(),
    ensures
        res@ == v@.subrange(lo as int, hi as int),
{
    let mut out = String::new();
    let mut i = lo;
    while i < hi
        invariant
            lo <= i <= hi <= v.len(),
            out@ == v@.subrange(lo as int, i as int),
        decreases hi - i,
    {
        push_char(&mut out, v[i]);
        assert(v@.subrange(lo as int, i + 1) =~= v@.subrange(lo as int, i as int).push(v@[i as int]));
        i = i + 1;
    }
    out
}

/// Bounds of `trim(v[lo..hi])` inside `v`.
pub fn trim_range(v: &Vec<char>, lo: usize, hi: usize) -> (res: (usize, usize))
    requires
        lo <= hi <= v.len(),
    ensures
        lo <= res.0 <= res.1 <= hi,
        v@.subrange(res.0 as int, res.1 as int) == trim(v@.subrange(lo as int, hi as int)),
{
    let mut a = lo;
    while a < hi && is_whitespace(v[a])
        invariant
            lo <= a <= hi <= v.len(),
            trim_start(v@.subrange(lo as int, hi as int)) == trim_start(
                v@.subrange(a as int, hi as int),
            ),
        decreases hi - a,
    {
        assert(v@.subrange(a as int, hi as int).drop_first() =~= v@.subrange(a + 1, hi as int));
        a = a + 1;
    }
    let mut b = hi;
    while b > a && is_whitespace(v[b - 1])
        invariant
            lo <= a <= b <= hi <= v.len(),
            trim_end(v@.subrange(a as int, hi as int)) == trim_end(
                v@.subrange(a as int, b as int),
            ),
        decreases b - a,
    {
        assert(v@.subrange(a as int, b as int).drop_last() =~= v@.subrange(a as int, b - 1));
        b = b - 1;
    }
    (a, b)
}

/// Whether `pat` is a prefix of `v[lo..hi]`.
pub fn has_prefix(v: &Vec<char>, lo: usize, hi: usize, pat: &[char]) -> (res: bool)
    requires
        lo <= hi <= v.len(),
    ensures
        res == pat@.is_prefix_of(v@.subrange(lo as int, hi as int)),
{
    if pat.len() > hi - lo {
        return false;
    }
    let mut i: usize = 0;
    while i < pat.len()
        invariant
            lo <= hi <= v.len(),
            pat@.len() <= hi - lo,
            0 <= i <= pat@.len(),
            forall|j: int| 0 <= j < i ==> pat@[j] == v@[lo + j],
        decreases pat.len() - i,
    {
        if pat[i] != v[lo + i] {
            assert(pat@[i as int] != v@.subrange(lo as int, hi as int)[i as int]);
            return false;
        }
        i = i + 1;
    }
    assert(pat@ =~= v@.subrange(lo as int, hi as int).subrange(0, pat@.len() as int));
    true
}

/// The position of the first `c` in `v[lo..hi]`, as `split_at_first` sees it.
pub fn find_char(v: &Vec<char>, lo: usize, hi: usize, c: char) -> (res: Option<usize>)
    requires
        lo <= hi <= v.len(),
    ensures
        match res {
            Some(k) => {
                &&& lo <= k < hi
                &&& v@[k as int] == c
                &&& split_at_first(v@.subrange(lo as int, hi as int), c) == Some(
                    (v@.subrange(lo as int, k as int), v@.subrange(k + 1, hi as int)),
                )
            },
            None => {
                &&& !v@.subrange(lo as int, hi as int).contains(c)
                &&& split_at_first(v@.subrange(lo as int, hi as int), c) is None
            },
        },
{
    let ghost s = v@.subrange(lo as int, hi as int);
    let mut k = lo;
    while k < hi
        invariant
            lo <= k <= hi <= v.len(),
            s == v@.subrange(lo as int, hi as int),
            forall|j: int| lo <= j < k ==> v@[j] != c,
        decreases hi - k,
    {
        if v[k] == c {
            proof {
                let i = k - lo;
                assert(is_first_index(s, c, i));
                let i2 = choose|i2: int| is_first_index(s, c, i2);
                lemma_first_index_unique(s, c, i, i2);
                assert(s.take(i) =~= v@.subrange(lo as int, k as int));
                assert(s.skip(i + 1) =~= v@.subrange(k + 1, hi as int));
            }
            return Some(k);
        }
        k = k + 1;
    }
    proof {
        assert forall|j: int| 0 <= j < s.len() implies s[j] != c by {
            assert(s[j] == v@[lo + j]);
        }
        lemma_split_none(s, c);
    }
    None
}

/// Whether `c` occurs in `v[lo..hi]`.
pub fn contains_char(v: &Vec<char>, lo: usize, hi: usize, c: char) -> (res: bool)
    requires
        lo <= hi <= v.len(),
    ensures
        res == v@.subrange(lo as int, hi as int).contains(c),
{
    match find_char(v, lo, hi, c) {
        Some(k) => {
            assert(v@.subrange(lo as int, hi as int)[k - lo] == c);
            true
        },
        None => false,
    }
}

/// Lexicographic order of character sequences by code point, which is the
/// order `str`'s `Ord` gives (UTF-8 preserves code-point order).
pub open spec fn chars_lt(a: Seq<char>, b: Seq<char>) -> bool
    decreases a.len(),
{
    if a.len() == 0 {
        b.len() > 0
    } else if b.len() == 0 {
        false
    } else if a[0] != b[0] {
        (a[0] as int) < (b[0] as int)
    } else {
        chars_lt(a.drop_first(), b.drop_first())
    }
}

pub proof fn lemma_chars_lt_irreflexive(a: Seq<char>)
    ensures
        !chars_lt(a, a),
    decreases a.len(),
{
    if a.len() > 0 {
        lemma_chars_lt_irreflexive(a.drop_first());
    }
}

pub proof fn lemma_chars_lt_transitive(a: Seq<char>, b: Seq<char>, c: Seq<char>)
    requires
        chars_lt(a, b),
        chars_lt(b, c),
    ensures
        chars_lt(a, c),
    decreases a.len(),
{
    if a.len() > 0 && b.len() > 0 && c.len() > 0 && a[0] == b[0] && b[0] == c[0] {
        lemma_chars_lt_transitive(a.drop_first(), b.drop_first(), c.drop_first());
    }
}

pub proof fn lemma_chars_lt_total(a: Seq<char>, b: Seq<char>)
    ensures
        chars_lt(a, b) || a == b || chars_lt(b, a),
    decreases a.len(),
{
    if a.len() > 0 && b.len() > 0 && a[0] == b[0] {
        lemma_chars_lt_total(a.drop_first(), b.drop_first());
        if a.drop_first() == b.drop_first() {
            assert(a =~= seq![a[0]] + a.drop_first());
            assert(b =~= seq![b[0]] + b.drop_first());
        }
    } else if a.len() == 0 && b.len() == 0 {
        assert(a =~= b);
    } else if a.len() > 0 && b.len() > 0 {
        assert(a[0] as int != b[0] as int);
    }
}

/// `a < b` for string slices.
pub fn str_lt(a: &str, b: &str) -> (res: bool)
    ensures
        res == chars_lt(a@, b@),
{
    let x = chars_of(a);
    let y = chars_of(b);
    let mut i: usize = 0;
    assert(a@.skip(0) =~= a@);
    assert(b@.skip(0) =~= b@);
    while i < x.len() && i < y.len() && x[i] == y[i]
        invariant
            x@ == a@,
            y@ == b@,
            0 <= i <= x.len(),
            i <= y.len(),
            chars_lt(a@, b@) == chars_lt(a@.skip(i as int), b@.skip(i as int)),
        decreases x.len() - i,
    {
        assert(a@.skip(i as int).drop_first() =~= a@.skip(i + 1));
        assert(b@.skip(i as int).drop_first() =~= b@.skip(i + 1));
        i = i + 1;
    }
    if i == x.len() {
        i < y.len()
    } else if i == y.len() {
        false
    } else {
        x[i] < y[i]
    }
}

/// Whether `s` consists of exactly the characters of `pat`.
pub fn str_is(s: &str, pat: &[char]) -> (res: bool)
    ensures
        res == (s@ == pat@),
{
    let v = chars_of(s);
    if v.len() != pat.len() {
        return false;
    }
    let r = has_prefix(&v, 0, v.len(), pat);
    assert(v@.subrange(0, v@.len() as int) =~= v@);
    proof {
        if r {
            assert(pat@ =~= v@.subrange(0, pat@.len() as int));
        }
    }
    r
}

} // verus!
