//! Character-level helpers: whitespace, trimming, searching and splitting.
use vstd::prelude::*;

verus! {

broadcast use vstd::string::group_string_axioms;

/// Unicode `White_Space`, the set that `char::is_whitespace` and `str::trim` use.
pub open spec fn is_space(c: char) -> bool {
    let n = c as u32;
    (9 <= n <= 13) || n == 32 || n == 0x85 || n == 0xA0 || n == 0x1680 || (0x2000 <= n <= 0x200A)
        || n == 0x2028 || n == 0x2029 || n == 0x202F || n == 0x205F || n == 0x3000
}

/// Index of the first non-space character at or after `i`, or the length.
pub open spec fn start_from(s: Seq<char>, i: int) -> int
    decreases s.len() - i,
{
    if i < 0 || i >= s.len() {
        s.len() as int
    } else if is_space(s[i]) {
        start_from(s, i + 1)
    } else {
        i
    }
}

/// One past the last non-space character before `j`, but no lower than `lo`.
pub open spec fn end_before(s: Seq<char>, j: int, lo: int) -> int
    decreases j,
{
    if j <= lo || j <= 0 || j > s.len() {
        lo
    } else if is_space(s[j - 1]) {
        end_before(s, j - 1, lo)
    } else {
        j
    }
}

/// `s` without its leading and trailing whitespace.
pub open spec fn trim_seq(s: Seq<char>) -> Seq<char> {
    let lo = start_from(s, 0);
    s.subrange(lo, end_before(s, s.len() as int, lo))
}

/// Neither the first nor the last character is whitespace.
pub open spec fn is_trimmed(s: Seq<char>) -> bool {
    s.len() == 0 || (!is_space(s[0]) && !is_space(s[s.len() - 1]))
}

pub fn is_space_char(c: char) -> (r: bool)
    ensures
        r == is_space(c),
{
    let n = c as u32;
    (9 <= n && n <= 13) || n == 32 || n == 0x85 || n == 0xA0 || n == 0x1680 || (0x2000 <= n && n
        <= 0x200A) || n == 0x2028 || n == 0x2029 || n == 0x202F || n == 0x205F || n == 0x3000
}

/// The characters of `s`, in order.
pub fn chars_of(s: &str) -> (r: Vec<char>)
    ensures
        r@ == s@,
{
    let mut out: Vec<char> = Vec::new();
    for c in it: s.chars()
        invariant
            out@ == it.seq().take(it.index() as int),
            it.seq() == s@,
    {
        out.push(c);
    }
    out
}

/// Index of the first `c` at or after `i`, or the length when there is none.
pub open spec fn find_from(s: Seq<char>, c: char, i: int) -> int
    decreases s.len() - i,
{
    if i < 0 || i >= s.len() {
        s.len() as int
    } else if s[i] == c {
        i
    } else {
        find_from(s, c, i + 1)
    }
}

/// Index of the last `c` before `j`, or -1 when there is none.
pub open spec fn rfind_before(s: Seq<char>, c: char, j: int) -> int
    decreases j,
{
    if j <= 0 || j > s.len() {
        -1
    } else if s[j - 1] == c {
        j - 1
    } else {
        rfind_before(s, c, j - 1)
    }
}

/// The pieces of `s` between occurrences of `sep`; there is always at least one.
pub open spec fn split_by(s: Seq<char>, sep: char) -> Seq<Seq<char>>
    decreases s.len(),
{
    if s.len() == 0 {
        seq![Seq::<char>::empty()]
    } else {
        let f = split_by(s.drop_last(), sep);
        if s.last() == sep {
            f.push(Seq::<char>::empty())
        } else {
            f.update(f.len() - 1, f.last().push(s.last()))
        }
    }
}

pub proof fn lemma_start_from(s: Seq<char>, i: int)
    requires
        0 <= i <= s.len(),
    ensures
        i <= start_from(s, i) <= s.len(),
        start_from(s, i) < s.len() ==> !is_space(s[start_from(s, i)]),
        forall|k: int| i <= k < start_from(s, i) ==> is_space(#[trigger] s[k]),
    decreases s.len() - i,
{
    if i < s.len() && is_space(s[i]) {
        lemma_start_from(s, i + 1);
    }
}

pub proof fn lemma_end_before(s: Seq<char>, j: int, lo: int)
    requires
        0 <= lo <= j <= s.len(),
    ensures
        lo <= end_before(s, j, lo) <= j,
        end_before(s, j, lo) > lo ==> !is_space(s[end_before(s, j, lo) - 1]),
        forall|k: int| end_before(s, j, lo) <= k < j ==> is_space(#[trigger] s[k]),
    decreases j,
{
    if j > lo && is_space(s[j - 1]) {
        lemma_end_before(s, j - 1, lo);
    }
}

/// Trimming leaves no whitespace at either end.
pub proof fn lemma_trim_is_trimmed(s: Seq<char>)
    ensures
        is_trimmed(trim_seq(s)),
{
    lemma_start_from(s, 0);
    let lo = start_from(s, 0);
    lemma_end_before(s, s.len() as int, lo);
}

/// Where `s[lo..hi]` is trimmed and only whitespace surrounds it, trimming `s` yields it.
pub proof fn lemma_trim_known(s: Seq<char>, lo: int, hi: int)
    requires
        0 <= lo <= hi <= s.len(),
        forall|k: int| 0 <= k < lo ==> is_space(#[trigger] s[k]),
        forall|k: int| hi <= k < s.len() ==> is_space(#[trigger] s[k]),
        lo < hi ==> !is_space(s[lo]) && !is_space(s[hi - 1]),
    ensures
        trim_seq(s) == s.subrange(lo, hi),
{
    lemma_start_from(s, 0);
    let st = start_from(s, 0);
    if lo < hi {
        assert(st == lo);
        lemma_end_before(s, s.len() as int, st);
        let en = end_before(s, s.len() as int, st);
        assert(en == hi);
    } else {
        assert(st == s.len());
        assert(trim_seq(s) =~= s.subrange(lo, hi));
    }
}

/// A trimmed sequence is its own trim.
pub proof fn lemma_trimmed_fixed(s: Seq<char>)
    requires
        is_trimmed(s),
    ensures
        trim_seq(s) == s,
{
    lemma_trim_known(s, 0, s.len() as int);
    assert(s.subrange(0, s.len() as int) =~= s);
}

pub proof fn lemma_find_from(s: Seq<char>, c: char, i: int)
    requires
        0 <= i <= s.len(),
    ensures
        i <= find_from(s, c, i) <= s.len(),
        find_from(s, c, i) < s.len() ==> s[find_from(s, c, i)] == c,
        forall|k: int| i <= k < find_from(s, c, i) ==> #[trigger] s[k] != c,
    decreases s.len() - i,
{
    if i < s.len() && s[i] != c {
        lemma_find_from(s, c, i + 1);
    }
}

pub proof fn lemma_rfind_before(s: Seq<char>, c: char, j: int)
    requires
        0 <= j <= s.len(),
    ensures
        -1 <= rfind_before(s, c, j) < j,
        rfind_before(s, c, j) >= 0 ==> s[rfind_before(s, c, j)] == c,
        forall|k: int| rfind_before(s, c, j) < k < j ==> #[trigger] s[k] != c,
    decreases j,
{
    if j > 0 && s[j - 1] != c {
        lemma_rfind_before(s, c, j - 1);
    }
}

/// The last `c` is the one at `k` when none follows it.
pub proof fn lemma_rfind_at(s: Seq<char>, c: char, k: int)
    requires
        0 <= k < s.len(),
        s[k] == c,
        forall|m: int| k < m < s.len() ==> #[trigger] s[m] != c,
    ensures
        rfind_before(s, c, s.len() as int) == k,
{
    lemma_rfind_before(s, c, s.len() as int);
}

pub proof fn lemma_split_nonempty(s: Seq<char>, sep: char)
    ensures
        split_by(s, sep).len() >= 1,
    decreases s.len(),
{
    if s.len() > 0 {
        lemma_split_nonempty(s.drop_last(), sep);
    }
}

/// Appending text free of `sep` extends the last piece.
pub proof fn lemma_split_append(p: Seq<char>, w: Seq<char>, sep: char)
    requires
        !w.contains(sep),
    ensures
        split_by(p + w, sep) == split_by(p, sep).drop_last().push(split_by(p, sep).last() + w),
    decreases w.len(),
{
    lemma_split_nonempty(p, sep);
    let f = split_by(p, sep);
    if w.len() == 0 {
        assert(p + w =~= p);
        assert(f.drop_last().push(f.last() + w) =~= f);
    } else {
        let w0 = w.drop_last();
        assert(!w0.contains(sep)) by {
            if w0.contains(sep) {
                let k = choose|k: int| 0 <= k < w0.len() && w0[k] == sep;
                assert(w[k] == sep);
            }
        }
        lemma_split_append(p, w0, sep);
        assert((p + w).drop_last() =~= p + w0);
        assert((p + w).last() == w.last());
        assert(w.last() != sep) by {
            assert(w[w.len() - 1] == w.last());
        }
        assert((f.last() + w0).push(w.last()) =~= f.last() + w);
        let g = f.drop_last().push(f.last() + w0);
        assert(g.update(g.len() - 1, g.last().push(w.last())) =~= f.drop_last().push(
            f.last() + w,
        ));
    }
}

/// Trims `v[a..b]`: the result is the range of what remains.
pub fn trim_range(v: &Vec<char>, a: usize, b: usize) -> (r: (usize, usize))
    requires
        a <= b <= v@.len(),
    ensures
        a <= r.0 <= r.1 <= b,
        v@.subrange(r.0 as int, r.1 as int) == trim_seq(v@.subrange(a as int, b as int)),
{
    let ghost sub = v@.subrange(a as int, b as int);
    let mut i: usize = a;
    while i < b && is_space_char(v[i])
        invariant
            a <= i <= b <= v@.len(),
            sub == v@.subrange(a as int, b as int),
            start_from(sub, (i - a) as int) == start_from(sub, 0),
        decreases b - i,
    {
        assert(sub[(i - a) as int] == v@[i as int]);
        i = i + 1;
    }
    let mut j: usize = b;
    while j > i && is_space_char(v[j - 1])
        invariant
            a <= i <= j <= b <= v@.len(),
            sub == v@.subrange(a as int, b as int),
            end_before(sub, (j - a) as int, (i - a) as int) == end_before(
                sub,
                (b - a) as int,
                (i - a) as int,
            ),
        decreases j,
    {
        assert(sub[(j - 1 - a) as int] == v@[j - 1]);
        j = j - 1;
    }
    assert(v@.subrange(i as int, j as int) =~= sub.subrange((i - a) as int, (j - a) as int));
    (i, j)
}

/// The first `c` in `v[a..b]`, or `b` when there is none.
pub fn find_in(v: &Vec<char>, c: char, a: usize, b: usize) -> (r: usize)
    requires
        a <= b <= v@.len(),
    ensures
        a <= r <= b,
        r as int - a == find_from(v@.subrange(a as int, b as int), c, 0),
{
    let ghost sub = v@.subrange(a as int, b as int);
    let mut i: usize = a;
    while i < b && v[i] != c
        invariant
            a <= i <= b <= v@.len(),
            sub == v@.subrange(a as int, b as int),
            find_from(sub, c, (i - a) as int) == find_from(sub, c, 0),
        decreases b - i,
    {
        assert(sub[(i - a) as int] == v@[i as int]);
        i = i + 1;
    }
    proof {
        lemma_find_from(sub, c, 0);
    }
    i
}

/// The last `c` in `v[a..b]`, if any.
pub fn rfind_in(v: &Vec<char>, c: char, a: usize, b: usize) -> (r: Option<usize>)
    requires
        a <= b <= v@.len(),
    ensures
        ({
            let sub = v@.subrange(a as int, b as int);
            match r {
                Some(k) => a <= k < b && k - a == rfind_before(sub, c, sub.len() as int),
                None => rfind_before(sub, c, sub.len() as int) == -1,
            }
        }),
{
    let ghost sub = v@.subrange(a as int, b as int);
    let mut j: usize = b;
    while j > a && v[j - 1] != c
        invariant
            a <= j <= b <= v@.len(),
            sub == v@.subrange(a as int, b as int),
            rfind_before(sub, c, j - a) == rfind_before(sub, c, sub.len() as int),
        decreases j,
    {
        assert(sub[j - 1 - a] == v@[j - 1]);
        j = j - 1;
    }
    if j == a {
        None
    } else {
        assert(sub[j - 1 - a] == v@[j - 1]);
        Some(j - 1)
    }
}

} // verus!
