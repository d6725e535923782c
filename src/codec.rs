//! The line format: `<text> | id:<id>`, with an optional metadata segment after
//! the last `|` holding comma-separated `label:data` pairs.
use vstd::prelude::*;
use crate::fingerprint::{generate_id, id_of};
use crate::task::{lemma_hex_id_valid, valid_id, Task};
use crate::text::{
    chars_of, find_from, find_in, is_space, is_trimmed, lemma_find_from, lemma_rfind_at,
    lemma_rfind_before, lemma_split_append, lemma_trim_is_trimmed, lemma_trim_known,
    lemma_trimmed_fixed, rfind_before, rfind_in,
    split_by, trim_range, trim_seq,
};

verus! {

/// The label `id`.
pub open spec fn id_label() -> Seq<char> {
    seq!['i', 'd']
}

/// Label and data of a metadata fragment, split at its first `:` and each trimmed;
/// nothing when the fragment holds no `:`.
pub open spec fn entry_of(frag: Seq<char>) -> Option<(Seq<char>, Seq<char>)> {
    let p = find_from(frag, ':', 0);
    if p < frag.len() {
        Some((trim_seq(frag.subrange(0, p)), trim_seq(frag.subrange(p + 1, frag.len() as int))))
    } else {
        None
    }
}

/// The data of the last fragment labelled `id`: later labels overwrite earlier ones.
pub open spec fn last_id(frags: Seq<Seq<char>>) -> Option<Seq<char>>
    decreases frags.len(),
{
    if frags.len() == 0 {
        None
    } else {
        match entry_of(frags.last()) {
            Some(e) => if e.0 == id_label() {
                Some(e.1)
            } else {
                last_id(frags.drop_last())
            },
            None => last_id(frags.drop_last()),
        }
    }
}

/// The id that a metadata segment (what follows the last `|`) names, if any.
pub open spec fn meta_id(seg: Seq<char>) -> Option<Seq<char>> {
    last_id(split_by(seg, ','))
}

/// What a line decodes to, as `(text, id)`: nothing for a blank or comment line.
pub open spec fn decode_spec(line: Seq<char>) -> Option<(Seq<char>, Seq<char>)> {
    let t = trim_seq(line);
    if t.len() == 0 || t[0] == '#' {
        None
    } else {
        let k = rfind_before(t, '|', t.len() as int);
        if k < 0 {
            Some((t, id_of(t)))
        } else {
            let text = trim_seq(t.subrange(0, k));
            match meta_id(t.subrange(k + 1, t.len() as int)) {
                Some(d) => if d.len() > 0 {
                    Some((text, d))
                } else {
                    Some((text, id_of(text)))
                },
                None => Some((text, id_of(text))),
            }
        }
    }
}

/// The data of an `id` entry is trimmed.
pub proof fn lemma_last_id_trimmed(frags: Seq<Seq<char>>)
    ensures
        last_id(frags) matches Some(d) ==> is_trimmed(d),
    decreases frags.len(),
{
    if frags.len() > 0 {
        let f = frags.last();
        let p = find_from(f, ':', 0);
        lemma_trim_is_trimmed(f.subrange(p + 1, f.len() as int));
        lemma_last_id_trimmed(frags.drop_last());
    }
}

/// The separator between text and metadata, with the `id` label: ` | id:`.
pub open spec fn id_sep() -> Seq<char> {
    seq![' ', '|', ' ', 'i', 'd', ':']
}

/// The line that holds a record, without its terminator.
pub open spec fn body_of(text: Seq<char>, id: Seq<char>) -> Seq<char> {
    text + id_sep() + id
}

/// The line that holds a record, with its terminator.
pub open spec fn line_of(text: Seq<char>, id: Seq<char>) -> Seq<char> {
    body_of(text, id).push('\n')
}

/// The line that holds `task`, terminator included.
pub fn encode_line(task: &Task) -> (r: String)
    ensures
        r@ == line_of(task.text@, task.id@),
{
    let mut r = task.text.clone();
    r.append(" | id:");
    r.append(task.id.as_str());
    r.append("\n");
    proof {
        reveal_strlit(" | id:");
        reveal_strlit("\n");
        assert(r@ =~= line_of(task.text@, task.id@));
    }
    r
}

/// Decoding `s`, a record's line body followed by whitespace only, gives the record back.
proof fn lemma_decode_body(s: Seq<char>, text: Seq<char>, id: Seq<char>)
    requires
        is_trimmed(text),
        valid_id(id),
        !text.contains('|'),
        !(text.len() > 0 && text[0] == '#'),
        s.len() >= body_of(text, id).len(),
        s.subrange(0, body_of(text, id).len() as int) == body_of(text, id),
        forall|k: int| body_of(text, id).len() <= k < s.len() ==> is_space(#[trigger] s[k]),
    ensures
        decode_spec(s) == Some((text, id)),
{
    let b = body_of(text, id);
    let n = text.len() as int;
    let sep = id_sep();
    assert(sep.len() == 6);
    assert(b.len() == n + 6 + id.len());
    assert forall|k: int| 0 <= k < b.len() implies #[trigger] s[k] == b[k] by {
        assert(s.subrange(0, b.len() as int)[k] == s[k]);
    }
    assert(forall|k: int| 0 <= k < n ==> #[trigger] b[k] == text[k]);
    assert(forall|k: int| 0 <= k < 6 ==> #[trigger] b[n + k] == sep[k]);
    assert(forall|k: int| 0 <= k < id.len() ==> #[trigger] b[n + 6 + k] == id[k]);
    let lo: int = if n > 0 {
        0
    } else {
        1
    };
    let hi = b.len() as int;
    assert(s[hi - 1] == id[id.len() - 1]);
    if n > 0 {
        assert(s[0] == text[0]);
    } else {
        assert(s[0] == ' ' && s[1] == '|');
    }
    lemma_trim_known(s, lo, hi);
    let t = trim_seq(s);
    assert(t == s.subrange(lo, hi));
    assert(t.len() > 0 && t[0] != '#');
    let k = n + 1 - lo;
    assert(t[k] == '|');
    assert forall|m: int| k < m < t.len() implies #[trigger] t[m] != '|' by {
        if m - k < 5 {
            assert(t[m] == sep[m - k + 1]);
        } else {
            assert(t[m] == id[m - k - 5]);
            assert(id.contains(id[m - k - 5]));
        }
    }
    lemma_rfind_at(t, '|', k);
    let head = t.subrange(0, k);
    if n > 0 {
        lemma_trim_known(head, 0, n);
        assert(head.subrange(0, n) =~= text);
    } else {
        lemma_trim_known(head, 0, 0);
        assert(head.subrange(0, 0) =~= text);
    }
    let seg = t.subrange(k + 1, t.len() as int);
    assert(seg =~= seq![' ', 'i', 'd', ':'] + id);
    assert(!seg.contains(',')) by {
        if seg.contains(',') {
            let x = choose|x: int| 0 <= x < seg.len() && seg[x] == ',';
            assert(x >= 4);
            assert(id[x - 4] == ',');
            assert(id.contains(id[x - 4]));
        }
    }
    lemma_split_append(Seq::<char>::empty(), seg, ',');
    assert(Seq::<char>::empty() + seg =~= seg);
    let e = Seq::<char>::empty();
    assert(split_by(e, ',') == seq![e]);
    assert(seq![e].drop_last().push(e + seg) =~= seq![seg]);
    let frags = split_by(seg, ',');
    assert(frags == seq![seg]);
    lemma_find_from(seg, ':', 0);
    let p = find_from(seg, ':', 0);
    assert(seg[3] == ':');
    assert(seg[0] != ':' && seg[1] != ':' && seg[2] != ':');
    assert(p == 3);
    let label = seg.subrange(0, 3);
    lemma_trim_known(label, 1, 3);
    assert(label.subrange(1, 3) =~= id_label());
    assert(seg.subrange(4, seg.len() as int) =~= id);
    lemma_trimmed_fixed(id);
    assert(frags.last() == seg);
    assert(entry_of(seg) == Some((id_label(), id)));
}

/// Decoding the line of a record gives the record back, when its text holds no `|`
/// and does not read as a comment (starts with `#`).
pub proof fn lemma_line_round_trip(text: Seq<char>, id: Seq<char>)
    requires
        is_trimmed(text),
        valid_id(id),
        !text.contains('|'),
        !(text.len() > 0 && text[0] == '#'),
    ensures
        decode_spec(line_of(text, id)) == Some((text, id)),
        decode_spec(body_of(text, id)) == Some((text, id)),
{
    let b = body_of(text, id);
    let l = line_of(text, id);
    assert(l.subrange(0, b.len() as int) =~= b);
    assert(is_space(l[b.len() as int]));
    lemma_decode_body(l, text, id);
    assert(b.subrange(0, b.len() as int) =~= b);
    lemma_decode_body(b, text, id);
}

/// A range of `v`, when there is one.
pub open spec fn range_of(v: Seq<char>, r: Option<(usize, usize)>) -> Option<Seq<char>> {
    match r {
        Some(p) => Some(v.subrange(p.0 as int, p.1 as int)),
        None => None,
    }
}

/// The data range of `v[a..b]` where that fragment is labelled `id`.
fn id_entry(v: &Vec<char>, a: usize, b: usize) -> (r: Option<(usize, usize)>)
    requires
        a <= b <= v@.len(),
    ensures
        ({
            let e = entry_of(v@.subrange(a as int, b as int));
            match r {
                Some(p) => a <= p.0 <= p.1 <= b && e == Some(
                    (id_label(), v@.subrange(p.0 as int, p.1 as int)),
                ),
                None => match e {
                    Some(x) => x.0 != id_label(),
                    None => true,
                },
            }
        }),
{
    let ghost frag = v@.subrange(a as int, b as int);
    let p = find_in(v, ':', a, b);
    if p >= b {
        return None;
    }
    let (l0, l1) = trim_range(v, a, p);
    let (d0, d1) = trim_range(v, p + 1, b);
    assert(frag.subrange(0, p - a) =~= v@.subrange(a as int, p as int));
    assert(frag.subrange(p - a + 1, frag.len() as int) =~= v@.subrange(p + 1, b as int));
    if l1 - l0 == 2 && v[l0] == 'i' && v[l0 + 1] == 'd' {
        assert(v@.subrange(l0 as int, l1 as int) =~= id_label());
        Some((d0, d1))
    } else {
        assert(v@.subrange(l0 as int, l1 as int) != id_label()) by {
            if v@.subrange(l0 as int, l1 as int) == id_label() {
                assert(id_label().len() == 2);
                assert(l1 - l0 == 2);
                assert(v@.subrange(l0 as int, l1 as int)[0] == v@[l0 as int]);
                assert(v@.subrange(l0 as int, l1 as int)[1] == v@[l0 + 1]);
            }
        }
        None
    }
}

/// The data range of the id that `v[a..b]`, a metadata segment, names.
fn scan_meta(v: &Vec<char>, a: usize, b: usize) -> (r: Option<(usize, usize)>)
    requires
        a <= b <= v@.len(),
    ensures
        range_of(v@, r) == meta_id(v@.subrange(a as int, b as int)),
        r matches Some(p) ==> a <= p.0 <= p.1 <= b && forall|x: int|
            p.0 <= x < p.1 ==> #[trigger] v@[x] != ',',
{
    let ghost seg = v@.subrange(a as int, b as int);
    let mut found: Option<(usize, usize)> = None;
    let mut start: usize = a;
    let mut i: usize = a;
    proof {
        assert(seg.subrange(0, 0) =~= Seq::<char>::empty());
        assert(v@.subrange(a as int, a as int) =~= Seq::<char>::empty());
    }
    while i < b
        invariant
            a <= start <= i <= b <= v@.len(),
            seg == v@.subrange(a as int, b as int),
            split_by(seg.subrange(0, i - a), ',').len() >= 1,
            split_by(seg.subrange(0, i - a), ',').last() == v@.subrange(start as int, i as int),
            last_id(split_by(seg.subrange(0, i - a), ',').drop_last()) == range_of(v@, found),
            forall|x: int| start <= x < i ==> #[trigger] v@[x] != ',',
            found matches Some(p) ==> a <= p.0 <= p.1 <= b && forall|x: int|
                p.0 <= x < p.1 ==> #[trigger] v@[x] != ',',
        decreases b - i,
    {
        let ghost f = split_by(seg.subrange(0, i - a), ',');
        let ghost g = split_by(seg.subrange(0, i + 1 - a), ',');
        assert(seg.subrange(0, i + 1 - a).drop_last() =~= seg.subrange(0, i - a));
        assert(seg.subrange(0, i + 1 - a).last() == v@[i as int]);
        if v[i] == ',' {
            assert(g == f.push(Seq::<char>::empty()));
            assert(g.drop_last() =~= f);
            match id_entry(v, start, i) {
                Some(p) => {
                    found = Some(p);
                },
                None => {},
            }
            start = i + 1;
            assert(v@.subrange(start as int, start as int) =~= Seq::<char>::empty());
        } else {
            assert(g == f.update(f.len() - 1, f.last().push(v@[i as int])));
            assert(g.drop_last() =~= f.drop_last());
            assert(v@.subrange(start as int, i + 1) =~= v@.subrange(start as int, i as int).push(
                v@[i as int],
            ));
        }
        i = i + 1;
    }
    assert(seg.subrange(0, b - a) =~= seg);
    match id_entry(v, start, b) {
        Some(p) => Some(p),
        None => found,
    }
}

/// Decodes one line of a list file. Blank and comment lines (first non-blank
/// character `#`) hold no record. The text runs up to the last `|`; what follows
/// is metadata, whose `id` entry, when present and not empty, is the record's id.
/// Otherwise the id is the fingerprint of the text.
pub fn task_from_taskline(line: &str) -> (r: Option<Task>)
    ensures
        match r {
            Some(t) => decode_spec(line@) == Some((t.text@, t.id@)) && t.wf(),
            None => decode_spec(line@) is None,
        },
{
    let v = chars_of(line);
    let (lo, hi) = trim_range(&v, 0, v.len());
    assert(v@.subrange(0, v@.len() as int) =~= line@);
    let ghost t = trim_seq(line@);
    proof {
        lemma_trim_is_trimmed(line@);
    }
    assert(t == v@.subrange(lo as int, hi as int));
    if lo == hi || v[lo] == '#' {
        assert(lo < hi ==> t[0] == v@[lo as int]);
        return None;
    }
    assert(t.len() > 0 && t[0] == v@[lo as int]);
    match rfind_in(&v, '|', lo, hi) {
        None => {
            let text = line.substring_char(lo, hi);
            let id = generate_id(text);
            proof {
                lemma_hex_id_valid(id@);
            }
            Some(Task { text: text.to_owned(), id })
        },
        Some(k) => {
            let (t0, t1) = trim_range(&v, lo, k);
            assert(t.subrange(0, k - lo) =~= v@.subrange(lo as int, k as int));
            assert(t.subrange(k - lo + 1, t.len() as int) =~= v@.subrange(k + 1, hi as int));
            proof {
                lemma_trim_is_trimmed(t.subrange(0, k - lo));
            }
            let text = line.substring_char(t0, t1);
            match scan_meta(&v, k + 1, hi) {
                Some((d0, d1)) => {
                    if d0 < d1 {
                        let id = line.substring_char(d0, d1);
                        proof {
                            lemma_rfind_before(t, '|', t.len() as int);
                            assert forall|x: int| d0 <= x < d1 implies #[trigger] v@[x] != '|' by {
                                assert(t[x - lo] == v@[x]);
                            }
                            lemma_last_id_trimmed(split_by(v@.subrange(k + 1, hi as int), ','));
                            assert(!id@.contains(',')) by {
                                if id@.contains(',') {
                                    let x = choose|x: int| 0 <= x < id@.len() && id@[x] == ',';
                                    assert(v@[d0 + x] == ',');
                                }
                            }
                            assert(!id@.contains('|')) by {
                                if id@.contains('|') {
                                    let x = choose|x: int| 0 <= x < id@.len() && id@[x] == '|';
                                    assert(v@[d0 + x] == '|');
                                }
                            }
                        }
                        Some(Task { text: text.to_owned(), id: id.to_owned() })
                    } else {
                        let id = generate_id(text);
                        proof {
                            lemma_hex_id_valid(id@);
                        }
                        Some(Task { text: text.to_owned(), id })
                    }
                },
                None => {
                    let id = generate_id(text);
                    proof {
                        lemma_hex_id_valid(id@);
                    }
                    Some(Task { text: text.to_owned(), id })
                },
            }
        },
    }
}

} // verus!
