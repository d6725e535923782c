//! Whole list files: one line per record, read into a store and written back out.
use vstd::prelude::*;
use crate::codec::{
    body_of, decode_spec, encode_line, id_sep, lemma_line_round_trip, line_of, task_from_taskline,
};
use crate::store::{lemma_map_of_push, lemma_pairs_push, map_of, pair_of, pairs_of, TaskList};
use crate::task::Task;
use crate::text::{chars_of, lemma_split_append, lemma_split_nonempty, split_by};

verus! {

/// The records that a sequence of lines decodes to, in order, as `(text, id)`.
pub open spec fn decode_all(lines: Seq<Seq<char>>) -> Seq<(Seq<char>, Seq<char>)>
    decreases lines.len(),
{
    if lines.len() == 0 {
        Seq::empty()
    } else {
        let d = decode_all(lines.drop_last());
        match decode_spec(lines.last()) {
            Some(p) => d.push(p),
            None => d,
        }
    }
}

/// The mapping from id to text that a file's content holds.
pub open spec fn parse_spec(content: Seq<char>) -> Map<Seq<char>, Seq<char>> {
    map_of(decode_all(split_by(content, '\n')))
}

/// The content of a file that holds `s`, one line per record in order.
pub open spec fn render_spec(s: Seq<Task>) -> Seq<char>
    decreases s.len(),
{
    if s.len() == 0 {
        Seq::empty()
    } else {
        render_spec(s.drop_last()) + line_of(s.last().text@, s.last().id@)
    }
}

/// A record whose line reads back as itself: well formed, no `|` in its text, no
/// line break in either field, and a text that does not start with `#`.
pub open spec fn line_safe(t: Task) -> bool {
    &&& t.wf()
    &&& !t.text@.contains('|')
    &&& !t.text@.contains('\n')
    &&& !t.id@.contains('\n')
    &&& !(t.text@.len() > 0 && t.text@[0] == '#')
}

/// The content written for `s` splits into the records' line bodies, then an empty
/// piece after the last terminator.
proof fn lemma_render_split(s: Seq<Task>)
    requires
        forall|i: int| 0 <= i < s.len() ==> line_safe(#[trigger] s[i]),
    ensures
        split_by(render_spec(s), '\n').len() >= 1,
        split_by(render_spec(s), '\n').last() == Seq::<char>::empty(),
        decode_all(split_by(render_spec(s), '\n').drop_last()) == pairs_of(s),
    decreases s.len(),
{
    let e = Seq::<char>::empty();
    if s.len() == 0 {
        assert(split_by(e, '\n').drop_last() =~= Seq::<Seq<char>>::empty());
        assert(pairs_of(s) =~= Seq::<(Seq<char>, Seq<char>)>::empty());
    } else {
        let t = s.drop_last();
        assert forall|i: int| 0 <= i < t.len() implies line_safe(#[trigger] t[i]) by {
            assert(t[i] == s[i]);
        }
        lemma_render_split(t);
        let last = s[s.len() - 1];
        assert(line_safe(last));
        let body = body_of(last.text@, last.id@);
        let r = render_spec(t);
        assert(!body.contains('\n')) by {
            if body.contains('\n') {
                let k = choose|k: int| 0 <= k < body.len() && body[k] == '\n';
                let n = last.text@.len() as int;
                if k < n {
                    assert(last.text@[k] == '\n');
                    assert(last.text@.contains(last.text@[k]));
                } else if k < n + 6 {
                    assert(body[k] == id_sep()[k - n]);
                } else {
                    assert(last.id@[k - n - 6] == '\n');
                    assert(last.id@.contains(last.id@[k - n - 6]));
                }
            }
        }
        lemma_split_append(r, body, '\n');
        let f = split_by(r, '\n');
        let g = split_by(r + body, '\n');
        assert(f.last() + body =~= body);
        assert(render_spec(s) =~= (r + body).push('\n'));
        assert((r + body).push('\n').drop_last() =~= r + body);
        let h = split_by(render_spec(s), '\n');
        assert(h == g.push(e));
        assert(h.drop_last() =~= g);
        assert(g.drop_last() =~= f.drop_last());
        lemma_line_round_trip(last.text@, last.id@);
        assert(pairs_of(s) =~= pairs_of(t).push(pair_of(last)));
    }
}

/// Writing a list out and reading it back gives the same mapping from id to text,
/// whatever the order of its lines, when each record's line reads back as itself.
pub proof fn lemma_full_cycle(list: TaskList)
    requires
        list.wf(),
        forall|i: int| 0 <= i < list.records().len() ==> line_safe(#[trigger] list.records()[i]),
    ensures
        parse_spec(render_spec(list.records())) == list@,
{
    let s = list.records();
    lemma_render_split(s);
    let h = split_by(render_spec(s), '\n');
    lemma_split_nonempty(render_spec(s), '\n');
    assert(h.drop_last().push(h.last()) =~= h);
    assert(decode_spec(Seq::<char>::empty()) is None);
}

/// Reads the content of a list file: every line is decoded, and blank, comment and
/// unreadable lines are skipped. A later record overwrites an earlier one with the
/// same id.
pub fn parse_list(content: &str) -> (r: TaskList)
    ensures
        r.wf(),
        r@ == parse_spec(content@),
{
    let v = chars_of(content);
    let mut list = TaskList::new();
    let mut start: usize = 0;
    let mut i: usize = 0;
    proof {
        assert(v@.take(0) =~= Seq::<char>::empty());
        assert(v@.subrange(0, 0) =~= Seq::<char>::empty());
        assert(split_by(Seq::<char>::empty(), '\n').drop_last() =~= Seq::<Seq<char>>::empty());
    }
    while i < v.len()
        invariant
            start <= i <= v@.len(),
            v@ == content@,
            list.wf(),
            split_by(v@.take(i as int), '\n').len() >= 1,
            split_by(v@.take(i as int), '\n').last() == v@.subrange(start as int, i as int),
            list@ == map_of(decode_all(split_by(v@.take(i as int), '\n').drop_last())),
        decreases v@.len() - i,
    {
        let ghost f = split_by(v@.take(i as int), '\n');
        let ghost g = split_by(v@.take(i + 1), '\n');
        assert(v@.take(i + 1).drop_last() =~= v@.take(i as int));
        assert(v@.take(i + 1).last() == v@[i as int]);
        if v[i] == '\n' {
            assert(g == f.push(Seq::<char>::empty()));
            assert(g.drop_last() =~= f);
            assert(f.drop_last().push(f.last()) =~= f);
            let line = content.substring_char(start, i);
            match task_from_taskline(line) {
                Some(t) => {
                    list.insert(t);
                    proof {
                        lemma_map_of_push(decode_all(f.drop_last()), (t.text@, t.id@));
                    }
                },
                None => {},
            }
            start = i + 1;
            assert(v@.subrange(start as int, start as int) =~= Seq::<char>::empty());
        } else {
            assert(g == f.update(f.len() - 1, f.last().push(v@[i as int])));
            assert(g.drop_last() =~= f.drop_last());
            assert(v@.subrange(start as int, i + 1) =~= v@.subrange(start as int, i as int).push(
                v@[i as int],
            ));
        }
        i = i + 1;
    }
    let ghost f = split_by(v@, '\n');
    assert(v@.take(v@.len() as int) =~= v@);
    assert(f.drop_last().push(f.last()) =~= f);
    let line = content.substring_char(start, v.len());
    match task_from_taskline(line) {
        Some(t) => {
            list.insert(t);
            proof {
                lemma_map_of_push(decode_all(f.drop_last()), (t.text@, t.id@));
            }
        },
        None => {},
    }
    list
}

/// The content of a list file that holds `list`: one line `<text> | id:<id>` per
/// record, in the order in which the list yields them.
pub fn render_list(list: &TaskList) -> (r: String)
    ensures
        r@ == render_spec(list.records()),
{
    let tasks = list.tasks();
    let mut out = String::new();
    let mut i: usize = 0;
    while i < tasks.len()
        invariant
            i <= tasks@.len(),
            tasks@ == list.records(),
            out@ == render_spec(tasks@.take(i as int)),
        decreases tasks@.len() - i,
    {
        let line = encode_line(&tasks[i]);
        out.append(line.as_str());
        assert(tasks@.take(i + 1).drop_last() =~= tasks@.take(i as int));
        i = i + 1;
    }
    assert(tasks@.take(tasks@.len() as int) =~= tasks@);
    out
}

} // verus!
