//! The task store: records keyed by id, at most one per id.
use vstd::prelude::*;
use crate::fingerprint::id_of;
use crate::task::Task;
use crate::text::trim_seq;

verus! {

/// A record as `(text, id)`.
pub open spec fn pair_of(t: Task) -> (Seq<char>, Seq<char>) {
    (t.text@, t.id@)
}

pub open spec fn pairs_of(s: Seq<Task>) -> Seq<(Seq<char>, Seq<char>)> {
    s.map_values(|t: Task| pair_of(t))
}

/// The mapping from id to text that inserting `(text, id)` pairs in order builds:
/// a later pair overwrites an earlier one with the same id.
pub open spec fn map_of(s: Seq<(Seq<char>, Seq<char>)>) -> Map<Seq<char>, Seq<char>>
    decreases s.len(),
{
    if s.len() == 0 {
        Map::empty()
    } else {
        map_of(s.drop_last()).insert(s.last().1, s.last().0)
    }
}

/// No two records share an id.
pub open spec fn ids_unique(s: Seq<Task>) -> bool {
    forall|i: int, j: int| 0 <= i < j < s.len() ==> s[i].id@ != s[j].id@
}

/// The store after adding `text`: its trimmed form under its fingerprint.
pub open spec fn added(m: Map<Seq<char>, Seq<char>>, text: Seq<char>) -> Map<Seq<char>, Seq<char>> {
    m.insert(id_of(trim_seq(text)), trim_seq(text))
}

/// The store after editing record `id` to read `text`.
pub open spec fn edited(m: Map<Seq<char>, Seq<char>>, id: Seq<char>, text: Seq<char>) -> Map<
    Seq<char>,
    Seq<char>,
> {
    added(m.remove(id), text)
}

pub proof fn lemma_map_of_push(s: Seq<(Seq<char>, Seq<char>)>, p: (Seq<char>, Seq<char>))
    ensures
        map_of(s.push(p)) == map_of(s).insert(p.1, p.0),
{
    assert(s.push(p).drop_last() =~= s);
}

pub proof fn lemma_pairs_push(s: Seq<Task>, t: Task)
    ensures
        pairs_of(s.push(t)) == pairs_of(s).push(pair_of(t)),
{
    assert(pairs_of(s.push(t)) =~= pairs_of(s).push(pair_of(t)));
}

/// The ids in the mapping are those of the pairs.
pub proof fn lemma_map_of_dom(s: Seq<(Seq<char>, Seq<char>)>)
    ensures
        map_of(s).dom().finite(),
        forall|k: Seq<char>|
            #[trigger] map_of(s).dom().contains(k) <==> exists|i: int|
                0 <= i < s.len() && s[i].1 == k,
    decreases s.len(),
{
    if s.len() > 0 {
        let t = s.drop_last();
        lemma_map_of_dom(t);
        assert forall|k: Seq<char>| #[trigger] map_of(s).dom().contains(k) implies exists|i: int|
            0 <= i < s.len() && s[i].1 == k by {
            if k != s.last().1 {
                let i = choose|i: int| 0 <= i < t.len() && t[i].1 == k;
                assert(s[i] == t[i]);
            } else {
                assert(s[s.len() - 1].1 == k);
            }
        }
        assert forall|k: Seq<char>|
            (exists|i: int| 0 <= i < s.len() && s[i].1 == k) implies #[trigger] map_of(
            s,
        ).dom().contains(k) by {
            let i = choose|i: int| 0 <= i < s.len() && s[i].1 == k;
            if i < s.len() - 1 {
                assert(t[i] == s[i]);
            }
        }
    }
}

/// With ids unique, the mapping has one entry per record.
pub proof fn lemma_map_of_len(s: Seq<Task>)
    requires
        ids_unique(s),
    ensures
        map_of(pairs_of(s)).len() == s.len(),
    decreases s.len(),
{
    if s.len() > 0 {
        let t = s.drop_last();
        assert(pairs_of(s).drop_last() =~= pairs_of(t));
        lemma_map_of_len(t);
        lemma_map_of_dom(pairs_of(t));
        let k = s.last().id@;
        if map_of(pairs_of(t)).dom().contains(k) {
            let i = choose|i: int| 0 <= i < pairs_of(t).len() && pairs_of(t)[i].1 == k;
            assert(s[i].id@ == s[s.len() - 1].id@);
        }
    }
}

/// Adding the same text twice to an empty list leaves one record: the text, trimmed,
/// under its fingerprint.
pub proof fn lemma_add_twice(text: Seq<char>)
    ensures
        added(added(Map::empty(), text), text) == map![id_of(trim_seq(text)) => trim_seq(text)],
        added(added(Map::empty(), text), text).len() == 1,
{
    let m = added(added(Map::empty(), text), text);
    let k = id_of(trim_seq(text));
    assert(m =~= map![k => trim_seq(text)]);
    assert(m.dom() =~= Set::empty().insert(k));
}

/// Editing record `x` removes `x` and adds exactly one record, under the fingerprint
/// of the new text, when that fingerprint differs from `x`.
pub proof fn lemma_edit_changes_identity(m: Map<Seq<char>, Seq<char>>, x: Seq<char>, text: Seq<char>)
    requires
        m.contains_key(x),
        x != id_of(trim_seq(text)),
    ensures
        !edited(m, x, text).contains_key(x),
        edited(m, x, text).contains_key(id_of(trim_seq(text))),
        edited(m, x, text)[id_of(trim_seq(text))] == trim_seq(text),
        edited(m, x, text).dom() == m.dom().remove(x).insert(id_of(trim_seq(text))),
{
    assert(edited(m, x, text).dom() =~= m.dom().remove(x).insert(id_of(trim_seq(text))));
}

/// The tasks of one list, at most one per id.
pub struct TaskList {
    tasks: Vec<Task>,
}

impl View for TaskList {
    type V = Map<Seq<char>, Seq<char>>;

    /// The mapping from id to text.
    open spec fn view(&self) -> Map<Seq<char>, Seq<char>> {
        map_of(pairs_of(self.records()))
    }
}

impl TaskList {
    /// The records, in the order in which the list yields them.
    pub closed spec fn records(&self) -> Seq<Task> {
        self.tasks@
    }

    pub open spec fn wf(&self) -> bool {
        ids_unique(self.records())
    }

    /// An empty list.
    pub fn new() -> (r: TaskList)
        ensures
            r.wf(),
            r@ == Map::<Seq<char>, Seq<char>>::empty(),
            r.records().len() == 0,
    {
        TaskList { tasks: Vec::new() }
    }

    /// The records, in no particular order.
    pub fn tasks(&self) -> (r: &[Task])
        ensures
            r@ == self.records(),
    {
        self.tasks.as_slice()
    }

    /// The number of records.
    pub fn len(&self) -> (r: usize)
        requires
            self.wf(),
        ensures
            r == self@.len(),
            r == self.records().len(),
    {
        proof {
            lemma_map_of_len(self.records());
        }
        self.tasks.len()
    }

    /// Deletes the record with id `id`; nothing happens when there is none.
    pub fn remove(&mut self, id: String)
        requires
            old(self).wf(),
        ensures
            final(self).wf(),
            final(self)@ == old(self)@.remove(id@),
            forall|i: int|
                0 <= i < final(self).records().len() ==> #[trigger] final(self).records()[i].id@
                    != id@,
    {
        let ghost s = self.tasks@;
        let mut out: Vec<Task> = Vec::new();
        let mut i: usize = 0;
        while i < self.tasks.len()
            invariant
                i <= s.len(),
                self.tasks@ == s,
                ids_unique(s),
                ids_unique(out@),
                map_of(pairs_of(out@)) == map_of(pairs_of(s.take(i as int))).remove(id@),
                forall|j: int| 0 <= j < out@.len() ==> #[trigger] out@[j].id@ != id@,
                forall|j: int|
                    0 <= j < out@.len() ==> exists|m: int|
                        0 <= m < i && #[trigger] out@[j].id@ == s[m].id@,
            decreases s.len() - i,
        {
            let ghost before = out@;
            assert(s.take(i + 1) =~= s.take(i as int).push(s[i as int]));
            proof {
                lemma_pairs_push(s.take(i as int), s[i as int]);
                lemma_map_of_push(pairs_of(s.take(i as int)), pair_of(s[i as int]));
            }
            if self.tasks[i].id != id {
                let t = Task { text: self.tasks[i].text.clone(), id: self.tasks[i].id.clone() };
                out.push(t);
                proof {
                    lemma_pairs_push(before, t);
                    lemma_map_of_push(pairs_of(before), pair_of(t));
                    assert(map_of(pairs_of(out@)) =~= map_of(pairs_of(s.take(i + 1))).remove(
                        id@,
                    ));
                    assert forall|j: int| 0 <= j < before.len() implies #[trigger] before[j].id@
                        != t.id@ by {
                        let m = choose|m: int| 0 <= m < i && before[j].id@ == s[m].id@;
                    }
                    assert forall|j: int| 0 <= j < out@.len() implies exists|m: int|
                        0 <= m < i + 1 && #[trigger] out@[j].id@ == s[m].id@ by {
                        if j == before.len() {
                            assert(out@[j].id@ == s[i as int].id@);
                        } else {
                            assert(out@[j] == before[j]);
                        }
                    }
                }
            } else {
                assert(map_of(pairs_of(out@)) =~= map_of(pairs_of(s.take(i + 1))).remove(id@));
            }
            i = i + 1;
        }
        assert(s.take(s.len() as int) =~= s);
        self.tasks = out;
    }

    /// Adds `task`, replacing any record with the same id.
    pub fn insert(&mut self, task: Task)
        requires
            old(self).wf(),
        ensures
            final(self).wf(),
            final(self)@ == old(self)@.insert(task.id@, task.text@),
    {
        let ghost k = task.id@;
        self.remove(task.id.clone());
        let ghost before = self.tasks@;
        self.tasks.push(task);
        proof {
            lemma_pairs_push(before, task);
            lemma_map_of_push(pairs_of(before), pair_of(task));
            assert(self@ =~= old(self)@.insert(task.id@, task.text@));
            assert forall|i: int, j: int| 0 <= i < j < self.tasks@.len() implies self.tasks@[i].id@
                != self.tasks@[j].id@ by {
                if j == before.len() {
                    assert(before[i].id@ != k);
                }
            }
        }
    }

    /// Adds the record for `text`; adding a text that is present changes nothing.
    pub fn add(&mut self, text: &str)
        requires
            old(self).wf(),
        ensures
            final(self).wf(),
            final(self)@ == added(old(self)@, text@),
    {
        self.insert(Task::new(text));
    }

    /// Replaces record `id` by the record for `text`, whose id is the fingerprint of
    /// `text` and so differs from `id` when the text changes.
    pub fn edit(&mut self, id: String, text: &str)
        requires
            old(self).wf(),
        ensures
            final(self).wf(),
            final(self)@ == edited(old(self)@, id@, text@),
    {
        self.remove(id);
        self.add(text);
    }

    /// A list of the given records; a later record overwrites an earlier one with the
    /// same id.
    pub fn from_tasks(tasks: Vec<Task>) -> (r: TaskList)
        ensures
            r.wf(),
            r@ == map_of(pairs_of(tasks@)),
    {
        let mut list = TaskList::new();
        let mut i: usize = 0;
        while i < tasks.len()
            invariant
                i <= tasks@.len(),
                list.wf(),
                list@ == map_of(pairs_of(tasks@.take(i as int))),
            decreases tasks@.len() - i,
        {
            let t = Task { text: tasks[i].text.clone(), id: tasks[i].id.clone() };
            list.insert(t);
            proof {
                assert(tasks@.take(i + 1) =~= tasks@.take(i as int).push(tasks@[i as int]));
                lemma_pairs_push(tasks@.take(i as int), tasks@[i as int]);
                lemma_map_of_push(pairs_of(tasks@.take(i as int)), pair_of(tasks@[i as int]));
            }
            i = i + 1;
        }
        assert(tasks@.take(tasks@.len() as int) =~= tasks@);
        list
    }
}

} // verus!
