//! The record store: the live set of task records, with identifier
//! resolution, creation, mutation and decay. Persistence itself — reading
//! and writing files — stays outside; the store works on the records in
//! memory and tells its caller what changed.

use vstd::prelude::*;
use vstd::multiset::Multiset;
use vstd::string::StringExecFns;

use crate::codec;
use crate::id;
use crate::task::{strs_vv, Error, Status, Task, TaskV};
use crate::text;
use crate::time;

verus! {

/// The views of a task list, element for element.
pub open spec fn tasks_vv(ts: Seq<Task>) -> Seq<TaskV> {
    Seq::new(ts.len(), |i: int| ts[i]@)
}

/// Some record carries the id.
pub open spec fn has_id(ts: Seq<TaskV>, id: Seq<char>) -> bool {
    exists|j: int| 0 <= j < ts.len() && ts[j].id == id
}

/// Where the record with the id stands.
pub open spec fn idx_of(ts: Seq<TaskV>, id: Seq<char>) -> int {
    choose|j: int| 0 <= j < ts.len() && ts[j].id == id
}

/// No two records share an id.
pub open spec fn unique_ids(ts: Seq<TaskV>) -> bool {
    forall|i: int, j: int| 0 <= i < j < ts.len() ==> ts[i].id != ts[j].id
}

/// The live record set.
pub struct Store {
    pub tasks: Vec<Task>,
}

impl View for Store {
    type V = Seq<TaskV>;

    open spec fn view(&self) -> Seq<TaskV> {
        tasks_vv(self.tasks@)
    }
}

/// With unique ids, an id found at `i` is found by `idx_of` at `i`.
pub proof fn lemma_idx_of(ts: Seq<TaskV>, id: Seq<char>, i: int)
    requires
        unique_ids(ts),
        0 <= i < ts.len(),
        ts[i].id == id,
    ensures
        idx_of(ts, id) == i,
        has_id(ts, id),
{
    assert(has_id(ts, id));
    let j = idx_of(ts, id);
    if j != i {
        if j < i {
            assert(ts[j].id != ts[i].id);
        } else {
            assert(ts[i].id != ts[j].id);
        }
    }
}

impl Store {
    /// Every record's invariant: ids unique, timestamps in range.
    pub open spec fn wf(&self) -> bool {
        &&& unique_ids(self@)
        &&& forall|i: int| 0 <= i < self@.len() ==> codec::ts_in_range(#[trigger] self@[i])
    }

    /// An empty store.
    pub fn new() -> (r: Store)
        ensures
            r@.len() == 0,
            r.wf(),
    {
        Store { tasks: Vec::new() }
    }

    /// Where the record with exactly this id stands, if anywhere.
    fn find(&self, id: &String) -> (r: Option<usize>)
        ensures
            match r {
                Some(i) => i < self@.len() && self@[i as int].id == id@,
                None => !has_id(self@, id@),
            },
    {
        let mut i: usize = 0;
        while i < self.tasks.len()
            invariant
                i <= self.tasks@.len(),
                self@.len() == self.tasks@.len(),
                forall|k: int| 0 <= k < i ==> self@[k].id != id@,
            decreases self.tasks@.len() - i,
        {
            if self.tasks[i].id.eq(id) {
                proof {
                    assert(self@[i as int].id == id@);
                }
                return Some(i);
            }
            proof {
                assert(self@[i as int].id != id@);
            }
            i = i + 1;
        }
        proof {
            if has_id(self@, id@) {
                let j = choose|j: int| 0 <= j < self@.len() && self@[j].id == id@;
                assert(self@[j].id != id@);
            }
        }
        None
    }

    /// The record with exactly this id; `NotFound` where none carries it.
    pub fn load(&self, id: &String) -> (r: Result<&Task, Error>)
        ensures
            match r {
                Ok(t) => has_id(self@, id@) && t@.id == id@ && self@.contains(t@),
                Err(e) => e == Error::NotFound && !has_id(self@, id@),
            },
    {
        match self.find(id) {
            Some(i) => {
                proof {
                    assert(self@[i as int] == self.tasks@[i as int]@);
                    assert(has_id(self@, id@));
                }
                Ok(&self.tasks[i])
            },
            None => Err(Error::NotFound),
        }
    }

    /// Puts the record in place: overwrites the one with the same id, or
    /// appends a new one. Saving the same record twice changes nothing more.
    pub fn save(&mut self, t: Task)
        requires
            old(self).wf(),
            codec::ts_in_range(t@),
        ensures
            final(self).wf(),
            has_id(old(self)@, t@.id) ==> final(self)@ == old(self)@.update(
                idx_of(old(self)@, t@.id),
                t@,
            ),
            !has_id(old(self)@, t@.id) ==> final(self)@ == old(self)@.push(t@),
    {
        let ghost old_v = self@;
        match self.find(&t.id) {
            Some(i) => {
                let _ = self.tasks.remove(i);
                self.tasks.insert(i, t);
                proof {
                    lemma_idx_of(old_v, old_v[i as int].id, i as int);
                    assert(tasks_vv(self.tasks@) =~= old_v.update(i as int, t@));
                    assert forall|a: int, b: int|
                        0 <= a < b < self@.len() implies self@[a].id != self@[b].id by {
                        assert(old_v[a].id != old_v[b].id);
                    }
                    assert forall|k: int| 0 <= k < self@.len() implies codec::ts_in_range(
                        #[trigger] self@[k],
                    ) by {
                        if k != i {
                            assert(codec::ts_in_range(old_v[k]));
                        }
                    }
                }
            },
            None => {
                self.tasks.push(t);
                proof {
                    assert(tasks_vv(self.tasks@) =~= old_v.push(t@));
                    assert forall|a: int, b: int|
                        0 <= a < b < self@.len() implies self@[a].id != self@[b].id by {
                        if b < old_v.len() {
                            assert(old_v[a].id != old_v[b].id);
                        } else {
                            assert(self@[b] == t@);
                            assert(!has_id(old_v, t@.id));
                            assert(old_v[a].id != t@.id);
                        }
                    }
                    assert forall|k: int| 0 <= k < self@.len() implies codec::ts_in_range(
                        #[trigger] self@[k],
                    ) by {
                        if k < old_v.len() {
                            assert(codec::ts_in_range(old_v[k]));
                        }
                    }
                }
            },
        }
    }

    /// The canonical ids whose text begins with the normalized prefix.
    pub open spec fn matching_ids(ts: Seq<TaskV>, pre: Seq<char>) -> Seq<Seq<char>> {
        ts.map_values(|t: TaskV| t.id).filter(|i: Seq<char>| text::has_prefix(i, pre))
    }

    /// A partial id normalized: the `jt-` lead added where missing.
    pub open spec fn norm_prefix(p: Seq<char>) -> Seq<char> {
        if text::has_prefix(p, "jt-"@) {
            p
        } else {
            "jt-"@ + p
        }
    }

    /// Resolves a full id or an unambiguous prefix to the one stored id it
    /// names: `NotFound` where none matches, `Ambiguous`, listing every
    /// match, where more than one does.
    pub fn resolve_id(&self, partial: &str) -> (r: Result<String, Error>)
        ensures
            ({
                let m = Store::matching_ids(self@, Store::norm_prefix(partial@));
                match r {
                    Ok(id) => m.len() == 1 && id@ == m[0],
                    Err(Error::NotFound) => m.len() == 0,
                    Err(Error::Ambiguous(ids)) => m.len() >= 2 && strs_vv(ids@) == m,
                    _ => false,
                }
            }),
    {
        let pre: String = if text::str_starts_with(partial, "jt-") {
            String::from_str(partial)
        } else {
            let mut s = String::from_str("jt-");
            s.append(partial);
            s
        };
        proof {
            assert(pre@ == Store::norm_prefix(partial@));
        }
        let ghost mids = self@.map_values(|t: TaskV| t.id);
        let ghost pred = (|i: Seq<char>| text::has_prefix(i, pre@));
        let mut matches: Vec<String> = Vec::new();
        let mut i: usize = 0;
        proof {
            reveal_with_fuel(Seq::<Seq<char>>::filter, 2);
            assert(mids.subrange(0, 0) =~= Seq::<Seq<char>>::empty());
            assert(strs_vv(matches@) =~= mids.subrange(0, 0).filter(pred));
        }
        while i < self.tasks.len()
            invariant
                i <= self.tasks@.len(),
                mids == self@.map_values(|t: TaskV| t.id),
                mids.len() == self.tasks@.len(),
                self@.len() == self.tasks@.len(),
                pre@ == Store::norm_prefix(partial@),
                strs_vv(matches@) == mids.subrange(0, i as int).filter(
                    |i: Seq<char>| text::has_prefix(i, pre@),
                ),
            decreases self.tasks@.len() - i,
        {
            let ghost ext = mids.subrange(0, i + 1);
            proof {
                reveal_with_fuel(Seq::<Seq<char>>::filter, 2);
                assert(ext.drop_last() =~= mids.subrange(0, i as int));
                assert(ext.last() == mids[i as int]);
                assert(mids[i as int] == self@[i as int].id);
            }
            let idv = text::chars_of(self.tasks[i].id.as_str());
            if text::starts_with_str(&idv, pre.as_str()) {
                let ghost old_m = matches@;
                let s = self.tasks[i].id.clone();
                matches.push(s);
                proof {
                    assert(strs_vv(matches@) =~= strs_vv(old_m).push(mids[i as int]));
                    assert(strs_vv(matches@) =~= ext.filter(
                        |i: Seq<char>| text::has_prefix(i, pre@),
                    ));
                }
            } else {
                proof {
                    assert(strs_vv(matches@) =~= ext.filter(
                        |i: Seq<char>| text::has_prefix(i, pre@),
                    ));
                }
            }
            i = i + 1;
        }
        proof {
            assert(mids.subrange(0, mids.len() as int) =~= mids);
        }
        if matches.len() == 0 {
            Err(Error::NotFound)
        } else if matches.len() == 1 {
            let ghost m = strs_vv(matches@);
            let id = matches.remove(0);
            proof {
                assert(id@ == m[0]);
            }
            Ok(id)
        } else {
            Err(Error::Ambiguous(matches))
        }
    }

    /// Draws fresh identifiers until one collides with no stored record,
    /// giving up after a hundred draws. With four hex digits against a
    /// handful of tasks, giving up is not expected in practice.
    pub fn next_id(&self) -> (r: Result<String, Error>)
        ensures
            match r {
                Ok(new_id) => id::valid_id(new_id@) && !has_id(self@, new_id@),
                Err(e) => e == Error::IdSpaceExhausted,
            },
    {
        let mut attempts: usize = 0;
        while attempts < 100
            invariant
                attempts <= 100,
            decreases 100 - attempts,
        {
            let cand = id::generate();
            match self.find(&cand) {
                None => {
                    return Ok(cand);
                },
                Some(_) => {},
            }
            attempts = attempts + 1;
        }
        Err(Error::IdSpaceExhausted)
    }

    /// Creates a task: a fresh id, status `Open`, both timestamps `now`,
    /// nothing blocked, linked or noted yet. Returns the new id.
    pub fn create(
        &mut self,
        summary: String,
        priority: u8,
        change: Option<String>,
        now: i64,
    ) -> (r: Result<String, Error>)
        requires
            old(self).wf(),
            time::valid_ts(now as int),
        ensures
            final(self).wf(),
            match r {
                Ok(new_id) => id::valid_id(new_id@) && !has_id(old(self)@, new_id@)
                    && final(self)@ == old(self)@.push(
                    TaskV {
                        id: new_id@,
                        status: Status::Open,
                        summary: summary@,
                        priority: priority,
                        agent: None,
                        change: crate::task::opt_vv(change),
                        created: now as int,
                        updated: now as int,
                        blocked_by: Seq::empty(),
                        links: Seq::empty(),
                        notes: Seq::empty(),
                    },
                ),
                Err(e) => e == Error::IdSpaceExhausted && final(self)@ == old(self)@,
            },
    {
        let new_id = match self.next_id() {
            Ok(i) => i,
            Err(e) => {
                return Err(e);
            },
        };
        let t = Task {
            id: new_id.clone(),
            status: Status::Open,
            summary,
            priority,
            agent: None,
            change,
            created: now,
            updated: now,
            blocked_by: Vec::new(),
            links: Vec::new(),
            notes: Vec::new(),
        };
        proof {
            assert(t@.blocked_by =~= Seq::<Seq<char>>::empty());
            assert(t@.links =~= Seq::<crate::task::LinkV>::empty());
            assert(t@.notes =~= Seq::<crate::task::NoteV>::empty());
        }
        self.save(t);
        Ok(new_id)
    }

    /// Removes the record with exactly this id, permanently.
    pub fn delete(&mut self, id: &String) -> (r: Result<(), Error>)
        requires
            old(self).wf(),
        ensures
            final(self).wf(),
            match r {
                Ok(()) => has_id(old(self)@, id@) && final(self)@ == old(self)@.remove(
                    idx_of(old(self)@, id@),
                ),
                Err(e) => e == Error::NotFound && !has_id(old(self)@, id@) && final(self)@
                    == old(self)@,
            },
    {
        let ghost old_v = self@;
        match self.find(id) {
            Some(i) => {
                let _ = self.tasks.remove(i);
                proof {
                    lemma_idx_of(old_v, old_v[i as int].id, i as int);
                    assert(tasks_vv(self.tasks@) =~= old_v.remove(i as int));
                    assert forall|a: int, b: int|
                        0 <= a < b < self@.len() implies self@[a].id != self@[b].id by {
                        let a0 = if a < i { a } else { a + 1 };
                        let b0 = if b < i { b } else { b + 1 };
                        assert(self@[a] == old_v[a0]);
                        assert(self@[b] == old_v[b0]);
                        assert(old_v[a0].id != old_v[b0].id);
                    }
                    assert forall|k: int| 0 <= k < self@.len() implies codec::ts_in_range(
                        #[trigger] self@[k],
                    ) by {
                        let k0 = if k < i { k } else { k + 1 };
                        assert(self@[k] == old_v[k0]);
                        assert(codec::ts_in_range(old_v[k0]));
                    }
                }
                Ok(())
            },
            None => Err(Error::NotFound),
        }
    }
}

/// Which records a listing shows.
#[derive(Clone, Copy, Debug, PartialEq, Eq, Structural)]
pub enum ListFilter {
    /// Open and unblocked.
    Ready,
    /// Open but blocked.
    Blocked,
    /// Claimed by the given agent.
    Mine,
    /// Done.
    Done,
    /// Everything.
    All,
    /// Everything not done.
    Default,
}

/// Whether a record passes the listing filter.
pub open spec fn selected(
    t: TaskV,
    ts: Seq<TaskV>,
    f: ListFilter,
    agent: Option<Seq<char>>,
) -> bool {
    match f {
        ListFilter::Ready => crate::task::ready_spec(t, ts),
        ListFilter::Blocked => t.status == Status::Open && crate::task::blocked_spec(t, ts),
        ListFilter::Mine => t.status == Status::Claimed && t.agent == agent,
        ListFilter::Done => t.status == Status::Done,
        ListFilter::All => true,
        ListFilter::Default => t.status != Status::Done,
    }
}

impl Store {
    /// Whether some live record carries `dep` and is not done.
    fn blocks_exec(&self, dep: &String) -> (b: bool)
        ensures
            b == crate::task::blocks(self@, dep@),
    {
        let mut j: usize = 0;
        while j < self.tasks.len()
            invariant
                j <= self.tasks@.len(),
                self@.len() == self.tasks@.len(),
                forall|k: int|
                    0 <= k < j ==> !(#[trigger] self@[k].id == dep@ && self@[k].status
                        != Status::Done),
            decreases self.tasks@.len() - j,
        {
            let not_done = match self.tasks[j].status {
                Status::Done => false,
                _ => true,
            };
            if not_done && self.tasks[j].id.eq(dep) {
                proof {
                    assert(self@[j as int].id == dep@ && self@[j as int].status != Status::Done);
                }
                return true;
            }
            proof {
                assert(!(self@[j as int].id == dep@ && self@[j as int].status != Status::Done));
            }
            j = j + 1;
        }
        proof {
            if crate::task::blocks(self@, dep@) {
                let w = choose|w: int|
                    0 <= w < self@.len() && self@[w].id == dep@ && self@[w].status != Status::Done;
                assert(!(self@[w].id == dep@ && self@[w].status != Status::Done));
            }
        }
        false
    }

    /// Whether the task waits on at least one live, unfinished blocker
    /// among the store's records.
    pub fn is_blocked(&self, t: &Task) -> (b: bool)
        ensures
            b == crate::task::blocked_spec(t@, self@),
    {
        let mut i: usize = 0;
        while i < t.blocked_by.len()
            invariant
                i <= t.blocked_by@.len(),
                t@.blocked_by.len() == t.blocked_by@.len(),
                forall|k: int| 0 <= k < i ==> !crate::task::blocks(self@, #[trigger] t@.blocked_by[k]),
            decreases t.blocked_by@.len() - i,
        {
            proof {
                assert(t@.blocked_by[i as int] == t.blocked_by@[i as int]@);
            }
            if self.blocks_exec(&t.blocked_by[i]) {
                proof {
                    assert(crate::task::blocks(self@, t@.blocked_by[i as int]));
                }
                return true;
            }
            i = i + 1;
        }
        proof {
            if crate::task::blocked_spec(t@, self@) {
                let w = choose|w: int|
                    0 <= w < t@.blocked_by.len() && crate::task::blocks(self@, t@.blocked_by[w]);
                assert(!crate::task::blocks(self@, t@.blocked_by[w]));
            }
        }
        false
    }

    /// The listing rows: for each record that passes the filter, in store
    /// order, its index and whether it is blocked.
    pub fn select_rows(&self, f: ListFilter, agent: &Option<String>) -> (r: Vec<(usize, bool)>)
        ensures
            forall|k: int|
                0 <= k < r@.len() ==> (#[trigger] r@[k]).0 < self@.len() && r@[k].1
                    == crate::task::blocked_spec(self@[r@[k].0 as int], self@) && selected(
                    self@[r@[k].0 as int],
                    self@,
                    f,
                    crate::task::opt_vv(*agent),
                ),
            forall|k1: int, k2: int| 0 <= k1 < k2 < r@.len() ==> r@[k1].0 < r@[k2].0,
            forall|i: int|
                0 <= i < self@.len() && selected(#[trigger] self@[i], self@, f, crate::task::opt_vv(*agent))
                    ==> exists|k: int| 0 <= k < r@.len() && (#[trigger] r@[k]).0 == i,
    {
        let mut r: Vec<(usize, bool)> = Vec::new();
        let mut i: usize = 0;
        while i < self.tasks.len()
            invariant
                i <= self.tasks@.len(),
                self@.len() == self.tasks@.len(),
                forall|k: int|
                    0 <= k < r@.len() ==> (#[trigger] r@[k]).0 < i && r@[k].1
                        == crate::task::blocked_spec(self@[r@[k].0 as int], self@) && selected(
                        self@[r@[k].0 as int],
                        self@,
                        f,
                        crate::task::opt_vv(*agent),
                    ),
                forall|k1: int, k2: int| 0 <= k1 < k2 < r@.len() ==> r@[k1].0 < r@[k2].0,
                forall|i0: int|
                    0 <= i0 < i && selected(
                        #[trigger] self@[i0],
                        self@,
                        f,
                        crate::task::opt_vv(*agent),
                    ) ==> exists|k: int| 0 <= k < r@.len() && (#[trigger] r@[k]).0 == i0,
            decreases self.tasks@.len() - i,
        {
            proof {
                assert(self@[i as int] == self.tasks@[i as int]@);
            }
            let bl = self.is_blocked(&self.tasks[i]);
            let keep = match f {
                ListFilter::Ready => {
                    let is_open = match self.tasks[i].status {
                        Status::Open => true,
                        _ => false,
                    };
                    is_open && !bl
                },
                ListFilter::Blocked => {
                    let is_open = match self.tasks[i].status {
                        Status::Open => true,
                        _ => false,
                    };
                    is_open && bl
                },
                ListFilter::Mine => {
                    let is_claimed = match self.tasks[i].status {
                        Status::Claimed => true,
                        _ => false,
                    };
                    let same = match (&self.tasks[i].agent, agent) {
                        (Some(a), Some(b)) => a.eq(b),
                        (None, None) => true,
                        _ => false,
                    };
                    is_claimed && same
                },
                ListFilter::Done => match self.tasks[i].status {
                    Status::Done => true,
                    _ => false,
                },
                ListFilter::All => true,
                ListFilter::Default => match self.tasks[i].status {
                    Status::Done => false,
                    _ => true,
                },
            };
            proof {
                assert(keep == selected(self@[i as int], self@, f, crate::task::opt_vv(*agent)));
            }
            if keep {
                let ghost old_r = r@;
                r.push((i, bl));
                proof {
                    assert(r@ =~= old_r.push((i, bl)));
                    assert(r@[r@.len() - 1].0 == i as int);
                    assert forall|k1: int, k2: int|
                        0 <= k1 < k2 < r@.len() implies r@[k1].0 < r@[k2].0 by {
                        if k2 == r@.len() - 1 {
                            assert(r@[k1] == old_r[k1]);
                            assert(old_r[k1].0 < i as int);
                        } else {
                            assert(old_r[k1].0 < old_r[k2].0);
                        }
                    }
                    assert forall|i0: int|
                        0 <= i0 < i + 1 && selected(
                            #[trigger] self@[i0],
                            self@,
                            f,
                            crate::task::opt_vv(*agent),
                        ) implies exists|k: int|
                        0 <= k < r@.len() && (#[trigger] r@[k]).0 == i0 by {
                        if i0 == i as int {
                            assert(r@[r@.len() - 1].0 == i0);
                        } else {
                            let k = choose|k: int|
                                0 <= k < old_r.len() && (#[trigger] old_r[k]).0 == i0;
                            assert(r@[k].0 == i0);
                        }
                    }
                }
            } else {
                proof {
                    assert forall|i0: int|
                        0 <= i0 < i + 1 && selected(
                            #[trigger] self@[i0],
                            self@,
                            f,
                            crate::task::opt_vv(*agent),
                        ) implies exists|k: int|
                        0 <= k < r@.len() && (#[trigger] r@[k]).0 == i0 by {
                        if i0 == i as int {
                            assert(!selected(self@[i0], self@, f, crate::task::opt_vv(*agent)));
                        } else {
                            let k = choose|k: int|
                                0 <= k < r@.len() && (#[trigger] r@[k]).0 == i0;
                            assert(r@[k].0 == i0);
                        }
                    }
                }
            }
            i = i + 1;
        }
        r
    }
}

/// Listing order: by creation time, ties broken by id, so a listing is
/// deterministic.
pub open spec fn task_le(a: TaskV, b: TaskV) -> bool {
    a.created < b.created || (a.created == b.created && text::lex_le(a.id, b.id))
}

/// Any two records are ordered one way or the other.
pub proof fn lemma_task_le_total(a: TaskV, b: TaskV)
    ensures
        task_le(a, b) || task_le(b, a),
{
    text::lemma_lex_total(a.id, b.id);
}

/// The listing order chains.
pub proof fn lemma_task_le_trans(a: TaskV, b: TaskV, c: TaskV)
    requires
        task_le(a, b),
        task_le(b, c),
    ensures
        task_le(a, c),
{
    if a.created == b.created && b.created == c.created {
        text::lemma_lex_trans(a.id, b.id, c.id);
    }
}

/// The records stand in listing order.
pub open spec fn sorted_tasks(ts: Seq<TaskV>) -> bool {
    forall|x: int, y: int| 0 <= x < y < ts.len() ==> task_le(#[trigger] ts[x], #[trigger] ts[y])
}

/// Equal multisets of records carry the same well-formedness.
proof fn lemma_perm_wf(a: Seq<TaskV>, b: Seq<TaskV>)
    requires
        a.to_multiset() == b.to_multiset(),
        unique_ids(a),
        forall|i: int| 0 <= i < a.len() ==> codec::ts_in_range(#[trigger] a[i]),
    ensures
        unique_ids(b),
        forall|i: int| 0 <= i < b.len() ==> codec::ts_in_range(#[trigger] b[i]),
{
    broadcast use vstd::seq_lib::group_to_multiset_ensures;

    assert forall|i: int| 0 <= i < b.len() implies codec::ts_in_range(#[trigger] b[i]) by {
        assert(b.to_multiset().count(b[i]) > 0);
        assert(a.to_multiset().count(b[i]) > 0);
        assert(a.contains(b[i]));
        let w = choose|w: int| 0 <= w < a.len() && a[w] == b[i];
        assert(codec::ts_in_range(a[w]));
    }
    assert forall|x: int, y: int| 0 <= x < y < b.len() implies b[x].id != b[y].id by {
        if b[x] == b[y] {
            // The same record twice would be counted twice, which `a`,
            // with its unique ids, cannot match.
            let br = b.remove(x);
            assert(br.to_multiset() =~= b.to_multiset().remove(b[x]));
            assert(br[y - 1] == b[y]);
            assert(br.to_multiset().count(b[y]) > 0);
            assert(b.to_multiset().count(b[x]) >= 2);
            assert(a.to_multiset().count(b[x]) >= 2);
            let a1 = choose|w: int| 0 <= w < a.len() && a[w] == b[x];
            let ar = a.remove(a1);
            assert(ar.to_multiset() =~= a.to_multiset().remove(b[x]));
            assert(ar.to_multiset().count(b[x]) > 0);
            assert(ar.contains(b[x]));
            let a2 = choose|w: int| 0 <= w < ar.len() && ar[w] == b[x];
            let a2o = if a2 < a1 {
                a2
            } else {
                a2 + 1
            };
            assert(a[a2o] == b[x]);
            if a1 < a2o {
                assert(a[a1].id != a[a2o].id);
            } else {
                assert(a[a2o].id != a[a1].id);
            }
        } else {
            assert(b.to_multiset().count(b[x]) > 0);
            assert(a.to_multiset().count(b[x]) > 0);
            assert(a.contains(b[x]));
            assert(b.to_multiset().count(b[y]) > 0);
            assert(a.to_multiset().count(b[y]) > 0);
            assert(a.contains(b[y]));
            let wx = choose|w: int| 0 <= w < a.len() && a[w] == b[x];
            let wy = choose|w: int| 0 <= w < a.len() && a[w] == b[y];
            assert(wx != wy);
            if wx < wy {
                assert(a[wx].id != a[wy].id);
            } else {
                assert(a[wy].id != a[wx].id);
            }
        }
    }
}

/// Whether `a` comes no later than `b` in listing order.
fn task_le_exec(a: &Task, b: &Task) -> (r: bool)
    ensures
        r == task_le(a@, b@),
{
    if a.created < b.created {
        true
    } else if a.created == b.created {
        text::lex_le_exec(a.id.as_str(), b.id.as_str())
    } else {
        false
    }
}

impl Store {
    /// Puts the records in listing order: by creation time ascending, ties
    /// broken by id. The record set itself does not change.
    #[verifier::rlimit(100)]
    pub fn sort_for_listing(&mut self)
        requires
            old(self).wf(),
        ensures
            final(self).wf(),
            final(self)@.to_multiset() == old(self)@.to_multiset(),
            sorted_tasks(final(self)@),
    {
        broadcast use vstd::seq_lib::group_to_multiset_ensures;

        let ghost old_ms = self@.to_multiset();
        let mut out: Vec<Task> = Vec::new();
        proof {
            assert(tasks_vv(out@).to_multiset() =~= Multiset::<TaskV>::empty());
            assert(tasks_vv(out@).to_multiset().add(tasks_vv(self.tasks@).to_multiset())
                =~= old_ms);
        }
        while self.tasks.len() > 0
            invariant
                tasks_vv(out@).to_multiset().add(tasks_vv(self.tasks@).to_multiset()) == old_ms,
                sorted_tasks(tasks_vv(out@)),
                self@.len() == self.tasks@.len(),
            decreases self.tasks@.len(),
        {
            let ghost pre_tasks = tasks_vv(self.tasks@);
            let t = match self.tasks.pop() {
                Some(t) => t,
                None => {
                    proof {
                        assert(false);
                    }
                    vstd::pervasive::unreached()
                },
            };
            proof {
                broadcast use vstd::seq_lib::group_to_multiset_ensures;

                assert(tasks_vv(self.tasks@) =~= pre_tasks.drop_last());
                assert(pre_tasks.drop_last() =~= pre_tasks.remove(pre_tasks.len() - 1));
                assert(pre_tasks.remove(pre_tasks.len() - 1).to_multiset()
                    =~= pre_tasks.to_multiset().remove(pre_tasks.last()));
                assert(t@ == pre_tasks.last());
                assert(pre_tasks.contains(t@));
                assert(pre_tasks.to_multiset().count(t@) > 0);
            }
            let mut pos: usize = 0;
            while pos < out.len() && task_le_exec(&out[pos], &t)
                invariant
                    pos <= out@.len(),
                    forall|k: int| 0 <= k < pos ==> task_le(#[trigger] tasks_vv(out@)[k], t@),
                    sorted_tasks(tasks_vv(out@)),
                decreases out@.len() - pos,
            {
                proof {
                    assert(tasks_vv(out@)[pos as int] == out@[pos as int]@);
                }
                pos = pos + 1;
            }
            proof {
                if pos < out@.len() {
                    assert(tasks_vv(out@)[pos as int] == out@[pos as int]@);
                    assert(!task_le(tasks_vv(out@)[pos as int], t@));
                    lemma_task_le_total(tasks_vv(out@)[pos as int], t@);
                    assert(task_le(t@, tasks_vv(out@)[pos as int]));
                }
            }
            let ghost pre_out = tasks_vv(out@);
            out.insert(pos, t);
            proof {
                broadcast use vstd::seq_lib::group_to_multiset_ensures;

                assert(tasks_vv(out@) =~= pre_out.insert(pos as int, t@));
                vstd::seq_lib::to_multiset_insert(pre_out, pos as int, t@);
                assert(tasks_vv(out@).to_multiset() =~= pre_out.to_multiset().insert(t@));
                // Sorted stays sorted around the insertion point.
                assert forall|x: int, y: int|
                    0 <= x < y < tasks_vv(out@).len() implies task_le(
                    #[trigger] tasks_vv(out@)[x],
                    #[trigger] tasks_vv(out@)[y],
                ) by {
                    let o = tasks_vv(out@);
                    let p = pos as int;
                    if x < p && y < p {
                        assert(o[x] == pre_out[x] && o[y] == pre_out[y]);
                    } else if x < p && y == p {
                        assert(o[x] == pre_out[x] && o[y] == t@);
                    } else if x < p && y > p {
                        assert(o[x] == pre_out[x] && o[y] == pre_out[y - 1]);
                    } else if x == p && y > p {
                        assert(o[x] == t@ && o[y] == pre_out[y - 1]);
                        assert(task_le(t@, pre_out[p]));
                        if y - 1 > p {
                            assert(task_le(pre_out[p], pre_out[y - 1]));
                            lemma_task_le_trans(t@, pre_out[p], pre_out[y - 1]);
                        }
                    } else {
                        assert(o[x] == pre_out[x - 1] && o[y] == pre_out[y - 1]);
                    }
                }
                // The multisets balance out.
                assert(pre_out.to_multiset().insert(t@).add(
                    pre_tasks.to_multiset().remove(t@),
                ) =~= pre_out.to_multiset().add(pre_tasks.to_multiset()));
            }
        }
        let ghost rest = tasks_vv(self.tasks@);
        self.tasks = out;
        proof {
            broadcast use vstd::seq_lib::group_to_multiset_ensures;

            assert(rest.len() == 0);
            assert forall|x: TaskV| rest.to_multiset().count(x) == 0 by {
                assert(!rest.contains(x));
            }
            assert(rest.to_multiset() =~= Multiset::<TaskV>::empty());
            assert(tasks_vv(self.tasks@).to_multiset().add(rest.to_multiset()) =~= tasks_vv(
                self.tasks@,
            ).to_multiset());
            assert(self@.to_multiset() == old(self)@.to_multiset());
            lemma_perm_wf(old(self)@, self@);
        }
    }
}

/// Nothing passes: the filter keeps nothing.
proof fn lemma_filter_none<A>(s: Seq<A>, pred: spec_fn(A) -> bool)
    requires
        forall|i: int| 0 <= i < s.len() ==> !pred(#[trigger] s[i]),
    ensures
        s.filter(pred).len() == 0,
    decreases s.len(),
{
    reveal_with_fuel(Seq::filter, 2);
    if s.len() > 0 {
        assert forall|i: int| 0 <= i < s.drop_last().len() implies !pred(
            #[trigger] s.drop_last()[i],
        ) by {
            assert(s.drop_last()[i] == s[i]);
        }
        lemma_filter_none(s.drop_last(), pred);
        assert(!pred(s[s.len() - 1]));
    }
}

/// Exactly one passes: the filter keeps exactly that one.
proof fn lemma_filter_one<A>(s: Seq<A>, pred: spec_fn(A) -> bool, k: int)
    requires
        0 <= k < s.len(),
        pred(s[k]),
        forall|i: int| 0 <= i < s.len() && i != k ==> !pred(#[trigger] s[i]),
    ensures
        s.filter(pred) == seq![s[k]],
    decreases s.len(),
{
    reveal_with_fuel(Seq::filter, 2);
    let pre = s.drop_last();
    if k == s.len() - 1 {
        assert forall|i: int| 0 <= i < pre.len() implies !pred(#[trigger] pre[i]) by {
            assert(pre[i] == s[i]);
        }
        lemma_filter_none(pre, pred);
        assert(pre.filter(pred) =~= Seq::<A>::empty());
        assert(s.filter(pred) =~= seq![s[k]]);
    } else {
        assert forall|i: int| 0 <= i < pre.len() && i != k implies !pred(#[trigger] pre[i]) by {
            assert(pre[i] == s[i]);
        }
        assert(pre[k] == s[k]);
        lemma_filter_one(pre, pred, k);
        assert(!pred(s[s.len() - 1]));
    }
}

/// A full stored id resolves to exactly itself: generated ids all share one
/// length, so none extends another, and ids are unique in the store.
pub proof fn lemma_resolve_full_id(ts: Seq<TaskV>, i: int)
    requires
        unique_ids(ts),
        0 <= i < ts.len(),
        forall|j: int| 0 <= j < ts.len() ==> id::valid_id(#[trigger] ts[j].id),
    ensures
        Store::norm_prefix(ts[i].id) == ts[i].id,
        Store::matching_ids(ts, ts[i].id) == seq![ts[i].id],
{
    reveal_strlit("jt-");
    let me = ts[i].id;
    assert(id::valid_id(ts[i].id));
    assert(("jt-"@).len() == 3);
    assert(me.subrange(0, 3) =~= "jt-"@);
    assert(text::has_prefix(me, "jt-"@));
    let mids = ts.map_values(|t: TaskV| t.id);
    let pred = (|x: Seq<char>| text::has_prefix(x, me));
    assert(mids[i] == me);
    assert(me.subrange(0, me.len() as int) =~= me);
    assert(pred(mids[i]));
    assert forall|j: int| 0 <= j < mids.len() && j != i implies !pred(#[trigger] mids[j]) by {
        assert(id::valid_id(ts[j].id));
        assert(mids[j] == ts[j].id);
        if pred(mids[j]) {
            assert(ts[j].id.subrange(0, 7) =~= ts[j].id);
            assert(ts[j].id == me);
            if j < i {
                assert(ts[j].id != ts[i].id);
            } else {
                assert(ts[i].id != ts[j].id);
            }
        }
    }
    lemma_filter_one(mids, pred, i);
}

/// A task with a single blocker `B` is blocked exactly while `B` is not
/// done: once `B` is done, the task is no longer blocked, with no change
/// to the task itself.
pub proof fn lemma_single_blocker(t: TaskV, ts: Seq<TaskV>, j: int)
    requires
        unique_ids(ts),
        t.blocked_by.len() == 1,
        0 <= j < ts.len(),
        ts[j].id == t.blocked_by[0],
    ensures
        crate::task::blocked_spec(t, ts) <==> ts[j].status != Status::Done,
{
    if ts[j].status != Status::Done {
        assert(crate::task::blocks(ts, t.blocked_by[0]));
        assert(crate::task::blocked_spec(t, ts));
    }
    if crate::task::blocked_spec(t, ts) {
        let i = choose|i: int|
            0 <= i < t.blocked_by.len() && crate::task::blocks(ts, t.blocked_by[i]);
        assert(i == 0);
        let w = choose|w: int|
            0 <= w < ts.len() && ts[w].id == t.blocked_by[0] && ts[w].status != Status::Done;
        if w != j {
            if w < j {
                assert(ts[w].id != ts[j].id);
            } else {
                assert(ts[j].id != ts[w].id);
            }
        }
    }
}

/// The file a record lives in: its id and the `.task` ending.
pub fn task_path(task_id: &str) -> (r: String)
    ensures
        r@ == task_id@ + ".task"@,
{
    let mut s = String::from_str(task_id);
    s.append(".task");
    s
}

/// The id a record file carries, read off the file's name; nothing for a
/// file that is not a record.
pub fn id_from_file_name(name: &str) -> (r: Option<String>)
    ensures
        match r {
            Some(task_id) => name@.len() >= 5 && name@.subrange(
                name@.len() - 5,
                name@.len() as int,
            ) == ".task"@ && task_id@ == name@.subrange(0, name@.len() - 5),
            None => name@.len() < 5 || name@.subrange(name@.len() - 5, name@.len() as int)
                != ".task"@,
        },
{
    let v = text::chars_of(name);
    let n = v.len();
    if n < 5 {
        return None;
    }
    if text::range_eq_str(&v, n - 5, n, ".task") {
        let stem = text::subvec(&v, 0, n - 5);
        Some(text::string_of(&stem))
    } else {
        None
    }
}

/// What a digit string with an optional minus is worth, wherever the value
/// fits a signed 64-bit count.
pub open spec fn days_of(s: Seq<char>) -> Option<int> {
    if s.len() == 0 {
        None
    } else if s[0] == '-' {
        let d = s.skip(1);
        if d.len() >= 1 && text::all_digits(d) && text::dec_val(d) <= 0x8000000000000000 {
            Some(-text::dec_val(d))
        } else {
            None
        }
    } else if text::all_digits(s) && text::dec_val(s) <= 0x7fffffffffffffff {
        Some(text::dec_val(s))
    } else {
        None
    }
}

/// The age threshold an argument like `7d` names; anything else falls back
/// to seven days.
pub open spec fn days_spec(s: Seq<char>) -> int {
    if s.len() >= 1 && s.last() == 'd' && days_of(s.drop_last()) is Some {
        days_of(s.drop_last())->Some_0
    } else {
        7
    }
}

/// Reads an age threshold like `7d` or `30d`: a day count and a `d`.
pub fn parse_days(s: &str) -> (r: i64)
    ensures
        r as int == days_spec(s@),
{
    let v = text::chars_of(s);
    let n = v.len();
    if n < 2 || v[n - 1] != 'd' {
        proof {
            if n >= 1 && v@.last() == 'd' {
                assert(v@.drop_last().len() == 0);
            }
        }
        return 7;
    }
    let ghost body = v@.drop_last();
    let neg = v[0] == '-';
    let from: usize = if neg {
        1
    } else {
        0
    };
    let to = n - 1;
    if from >= to {
        proof {
            assert(days_of(body) is None);
        }
        return 7;
    }
    proof {
        if neg {
            assert(body.skip(1) =~= v@.subrange(1, to as int));
        } else {
            assert(body =~= v@.subrange(0, to as int));
        }
    }
    let ghost digits = v@.subrange(from as int, to as int);
    // The largest magnitude a count may carry, by sign.
    let bound: u64 = if neg {
        9223372036854775808
    } else {
        9223372036854775807
    };
    let mut acc: u64 = 0;
    let mut i: usize = from;
    while i < to
        invariant
            from <= i <= to,
            v@ == s@,
            n == v@.len(),
            n >= 2,
            to == n - 1,
            v@[n - 1] == 'd',
            body == v@.drop_last(),
            neg ==> from == 1 && v@[0] == '-' && bound == 9223372036854775808,
            !neg ==> from == 0 && v@[0] != '-' && bound == 9223372036854775807,
            digits == v@.subrange(from as int, to as int),
            text::all_digits(digits.subrange(0, i - from)),
            acc as int == text::dec_val(digits.subrange(0, i - from)),
            acc <= bound,
        decreases to - i,
    {
        let c = v[i];
        if !(c >= '0' && c <= '9') {
            proof {
                assert(digits[i - from] == c);
                assert(!text::all_digits(digits));
                if neg {
                    assert(body.skip(1) =~= digits);
                } else {
                    assert(body =~= digits);
                }
                assert(days_of(body) is None);
            }
            return 7;
        }
        let d: u64 = (c as u32 - '0' as u32) as u64;
        let ghost pre = digits.subrange(0, i - from);
        let ghost ext = digits.subrange(0, i + 1 - from);
        proof {
            assert(ext.drop_last() =~= pre);
            assert(ext.last() == c);
        }
        if acc > bound / 10 || (acc == bound / 10 && d > bound % 10) {
            proof {
                // What is read so far already exceeds the count's range, and
                // more digits only grow it.
                assert(text::dec_val(ext) == acc * 10 + d);
                assert(acc as int * 10 + d > bound as int);
                assert(text::all_digits(ext));
                if neg {
                    assert(body.skip(1) =~= digits);
                } else {
                    assert(body =~= digits);
                }
                if text::all_digits(digits) {
                    text::lemma_dec_val_prefix(digits, i + 1 - from);
                    assert(text::dec_val(digits) > bound as int);
                }
                assert(days_of(body) is None);
            }
            return 7;
        }
        acc = acc * 10 + d;
        i = i + 1;
        proof {
            assert(acc as int == text::dec_val(digits.subrange(0, i - from)));
        }
    }
    proof {
        assert(digits.subrange(0, to - from) =~= digits);
    }
    if neg {
        proof {
            assert(days_of(body) == Some(-text::dec_val(digits)));
        }
        if acc == 9223372036854775808 {
            return i64::MIN;
        }
        return -(acc as i64);
    }
    proof {
        assert(days_of(body) == Some(text::dec_val(digits)));
    }
    acc as i64
}

/// The cutoff instant `days` days before `now`, clamped to the timestamp
/// type's range.
pub fn decay_cutoff(now: i64, days: i64) -> (r: i64)
    ensures
        r as int == ({
            let c = now as int - days as int * 86400;
            if c < i64::MIN as int {
                i64::MIN as int
            } else if c > i64::MAX as int {
                i64::MAX as int
            } else {
                c
            }
        }),
{
    let c: i128 = now as i128 - (days as i128) * 86400;
    if c < i64::MIN as i128 {
        i64::MIN
    } else if c > i64::MAX as i128 {
        i64::MAX
    } else {
        c as i64
    }
}

/// A record decays once done and untouched since before the cutoff.
pub open spec fn decays(t: TaskV, cutoff: int) -> bool {
    t.status == Status::Done && t.updated < cutoff
}

/// One line of the decay log: `id: summary (done YYYY-MM-DD)`.
pub open spec fn decay_line(t: TaskV) -> Seq<char> {
    t.id + ": "@ + t.summary + " (done "@ + time::date_of(t.updated) + ")"@ + seq!['\n']
}

/// The decayed records' lines in order.
pub open spec fn decay_lines(ds: Seq<TaskV>) -> Seq<char>
    decreases ds.len(),
{
    if ds.len() == 0 {
        Seq::empty()
    } else {
        decay_line(ds[0]) + decay_lines(ds.skip(1))
    }
}

/// One decay run's log block: a dated heading, one line per decayed
/// record, a closing blank line.
pub open spec fn decay_log_spec(ds: Seq<TaskV>, now: int) -> Seq<char> {
    "# decayed "@ + time::rfc3339_of(now) + seq!['\n'] + decay_lines(ds) + seq!['\n']
}

/// One more decayed record extends the log by its line.
proof fn lemma_decay_lines_push(ds: Seq<TaskV>, t: TaskV)
    ensures
        decay_lines(ds.push(t)) == decay_lines(ds) + decay_line(t),
    decreases ds.len(),
{
    if ds.len() == 0 {
        assert(ds.push(t) =~= seq![t]);
        assert(seq![t].skip(1) =~= Seq::<TaskV>::empty());
        assert(decay_lines(seq![t]) == decay_line(t) + decay_lines(seq![t].skip(1)));
        assert(decay_lines(ds) + decay_line(t) =~= decay_line(t) + decay_lines(seq![t].skip(1)));
    } else {
        assert(ds.push(t).skip(1) =~= ds.skip(1).push(t));
        lemma_decay_lines_push(ds.skip(1), t);
        assert(decay_lines(ds.push(t)) == decay_line(ds[0]) + (decay_lines(ds.skip(1))
            + decay_line(t)));
        assert(decay_line(ds[0]) + (decay_lines(ds.skip(1)) + decay_line(t)) =~= (decay_line(ds[0])
            + decay_lines(ds.skip(1))) + decay_line(t));
    }
}

/// Filtering keeps ids unique and timestamps in range, and every kept
/// record comes from the source.
pub proof fn lemma_filter_wf(ts: Seq<TaskV>, pred: spec_fn(TaskV) -> bool)
    requires
        unique_ids(ts),
        forall|i: int| 0 <= i < ts.len() ==> codec::ts_in_range(#[trigger] ts[i]),
    ensures
        unique_ids(ts.filter(pred)),
        forall|i: int|
            0 <= i < ts.filter(pred).len() ==> codec::ts_in_range(#[trigger] ts.filter(pred)[i]),
        forall|i: int| 0 <= i < ts.filter(pred).len() ==> ts.contains(#[trigger] ts.filter(pred)[i]),
    decreases ts.len(),
{
    reveal_with_fuel(Seq::<TaskV>::filter, 2);
    if ts.len() > 0 {
        let pre = ts.drop_last();
        let last = ts.last();
        assert forall|i: int| 0 <= i < pre.len() implies codec::ts_in_range(#[trigger] pre[i]) by {
            assert(pre[i] == ts[i]);
        }
        assert(unique_ids(pre)) by {
            assert forall|a: int, b: int| 0 <= a < b < pre.len() implies pre[a].id != pre[b].id by {
                assert(ts[a].id != ts[b].id);
            }
        }
        lemma_filter_wf(pre, pred);
        let f = ts.filter(pred);
        let fp = pre.filter(pred);
        assert forall|i: int| 0 <= i < fp.len() implies ts.contains(#[trigger] fp[i]) by {
            assert(pre.contains(fp[i]));
            let w = choose|w: int| 0 <= w < pre.len() && pre[w] == fp[i];
            assert(ts[w] == fp[i]);
        }
        if pred(last) {
            assert(f == fp.push(last));
            assert(codec::ts_in_range(ts[ts.len() - 1]));
            assert forall|a: int, b: int| 0 <= a < b < f.len() implies f[a].id != f[b].id by {
                if b < fp.len() {
                    assert(fp[a].id != fp[b].id);
                } else {
                    assert(f[b] == last);
                    assert(ts.contains(fp[a]));
                    let w = choose|w: int| 0 <= w < ts.len() && ts[w] == fp[a];
                    assert(pre.contains(fp[a]));
                    let wp = choose|w2: int| 0 <= w2 < pre.len() && pre[w2] == fp[a];
                    assert(ts[wp] == fp[a]);
                    assert(ts[wp].id != ts[ts.len() - 1].id);
                }
            }
        } else {
            assert(f == fp);
        }
    }
}

/// Decay leaves nothing more to decay: running it again with the same
/// cutoff selects no record.
pub proof fn lemma_decay_idempotent(ts: Seq<TaskV>, cutoff: int)
    ensures
        ts.filter(|t: TaskV| !decays(t, cutoff)).filter(|t: TaskV| decays(t, cutoff)).len() == 0,
    decreases ts.len(),
{
    reveal_with_fuel(Seq::<TaskV>::filter, 2);
    if ts.len() > 0 {
        lemma_decay_idempotent(ts.drop_last(), cutoff);
        let kept = ts.filter(|t: TaskV| !decays(t, cutoff));
        let keptp = ts.drop_last().filter(|t: TaskV| !decays(t, cutoff));
        if !decays(ts.last(), cutoff) {
            assert(kept == keptp.push(ts.last()));
            assert(kept.drop_last() =~= keptp);
        } else {
            assert(kept == keptp);
        }
    }
}

impl Store {
    /// Removes every done record older than the cutoff. Returns their ids,
    /// in order, and — when any decayed — the block to append to the decay
    /// log. With nothing to decay the store and the log stay untouched.
    #[verifier::rlimit(100)]
    pub fn decay(&mut self, cutoff: i64, now: i64) -> (r: (Vec<String>, Option<String>))
        requires
            old(self).wf(),
            time::valid_ts(now as int),
        ensures
            final(self).wf(),
            final(self)@ == old(self)@.filter(|t: TaskV| !decays(t, cutoff as int)),
            strs_vv(r.0@) == old(self)@.filter(|t: TaskV| decays(t, cutoff as int)).map_values(
                |t: TaskV| t.id,
            ),
            match r.1 {
                None => old(self)@.filter(|t: TaskV| decays(t, cutoff as int)).len() == 0,
                Some(log) => old(self)@.filter(|t: TaskV| decays(t, cutoff as int)).len() > 0
                    && log@ == decay_log_spec(
                    old(self)@.filter(|t: TaskV| decays(t, cutoff as int)),
                    now as int,
                ),
            },
    {
        let ghost old_v = self@;
        let mut removed: Vec<String> = Vec::new();
        let mut lines: Vec<char> = Vec::new();
        let mut i: usize = 0;
        let ghost mut p: int = 0;
        proof {
            reveal_with_fuel(Seq::<TaskV>::filter, 2);
            assert(old_v.subrange(0, 0) =~= Seq::<TaskV>::empty());
            assert(self@ =~= old_v.subrange(0, 0).filter(|t: TaskV| !decays(t, cutoff as int))
                + old_v.skip(0));
            assert(strs_vv(removed@) =~= old_v.subrange(0, 0).filter(
                |t: TaskV| decays(t, cutoff as int),
            ).map_values(|t: TaskV| t.id));
            assert(lines@ =~= decay_lines(
                old_v.subrange(0, 0).filter(|t: TaskV| decays(t, cutoff as int)),
            ));
        }
        while i < self.tasks.len()
            invariant
                0 <= p <= old_v.len(),
                i as int == old_v.subrange(0, p).filter(|t: TaskV| !decays(t, cutoff as int)).len(),
                self@ == old_v.subrange(0, p).filter(|t: TaskV| !decays(t, cutoff as int))
                    + old_v.skip(p),
                self@.len() == self.tasks@.len(),
                strs_vv(removed@) == old_v.subrange(0, p).filter(
                    |t: TaskV| decays(t, cutoff as int),
                ).map_values(|t: TaskV| t.id),
                lines@ == decay_lines(
                    old_v.subrange(0, p).filter(|t: TaskV| decays(t, cutoff as int)),
                ),
                forall|k: int| 0 <= k < old_v.len() ==> codec::ts_in_range(#[trigger] old_v[k]),
            decreases self.tasks@.len() - i,
        {
            let ghost keep = (|t: TaskV| !decays(t, cutoff as int));
            let ghost dec = (|t: TaskV| decays(t, cutoff as int));
            proof {
                reveal_with_fuel(Seq::<TaskV>::filter, 2);
                assert(old_v.skip(p).len() > 0);
                assert(self@[i as int] == old_v.skip(p)[0]);
                assert(old_v.skip(p)[0] == old_v[p]);
                assert(old_v.subrange(0, p + 1).drop_last() =~= old_v.subrange(0, p));
                assert(old_v.subrange(0, p + 1).last() == old_v[p]);
                assert(self@[i as int] == self.tasks@[i as int]@);
            }
            let is_dec = match self.tasks[i].status {
                Status::Done => self.tasks[i].updated < cutoff,
                _ => false,
            };
            if is_dec {
                proof {
                    assert(decays(old_v[p], cutoff as int));
                    assert(codec::ts_in_range(old_v[p]));
                }
                let ghost old_removed = removed@;
                let ghost old_lines = lines@;
                let ghost entry_tasks = self.tasks@;
                let idc = self.tasks[i].id.clone();
                removed.push(idc);
                text::push_str_chars(&mut lines, self.tasks[i].id.as_str());
                text::push_str_chars(&mut lines, ": ");
                text::push_str_chars(&mut lines, self.tasks[i].summary.as_str());
                text::push_str_chars(&mut lines, " (done ");
                let d = time::fmt_date(self.tasks[i].updated);
                text::push_str_chars(&mut lines, d.as_str());
                text::push_str_chars(&mut lines, ")");
                lines.push('\n');
                let _ = self.tasks.remove(i);
                proof {
                    let pre_dec = old_v.subrange(0, p).filter(dec);
                    let ext_dec = old_v.subrange(0, p + 1).filter(dec);
                    assert(ext_dec == pre_dec.push(old_v[p]));
                    lemma_decay_lines_push(pre_dec, old_v[p]);
                    assert(lines@ =~= decay_lines(ext_dec));
                    assert(idc@ == old_v[p].id);
                    assert(strs_vv(removed@) =~= strs_vv(old_removed).push(idc@));
                    assert(ext_dec.map_values(|t: TaskV| t.id) =~= pre_dec.map_values(
                        |t: TaskV| t.id,
                    ).push(old_v[p].id));
                    assert(strs_vv(removed@) =~= ext_dec.map_values(|t: TaskV| t.id));
                    let pre_keep = old_v.subrange(0, p).filter(keep);
                    assert(old_v.subrange(0, p + 1).filter(keep) == pre_keep);
                    assert(tasks_vv(entry_tasks) == pre_keep + old_v.skip(p));
                    assert(tasks_vv(self.tasks@) =~= tasks_vv(entry_tasks).remove(i as int));
                    assert(tasks_vv(entry_tasks).remove(i as int) =~= pre_keep + old_v.skip(p + 1));
                    p = p + 1;
                }
            } else {
                proof {
                    assert(!decays(old_v[p], cutoff as int));
                    let pre_keep = old_v.subrange(0, p).filter(keep);
                    let ext_keep = old_v.subrange(0, p + 1).filter(keep);
                    assert(ext_keep == pre_keep.push(old_v[p]));
                    assert(old_v.subrange(0, p + 1).filter(dec) == old_v.subrange(0, p).filter(
                        dec,
                    ));
                    assert(self@ =~= ext_keep + old_v.skip(p + 1));
                    p = p + 1;
                }
                i = i + 1;
            }
        }
        proof {
            assert(old_v.skip(p).len() == 0);
            assert(p == old_v.len());
            assert(old_v.subrange(0, p) =~= old_v);
            lemma_filter_wf(old_v, |t: TaskV| !decays(t, cutoff as int));
            assert forall|a: int, b: int|
                0 <= a < b < self@.len() implies self@[a].id != self@[b].id by {
                assert(unique_ids(old_v.filter(|t: TaskV| !decays(t, cutoff as int))));
            }
        }
        if removed.len() == 0 {
            proof {
                assert(strs_vv(removed@).len() == 0);
            }
            (removed, None)
        } else {
            let mut out: Vec<char> = Vec::new();
            text::push_str_chars(&mut out, "# decayed ");
            let ts = time::fmt_rfc3339(now);
            text::push_str_chars(&mut out, ts.as_str());
            out.push('\n');
            text::push_all(&mut out, &lines);
            out.push('\n');
            let log = text::string_of(&out);
            proof {
                assert(log@ =~= decay_log_spec(
                    old_v.filter(|t: TaskV| decays(t, cutoff as int)),
                    now as int,
                ));
                assert(strs_vv(removed@).len() > 0);
            }
            (removed, Some(log))
        }
    }
}

} // verus!
