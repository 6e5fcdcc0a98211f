//! The task record model: status lifecycle, links, notes, and the
//! transitions of the task engine.

use vstd::prelude::*;
use vstd::string::StringExecFns;

use crate::codec::ParseErr;

verus! {

/// Why an operation on the store or on a task was refused.
#[derive(Clone, Debug, PartialEq, Eq)]
pub enum Error {
    NotInitialized,
    AlreadyInitialized,
    NotFound,
    Ambiguous(Vec<String>),
    Corrupt(ParseErr),
    AlreadyDone,
    AlreadyClaimed(String),
    SelfBlock,
    DuplicateBlock,
    NotBlocked,
    DuplicateLink,
    IdSpaceExhausted,
}

/// Lifecycle state of a task.
#[derive(Clone, Copy, Debug, PartialEq, Eq, Structural)]
pub enum Status {
    Open,
    Claimed,
    Done,
}

/// How one task relates to another.
#[derive(Clone, Copy, Debug, PartialEq, Eq, Structural)]
pub enum LinkKind {
    RelatesTo,
    Duplicates,
    Supersedes,
}

/// A directed relation from the owning task to `target`.
#[derive(Clone, Debug)]
pub struct Link {
    pub target: String,
    pub kind: LinkKind,
}

/// An append-only annotation on a task.
#[derive(Clone, Debug)]
pub struct Note {
    pub author: String,
    pub timestamp: i64,
    pub body: String,
}

/// The task record. Timestamps are whole seconds since the Unix epoch.
#[derive(Clone, Debug)]
pub struct Task {
    pub id: String,
    pub status: Status,
    pub summary: String,
    pub priority: u8,
    pub agent: Option<String>,
    pub change: Option<String>,
    pub created: i64,
    pub updated: i64,
    pub blocked_by: Vec<String>,
    pub links: Vec<Link>,
    pub notes: Vec<Note>,
}

/// Mathematical image of a `Link`.
pub ghost struct LinkV {
    pub target: Seq<char>,
    pub kind: LinkKind,
}

/// Mathematical image of a `Note`.
pub ghost struct NoteV {
    pub author: Seq<char>,
    pub timestamp: int,
    pub body: Seq<char>,
}

/// Mathematical image of a `Task`.
pub ghost struct TaskV {
    pub id: Seq<char>,
    pub status: Status,
    pub summary: Seq<char>,
    pub priority: u8,
    pub agent: Option<Seq<char>>,
    pub change: Option<Seq<char>>,
    pub created: int,
    pub updated: int,
    pub blocked_by: Seq<Seq<char>>,
    pub links: Seq<LinkV>,
    pub notes: Seq<NoteV>,
}

/// The view of an optional string field.
pub open spec fn opt_vv(o: Option<String>) -> Option<Seq<char>> {
    match o {
        Some(s) => Some(s@),
        None => None,
    }
}

/// The views of a string list, element for element.
pub open spec fn strs_vv(s: Seq<String>) -> Seq<Seq<char>> {
    Seq::new(s.len(), |i: int| s[i]@)
}

/// The views of a link list, element for element.
pub open spec fn links_vv(s: Seq<Link>) -> Seq<LinkV> {
    Seq::new(s.len(), |i: int| s[i]@)
}

/// The views of a note list, element for element.
pub open spec fn notes_vv(s: Seq<Note>) -> Seq<NoteV> {
    Seq::new(s.len(), |i: int| s[i]@)
}

impl View for Link {
    type V = LinkV;

    open spec fn view(&self) -> LinkV {
        LinkV { target: self.target@, kind: self.kind }
    }
}

impl View for Note {
    type V = NoteV;

    open spec fn view(&self) -> NoteV {
        NoteV { author: self.author@, timestamp: self.timestamp as int, body: self.body@ }
    }
}

/// Who a claimed task reports as its claimant.
pub open spec fn claimant_of(t: TaskV) -> Seq<char> {
    match t.agent {
        Some(a) => a,
        None => "unknown"@,
    }
}

/// Who signs a closing note: the claimant, else the caller's fallback,
/// else `unknown`.
pub open spec fn done_author(t: TaskV, fallback: Option<Seq<char>>) -> Seq<char> {
    match t.agent {
        Some(a) => a,
        None => match fallback {
            Some(f) => f,
            None => "unknown"@,
        },
    }
}

/// Who signs a free note: the explicit author, else the claimant, else the
/// caller's fallback, else `unknown`.
pub open spec fn note_author(t: TaskV, author: Option<Seq<char>>, fallback: Option<Seq<char>>) -> Seq<
    char,
> {
    match author {
        Some(a) => a,
        None => done_author(t, fallback),
    }
}

/// What `done` leaves behind: status `Done`, `updated` refreshed, the
/// optional closing note appended. The claimant is kept on the record.
pub open spec fn done_result(
    t: TaskV,
    body: Option<Seq<char>>,
    fallback: Option<Seq<char>>,
    now: int,
) -> TaskV {
    let base = TaskV { status: Status::Done, updated: now, ..t };
    match body {
        None => base,
        Some(b) => TaskV {
            notes: base.notes.push(NoteV { author: done_author(t, fallback), timestamp: now, body: b }),
            ..base
        },
    }
}

/// Some task in `tasks` carries the id `dep` and is not done. An id that
/// resolves to no task blocks nothing: what has decayed was done.
pub open spec fn blocks(tasks: Seq<TaskV>, dep: Seq<char>) -> bool {
    exists|j: int| 0 <= j < tasks.len() && tasks[j].id == dep && tasks[j].status != Status::Done
}

/// The task waits on at least one live, unfinished blocker.
pub open spec fn blocked_spec(t: TaskV, tasks: Seq<TaskV>) -> bool {
    exists|i: int| 0 <= i < t.blocked_by.len() && blocks(tasks, t.blocked_by[i])
}

/// Open and not blocked: fit to be worked on.
pub open spec fn ready_spec(t: TaskV, tasks: Seq<TaskV>) -> bool {
    t.status == Status::Open && !blocked_spec(t, tasks)
}

impl View for Task {
    type V = TaskV;

    open spec fn view(&self) -> TaskV {
        TaskV {
            id: self.id@,
            status: self.status,
            summary: self.summary@,
            priority: self.priority,
            agent: opt_vv(self.agent),
            change: opt_vv(self.change),
            created: self.created as int,
            updated: self.updated as int,
            blocked_by: strs_vv(self.blocked_by@),
            links: links_vv(self.links@),
            notes: notes_vv(self.notes@),
        }
    }
}

impl Task {
    /// `Open → Claimed`. Refused with `AlreadyDone` on a done task and with
    /// `AlreadyClaimed`, naming the current claimant, on a claimed one.
    pub fn claim(&mut self, agent: String, now: i64) -> (r: Result<(), Error>)
        ensures
            old(self)@.status == Status::Done ==> r == Err::<(), Error>(Error::AlreadyDone)
                && *final(self) == *old(self),
            old(self)@.status == Status::Claimed ==> *final(self) == *old(self) && (match r {
                Err(Error::AlreadyClaimed(by)) => by@ == claimant_of(old(self)@),
                _ => false,
            }),
            old(self)@.status == Status::Open ==> r == Ok::<(), Error>(()) && final(self)@
                == (TaskV {
                status: Status::Claimed,
                agent: Some(agent@),
                updated: now as int,
                ..old(self)@
            }),
    {
        match self.status {
            Status::Done => Err(Error::AlreadyDone),
            Status::Claimed => {
                let by = match &self.agent {
                    Some(a) => a.clone(),
                    None => String::from_str("unknown"),
                };
                Err(Error::AlreadyClaimed(by))
            },
            Status::Open => {
                self.status = Status::Claimed;
                self.agent = Some(agent);
                self.updated = now;
                Ok(())
            },
        }
    }

    /// `Open | Claimed → Done`, appending the optional closing note, signed
    /// by the claimant or the fallback. The claimant stays on the record;
    /// only `reopen` clears it. Refused with `AlreadyDone` on a done task.
    pub fn done(
        &mut self,
        note_body: Option<String>,
        fallback_author: Option<String>,
        now: i64,
    ) -> (r: Result<(), Error>)
        ensures
            old(self)@.status == Status::Done ==> r == Err::<(), Error>(Error::AlreadyDone)
                && *final(self) == *old(self),
            old(self)@.status != Status::Done ==> r == Ok::<(), Error>(()) && final(self)@
                == done_result(old(self)@, opt_vv(note_body), opt_vv(fallback_author), now as int),
    {
        match self.status {
            Status::Done => Err(Error::AlreadyDone),
            _ => {
                self.status = Status::Done;
                self.updated = now;
                match note_body {
                    None => {},
                    Some(b) => {
                        let author = match &self.agent {
                            Some(a) => a.clone(),
                            None => match fallback_author {
                                Some(f) => f,
                                None => String::from_str("unknown"),
                            },
                        };
                        self.notes.push(Note { author, timestamp: now, body: b });
                        proof {
                            assert(notes_vv(self.notes@) =~= done_result(
                                old(self)@,
                                opt_vv(note_body),
                                opt_vv(fallback_author),
                                now as int,
                            ).notes);
                        }
                    },
                }
                Ok(())
            },
        }
    }

    /// `Claimed | Done → Open`, clearing the claimant unconditionally.
    /// Never fails.
    pub fn reopen(&mut self, now: i64)
        ensures
            final(self)@ == (TaskV {
                status: Status::Open,
                agent: None,
                updated: now as int,
                ..old(self)@
            }),
    {
        self.status = Status::Open;
        self.agent = None;
        self.updated = now;
    }

    /// Whether `dep` already stands among the blockers.
    pub fn has_blocker(&self, dep: &String) -> (r: bool)
        ensures
            r == self@.blocked_by.contains(dep@),
    {
        let mut i: usize = 0;
        while i < self.blocked_by.len()
            invariant
                i <= self.blocked_by@.len(),
                forall|k: int| 0 <= k < i ==> self@.blocked_by[k] != dep@,
                self@.blocked_by.len() == self.blocked_by@.len(),
        decreases self.blocked_by@.len() - i,
        {
            if self.blocked_by[i].eq(dep) {
                proof {
                    assert(self@.blocked_by[i as int] == dep@);
                }
                return true;
            }
            i = i + 1;
        }
        proof {
            if self@.blocked_by.contains(dep@) {
                let k = choose|k: int| 0 <= k < self@.blocked_by.len() && self@.blocked_by[k] == dep@;
                assert(self@.blocked_by[k] != dep@);
            }
        }
        false
    }

    /// Appends `on_id` to the blockers. Refused with `SelfBlock` for the
    /// task's own id and with `DuplicateBlock` for one already present.
    pub fn block(&mut self, on_id: String, now: i64) -> (r: Result<(), Error>)
        ensures
            old(self)@.id == on_id@ ==> r == Err::<(), Error>(Error::SelfBlock)
                && *final(self) == *old(self),
            old(self)@.id != on_id@ && old(self)@.blocked_by.contains(on_id@) ==> r == Err::<
                (),
                Error,
            >(Error::DuplicateBlock) && *final(self) == *old(self),
            old(self)@.id != on_id@ && !old(self)@.blocked_by.contains(on_id@) ==> r == Ok::<
                (),
                Error,
            >(()) && final(self)@ == (TaskV {
                blocked_by: old(self)@.blocked_by.push(on_id@),
                updated: now as int,
                ..old(self)@
            }),
    {
        if self.id.eq(&on_id) {
            return Err(Error::SelfBlock);
        }
        if self.has_blocker(&on_id) {
            return Err(Error::DuplicateBlock);
        }
        self.blocked_by.push(on_id);
        self.updated = now;
        proof {
            assert(strs_vv(self.blocked_by@) =~= old(self)@.blocked_by.push(
                self.blocked_by@[self.blocked_by@.len() - 1]@,
            ));
        }
        Ok(())
    }

    /// Removes `from_id` from the blockers, every occurrence. Refused with
    /// `NotBlocked` where it is absent.
    pub fn unblock(&mut self, from_id: &String, now: i64) -> (r: Result<(), Error>)
        ensures
            !old(self)@.blocked_by.contains(from_id@) ==> r == Err::<(), Error>(Error::NotBlocked)
                && *final(self) == *old(self),
            old(self)@.blocked_by.contains(from_id@) ==> r == Ok::<(), Error>(()) && final(self)@
                == (TaskV {
                blocked_by: old(self)@.blocked_by.filter(|b: Seq<char>| b != from_id@),
                updated: now as int,
                ..old(self)@
            }),
    {
        if !self.has_blocker(from_id) {
            return Err(Error::NotBlocked);
        }
        let ghost bb = self@.blocked_by;
        let ghost pred = (|b: Seq<char>| b != from_id@);
        let mut kept: Vec<String> = Vec::new();
        let mut i: usize = 0;
        proof {
            reveal_with_fuel(Seq::<Seq<char>>::filter, 2);
            assert(bb.subrange(0, 0) =~= Seq::<Seq<char>>::empty());
            assert(Seq::<Seq<char>>::empty().filter(pred) =~= Seq::<Seq<char>>::empty());
            assert(strs_vv(kept@) =~= bb.subrange(0, 0).filter(pred));
        }
        while i < self.blocked_by.len()
            invariant
                i <= self.blocked_by@.len(),
                bb == strs_vv(self.blocked_by@),
                bb.len() == self.blocked_by@.len(),
                strs_vv(kept@) == bb.subrange(0, i as int).filter(|b: Seq<char>| b != from_id@),
            decreases self.blocked_by@.len() - i,
        {
            let ghost pre = bb.subrange(0, i as int);
            let ghost ext = bb.subrange(0, i + 1);
            proof {
                reveal_with_fuel(Seq::<Seq<char>>::filter, 2);
                assert(ext.drop_last() =~= pre);
                assert(ext.last() == bb[i as int]);
            }
            if !self.blocked_by[i].eq(from_id) {
                let ghost old_kept = kept@;
                let s = self.blocked_by[i].clone();
                kept.push(s);
                proof {
                    assert(strs_vv(kept@) =~= strs_vv(old_kept).push(bb[i as int]));
                    assert(strs_vv(kept@) =~= ext.filter(|b: Seq<char>| b != from_id@));
                }
            } else {
                proof {
                    assert(strs_vv(kept@) =~= ext.filter(|b: Seq<char>| b != from_id@));
                }
            }
            i = i + 1;
        }
        proof {
            assert(bb.subrange(0, bb.len() as int) =~= bb);
        }
        self.blocked_by = kept;
        self.updated = now;
        Ok(())
    }

    /// Whether a link to `target` of kind `kind` already stands.
    pub fn has_link(&self, target: &String, kind: LinkKind) -> (r: bool)
        ensures
            r == exists|k: int|
                0 <= k < self@.links.len() && #[trigger] self@.links[k] == (LinkV {
                    target: target@,
                    kind: kind,
                }),
    {
        let mut i: usize = 0;
        while i < self.links.len()
            invariant
                i <= self.links@.len(),
                self@.links.len() == self.links@.len(),
                forall|k: int|
                    0 <= k < i ==> #[trigger] self@.links[k] != (LinkV {
                        target: target@,
                        kind: kind,
                    }),
            decreases self.links@.len() - i,
        {
            if self.links[i].target.eq(target) && self.links[i].kind == kind {
                proof {
                    assert(self@.links[i as int] == (LinkV { target: target@, kind: kind }));
                }
                return true;
            }
            proof {
                assert(self@.links[i as int] != (LinkV { target: target@, kind: kind }));
            }
            i = i + 1;
        }
        false
    }

    /// Appends a link. Refused with `DuplicateLink` where the same target
    /// and kind already stand.
    pub fn link(&mut self, target: String, kind: LinkKind, now: i64) -> (r: Result<(), Error>)
        ensures
            old(self)@.links.contains(LinkV { target: target@, kind: kind }) ==> r == Err::<
                (),
                Error,
            >(Error::DuplicateLink) && *final(self) == *old(self),
            !old(self)@.links.contains(LinkV { target: target@, kind: kind }) ==> r == Ok::<
                (),
                Error,
            >(()) && final(self)@ == (TaskV {
                links: old(self)@.links.push(LinkV { target: target@, kind: kind }),
                updated: now as int,
                ..old(self)@
            }),
    {
        if self.has_link(&target, kind) {
            return Err(Error::DuplicateLink);
        }
        self.links.push(Link { target, kind });
        self.updated = now;
        proof {
            assert(links_vv(self.links@) =~= old(self)@.links.push(
                self.links@[self.links@.len() - 1]@,
            ));
        }
        Ok(())
    }

    /// Appends a note, signed by the explicit author, else the claimant,
    /// else the fallback. Never fails.
    pub fn note(
        &mut self,
        author: Option<String>,
        fallback_author: Option<String>,
        body: String,
        now: i64,
    )
        ensures
            final(self)@ == (TaskV {
                notes: old(self)@.notes.push(
                    NoteV {
                        author: note_author(old(self)@, opt_vv(author), opt_vv(fallback_author)),
                        timestamp: now as int,
                        body: body@,
                    },
                ),
                updated: now as int,
                ..old(self)@
            }),
    {
        let who = match author {
            Some(a) => a,
            None => match &self.agent {
                Some(a) => a.clone(),
                None => match fallback_author {
                    Some(f) => f,
                    None => String::from_str("unknown"),
                },
            },
        };
        self.notes.push(Note { author: who, timestamp: now, body });
        self.updated = now;
        proof {
            assert(notes_vv(self.notes@) =~= old(self)@.notes.push(
                self.notes@[self.notes@.len() - 1]@,
            ));
        }
    }
}

} // verus!
