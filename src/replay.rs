//! Operation sequences, and replaying them on either checker. A run stops at
//! the first rejected operation.
use vstd::prelude::*;
use crate::monitor::{DemonicState, MonitorView};
use crate::tracker::{FullView, SState};
use crate::{BorrowError, Place, PointerKind, Tag};

verus! {

/// One event of a program under check.
#[derive(Clone, Copy, Debug, PartialEq, Eq, Structural)]
pub enum Op {
    /// A raw pointer is created at the place.
    PushShared(Place),
    /// An exclusive reference is created at the place.
    PushUnique(Place),
    /// The place is accessed through the permission `(kind, tag)`.
    Use(Place, PointerKind, Tag),
    /// The permission `(kind, tag)` is reborrowed as an exclusive reference.
    NewMutableRef(Place, PointerKind, Tag),
    /// A raw pointer is derived from the permission `(kind, tag)`.
    NewMutableRaw(Place, PointerKind, Tag),
}

impl Op {
    /// The place the operation acts on.
    pub open spec fn place(self) -> Place {
        match self {
            Op::PushShared(p) => p,
            Op::PushUnique(p) => p,
            Op::Use(p, _, _) => p,
            Op::NewMutableRef(p, _, _) => p,
            Op::NewMutableRaw(p, _, _) => p,
        }
    }

    /// The place the operation acts on.
    pub fn target(&self) -> (r: Place)
        ensures
            r == self.place(),
    {
        match *self {
            Op::PushShared(p) => p,
            Op::PushUnique(p) => p,
            Op::Use(p, _, _) => p,
            Op::NewMutableRef(p, _, _) => p,
            Op::NewMutableRaw(p, _, _) => p,
        }
    }

    /// Whether the operation only creates a permission, without a parent.
    pub open spec fn is_push(self) -> bool {
        self is PushShared || self is PushUnique
    }
}

/// The outcome of an operation that mints no tag.
pub open spec fn no_tag<T>(r: Result<T, BorrowError>) -> Result<Option<Tag>, BorrowError> {
    match r {
        Ok(_) => Ok(None),
        Err(e) => Err(e),
    }
}

/// The outcome of an operation that mints a tag.
pub open spec fn minted(r: Result<Tag, BorrowError>) -> Result<Option<Tag>, BorrowError> {
    match r {
        Ok(t) => Ok(Some(t)),
        Err(e) => Err(e),
    }
}

/// Adds the outcome of one more operation to the outcome of a run.
pub open spec fn extend(ts: Seq<Tag>, q: Result<Option<Tag>, BorrowError>) -> Result<Seq<Tag>, BorrowError> {
    match q {
        Ok(Some(t)) => Ok(ts.push(t)),
        Ok(None) => Ok(ts),
        Err(e) => Err(e),
    }
}

/// The view of what `replay` returns.
pub open spec fn run_view(r: Result<Vec<Tag>, BorrowError>) -> Result<Seq<Tag>, BorrowError> {
    match r {
        Ok(ts) => Ok(ts@),
        Err(e) => Err(e),
    }
}

/// One operation on the full tracker.
pub open spec fn full_step(v: FullView, op: Op) -> (FullView, Result<Option<Tag>, BorrowError>) {
    match op {
        Op::PushShared(p) => (v.push_shared(p).0, no_tag(v.push_shared(p).1)),
        Op::PushUnique(p) => (v.push_unique(p).0, minted(v.push_unique(p).1)),
        Op::Use(p, k, t) => (v.use_2(p, k, t).0, no_tag(v.use_2(p, k, t).1)),
        Op::NewMutableRef(p, k, t) => (v.new_mutable_ref(p, k, t).0, minted(v.new_mutable_ref(p, k, t).1)),
        Op::NewMutableRaw(p, k, t) => (v.new_mutable_raw(p, k, t).0, no_tag(v.new_mutable_raw(p, k, t).1)),
    }
}

/// A run of the full tracker: the final state, and either the tags minted in
/// order or the error of the first rejected operation.
pub open spec fn full_run(v: FullView, ops: Seq<Op>) -> (FullView, Result<Seq<Tag>, BorrowError>)
    decreases ops.len(),
{
    if ops.len() == 0 {
        (v, Ok(Seq::empty()))
    } else {
        let (w, r) = full_run(v, ops.drop_last());
        match r {
            Ok(ts) => (full_step(w, ops.last()).0, extend(ts, full_step(w, ops.last()).1)),
            Err(e) => (w, Err(e)),
        }
    }
}

/// One operation on the demonic monitor, the oracle answering `rearm`.
pub open spec fn demonic_step(v: MonitorView, op: Op, rearm: bool) -> (MonitorView, Result<Option<Tag>, BorrowError>) {
    match op {
        Op::PushShared(p) => (v.push_shared(p, rearm).0, no_tag(v.push_shared(p, rearm).1)),
        Op::PushUnique(p) => (v.push_unique(p, rearm).0, minted(v.push_unique(p, rearm).1)),
        Op::Use(p, k, t) => (v.use_2(p, k, t).0, no_tag(v.use_2(p, k, t).1)),
        Op::NewMutableRef(p, k, t) => (
            v.new_mutable_ref(p, k, t, rearm).0,
            minted(v.new_mutable_ref(p, k, t, rearm).1),
        ),
        Op::NewMutableRaw(p, k, t) => (
            v.new_mutable_raw(p, k, t, rearm).0,
            no_tag(v.new_mutable_raw(p, k, t, rearm).1),
        ),
    }
}

/// A run of the demonic monitor where the oracle answers `arms[i]` at
/// operation `i`.
pub open spec fn demonic_run(v: MonitorView, ops: Seq<Op>, arms: Seq<bool>) -> (MonitorView, Result<Seq<Tag>, BorrowError>)
    decreases ops.len(),
{
    if ops.len() == 0 {
        (v, Ok(Seq::empty()))
    } else {
        let (w, r) = demonic_run(v, ops.drop_last(), arms);
        let i = ops.len() - 1;
        match r {
            Ok(ts) => (demonic_step(w, ops.last(), arms[i]).0, extend(ts, demonic_step(w, ops.last(), arms[i]).1)),
            Err(e) => (w, Err(e)),
        }
    }
}

/// Once a run has failed, later operations change nothing.
proof fn lemma_full_run_stops(v: FullView, ops: Seq<Op>, k: int, m: int)
    requires
        0 <= k <= m <= ops.len(),
        full_run(v, ops.take(k)).1 is Err,
    ensures
        full_run(v, ops.take(m)) == full_run(v, ops.take(k)),
    decreases m - k,
{
    if m > k {
        lemma_full_run_stops(v, ops, k, m - 1);
        assert(ops.take(m).drop_last() == ops.take(m - 1));
    }
}

proof fn lemma_demonic_run_stops(v: MonitorView, ops: Seq<Op>, arms: Seq<bool>, k: int, m: int)
    requires
        0 <= k <= m <= ops.len(),
        demonic_run(v, ops.take(k), arms).1 is Err,
    ensures
        demonic_run(v, ops.take(m), arms) == demonic_run(v, ops.take(k), arms),
    decreases m - k,
{
    if m > k {
        lemma_demonic_run_stops(v, ops, arms, k, m - 1);
        assert(ops.take(m).drop_last() == ops.take(m - 1));
    }
}

impl SState {
    /// Applies one operation.
    pub fn apply(&mut self, op: Op) -> (r: Result<Option<Tag>, BorrowError>)
        requires
            old(self).wf(),
        ensures
            final(self).wf(),
            (final(self)@, r) == full_step(old(self)@, op),
    {
        match op {
            Op::PushShared(p) => match self.push_shared(p) {
                Ok(()) => Ok(None),
                Err(e) => Err(e),
            },
            Op::PushUnique(p) => match self.push_unique(p) {
                Ok(t) => Ok(Some(t)),
                Err(e) => Err(e),
            },
            Op::Use(p, k, t) => match self.use_2(p, k, t) {
                Ok(()) => Ok(None),
                Err(e) => Err(e),
            },
            Op::NewMutableRef(p, k, t) => match self.new_mutable_ref(p, k, t) {
                Ok(n) => Ok(Some(n)),
                Err(e) => Err(e),
            },
            Op::NewMutableRaw(p, k, t) => match self.new_mutable_raw(p, k, t) {
                Ok(_) => Ok(None),
                Err(e) => Err(e),
            },
        }
    }

    /// Applies the operations in order, stopping at the first that is
    /// rejected. Returns the tags minted, or the error.
    pub fn replay(&mut self, ops: &Vec<Op>) -> (r: Result<Vec<Tag>, BorrowError>)
        requires
            old(self).wf(),
        ensures
            final(self).wf(),
            final(self)@ == full_run(old(self)@, ops@).0,
            run_view(r) == full_run(old(self)@, ops@).1,
    {
        let ghost v0 = self@;
        let mut tags: Vec<Tag> = Vec::new();
        let mut i: usize = 0;
        proof { assert(ops@.take(0) =~= Seq::<Op>::empty()); }
        while i < ops.len()
            invariant
                self.wf(),
                v0 == old(self)@,
                i <= ops@.len(),
                full_run(v0, ops@.take(i as int)) == (self@, Ok::<Seq<Tag>, BorrowError>(tags@)),
            decreases ops@.len() - i,
        {
            proof {
                assert(ops@.take(i + 1).drop_last() == ops@.take(i as int));
                assert(ops@.take(i + 1).last() == ops@[i as int]);
            }
            let res = self.apply(ops[i]);
            match res {
                Ok(Some(t)) => tags.push(t),
                Ok(None) => {},
                Err(e) => {
                    proof {
                        assert(full_run(v0, ops@.take(i + 1)).1 == Err::<Seq<Tag>, BorrowError>(e));
                        assert(full_run(v0, ops@.take(i + 1)).0 == self@);
                        lemma_full_run_stops(v0, ops@, i + 1, ops@.len() as int);
                        assert(ops@.take(ops@.len() as int) == ops@);
                        assert(full_run(v0, ops@) == full_run(v0, ops@.take(i + 1)));
                    }
                    return Err(e);
                },
            }
            i += 1;
        }
        proof { assert(ops@.take(ops@.len() as int) == ops@); }
        Ok(tags)
    }
}

impl DemonicState {
    /// Applies one operation, the oracle having answered `rearm`.
    pub fn apply(&mut self, op: Op, rearm: bool) -> (r: Result<Option<Tag>, BorrowError>)
        requires
            old(self).wf(),
        ensures
            final(self).wf(),
            (final(self)@, r) == demonic_step(old(self)@, op, rearm),
    {
        match op {
            Op::PushShared(p) => match self.push_shared(p, rearm) {
                Ok(()) => Ok(None),
                Err(e) => Err(e),
            },
            Op::PushUnique(p) => match self.push_unique(p, rearm) {
                Ok(t) => Ok(Some(t)),
                Err(e) => Err(e),
            },
            Op::Use(p, k, t) => match self.use_2(p, k, t) {
                Ok(()) => Ok(None),
                Err(e) => Err(e),
            },
            Op::NewMutableRef(p, k, t) => match self.new_mutable_ref(p, k, t, rearm) {
                Ok(n) => Ok(Some(n)),
                Err(e) => Err(e),
            },
            Op::NewMutableRaw(p, k, t) => match self.new_mutable_raw(p, k, t, rearm) {
                Ok(_) => Ok(None),
                Err(e) => Err(e),
            },
        }
    }

    /// Applies the operations in order, the oracle answering `arms[i]` at
    /// operation `i`, stopping at the first that is rejected. Returns the tags
    /// minted, or the error.
    pub fn replay(&mut self, ops: &Vec<Op>, arms: &Vec<bool>) -> (r: Result<Vec<Tag>, BorrowError>)
        requires
            old(self).wf(),
            arms@.len() == ops@.len(),
        ensures
            final(self).wf(),
            final(self)@ == demonic_run(old(self)@, ops@, arms@).0,
            run_view(r) == demonic_run(old(self)@, ops@, arms@).1,
    {
        let ghost v0 = self@;
        let mut tags: Vec<Tag> = Vec::new();
        let mut i: usize = 0;
        proof { assert(ops@.take(0) =~= Seq::<Op>::empty()); }
        while i < ops.len()
            invariant
                self.wf(),
                v0 == old(self)@,
                i <= ops@.len(),
                arms@.len() == ops@.len(),
                demonic_run(v0, ops@.take(i as int), arms@) == (self@, Ok::<Seq<Tag>, BorrowError>(tags@)),
            decreases ops@.len() - i,
        {
            proof {
                assert(ops@.take(i + 1).drop_last() == ops@.take(i as int));
                assert(ops@.take(i + 1).last() == ops@[i as int]);
            }
            let res = self.apply(ops[i], arms[i]);
            match res {
                Ok(Some(t)) => tags.push(t),
                Ok(None) => {},
                Err(e) => {
                    proof {
                        assert(demonic_run(v0, ops@.take(i + 1), arms@).1 == Err::<Seq<Tag>, BorrowError>(e));
                        lemma_demonic_run_stops(v0, ops@, arms@, i + 1, ops@.len() as int);
                        assert(ops@.take(ops@.len() as int) == ops@);
                    }
                    return Err(e);
                },
            }
            i += 1;
        }
        proof { assert(ops@.take(ops@.len() as int) == ops@); }
        Ok(tags)
    }
}

} // verus!
