//! The demonic monitor: a single location, chosen by a nondeterministic
//! oracle, is watched with a real permission stack; every other location is
//! left unconstrained.
//!
//! The oracle's answer is an argument of each push (`rearm`). A search that
//! explores every answer at every push watches every location on some branch,
//! from its first push on.
use vstd::prelude::*;
use crate::stack::{after_use, PermissionStack};
use crate::{BorrowError, Place, PointerKind, StackItem, Tag, RAW_TAG, STACK_DEPTH};

verus! {

/// The monitor's state: the watched location, if any, its permission stack,
/// and the next fresh tag.
pub struct MonitorView {
    pub watched: Option<(usize, usize)>,
    pub stack: Seq<StackItem>,
    pub next_tag: Tag,
}

impl MonitorView {
    /// Nothing watched yet, and no tag handed out.
    pub open spec fn initial() -> MonitorView {
        MonitorView { watched: None, stack: Seq::empty(), next_tag: 0 }
    }

    /// Whether the monitor currently watches `p`'s location.
    pub open spec fn watches(self, p: Place) -> bool {
        self.watched == Some(p.loc())
    }

    /// The state after the oracle answered `rearm` at a push on `p`. Moving
    /// the monitor to another location starts that location's stack afresh;
    /// re-arming on the watched location keeps its stack.
    pub open spec fn arm(self, p: Place, rearm: bool) -> MonitorView {
        if rearm && !self.watches(p) {
            MonitorView { watched: Some(p.loc()), stack: Seq::empty(), next_tag: self.next_tag }
        } else {
            self
        }
    }

    /// Pushes a shared read-write entry at `p`, if `p` is watched after arming.
    pub open spec fn push_shared(self, p: Place, rearm: bool) -> (MonitorView, Result<(), BorrowError>) {
        let a = self.arm(p, rearm);
        if !p.in_range() {
            (self, Err(BorrowError::OutOfRange))
        } else if !a.watches(p) {
            (a, Ok(()))
        } else if a.stack.len() >= STACK_DEPTH {
            (a, Err(BorrowError::BoundExceeded))
        } else {
            (MonitorView { watched: a.watched, stack: a.stack.push(StackItem::SharedReadWrite), next_tag: a.next_tag }, Ok(()))
        }
    }

    /// Mints the next tag, whether `p` is watched or not, and pushes its
    /// exclusive entry if `p` is watched after arming.
    pub open spec fn push_unique(self, p: Place, rearm: bool) -> (MonitorView, Result<Tag, BorrowError>) {
        let a = self.arm(p, rearm);
        if !p.in_range() {
            (self, Err(BorrowError::OutOfRange))
        } else if a.watches(p) && a.stack.len() >= STACK_DEPTH {
            (a, Err(BorrowError::BoundExceeded))
        } else if a.next_tag == u32::MAX {
            (a, Err(BorrowError::TagsExhausted))
        } else {
            (
                MonitorView {
                    watched: a.watched,
                    stack: if a.watches(p) { a.stack.push(StackItem::Unique(a.next_tag)) } else { a.stack },
                    next_tag: (a.next_tag + 1) as Tag,
                },
                Ok(a.next_tag),
            )
        }
    }

    /// Uses `(kind, tag)` at `p`; a no-op unless `p` is watched. Never re-arms.
    pub open spec fn use_2(self, p: Place, kind: PointerKind, tag: Tag) -> (MonitorView, Result<(), BorrowError>) {
        if !p.in_range() {
            (self, Err(BorrowError::OutOfRange))
        } else if !self.watches(p) {
            (self, Ok(()))
        } else {
            match after_use(self.stack, kind, tag) {
                Some(s) => (MonitorView { watched: self.watched, stack: s, next_tag: self.next_tag }, Ok(())),
                None => (self, Err(BorrowError::StackViolated)),
            }
        }
    }

    /// Uses the parent `(kind, tag)` at `p`, then pushes a fresh exclusive entry.
    pub open spec fn new_mutable_ref(self, p: Place, kind: PointerKind, tag: Tag, rearm: bool) -> (MonitorView, Result<Tag, BorrowError>) {
        let (v, r) = self.use_2(p, kind, tag);
        match r {
            Ok(_) => v.push_unique(p, rearm),
            Err(e) => (v, Err(e)),
        }
    }

    /// Uses the parent `(kind, tag)` at `p`, then pushes a shared entry.
    pub open spec fn new_mutable_raw(self, p: Place, kind: PointerKind, tag: Tag, rearm: bool) -> (MonitorView, Result<Tag, BorrowError>) {
        let (v, r) = self.use_2(p, kind, tag);
        match r {
            Ok(_) => {
                let (w, q) = v.push_shared(p, rearm);
                match q {
                    Ok(_) => (w, Ok(RAW_TAG)),
                    Err(e) => (w, Err(e)),
                }
            },
            Err(e) => (v, Err(e)),
        }
    }
}

/// The checker that tracks one nondeterministically chosen location.
pub struct DemonicState {
    watched: Option<(usize, usize)>,
    stack: PermissionStack,
    next_tag: Tag,
}

impl View for DemonicState {
    type V = MonitorView;

    closed spec fn view(&self) -> MonitorView {
        MonitorView { watched: self.watched, stack: self.stack@, next_tag: self.next_tag }
    }
}

impl Default for DemonicState {
    fn default() -> (r: DemonicState)
        ensures
            r@ == MonitorView::initial(),
            r.wf(),
    {
        DemonicState::new()
    }
}

impl DemonicState {
    /// The watched stack never exceeds `STACK_DEPTH` entries.
    pub open spec fn wf(&self) -> bool {
        self@.stack.len() <= STACK_DEPTH
    }

    /// A monitor that watches nothing yet.
    pub fn new() -> (r: DemonicState)
        ensures
            r@ == MonitorView::initial(),
            r.wf(),
    {
        DemonicState { watched: None, stack: PermissionStack::new(), next_tag: 0 }
    }

    /// The watched location, if any.
    pub fn watched(&self) -> (r: Option<(usize, usize)>)
        ensures
            r == self@.watched,
    {
        self.watched
    }

    /// The next tag that `push_unique` will hand out.
    pub fn next_tag(&self) -> (r: Tag)
        ensures
            r == self@.next_tag,
    {
        self.next_tag
    }

    /// The entries of the watched stack, oldest first.
    pub fn stack_items(&self) -> (r: &Vec<StackItem>)
        ensures
            r@ == self@.stack,
    {
        self.stack.items()
    }

    fn watches(&self, p: Place) -> (r: bool)
        ensures
            r == self@.watches(p),
    {
        match self.watched {
            Some(l) => l.0 == p.object && l.1 == p.offset,
            None => false,
        }
    }

    fn arm(&mut self, p: Place, rearm: bool)
        requires
            old(self).wf(),
        ensures
            final(self).wf(),
            final(self)@ == old(self)@.arm(p, rearm),
    {
        if rearm && !self.watches(p) {
            self.watched = Some((p.object, p.offset));
            self.stack = PermissionStack::new();
        }
    }

    /// Records a new raw pointer at `p`. The oracle's answer `rearm` moves the
    /// monitor to `p`; a shared entry is then pushed if `p` is watched.
    pub fn push_shared(&mut self, p: Place, rearm: bool) -> (r: Result<(), BorrowError>)
        requires
            old(self).wf(),
        ensures
            final(self).wf(),
            (final(self)@, r) == old(self)@.push_shared(p, rearm),
    {
        if p.offset >= p.size {
            return Err(BorrowError::OutOfRange);
        }
        self.arm(p, rearm);
        if !self.watches(p) {
            return Ok(());
        }
        self.stack.push(StackItem::SharedReadWrite)
    }

    /// Records a new exclusive reference at `p` and returns its fresh tag.
    /// The oracle's answer `rearm` moves the monitor to `p`; the tag's entry is
    /// pushed if `p` is watched.
    pub fn push_unique(&mut self, p: Place, rearm: bool) -> (r: Result<Tag, BorrowError>)
        requires
            old(self).wf(),
        ensures
            final(self).wf(),
            (final(self)@, r) == old(self)@.push_unique(p, rearm),
    {
        if p.offset >= p.size {
            return Err(BorrowError::OutOfRange);
        }
        self.arm(p, rearm);
        let here = self.watches(p);
        if here && self.stack.len() >= STACK_DEPTH {
            return Err(BorrowError::BoundExceeded);
        }
        if self.next_tag == u32::MAX {
            return Err(BorrowError::TagsExhausted);
        }
        let tag = self.next_tag;
        if here {
            let _ = self.stack.push(StackItem::Unique(tag));
        }
        self.next_tag = tag + 1;
        Ok(tag)
    }

    /// Checks an access through `(kind, tag)` at `p` against the watched
    /// stack; accesses to other locations are not checked.
    pub fn use_2(&mut self, p: Place, kind: PointerKind, tag: Tag) -> (r: Result<(), BorrowError>)
        requires
            old(self).wf(),
        ensures
            final(self).wf(),
            (final(self)@, r) == old(self)@.use_2(p, kind, tag),
    {
        if p.offset >= p.size {
            return Err(BorrowError::OutOfRange);
        }
        if !self.watches(p) {
            return Ok(());
        }
        self.stack.access(kind, tag)
    }

    /// Reborrows `(kind, tag)` at `p` as a new exclusive reference.
    pub fn new_mutable_ref(&mut self, p: Place, kind: PointerKind, tag: Tag, rearm: bool) -> (r: Result<Tag, BorrowError>)
        requires
            old(self).wf(),
        ensures
            final(self).wf(),
            (final(self)@, r) == old(self)@.new_mutable_ref(p, kind, tag, rearm),
    {
        match self.use_2(p, kind, tag) {
            Ok(()) => self.push_unique(p, rearm),
            Err(e) => Err(e),
        }
    }

    /// Derives a raw pointer from `(kind, tag)` at `p`; returns `RAW_TAG`.
    pub fn new_mutable_raw(&mut self, p: Place, kind: PointerKind, tag: Tag, rearm: bool) -> (r: Result<Tag, BorrowError>)
        requires
            old(self).wf(),
        ensures
            final(self).wf(),
            (final(self)@, r) == old(self)@.new_mutable_raw(p, kind, tag, rearm),
    {
        match self.use_2(p, kind, tag) {
            Ok(()) => match self.push_shared(p, rearm) {
                Ok(()) => Ok(RAW_TAG),
                Err(e) => Err(e),
            },
            Err(e) => Err(e),
        }
    }
}

} // verus!
