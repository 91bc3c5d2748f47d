//! Tracking every location: one permission stack per `(object, offset)`.
use vstd::prelude::*;
use crate::stack::{after_use, top_grant, PermissionStack};
use crate::{BorrowError, Place, PointerKind, StackItem, Tag, RAW_TAG, STACK_DEPTH};

verus! {

/// The state of the full tracker: a permission stack per location (a
/// location without an entry has an empty stack) and the next fresh tag.
pub struct FullView {
    pub stacks: Map<(usize, usize), Seq<StackItem>>,
    pub next_tag: Tag,
}

impl FullView {
    /// No location has a permission yet, and no tag was handed out.
    pub open spec fn initial() -> FullView {
        FullView { stacks: Map::empty(), next_tag: 0 }
    }

    /// The permission stack of location `l`.
    pub open spec fn stack_of(self, l: (usize, usize)) -> Seq<StackItem> {
        if self.stacks.contains_key(l) {
            self.stacks[l]
        } else {
            Seq::empty()
        }
    }

    /// The same state with `s` as the stack of `l`.
    pub open spec fn with_stack(self, l: (usize, usize), s: Seq<StackItem>) -> FullView {
        FullView { stacks: self.stacks.insert(l, s), next_tag: self.next_tag }
    }

    /// No stack holds more than `STACK_DEPTH` entries.
    pub open spec fn bounded(self) -> bool {
        forall|l: (usize, usize)| #[trigger] self.stack_of(l).len() <= STACK_DEPTH
    }

    /// Pushes a shared read-write entry on the stack of `p`.
    pub open spec fn push_shared(self, p: Place) -> (FullView, Result<(), BorrowError>) {
        let s = self.stack_of(p.loc());
        if !p.in_range() {
            (self, Err(BorrowError::OutOfRange))
        } else if s.len() >= STACK_DEPTH {
            (self, Err(BorrowError::BoundExceeded))
        } else {
            (self.with_stack(p.loc(), s.push(StackItem::SharedReadWrite)), Ok(()))
        }
    }

    /// Mints the next tag and pushes its exclusive entry on the stack of `p`.
    pub open spec fn push_unique(self, p: Place) -> (FullView, Result<Tag, BorrowError>) {
        let s = self.stack_of(p.loc());
        if !p.in_range() {
            (self, Err(BorrowError::OutOfRange))
        } else if s.len() >= STACK_DEPTH {
            (self, Err(BorrowError::BoundExceeded))
        } else if self.next_tag == u32::MAX {
            (self, Err(BorrowError::TagsExhausted))
        } else {
            (
                FullView {
                    stacks: self.stacks.insert(p.loc(), s.push(StackItem::Unique(self.next_tag))),
                    next_tag: (self.next_tag + 1) as Tag,
                },
                Ok(self.next_tag),
            )
        }
    }

    /// Uses the permission `(kind, tag)` at `p`.
    pub open spec fn use_2(self, p: Place, kind: PointerKind, tag: Tag) -> (FullView, Result<(), BorrowError>) {
        if !p.in_range() {
            (self, Err(BorrowError::OutOfRange))
        } else {
            match after_use(self.stack_of(p.loc()), kind, tag) {
                Some(s) => (self.with_stack(p.loc(), s), Ok(())),
                None => (self, Err(BorrowError::StackViolated)),
            }
        }
    }

    /// Reborrows `(kind, tag)` at `p` as a new exclusive reference.
    pub open spec fn new_mutable_ref(self, p: Place, kind: PointerKind, tag: Tag) -> (FullView, Result<Tag, BorrowError>) {
        let (v, r) = self.use_2(p, kind, tag);
        match r {
            Ok(_) => v.push_unique(p),
            Err(e) => (v, Err(e)),
        }
    }

    /// Derives a raw pointer from `(kind, tag)` at `p`.
    pub open spec fn new_mutable_raw(self, p: Place, kind: PointerKind, tag: Tag) -> (FullView, Result<Tag, BorrowError>) {
        let (v, r) = self.use_2(p, kind, tag);
        match r {
            Ok(_) => {
                let (w, q) = v.push_shared(p);
                match q {
                    Ok(_) => (w, Ok(RAW_TAG)),
                    Err(e) => (w, Err(e)),
                }
            },
            Err(e) => (v, Err(e)),
        }
    }
}

struct Slot {
    object: usize,
    offset: usize,
    stack: PermissionStack,
}

impl Slot {
    spec fn loc(self) -> (usize, usize) {
        (self.object, self.offset)
    }
}

/// The checker that tracks every location in full.
pub struct SState {
    slots: Vec<Slot>,
    next_tag: Tag,
}

impl SState {
    closed spec fn holds(&self, l: (usize, usize)) -> bool {
        exists|i: int| 0 <= i < self.slots@.len() && (#[trigger] self.slots@[i]).loc() == l
    }

    closed spec fn slot_index(&self, l: (usize, usize)) -> int {
        choose|i: int| 0 <= i < self.slots@.len() && (#[trigger] self.slots@[i]).loc() == l
    }

    pub closed spec fn inv(&self) -> bool {
        &&& forall|i: int, j: int|
            0 <= i < j < self.slots@.len() ==> (#[trigger] self.slots@[i]).loc() != (#[trigger] self.slots@[j]).loc()
        &&& forall|i: int| 0 <= i < self.slots@.len() ==> (#[trigger] self.slots@[i]).stack.wf()
    }

    /// The internal invariant holds and no stack exceeds `STACK_DEPTH`.
    pub open spec fn wf(&self) -> bool {
        self.inv() && self@.bounded()
    }
}

impl View for SState {
    type V = FullView;

    closed spec fn view(&self) -> FullView {
        FullView {
            stacks: Map::new(|l: (usize, usize)| self.holds(l), |l: (usize, usize)| self.slots@[self.slot_index(l)].stack@),
            next_tag: self.next_tag,
        }
    }
}

impl Default for SState {
    fn default() -> (r: SState)
        ensures
            r@ == FullView::initial(),
            r.wf(),
    {
        SState::new()
    }
}

impl SState {
    proof fn lemma_slot(&self, k: int)
        requires
            self.inv(),
            0 <= k < self.slots@.len(),
        ensures
            self@.stacks.contains_key(self.slots@[k].loc()),
            self@.stack_of(self.slots@[k].loc()) == self.slots@[k].stack@,
    {
        let l = self.slots@[k].loc();
        assert(self.holds(l));
        let i = self.slot_index(l);
        assert(i == k);
    }

    proof fn lemma_bounded(&self)
        requires
            self.inv(),
        ensures
            self@.bounded(),
    {
        assert forall|l: (usize, usize)| #[trigger] self@.stack_of(l).len() <= STACK_DEPTH by {
            if self@.stacks.contains_key(l) {
                let i = self.slot_index(l);
                assert(self.slots@[i].stack.wf());
            }
        }
    }

    proof fn lemma_update(pre: &SState, post: &SState, k: int)
        requires
            pre.inv(),
            0 <= k < pre.slots@.len(),
            post.slots@.len() == pre.slots@.len(),
            forall|i: int| 0 <= i < pre.slots@.len() && i != k ==> post.slots@[i] == pre.slots@[i],
            post.slots@[k].loc() == pre.slots@[k].loc(),
            post.slots@[k].stack.wf(),
        ensures
            post.inv(),
            post@.stacks == pre@.stacks.insert(pre.slots@[k].loc(), post.slots@[k].stack@),
    {
        let loc = pre.slots@[k].loc();
        assert forall|i: int, j: int|
            0 <= i < j < post.slots@.len() implies (#[trigger] post.slots@[i]).loc() != (#[trigger] post.slots@[j]).loc() by {
            assert(pre.slots@[i].loc() != pre.slots@[j].loc());
        }
        assert forall|l: (usize, usize)| #[trigger] post.holds(l) == (pre.holds(l) || l == loc) by {
            if post.holds(l) {
                let i = post.slot_index(l);
                if i != k {
                    assert(pre.slots@[i].loc() == l);
                }
            }
            if pre.holds(l) {
                let i = pre.slot_index(l);
                if i != k {
                    assert(post.slots@[i].loc() == l);
                }
            }
            if l == loc {
                assert(post.slots@[k].loc() == l);
            }
        }
        assert forall|l: (usize, usize)| post.holds(l) implies #[trigger] post.slots@[post.slot_index(l)].stack@
            == pre@.stacks.insert(loc, post.slots@[k].stack@)[l] by {
            let i = post.slot_index(l);
            if l != loc {
                assert(pre.holds(l));
                let j = pre.slot_index(l);
                assert(post.slots@[j].loc() == l);
                assert(i == j);
            } else {
                assert(i == k);
            }
        }
        assert(post@.stacks =~= pre@.stacks.insert(loc, post.slots@[k].stack@));
    }

    proof fn lemma_append(pre: &SState, post: &SState)
        requires
            pre.inv(),
            post.slots@.len() == pre.slots@.len() + 1,
            forall|i: int| 0 <= i < pre.slots@.len() ==> post.slots@[i] == pre.slots@[i],
            !pre@.stacks.contains_key(post.slots@.last().loc()),
            post.slots@.last().stack.wf(),
        ensures
            post.inv(),
            post@.stacks == pre@.stacks.insert(post.slots@.last().loc(), post.slots@.last().stack@),
    {
        let k = pre.slots@.len() as int;
        let loc = post.slots@[k].loc();
        assert forall|i: int, j: int|
            0 <= i < j < post.slots@.len() implies (#[trigger] post.slots@[i]).loc() != (#[trigger] post.slots@[j]).loc() by {
            if j == k {
                assert(pre.slots@[i].loc() == post.slots@[i].loc());
                if pre.slots@[i].loc() == loc {
                    assert(pre.holds(loc));
                }
            } else {
                assert(pre.slots@[i].loc() != pre.slots@[j].loc());
            }
        }
        assert forall|l: (usize, usize)| #[trigger] post.holds(l) == (pre.holds(l) || l == loc) by {
            if post.holds(l) {
                let i = post.slot_index(l);
                if i != k {
                    assert(pre.slots@[i].loc() == l);
                }
            }
            if pre.holds(l) {
                let i = pre.slot_index(l);
                assert(post.slots@[i].loc() == l);
            }
            if l == loc {
                assert(post.slots@[k].loc() == l);
            }
        }
        assert forall|l: (usize, usize)| post.holds(l) implies #[trigger] post.slots@[post.slot_index(l)].stack@
            == pre@.stacks.insert(loc, post.slots@[k].stack@)[l] by {
            let i = post.slot_index(l);
            if l != loc {
                assert(pre.holds(l));
                let j = pre.slot_index(l);
                assert(post.slots@[j].loc() == l);
                assert(i == j);
            } else {
                assert(i == k);
            }
        }
        assert(post@.stacks =~= pre@.stacks.insert(loc, post.slots@[k].stack@));
    }

    /// A tracker where every stack is empty.
    pub fn new() -> (r: SState)
        ensures
            r@ == FullView::initial(),
            r.wf(),
    {
        let r = SState { slots: Vec::new(), next_tag: 0 };
        proof {
            assert(r@.stacks =~= Map::<(usize, usize), Seq<StackItem>>::empty());
            r.lemma_bounded();
        }
        r
    }

    /// The next tag that `push_unique` will hand out.
    pub fn next_tag(&self) -> (r: Tag)
        ensures
            r == self@.next_tag,
    {
        self.next_tag
    }

    fn find(&self, object: usize, offset: usize) -> (r: Option<usize>)
        requires
            self.inv(),
        ensures
            match r {
                Some(k) => k < self.slots@.len() && self.slots@[k as int].loc() == (object, offset),
                None => !self@.stacks.contains_key((object, offset)),
            },
    {
        let mut i: usize = 0;
        while i < self.slots.len()
            invariant
                i <= self.slots@.len(),
                forall|j: int| 0 <= j < i ==> (#[trigger] self.slots@[j]).loc() != (object, offset),
            decreases self.slots@.len() - i,
        {
            if self.slots[i].object == object && self.slots[i].offset == offset {
                return Some(i);
            }
            i += 1;
        }
        None
    }

    /// Number of entries on the stack of `p`'s location.
    pub fn stack_len(&self, p: Place) -> (r: usize)
        requires
            self.wf(),
        ensures
            r == self@.stack_of(p.loc()).len(),
    {
        match self.find(p.object, p.offset) {
            Some(k) => {
                proof { self.lemma_slot(k as int); }
                self.slots[k].stack.len()
            },
            None => 0,
        }
    }

    /// The entries of the stack of `p`'s location, oldest first.
    pub fn stack_items(&self, p: Place) -> (r: Vec<StackItem>)
        requires
            self.wf(),
        ensures
            r@ == self@.stack_of(p.loc()),
    {
        match self.find(p.object, p.offset) {
            Some(k) => {
                proof { self.lemma_slot(k as int); }
                let items = self.slots[k].stack.items();
                let mut out: Vec<StackItem> = Vec::new();
                let mut i: usize = 0;
                while i < items.len()
                    invariant
                        i <= items@.len(),
                        out@ == items@.take(i as int),
                    decreases items@.len() - i,
                {
                    out.push(items[i]);
                    i += 1;
                    proof { assert(out@ =~= items@.take(i as int)); }
                }
                proof { assert(out@ =~= items@); }
                out
            },
            None => Vec::new(),
        }
    }

    /// Pushes `item` on the stack of an in-range place.
    fn push_item(&mut self, p: Place, item: StackItem) -> (r: Result<(), BorrowError>)
        requires
            old(self).wf(),
            p.in_range(),
        ensures
            final(self).wf(),
            final(self)@.next_tag == old(self)@.next_tag,
            old(self)@.stack_of(p.loc()).len() < STACK_DEPTH ==> r == Ok::<(), BorrowError>(())
                && final(self)@ == old(self)@.with_stack(p.loc(), old(self)@.stack_of(p.loc()).push(item)),
            old(self)@.stack_of(p.loc()).len() >= STACK_DEPTH ==> r == Err::<(), BorrowError>(BorrowError::BoundExceeded)
                && final(self)@ == old(self)@,
    {
        match self.find(p.object, p.offset) {
            Some(k) => {
                proof { self.lemma_slot(k as int); }
                let ghost pre = *self;
                let r = self.slots[k].stack.push(item);
                proof {
                    SState::lemma_update(&pre, self, k as int);
                    self.lemma_bounded();
                    assert(pre@.stacks.insert(p.loc(), pre@.stacks[p.loc()]) =~= pre@.stacks);
                }
                r
            },
            None => {
                let ghost pre = *self;
                let mut st = PermissionStack::new();
                let _ = st.push(item);
                self.slots.push(Slot { object: p.object, offset: p.offset, stack: st });
                proof {
                    SState::lemma_append(&pre, self);
                    self.lemma_bounded();
                    assert(st@ =~= Seq::<StackItem>::empty().push(item));
                }
                Ok(())
            },
        }
    }

    /// Records a new raw pointer at `p`: pushes a shared read-write entry.
    pub fn push_shared(&mut self, p: Place) -> (r: Result<(), BorrowError>)
        requires
            old(self).wf(),
        ensures
            final(self).wf(),
            (final(self)@, r) == old(self)@.push_shared(p),
    {
        if p.offset >= p.size {
            return Err(BorrowError::OutOfRange);
        }
        self.push_item(p, StackItem::SharedReadWrite)
    }

    /// Records a new exclusive reference at `p`: mints a fresh tag, pushes its
    /// entry and returns it.
    pub fn push_unique(&mut self, p: Place) -> (r: Result<Tag, BorrowError>)
        requires
            old(self).wf(),
        ensures
            final(self).wf(),
            (final(self)@, r) == old(self)@.push_unique(p),
    {
        if p.offset >= p.size {
            return Err(BorrowError::OutOfRange);
        }
        if self.stack_len(p) >= STACK_DEPTH {
            return Err(BorrowError::BoundExceeded);
        }
        if self.next_tag == u32::MAX {
            return Err(BorrowError::TagsExhausted);
        }
        let tag = self.next_tag;
        let ghost pre = self@;
        let _ = self.push_item(p, StackItem::Unique(tag));
        let ghost mid = self@;
        self.next_tag = self.next_tag + 1;
        proof {
            self.lemma_bounded();
            assert(self@.stacks == mid.stacks);
            assert(mid.stacks == pre.stacks.insert(p.loc(), pre.stack_of(p.loc()).push(StackItem::Unique(tag))));
        }
        Ok(tag)
    }

    /// Checks an access through the permission `(kind, tag)` at `p`: the
    /// topmost granting entry stays and everything above it is popped. Fails
    /// with `StackViolated` when no entry of the stack grants the access.
    pub fn use_2(&mut self, p: Place, kind: PointerKind, tag: Tag) -> (r: Result<(), BorrowError>)
        requires
            old(self).wf(),
        ensures
            final(self).wf(),
            (final(self)@, r) == old(self)@.use_2(p, kind, tag),
    {
        if p.offset >= p.size {
            return Err(BorrowError::OutOfRange);
        }
        match self.find(p.object, p.offset) {
            Some(k) => {
                proof { self.lemma_slot(k as int); }
                let ghost pre = *self;
                let r = self.slots[k].stack.access(kind, tag);
                proof {
                    SState::lemma_update(&pre, self, k as int);
                    self.lemma_bounded();
                    assert(pre@.stacks.insert(p.loc(), pre@.stacks[p.loc()]) =~= pre@.stacks);
                }
                r
            },
            None => {
                proof { assert(top_grant(Seq::<StackItem>::empty(), kind, tag) == -1); }
                Err(BorrowError::StackViolated)
            },
        }
    }

    /// Reborrows the permission `(kind, tag)` at `p` as a new exclusive
    /// reference: the parent is used, then a fresh tag is pushed and returned.
    pub fn new_mutable_ref(&mut self, p: Place, kind: PointerKind, tag: Tag) -> (r: Result<Tag, BorrowError>)
        requires
            old(self).wf(),
        ensures
            final(self).wf(),
            (final(self)@, r) == old(self)@.new_mutable_ref(p, kind, tag),
    {
        match self.use_2(p, kind, tag) {
            Ok(()) => self.push_unique(p),
            Err(e) => Err(e),
        }
    }

    /// Derives a raw pointer from the permission `(kind, tag)` at `p`: the
    /// parent is used, then a shared entry is pushed. Returns `RAW_TAG`.
    pub fn new_mutable_raw(&mut self, p: Place, kind: PointerKind, tag: Tag) -> (r: Result<Tag, BorrowError>)
        requires
            old(self).wf(),
        ensures
            final(self).wf(),
            (final(self)@, r) == old(self)@.new_mutable_raw(p, kind, tag),
    {
        match self.use_2(p, kind, tag) {
            Ok(()) => match self.push_shared(p) {
                Ok(()) => Ok(RAW_TAG),
                Err(e) => Err(e),
            },
            Err(e) => Err(e),
        }
    }
}

} // verus!
