//! The permission stack of one location.
use vstd::prelude::*;
use crate::{BorrowError, PointerKind, StackItem, Tag, STACK_DEPTH};

verus! {

/// Whether `item` grants an access of this kind and tag.
pub open spec fn grants(item: StackItem, kind: PointerKind, tag: Tag) -> bool {
    match kind {
        PointerKind::Identified => item == StackItem::Unique(tag),
        PointerKind::Anonymous => item == StackItem::SharedReadWrite,
    }
}

/// Index of the topmost entry of `s` that grants the access, or -1 if none does.
pub open spec fn top_grant(s: Seq<StackItem>, kind: PointerKind, tag: Tag) -> int
    decreases s.len(),
{
    if s.len() == 0 {
        -1
    } else if grants(s.last(), kind, tag) {
        s.len() - 1
    } else {
        top_grant(s.drop_last(), kind, tag)
    }
}

/// The stack after a use: everything above the granting entry is popped.
/// `None` when no entry grants the access.
pub open spec fn after_use(s: Seq<StackItem>, kind: PointerKind, tag: Tag) -> Option<Seq<StackItem>> {
    let i = top_grant(s, kind, tag);
    if i < 0 {
        None
    } else {
        Some(s.take(i + 1))
    }
}

/// `top_grant` is an entry that grants the access, with none above it.
pub proof fn lemma_top_grant(s: Seq<StackItem>, kind: PointerKind, tag: Tag)
    ensures
        -1 <= top_grant(s, kind, tag) < s.len(),
        top_grant(s, kind, tag) >= 0 ==> grants(s[top_grant(s, kind, tag)], kind, tag),
        forall|j: int| top_grant(s, kind, tag) < j < s.len() ==> !grants(#[trigger] s[j], kind, tag),
    decreases s.len(),
{
    if s.len() > 0 && !grants(s.last(), kind, tag) {
        let t = s.drop_last();
        lemma_top_grant(t, kind, tag);
        assert forall|j: int| top_grant(s, kind, tag) < j < s.len() implies !grants(#[trigger] s[j], kind, tag) by {
            if j < t.len() {
                assert(s[j] == t[j]);
            }
        }
    }
}

/// An entry that grants the access with none granting above it is `top_grant`.
pub proof fn lemma_top_grant_unique(s: Seq<StackItem>, kind: PointerKind, tag: Tag, i: int)
    requires
        -1 <= i < s.len(),
        i >= 0 ==> grants(s[i], kind, tag),
        forall|j: int| i < j < s.len() ==> !grants(#[trigger] s[j], kind, tag),
    ensures
        top_grant(s, kind, tag) == i,
    decreases s.len(),
{
    if s.len() > 0 && i < s.len() - 1 {
        assert(!grants(s[s.len() - 1], kind, tag));
        let t = s.drop_last();
        assert forall|j: int| i < j < t.len() implies !grants(#[trigger] t[j], kind, tag) by {
            assert(t[j] == s[j]);
        }
        lemma_top_grant_unique(t, kind, tag, i);
    }
}

/// The permission stack of one location; index 0 is the oldest entry.
pub struct PermissionStack {
    items: Vec<StackItem>,
}

impl View for PermissionStack {
    type V = Seq<StackItem>;

    closed spec fn view(&self) -> Seq<StackItem> {
        self.items@
    }
}

impl PermissionStack {
    /// A stack never holds more than `STACK_DEPTH` entries.
    pub open spec fn wf(&self) -> bool {
        self@.len() <= STACK_DEPTH
    }

    /// An empty stack.
    pub fn new() -> (r: PermissionStack)
        ensures
            r@ == Seq::<StackItem>::empty(),
            r.wf(),
    {
        PermissionStack { items: Vec::new() }
    }

    /// Number of entries.
    pub fn len(&self) -> (r: usize)
        ensures
            r == self@.len(),
    {
        self.items.len()
    }

    /// The entries, oldest first.
    pub fn items(&self) -> (r: &Vec<StackItem>)
        ensures
            r@ == self@,
    {
        &self.items
    }

    /// Pushes `item` on top, unless the stack is already full.
    pub fn push(&mut self, item: StackItem) -> (r: Result<(), BorrowError>)
        requires
            old(self).wf(),
        ensures
            final(self).wf(),
            old(self)@.len() < STACK_DEPTH ==> r == Ok::<(), BorrowError>(()) && final(self)@ == old(self)@.push(item),
            old(self)@.len() >= STACK_DEPTH ==> r == Err::<(), BorrowError>(BorrowError::BoundExceeded) && final(self)@ == old(self)@,
    {
        if self.items.len() < STACK_DEPTH {
            self.items.push(item);
            Ok(())
        } else {
            Err(BorrowError::BoundExceeded)
        }
    }

    /// Uses a permission: finds the topmost entry granting the access and pops
    /// everything above it. Fails, leaving the stack as it was, when no entry
    /// grants the access.
    pub fn access(&mut self, kind: PointerKind, tag: Tag) -> (r: Result<(), BorrowError>)
        requires
            old(self).wf(),
        ensures
            final(self).wf(),
            match after_use(old(self)@, kind, tag) {
                Some(s) => r == Ok::<(), BorrowError>(()) && final(self)@ == s,
                None => r == Err::<(), BorrowError>(BorrowError::StackViolated) && final(self)@ == old(self)@,
            },
    {
        let mut i: usize = self.items.len();
        while i > 0
            invariant
                i <= self.items@.len(),
                forall|j: int| i <= j < self.items@.len() ==> !grants(#[trigger] self.items@[j], kind, tag),
            ensures
                i <= self.items@.len(),
                i > 0 ==> grants(self.items@[i - 1], kind, tag),
                forall|j: int| i <= j < self.items@.len() ==> !grants(#[trigger] self.items@[j], kind, tag),
            decreases i,
        {
            let item = self.items[i - 1];
            let hit = match kind {
                PointerKind::Identified => item == StackItem::Unique(tag),
                PointerKind::Anonymous => item == StackItem::SharedReadWrite,
            };
            if hit {
                break;
            }
            i -= 1;
        }
        proof {
            lemma_top_grant_unique(self@, kind, tag, i - 1);
        }
        if i == 0 {
            Err(BorrowError::StackViolated)
        } else {
            self.items.truncate(i);
            Ok(())
        }
    }
}

} // verus!
