//! What holds of every run of the checkers.
use vstd::prelude::*;
use crate::monitor::MonitorView;
use crate::reduction::lemma_reduction_equivalence;
use crate::replay::{demonic_run, full_run, full_step, Op};
use crate::stack::{after_use, lemma_top_grant, lemma_top_grant_unique, top_grant};
use crate::tracker::FullView;
use crate::{BorrowError, Place, PointerKind, StackItem, Tag, STACK_DEPTH};

verus! {

/// A use keeps a prefix of the stack.
pub proof fn lemma_use_shrinks(s: Seq<StackItem>, kind: PointerKind, tag: Tag)
    ensures
        after_use(s, kind, tag) matches Some(t) ==> t.len() <= s.len() && t == s.take(t.len() as int),
{
    lemma_top_grant(s, kind, tag);
}

proof fn lemma_full_step_bounded(v: FullView, op: Op)
    requires
        v.bounded(),
    ensures
        full_step(v, op).0.bounded(),
{
    let p = op.place();
    match op {
        Op::Use(_, k, t) => lemma_use_shrinks(v.stack_of(p.loc()), k, t),
        Op::NewMutableRef(_, k, t) => lemma_use_shrinks(v.stack_of(p.loc()), k, t),
        Op::NewMutableRaw(_, k, t) => lemma_use_shrinks(v.stack_of(p.loc()), k, t),
        _ => {},
    }
    let w = full_step(v, op).0;
    assert forall|l: (usize, usize)| #[trigger] w.stack_of(l).len() <= STACK_DEPTH by {
        assert(v.stack_of(l).len() <= STACK_DEPTH);
        match op {
            Op::NewMutableRef(_, k, t) => {
                let u = v.use_2(p, k, t).0;
                assert(u.stack_of(l).len() <= STACK_DEPTH);
            },
            Op::NewMutableRaw(_, k, t) => {
                let u = v.use_2(p, k, t).0;
                assert(u.stack_of(l).len() <= STACK_DEPTH);
            },
            _ => {},
        }
    }
}

/// No run of the full tracker ever makes a stack exceed `STACK_DEPTH` entries.
pub proof fn lemma_full_run_bounded(v: FullView, ops: Seq<Op>)
    requires
        v.bounded(),
    ensures
        full_run(v, ops).0.bounded(),
    decreases ops.len(),
{
    if ops.len() > 0 {
        lemma_full_run_bounded(v, ops.drop_last());
        let (w, r) = full_run(v, ops.drop_last());
        if r is Ok {
            lemma_full_step_bounded(w, ops.last());
        }
    }
}

/// No run of the demonic monitor ever makes its stack exceed `STACK_DEPTH` entries.
pub proof fn lemma_demonic_run_bounded(v: MonitorView, ops: Seq<Op>, arms: Seq<bool>)
    requires
        v.stack.len() <= STACK_DEPTH,
    ensures
        demonic_run(v, ops, arms).0.stack.len() <= STACK_DEPTH,
    decreases ops.len(),
{
    if ops.len() > 0 {
        lemma_demonic_run_bounded(v, ops.drop_last(), arms);
        let (w, r) = demonic_run(v, ops.drop_last(), arms);
        if r is Ok {
            let op = ops.last();
            match op {
                Op::Use(_, k, t) => lemma_use_shrinks(w.stack, k, t),
                Op::NewMutableRef(_, k, t) => lemma_use_shrinks(w.stack, k, t),
                Op::NewMutableRaw(_, k, t) => lemma_use_shrinks(w.stack, k, t),
                _ => {},
            }
        }
    }
}

proof fn lemma_pushes(p: Place, ops: Seq<Op>, k: int)
    requires
        p.in_range(),
        0 <= k <= STACK_DEPTH,
        k <= ops.len(),
        forall|i: int| 0 <= i < ops.len() ==> #[trigger] ops[i] == Op::PushShared(p) || ops[i] == Op::PushUnique(p),
    ensures
        full_run(FullView::initial(), ops.take(k)).1 is Ok,
        full_run(FullView::initial(), ops.take(k)).0.stack_of(p.loc()).len() == k,
        full_run(FullView::initial(), ops.take(k)).0.next_tag <= k,
    decreases k,
{
    if k > 0 {
        lemma_pushes(p, ops, k - 1);
        assert(ops.take(k).drop_last() == ops.take(k - 1));
        assert(ops.take(k).last() == ops[k - 1]);
    } else {
        assert(FullView::initial().stack_of(p.loc()).len() == 0);
    }
}

/// `STACK_DEPTH` pushes on one place are accepted; the next one is rejected
/// with `BoundExceeded`, by the full tracker and by the monitor that re-arms
/// at every push alike.
pub proof fn lemma_bound(p: Place, ops: Seq<Op>)
    requires
        p.in_range(),
        ops.len() == STACK_DEPTH + 1,
        forall|i: int| 0 <= i < ops.len() ==> #[trigger] ops[i] == Op::PushShared(p) || ops[i] == Op::PushUnique(p),
    ensures
        full_run(FullView::initial(), ops.take(STACK_DEPTH as int)).1 is Ok,
        full_run(FullView::initial(), ops).1 == Err::<Seq<Tag>, BorrowError>(BorrowError::BoundExceeded),
        demonic_run(MonitorView::initial(), ops, Seq::new(ops.len(), |i: int| true)).1
            == Err::<Seq<Tag>, BorrowError>(BorrowError::BoundExceeded),
{
    lemma_pushes(p, ops, STACK_DEPTH as int);
    assert(ops.drop_last() == ops.take(STACK_DEPTH as int));
    assert(ops[STACK_DEPTH as int] == Op::PushShared(p) || ops[STACK_DEPTH as int] == Op::PushUnique(p));
    assert forall|i: int| 0 <= i < ops.len() implies (#[trigger] ops[i]).place() == p by {
        assert(ops[i] == Op::PushShared(p) || ops[i] == Op::PushUnique(p));
    }
    assert(ops[0] == Op::PushShared(p) || ops[0] == Op::PushUnique(p));
    lemma_reduction_equivalence(ops, p);
}

/// Tags that a run mints are strictly increasing, at least the starting
/// counter and below the final one.
pub open spec fn fresh_tags(ts: Seq<Tag>, from: Tag, to: Tag) -> bool {
    &&& forall|i: int, j: int| 0 <= i < j < ts.len() ==> ts[i] < ts[j]
    &&& forall|i: int| 0 <= i < ts.len() ==> from <= #[trigger] ts[i] < to
}

/// The full tracker never hands out a tag twice: the tags of a run are
/// strictly increasing, hence pairwise distinct.
pub proof fn lemma_full_tags_unique(v: FullView, ops: Seq<Op>)
    ensures
        full_run(v, ops).0.next_tag >= v.next_tag,
        full_run(v, ops).1 matches Ok(ts) ==> fresh_tags(ts, v.next_tag, full_run(v, ops).0.next_tag),
    decreases ops.len(),
{
    if ops.len() > 0 {
        lemma_full_tags_unique(v, ops.drop_last());
    }
}

/// The demonic monitor never hands out a tag twice, on any branch: it mints a
/// fresh tag at every exclusive push, watched or not.
pub proof fn lemma_demonic_tags_unique(v: MonitorView, ops: Seq<Op>, arms: Seq<bool>)
    ensures
        demonic_run(v, ops, arms).0.next_tag >= v.next_tag,
        demonic_run(v, ops, arms).1 matches Ok(ts) ==> fresh_tags(ts, v.next_tag, demonic_run(v, ops, arms).0.next_tag),
    decreases ops.len(),
{
    if ops.len() > 0 {
        lemma_demonic_tags_unique(v, ops.drop_last(), arms);
    }
}

/// Right after `push_unique` hands out tag `t` at `p`, using `t` at `p`
/// succeeds and leaves the state as it is: it matches the top entry.
pub proof fn lemma_fresh_tag_usable(v: FullView, p: Place)
    ensures
        v.push_unique(p).1 matches Ok(t) ==> v.push_unique(p).0.use_2(p, PointerKind::Identified, t) == (
        v.push_unique(p).0,
        Ok::<(), BorrowError>(()),
        ),
{
    if let Ok(t) = v.push_unique(p).1 {
        let w = v.push_unique(p).0;
        let s = w.stack_of(p.loc());
        assert(s.last() == StackItem::Unique(t));
        assert(top_grant(s, PointerKind::Identified, t) == s.len() - 1);
        assert(s.take(s.len() as int) == s);
        assert(w.with_stack(p.loc(), s).stacks == w.stacks);
    }
}

/// The same on the monitor, for a push where the oracle re-arms.
pub proof fn lemma_fresh_tag_usable_demonic(v: MonitorView, p: Place)
    ensures
        v.push_unique(p, true).1 matches Ok(t) ==> v.push_unique(p, true).0.use_2(p, PointerKind::Identified, t) == (
        v.push_unique(p, true).0,
        Ok::<(), BorrowError>(()),
        ),
{
    if let Ok(t) = v.push_unique(p, true).1 {
        let w = v.push_unique(p, true).0;
        let s = w.stack;
        assert(s.last() == StackItem::Unique(t));
        assert(top_grant(s, PointerKind::Identified, t) == s.len() - 1);
        assert(s.take(s.len() as int) == s);
    }
}

/// Using an older exclusive permission pops the newer one above it, after
/// which the newer one can no longer be used.
pub proof fn lemma_invalidation(v: FullView, p: Place, t1: Tag, t2: Tag)
    requires
        p.in_range(),
        t1 != t2,
        v.stack_of(p.loc()) == seq![StackItem::Unique(t1), StackItem::Unique(t2)],
    ensures
        v.use_2(p, PointerKind::Identified, t1).1 == Ok::<(), BorrowError>(()),
        v.use_2(p, PointerKind::Identified, t1).0.stack_of(p.loc()) == seq![StackItem::Unique(t1)],
        v.use_2(p, PointerKind::Identified, t1).0.use_2(p, PointerKind::Identified, t2).1
            == Err::<(), BorrowError>(BorrowError::StackViolated),
{
    let s = seq![StackItem::Unique(t1), StackItem::Unique(t2)];
    assert(s.drop_last() == seq![StackItem::Unique(t1)]);
    assert(s[1] != StackItem::Unique(t1));
    lemma_top_grant_unique(s, PointerKind::Identified, t1, 0);
    assert(s.take(1) == seq![StackItem::Unique(t1)]);
    let u = seq![StackItem::Unique(t1)];
    assert(u.drop_last() == Seq::<StackItem>::empty());
    assert(u[0] != StackItem::Unique(t2));
    lemma_top_grant_unique(u, PointerKind::Identified, t2, -1);
}

/// Two raw pointers created one after the other at `p` can both be used, any
/// number of times, without invalidating each other: an anonymous use leaves
/// the state as it is.
pub proof fn lemma_shared_coexist(v: FullView, p: Place)
    requires
        p.in_range(),
        v.stack_of(p.loc()).len() + 2 <= STACK_DEPTH,
    ensures
        v.push_shared(p).1 is Ok,
        v.push_shared(p).0.push_shared(p).1 is Ok,
        forall|t: Tag| #[trigger] v.push_shared(p).0.push_shared(p).0.use_2(p, PointerKind::Anonymous, t) == (
        v.push_shared(p).0.push_shared(p).0,
        Ok::<(), BorrowError>(()),
        ),
{
    let w = v.push_shared(p).0.push_shared(p).0;
    let s = w.stack_of(p.loc());
    assert(s.last() == StackItem::SharedReadWrite);
    assert forall|t: Tag| #[trigger] w.use_2(p, PointerKind::Anonymous, t) == (w, Ok::<(), BorrowError>(())) by {
        assert(top_grant(s, PointerKind::Anonymous, t) == s.len() - 1);
        assert(s.take(s.len() as int) == s);
        assert(w.with_stack(p.loc(), s).stacks == w.stacks);
    }
}

} // verus!
