//! Why watching one location suffices: on the branch whose oracle answers
//! "re-arm" exactly at the pushes on one location, the demonic monitor agrees
//! with the full tracker on everything that happens at that location.
use vstd::prelude::*;
use crate::monitor::{DemonicState, MonitorView};
use crate::replay::{demonic_run, demonic_step, full_run, full_step, run_view, Op};
use crate::tracker::FullView;
use crate::{BorrowError, Place, StackItem, Tag};

verus! {

/// Every operation that needs a parent permission acts on a location where a
/// permission was created earlier: references are created before they are used.
pub open spec fn creates_before_use(ops: Seq<Op>) -> bool {
    forall|i: int|
        0 <= i < ops.len() && !(#[trigger] ops[i]).is_push() ==> exists|j: int|
            0 <= j < i && (#[trigger] ops[j]).is_push() && ops[j].place().loc() == ops[i].place().loc()
}

/// The oracle's answers on the branch that watches `l`: "re-arm" exactly at
/// the operations on `l`.
pub open spec fn spotlight(ops: Seq<Op>, l: (usize, usize)) -> Seq<bool> {
    Seq::new(ops.len(), |i: int| ops[i].place().loc() == l)
}

/// Whether some operation of `ops` creates a permission at `l`.
pub open spec fn pushed(ops: Seq<Op>, l: (usize, usize)) -> bool {
    exists|j: int| 0 <= j < ops.len() && (#[trigger] ops[j]).is_push() && ops[j].place().loc() == l
}

/// The location of the operation that a failed run stopped at.
pub open spec fn failing_loc(v: FullView, ops: Seq<Op>) -> (usize, usize)
    decreases ops.len(),
{
    if ops.len() == 0 {
        (0, 0)
    } else if full_run(v, ops.drop_last()).1 is Err {
        failing_loc(v, ops.drop_last())
    } else {
        ops.last().place().loc()
    }
}

/// The monitor, watching `l` or not yet armed, agrees with the full tracker.
spec fn related(f: FullView, d: MonitorView, l: (usize, usize), armed: bool) -> bool {
    &&& f.next_tag == d.next_tag
    &&& armed ==> d.watched == Some(l) && d.stack == f.stack_of(l)
    &&& !armed ==> d.watched.is_none() && f.stack_of(l) == Seq::<StackItem>::empty()
}

proof fn lemma_step(f: FullView, d: MonitorView, l: (usize, usize), armed: bool, op: Op, arm: bool)
    requires
        related(f, d, l, armed),
        arm == (op.place().loc() == l),
        op.place().loc() == l && !op.is_push() ==> armed,
    ensures
        op.place().loc() == l ==> demonic_step(d, op, arm).1 == full_step(f, op).1,
        full_step(f, op).1 is Ok ==> {
            &&& demonic_step(d, op, arm).1 == full_step(f, op).1
            &&& related(
                full_step(f, op).0,
                demonic_step(d, op, arm).0,
                l,
                armed || (op.is_push() && op.place().loc() == l),
            )
        },
{
    let p = op.place();
    if p.loc() == l {
        assert(d.arm(p, arm).watches(p));
        assert(d.arm(p, arm).stack == f.stack_of(l));
        match op {
            Op::NewMutableRef(_, k, t) => {
                let (f1, r1) = f.use_2(p, k, t);
                let (d1, q1) = d.use_2(p, k, t);
                assert(r1 == q1);
                if r1 is Ok {
                    assert(f1.stack_of(l) == d1.stack);
                    assert(d1.arm(p, arm) == d1);
                }
            },
            Op::NewMutableRaw(_, k, t) => {
                let (f1, r1) = f.use_2(p, k, t);
                let (d1, q1) = d.use_2(p, k, t);
                assert(r1 == q1);
                if r1 is Ok {
                    assert(f1.stack_of(l) == d1.stack);
                    assert(d1.arm(p, arm) == d1);
                }
            },
            _ => {},
        }
    } else {
        assert(!d.watches(p));
        assert(d.arm(p, arm) == d);
        match op {
            Op::NewMutableRef(_, k, t) => {
                let (f1, r1) = f.use_2(p, k, t);
                if r1 is Ok {
                    assert(f1.stack_of(l) == f.stack_of(l));
                }
            },
            Op::NewMutableRaw(_, k, t) => {
                let (f1, r1) = f.use_2(p, k, t);
                if r1 is Ok {
                    assert(f1.stack_of(l) == f.stack_of(l));
                }
            },
            _ => {},
        }
    }
}

proof fn lemma_watch(ops: Seq<Op>, arms: Seq<bool>, l: (usize, usize))
    requires
        creates_before_use(ops),
        arms.len() >= ops.len(),
        forall|i: int| 0 <= i < ops.len() ==> arms[i] == ((#[trigger] ops[i]).place().loc() == l),
    ensures
        full_run(FullView::initial(), ops).1 is Ok ==> {
            &&& demonic_run(MonitorView::initial(), ops, arms).1 == full_run(FullView::initial(), ops).1
            &&& related(
                full_run(FullView::initial(), ops).0,
                demonic_run(MonitorView::initial(), ops, arms).0,
                l,
                pushed(ops, l),
            )
        },
        full_run(FullView::initial(), ops).1 is Err && failing_loc(FullView::initial(), ops) == l
            ==> demonic_run(MonitorView::initial(), ops, arms).1 == full_run(FullView::initial(), ops).1,
    decreases ops.len(),
{
    let f0 = FullView::initial();
    let d0 = MonitorView::initial();
    if ops.len() == 0 {
        assert(!pushed(ops, l));
        assert(f0.stack_of(l) == Seq::<StackItem>::empty());
    } else {
        let pre = ops.drop_last();
        let n = ops.len() - 1;
        let op = ops[n];
        assert forall|i: int| 0 <= i < pre.len() && !(#[trigger] pre[i]).is_push() implies exists|j: int|
            0 <= j < i && (#[trigger] pre[j]).is_push() && pre[j].place().loc() == pre[i].place().loc() by {
            assert(ops[i] == pre[i]);
            let j = choose|j: int| 0 <= j < i && (#[trigger] ops[j]).is_push() && ops[j].place().loc() == ops[i].place().loc();
            assert(pre[j] == ops[j]);
        }
        assert forall|i: int| 0 <= i < pre.len() implies arms[i] == ((#[trigger] pre[i]).place().loc() == l) by {
            assert(ops[i] == pre[i]);
        }
        lemma_watch(pre, arms, l);
        let (f, r) = full_run(f0, pre);
        let (d, q) = demonic_run(d0, pre, arms);
        assert(arms[n] == (op.place().loc() == l));
        if r is Ok {
            let armed = pushed(pre, l);
            if op.place().loc() == l && !op.is_push() {
                let j = choose|j: int| 0 <= j < n && (#[trigger] ops[j]).is_push() && ops[j].place().loc() == ops[n].place().loc();
                assert(pre[j] == ops[j]);
            }
            lemma_step(f, d, l, armed, op, arms[n]);
            if full_run(f0, ops).1 is Ok {
                assert(pushed(ops, l) == (armed || (op.is_push() && op.place().loc() == l))) by {
                    if armed {
                        let j = choose|j: int| 0 <= j < pre.len() && (#[trigger] pre[j]).is_push() && pre[j].place().loc() == l;
                        assert(ops[j] == pre[j]);
                    }
                    if pushed(ops, l) && !(op.is_push() && op.place().loc() == l) {
                        let j = choose|j: int| 0 <= j < ops.len() && (#[trigger] ops[j]).is_push() && ops[j].place().loc() == l;
                        assert(j < n);
                        assert(pre[j] == ops[j]);
                    }
                }
            }
        }
    }
}

/// Whatever location the monitor watches, a run that the full tracker accepts
/// is accepted by the monitor with the same tags. And some branch agrees with
/// the full tracker on every run: the one that watches the location where the
/// run failed. So a violation found by tracking every location is found on
/// some branch of the demonic search.
pub proof fn lemma_reduction_sound(ops: Seq<Op>)
    requires
        creates_before_use(ops),
    ensures
        full_run(FullView::initial(), ops).1 is Ok ==> forall|l: (usize, usize)|
            demonic_run(MonitorView::initial(), ops, #[trigger] spotlight(ops, l)).1 == full_run(FullView::initial(), ops).1,
        exists|l: (usize, usize)|
            demonic_run(MonitorView::initial(), ops, #[trigger] spotlight(ops, l)).1 == full_run(FullView::initial(), ops).1,
{
    assert forall|l: (usize, usize)| full_run(FullView::initial(), ops).1 is Ok implies
        demonic_run(MonitorView::initial(), ops, #[trigger] spotlight(ops, l)).1 == full_run(FullView::initial(), ops).1 by {
        lemma_watch(ops, spotlight(ops, l), l);
    }
    let l = failing_loc(FullView::initial(), ops);
    lemma_watch(ops, spotlight(ops, l), l);
}

/// Replaying operations on one place, that start by creating a permission,
/// gives the same outcome (the same tags, or the same error) under the full
/// tracker as under the demonic monitor whose oracle re-arms at every push.
pub proof fn lemma_reduction_equivalence(ops: Seq<Op>, p: Place)
    requires
        forall|i: int| 0 <= i < ops.len() ==> (#[trigger] ops[i]).place() == p,
        ops.len() > 0 ==> ops[0].is_push(),
    ensures
        demonic_run(MonitorView::initial(), ops, Seq::new(ops.len(), |i: int| true)).1
            == full_run(FullView::initial(), ops).1,
{
    assert forall|i: int| 0 <= i < ops.len() && !(#[trigger] ops[i]).is_push() implies exists|j: int|
        0 <= j < i && (#[trigger] ops[j]).is_push() && ops[j].place().loc() == ops[i].place().loc() by {
        assert(ops[0].place() == p);
    }
    let arms = Seq::new(ops.len(), |i: int| true);
    assert forall|i: int| 0 <= i < ops.len() implies arms[i] == ((#[trigger] ops[i]).place().loc() == p.loc()) by {}
    if ops.len() > 0 {
        lemma_failing_loc(FullView::initial(), ops, p);
    }
    lemma_watch(ops, arms, p.loc());
}

proof fn lemma_failing_loc(v: FullView, ops: Seq<Op>, p: Place)
    requires
        ops.len() > 0,
        forall|i: int| 0 <= i < ops.len() ==> (#[trigger] ops[i]).place() == p,
    ensures
        failing_loc(v, ops) == p.loc(),
    decreases ops.len(),
{
    let pre = ops.drop_last();
    assert(ops[ops.len() - 1].place() == p);
    if pre.len() > 0 && full_run(v, pre).1 is Err {
        assert forall|i: int| 0 <= i < pre.len() implies (#[trigger] pre[i]).place() == p by {
            assert(ops[i] == pre[i]);
        }
        lemma_failing_loc(v, pre, p);
    }
}

proof fn lemma_failing_loc_is_op(v: FullView, ops: Seq<Op>)
    requires
        full_run(v, ops).1 is Err,
    ensures
        exists|k: int| 0 <= k < ops.len() && (#[trigger] ops[k]).place().loc() == failing_loc(v, ops),
    decreases ops.len(),
{
    let pre = ops.drop_last();
    if full_run(v, pre).1 is Err {
        lemma_failing_loc_is_op(v, pre);
        let k = choose|k: int| 0 <= k < pre.len() && (#[trigger] pre[k]).place().loc() == failing_loc(v, pre);
        assert(ops[k] == pre[k]);
    } else {
        assert(ops[ops.len() - 1].place().loc() == failing_loc(v, ops));
    }
}

/// The oracle's answers on the branch that watches `l`.
fn spotlight_of(ops: &Vec<Op>, l: Place) -> (r: Vec<bool>)
    ensures
        r@ == spotlight(ops@, l.loc()),
{
    let mut r: Vec<bool> = Vec::new();
    let mut j: usize = 0;
    while j < ops.len()
        invariant
            j <= ops@.len(),
            r@ == spotlight(ops@, l.loc()).take(j as int),
        decreases ops@.len() - j,
    {
        let q = ops[j].target();
        r.push(q.object == l.object && q.offset == l.offset);
        j += 1;
        proof { assert(r@ =~= spotlight(ops@, l.loc()).take(j as int)); }
    }
    proof { assert(r@ =~= spotlight(ops@, l.loc())); }
    r
}

/// Searches the branches of the demonic monitor that watch, one at a time,
/// each location that `ops` acts on. Every error returned was found on one of
/// them. When permissions are created before they are used, the search
/// rejects `ops` exactly when the full tracker does, and otherwise returns
/// the same tags.
pub fn explore(ops: &Vec<Op>) -> (r: Result<Vec<Tag>, BorrowError>)
    ensures
        r matches Err(e) ==> exists|l: (usize, usize)|
            demonic_run(MonitorView::initial(), ops@, #[trigger] spotlight(ops@, l)).1 == Err::<Seq<Tag>, BorrowError>(e),
        creates_before_use(ops@) ==> (r is Err <==> full_run(FullView::initial(), ops@).1 is Err),
        creates_before_use(ops@) && r is Ok ==> run_view(r) == full_run(FullView::initial(), ops@).1,
{
    let mut last: Vec<Tag> = Vec::new();
    let mut i: usize = 0;
    while i < ops.len()
        invariant
            i <= ops@.len(),
            i == 0 ==> last@ == Seq::<Tag>::empty(),
            forall|k: int| 0 <= k < i ==>
                demonic_run(MonitorView::initial(), ops@, #[trigger] spotlight(ops@, ops@[k].place().loc())).1 is Ok,
            i > 0 ==> demonic_run(MonitorView::initial(), ops@, spotlight(ops@, ops@[i - 1].place().loc())).1
                == Ok::<Seq<Tag>, BorrowError>(last@),
        decreases ops@.len() - i,
    {
        let arms = spotlight_of(ops, ops[i].target());
        let mut d = DemonicState::new();
        match d.replay(ops, &arms) {
            Ok(ts) => {
                last = ts;
            },
            Err(e) => {
                proof {
                    if creates_before_use(ops@) {
                        lemma_reduction_sound(ops@);
                        assert(spotlight(ops@, ops@[i as int].place().loc()) == arms@);
                    }
                }
                return Err(e);
            },
        }
        i += 1;
    }
    proof {
        if creates_before_use(ops@) {
            lemma_reduction_sound(ops@);
            if full_run(FullView::initial(), ops@).1 is Err {
                let l = failing_loc(FullView::initial(), ops@);
                lemma_watch(ops@, spotlight(ops@, l), l);
                lemma_failing_loc_is_op(FullView::initial(), ops@);
                let k = choose|k: int| 0 <= k < ops@.len() && (#[trigger] ops@[k]).place().loc() == l;
                assert(demonic_run(MonitorView::initial(), ops@, spotlight(ops@, ops@[k].place().loc())).1 is Ok);
            } else if ops@.len() > 0 {
                let l = ops@[ops@.len() - 1].place().loc();
                assert(demonic_run(MonitorView::initial(), ops@, spotlight(ops@, l)).1 == full_run(FullView::initial(), ops@).1);
            } else {
                assert(full_run(FullView::initial(), ops@).1 == Ok::<Seq<Tag>, BorrowError>(Seq::empty()));
                assert(last@ == Seq::<Tag>::empty());
            }
        }
    }
    Ok(last)
}

} // verus!
