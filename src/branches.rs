//! A decision source that enumerates every sequence of oracle answers,
//! depth first: each run replays a path of answers and extends it with
//! `false`; between runs the path moves to the next branch.
use vstd::prelude::*;

verus! {

/// Index of the last `false` in `s`, or -1 if there is none.
pub open spec fn last_false(s: Seq<bool>) -> int
    decreases s.len(),
{
    if s.len() == 0 {
        -1
    } else if !s.last() {
        s.len() - 1
    } else {
        last_false(s.drop_last())
    }
}

/// The branch after `s` in depth-first order: the answers up to the last
/// `false`, which becomes `true`. `None` once every branch has been taken.
pub open spec fn next_branch(s: Seq<bool>) -> Option<Seq<bool>> {
    let k = last_false(s);
    if k < 0 {
        None
    } else {
        Some(s.take(k).push(true))
    }
}

/// The answers of the current branch, and how many of them this run has drawn.
pub struct BranchesView {
    pub path: Seq<bool>,
    pub pos: nat,
}

/// An exhaustive, reproducible oracle.
pub struct Branches {
    path: Vec<bool>,
    pos: usize,
}

impl View for Branches {
    type V = BranchesView;

    closed spec fn view(&self) -> BranchesView {
        BranchesView { path: self.path@, pos: self.pos as nat }
    }
}

impl Branches {
    /// No more answers drawn than the path holds.
    pub open spec fn wf(&self) -> bool {
        self@.pos <= self@.path.len()
    }

    /// The first branch: every answer will be `false`.
    pub fn new() -> (r: Branches)
        ensures
            r@.path == Seq::<bool>::empty(),
            r@.pos == 0,
            r.wf(),
    {
        Branches { path: Vec::new(), pos: 0 }
    }

    /// The answers of the current branch.
    pub fn path(&self) -> (r: &Vec<bool>)
        ensures
            r@ == self@.path,
    {
        &self.path
    }

    /// The next answer of this run: the recorded one, or `false` (recorded)
    /// past the end of the path.
    pub fn next_bool(&mut self) -> (r: bool)
        requires
            old(self).wf(),
            old(self)@.pos < usize::MAX,
        ensures
            final(self).wf(),
            final(self)@.pos == old(self)@.pos + 1,
            old(self)@.pos < old(self)@.path.len() ==> r == old(self)@.path[old(self)@.pos as int]
                && final(self)@.path == old(self)@.path,
            old(self)@.pos >= old(self)@.path.len() ==> !r && final(self)@.path == old(self)@.path.push(false),
    {
        let r = if self.pos < self.path.len() {
            self.path[self.pos]
        } else {
            self.path.push(false);
            false
        };
        self.pos = self.pos + 1;
        r
    }

    /// Moves to the next branch and rewinds to its first answer. Returns
    /// `false`, with an empty path, when every branch has been taken.
    pub fn next_run(&mut self) -> (r: bool)
        requires
            old(self).wf(),
        ensures
            final(self).wf(),
            final(self)@.pos == 0,
            r == (next_branch(old(self)@.path) is Some),
            match next_branch(old(self)@.path) {
                Some(s) => final(self)@.path == s,
                None => final(self)@.path == Seq::<bool>::empty(),
            },
    {
        let ghost s = self.path@;
        self.pos = 0;
        loop
            invariant
                self.pos == 0,
                s == old(self)@.path,
                self.path@.len() <= s.len(),
                self.path@ == s.take(self.path@.len() as int),
                last_false(s) == last_false(self.path@),
            decreases self.path@.len(),
        {
            let ghost before = self.path@;
            match self.path.pop() {
                Some(b) => {
                    proof { assert(self.path@ == before.drop_last()); }
                    if !b {
                        self.path.push(true);
                        proof {
                            assert(self.path@ =~= s.take(last_false(s)).push(true));
                        }
                        return true;
                    }
                },
                None => {
                    return false;
                },
            }
        }
    }
}

} // verus!
