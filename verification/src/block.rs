//! The conditional block stack: one frame per open `IF`/`ELIF`/`ELSE` region.

use vstd::prelude::*;

verus! {

/// One frame of the conditional block stack. The root frame always emits; an
/// `IfElse` frame carries `(branch_live, any_prior_branch_taken)`.
#[derive(Clone, Copy, PartialEq, Eq, Structural, Debug)]
pub enum BlockKind {
    /// The outermost region: every line is emitted.
    Root,
    /// An `IF`/`ELIF`/`ELSE` region: `(current, any)` where `current` says
    /// whether this branch's condition fired and `any` whether an earlier
    /// branch of the same chain already did.
    IfElse(bool, bool),
}

impl BlockKind {
    /// Whether this frame, by itself, lets lines through: the root always
    /// does; a branch frame does iff its branch fired and no earlier branch
    /// of the chain had fired before it.
    pub open spec fn spec_include_line(self) -> bool {
        match self {
            BlockKind::Root => true,
            BlockKind::IfElse(current, any) => current && !any,
        }
    }

    /// The branch-fired flag of an `IfElse` frame.
    pub open spec fn spec_current(self) -> bool
        recommends
            self is IfElse,
    {
        match self {
            BlockKind::Root => false,
            BlockKind::IfElse(current, _) => current,
        }
    }

    /// The earlier-branch-taken flag of an `IfElse` frame.
    pub open spec fn spec_any(self) -> bool
        recommends
            self is IfElse,
    {
        match self {
            BlockKind::Root => false,
            BlockKind::IfElse(_, any) => any,
        }
    }

    /// The frame an `ELIF` replaces its chain's current frame with.
    pub open spec fn spec_into_else_if(self, condition: bool) -> BlockKind
        recommends
            self is IfElse,
    {
        BlockKind::IfElse(condition, self.spec_any() || self.spec_current())
    }

    /// The frame an `ELSE` replaces its chain's current frame with: live iff
    /// no earlier branch of the chain fired.
    pub open spec fn spec_into_else(self) -> BlockKind
        recommends
            self is IfElse,
    {
        BlockKind::IfElse(!self.spec_any(), self.spec_any() || self.spec_current())
    }

    pub fn include_line(self) -> (r: bool)
        ensures
            r == self.spec_include_line(),
    {
        match self {
            BlockKind::Root => true,
            BlockKind::IfElse(current, any) => current && !any,
        }
    }

    /// The frame pushed by an `IF` whose (possibly short-circuited) condition
    /// came out as `current`.
    pub fn new_if(current: bool) -> (r: BlockKind)
        ensures
            r == BlockKind::IfElse(current, false),
    {
        BlockKind::IfElse(current, false)
    }

    pub fn into_else_if(self, condition: bool) -> (r: BlockKind)
        requires
            self is IfElse,
        ensures
            r == self.spec_into_else_if(condition),
    {
        match self {
            BlockKind::IfElse(previous, any) => BlockKind::IfElse(condition, any || previous),
            BlockKind::Root => vstd::pervasive::unreached(),
        }
    }

    pub fn into_else(self) -> (r: BlockKind)
        requires
            self is IfElse,
        ensures
            r == self.spec_into_else(),
    {
        match self {
            BlockKind::IfElse(previous, any) => BlockKind::IfElse(!any, any || previous),
            BlockKind::Root => vstd::pervasive::unreached(),
        }
    }
}

/// The frame of an `IF`/`ELIF` chain after its first `1 + n` branch headers,
/// where `conds[i]` is what branch `i`'s condition would evaluate to. The
/// machine's short-circuit rule is applied: an `ELIF` condition only counts
/// when the chain so far is exactly `(false, false)`.
pub open spec fn chain_frame(conds: Seq<bool>) -> BlockKind
    recommends
        conds.len() >= 1,
    decreases conds.len(),
{
    if conds.len() <= 1 {
        BlockKind::IfElse(conds[0], false)
    } else {
        let prev = chain_frame(conds.drop_last());
        let gated = prev == BlockKind::IfElse(false, false) && conds[conds.len() - 1];
        prev.spec_into_else_if(gated)
    }
}

/// Whether branch `i` of the chain described by `conds` emits its lines.
pub open spec fn chain_branch_emits(conds: Seq<bool>, i: int) -> bool
    recommends
        0 <= i < conds.len(),
{
    chain_frame(conds.take(i + 1)).spec_include_line()
}

/// The `any` flag of a chain's frame records precisely whether some earlier
/// branch of the chain emitted.
pub proof fn lemma_chain_any_tracks_emitted(conds: Seq<bool>)
    requires
        conds.len() >= 1,
    ensures
        chain_frame(conds) is IfElse,
        chain_frame(conds).spec_any() <==> exists|j: int|
            0 <= j < conds.len() - 1 && chain_branch_emits(conds, j),
    decreases conds.len(),
{
    if conds.len() == 1 {
        assert(!chain_frame(conds).spec_any());
    } else {
        let shorter = conds.drop_last();
        lemma_chain_any_tracks_emitted(shorter);
        let prev = chain_frame(shorter);
        assert(shorter.len() == conds.len() - 1);
        assert forall|j: int| 0 <= j < conds.len() - 2 implies chain_branch_emits(
            shorter,
            j,
        ) == chain_branch_emits(conds, j) by {
            assert(shorter.take(j + 1) =~= conds.take(j + 1));
        }
        assert(shorter.take(conds.len() - 1) =~= shorter);
        assert(chain_branch_emits(conds, conds.len() - 2) == prev.spec_include_line());
        assert(chain_frame(conds).spec_any() == (prev.spec_any() || prev.spec_current()));
        if prev.spec_any() || prev.spec_current() {
            if prev.spec_any() {
                let j = choose|j: int|
                    0 <= j < conds.len() - 2 && chain_branch_emits(shorter, j);
                assert(chain_branch_emits(conds, j));
            } else {
                assert(prev.spec_include_line());
                assert(chain_branch_emits(conds, conds.len() - 2));
            }
        } else {
            assert forall|j: int| 0 <= j < conds.len() - 1 implies !chain_branch_emits(
                conds,
                j,
            ) by {
                if j < conds.len() - 2 {
                    assert(!chain_branch_emits(shorter, j));
                } else {
                    assert(!prev.spec_include_line());
                }
            }
        }
    }
}

/// In an `IF`/`ELIF`.../`ELSE` chain whose enclosing region is live, at most
/// one of the condition-guarded branches emits, and the `ELSE` branch emits
/// exactly when none of them does — so exactly one branch of the full chain
/// ever contributes lines to the output.
pub proof fn lemma_chain_single_branch(conds: Seq<bool>)
    requires
        conds.len() >= 1,
    ensures
        forall|i: int, j: int|
            0 <= i < j < conds.len() ==> !(chain_branch_emits(conds, i) && chain_branch_emits(
                conds,
                j,
            )),
        chain_frame(conds).spec_into_else().spec_include_line() <==> !exists|i: int|
            0 <= i < conds.len() && chain_branch_emits(conds, i),
{
    assert forall|i: int, j: int| 0 <= i < j < conds.len() implies !(chain_branch_emits(conds, i)
        && chain_branch_emits(conds, j)) by {
        let front = conds.take(j + 1);
        lemma_chain_any_tracks_emitted(front);
        assert(front.take(i + 1) =~= conds.take(i + 1));
        if chain_branch_emits(conds, i) && chain_branch_emits(conds, j) {
            assert(chain_branch_emits(front, i));
            assert(chain_frame(front).spec_any());
            assert(!chain_frame(front).spec_include_line());
        }
    }
    lemma_chain_any_tracks_emitted(conds);
    let last = chain_frame(conds);
    assert(conds.take(conds.len() as int) =~= conds);
    assert(chain_branch_emits(conds, conds.len() - 1) == last.spec_include_line());
    assert(last.spec_into_else().spec_include_line() == (!last.spec_any()
        && !last.spec_current()));
    if !last.spec_any() && !last.spec_current() {
        assert forall|i: int| 0 <= i < conds.len() implies !chain_branch_emits(conds, i) by {
            if i < conds.len() - 1 {
                assert(!last.spec_any());
            } else {
                assert(!last.spec_include_line());
            }
        }
    } else {
        if last.spec_any() {
        } else {
            assert(last.spec_include_line());
            assert(chain_branch_emits(conds, conds.len() - 1));
        }
    }
}

} // verus!
