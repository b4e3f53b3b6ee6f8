//! Basic blocks and their predecessor relation.
//!
//! A thin model of the control-flow graph the analysis walks: each basic
//! block may end in a terminator naming its successor blocks.

use vstd::prelude::*;

verus! {

/// The end of a basic block: where control can go next.
pub struct Terminator {
    pub successors: Vec<usize>,
}

/// One basic block; a block under construction has no terminator yet.
pub struct BasicBlockData {
    pub terminator: Option<Terminator>,
}

/// A function body: its basic blocks, indexed by position.
pub struct Body {
    pub basic_blocks: Vec<BasicBlockData>,
}

/// Block `bb` has a terminator and one of its successors is `target`.
pub open spec fn spec_is_predecessor(body: Body, bb: int, target: usize) -> bool {
    &&& 0 <= bb < body.basic_blocks@.len()
    &&& match body.basic_blocks@[bb].terminator {
        Some(t) => t.successors@.contains(target),
        None => false,
    }
}

/// The predecessors of `target` among the first `n` blocks, in index order.
pub open spec fn predecessors_upto(body: Body, n: int, target: usize) -> Seq<usize>
    decreases n,
{
    if n <= 0 {
        Seq::empty()
    } else {
        predecessors_upto(body, n - 1, target) + (if spec_is_predecessor(body, n - 1, target) {
            seq![(n - 1) as usize]
        } else {
            Seq::empty()
        })
    }
}

/// Whether `target` is among the terminator's successors.
fn has_successor(t: &Terminator, target: usize) -> (r: bool)
    ensures
        r == t.successors@.contains(target),
{
    let n: usize = t.successors.len();
    let mut i: usize = 0;
    while i < n
        invariant
            i <= n,
            n == t.successors@.len(),
            forall|j: int| 0 <= j < i ==> t.successors@[j] != target,
        decreases n - i,
    {
        if t.successors[i] == target {
            return true;
        }
        i += 1;
    }
    false
}

/// The indices of all basic blocks whose terminator can jump to
/// `target_bb`, in ascending order.
pub fn predecessors_for(body: &Body, target_bb: usize) -> (r: Vec<usize>)
    ensures
        r@ == predecessors_upto(*body, body.basic_blocks@.len() as int, target_bb),
{
    let mut r: Vec<usize> = Vec::new();
    let n: usize = body.basic_blocks.len();
    let mut bb: usize = 0;
    proof {
        assert(r@ =~= predecessors_upto(*body, 0, target_bb));
    }
    while bb < n
        invariant
            bb <= n,
            n == body.basic_blocks@.len(),
            r@ == predecessors_upto(*body, bb as int, target_bb),
        decreases n - bb,
    {
        let is_pred = match &body.basic_blocks[bb].terminator {
            Some(t) => has_successor(t, target_bb),
            None => false,
        };
        if is_pred {
            r.push(bb);
        }
        proof {
            assert(r@ =~= predecessors_upto(*body, bb + 1, target_bb));
        }
        bb += 1;
    }
    r
}

} // verus!
