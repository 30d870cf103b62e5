//! What the drivers keep of the blocks while they go through them: the
//! blocks that wait for their turn, and the block that is under way.

use crate::analysis::dataflow::EdgeId;
use crate::ir::BlockId;
use vstd::prelude::*;

verus! {

/// Whether `block` is the block under way.
pub open spec fn is_current(current: Option<EdgeId>, block: int) -> bool {
    current is Some && current.unwrap().0 == block
}

/// The blocks for which `infos` holds a state.
pub open spec fn blocks_with_info<T>(infos: Seq<Option<T>>) -> Set<int> {
    Set::new(|b: int| 0 <= b < infos.len() && infos[b] is Some)
}

/// Whether `block` is among the blocks that wait in `ready`.
pub open spec fn waits(ready: Seq<BlockId>, block: int) -> bool {
    exists|i: int| 0 <= i < ready.len() && (#[trigger] ready[i]).0 == block
}

/// No block waits twice, and every block that waits is one of the first `n`.
pub open spec fn queue_ok(ready: Seq<BlockId>, n: int) -> bool {
    &&& forall|i: int| 0 <= i < ready.len() ==> (#[trigger] ready[i]).0 < n
    &&& forall|i: int, j: int|
        0 <= i < j < ready.len() ==> (#[trigger] ready[i]).0 != (#[trigger] ready[j]).0
}

/// A block that does not wait can be added to the blocks that wait.
pub proof fn lemma_queue_push(ready: Seq<BlockId>, n: int, block: BlockId)
    requires
        queue_ok(ready, n),
        !waits(ready, block.0 as int),
        block.0 < n,
    ensures
        queue_ok(ready.push(block), n),
        forall|b: int| waits(ready.push(block), b) <==> (waits(ready, b) || b == block.0),
{
    let after = ready.push(block);
    assert forall|b: int| waits(after, b) <==> (waits(ready, b) || b == block.0) by {
        if waits(ready, b) {
            let i = choose|i: int| 0 <= i < ready.len() && (#[trigger] ready[i]).0 == b;
            assert(after[i].0 == b);
        }
        if b == block.0 {
            assert(after[ready.len() as int].0 == b);
        }
        if waits(after, b) {
            let i = choose|i: int| 0 <= i < after.len() && (#[trigger] after[i]).0 == b;
            if i < ready.len() {
                assert(ready[i].0 == b);
            }
        }
    }
    assert forall|i: int, j: int| 0 <= i < j < after.len() implies (#[trigger] after[i]).0 != (
    #[trigger] after[j]).0 by {
        if j < ready.len() {
            assert(ready[i].0 != ready[j].0);
        } else {
            assert(ready[i].0 != block.0);
        }
    }
}

/// The last of the blocks that wait can be taken from them.
pub proof fn lemma_queue_pop(ready: Seq<BlockId>, n: int)
    requires
        queue_ok(ready, n),
        ready.len() > 0,
    ensures
        queue_ok(ready.drop_last(), n),
        waits(ready, ready.last().0 as int),
        forall|b: int| waits(ready.drop_last(), b) <==> (waits(ready, b) && b != ready.last().0),
{
    let after = ready.drop_last();
    let last = ready.len() - 1;
    assert(ready[last].0 == ready.last().0);
    assert forall|b: int| waits(after, b) <==> (waits(ready, b) && b != ready.last().0) by {
        if waits(after, b) {
            let i = choose|i: int| 0 <= i < after.len() && (#[trigger] after[i]).0 == b;
            assert(ready[i].0 == b);
            assert(ready[i].0 != ready[last].0);
        }
        if waits(ready, b) && b != ready.last().0 {
            let i = choose|i: int| 0 <= i < ready.len() && (#[trigger] ready[i]).0 == b;
            assert(after[i].0 == b);
        }
    }
    assert forall|i: int, j: int| 0 <= i < j < after.len() implies (#[trigger] after[i]).0 != (
    #[trigger] after[j]).0 by {
        assert(ready[i].0 != ready[j].0);
    }
}

} // verus!
