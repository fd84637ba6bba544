//! Which values a block carries through to its successors: the requests of
//! the first pass, followed back over as many blocks as it takes.
use vstd::prelude::*;
use crate::model::{arg_values, node_refs, successors, term_common_args, term_effect_args, BlockModel, NodeModel, TermModel, ValueModel};
use crate::semantics::{foreign_inputs, home_block, selector_values, targets_in_range, visible};

verus! {

/// The values a terminator passes on: its effect argument values when
/// `effect`, its ordinary arguments otherwise.
pub open spec fn passed(t: TermModel, effect: bool) -> Seq<ValueModel> {
    if effect {
        arg_values(term_effect_args(t))
    } else {
        term_common_args(t)
    }
}

/// Whether block `t` needs node `x` from its predecessors on its own
/// account (as an effect when `effect`, an ordinary value otherwise): it
/// does not define `x`, and a node it lists reads `x`, its terminator
/// passes `x` on, or it branches on `x`.
pub open spec fn asks_own(bbs: Seq<BlockModel>, nodes: Seq<NodeModel>, t: int, x: u32, effect: bool) -> bool {
    &&& home_block(bbs, x) != t
    &&& {
        ||| foreign_inputs(bbs, nodes, t, effect).contains(x)
        ||| node_refs(passed(bbs[t].terminator, effect)).contains(x)
        ||| (!effect && node_refs(selector_values(bbs[t].terminator)).contains(x))
    }
}

/// Whether block `p` sees `x` at its end and some successor of `p` is
/// marked in `asking`.
pub open spec fn feeds_asker(bbs: Seq<BlockModel>, p: int, x: u32, asking: Seq<bool>) -> bool {
    &&& visible(bbs, p).contains(x)
    &&& exists|j: int|
        0 <= j < successors(bbs[p].terminator).len() && (successors(bbs[p].terminator)[j] as int) < asking.len()
            && #[trigger] asking[successors(bbs[p].terminator)[j] as int]
}

/// For every block, whether it needs `x` from its predecessors, following
/// needs back over at most `k` blocks: on its own account, or because it
/// does not define `x`, sees it at its end, and a successor needs it
/// (within `k - 1`).
pub open spec fn asks_table(bbs: Seq<BlockModel>, nodes: Seq<NodeModel>, x: u32, effect: bool, k: nat) -> Seq<bool>
    decreases k,
{
    if k == 0 {
        Seq::new(bbs.len(), |t: int| asks_own(bbs, nodes, t, x, effect))
    } else {
        let prev = asks_table(bbs, nodes, x, effect, (k - 1) as nat);
        Seq::new(
            bbs.len(),
            |t: int| asks_own(bbs, nodes, t, x, effect) || (home_block(bbs, x) != t && feeds_asker(bbs, t, x, prev)),
        )
    }
}

/// Whether block `t` needs `x`, following needs back over at most `k`
/// blocks.
pub open spec fn asks_within(bbs: Seq<BlockModel>, nodes: Seq<NodeModel>, t: int, x: u32, effect: bool, k: nat) -> bool {
    asks_table(bbs, nodes, x, effect, k)[t]
}

/// Whether block `p` must pass `x` on to its successors, following needs
/// back over at most `k` blocks.
pub open spec fn carries_within(bbs: Seq<BlockModel>, nodes: Seq<NodeModel>, p: int, x: u32, effect: bool, k: nat) -> bool {
    feeds_asker(bbs, p, x, asks_table(bbs, nodes, x, effect, k))
}

/// Whether block `p` must pass `x` on: needs followed back over as many
/// blocks as there are.
pub open spec fn carries(bbs: Seq<BlockModel>, nodes: Seq<NodeModel>, p: int, x: u32, effect: bool) -> bool {
    carries_within(bbs, nodes, p, x, effect, bbs.len() as nat)
}

/// The ids below `n` that block `p` must pass on, in increasing order.
pub open spec fn carried_upto(bbs: Seq<BlockModel>, nodes: Seq<NodeModel>, p: int, effect: bool, n: int) -> Seq<u32>
    decreases n,
{
    if n <= 0 {
        seq![]
    } else {
        carried_upto(bbs, nodes, p, effect, n - 1) + if carries(bbs, nodes, p, (n - 1) as u32, effect) {
            seq![(n - 1) as u32]
        } else {
            seq![]
        }
    }
}

// ---------------------------------------------------------------------------
// Following needs back further never asks for less
// ---------------------------------------------------------------------------

/// A step of following needs back, unfolded.
pub proof fn lemma_asks_unfold(bbs: Seq<BlockModel>, nodes: Seq<NodeModel>, t: int, x: u32, effect: bool, k: nat)
    requires
        0 <= t < bbs.len(),
    ensures
        asks_within(bbs, nodes, t, x, effect, k + 1) == (asks_own(bbs, nodes, t, x, effect) || (home_block(bbs, x)
            != t && carries_within(bbs, nodes, t, x, effect, k))),
        asks_within(bbs, nodes, t, x, effect, 0) == asks_own(bbs, nodes, t, x, effect),
{
    assert(((k + 1) - 1) as nat == k);
    lemma_table_len(bbs, nodes, x, effect, k + 1);
}

pub proof fn lemma_table_len(bbs: Seq<BlockModel>, nodes: Seq<NodeModel>, x: u32, effect: bool, k: nat)
    ensures
        asks_table(bbs, nodes, x, effect, k).len() == bbs.len(),
{
}

proof fn lemma_within_mono(bbs: Seq<BlockModel>, nodes: Seq<NodeModel>, x: u32, effect: bool, k: nat)
    ensures
        forall|t: int| 0 <= t < bbs.len() && #[trigger] asks_within(bbs, nodes, t, x, effect, k) ==> asks_within(bbs, nodes, t, x, effect, k + 1),
        forall|p: int| #[trigger] carries_within(bbs, nodes, p, x, effect, k) ==> carries_within(bbs, nodes, p, x, effect, k + 1),
    decreases k,
{
    lemma_table_len(bbs, nodes, x, effect, k);
    lemma_table_len(bbs, nodes, x, effect, k + 1);
    if k > 0 {
        lemma_within_mono(bbs, nodes, x, effect, (k - 1) as nat);
        assert(((k - 1) as nat) + 1 == k);
    }
    assert forall|p: int| #[trigger] carries_within(bbs, nodes, p, x, effect, k) implies carries_within(bbs, nodes, p, x, effect, k + 1) by {
        if k > 0 {
            let sq = successors(bbs[p].terminator);
            let a = asks_table(bbs, nodes, x, effect, k);
            let j = choose|j: int| 0 <= j < sq.len() && (sq[j] as int) < a.len() && #[trigger] a[sq[j] as int];
            let t = sq[j] as int;
            assert(asks_within(bbs, nodes, t, x, effect, k));
            lemma_asks_unfold(bbs, nodes, t, x, effect, (k - 1) as nat);
            lemma_asks_unfold(bbs, nodes, t, x, effect, k);
            assert(asks_within(bbs, nodes, t, x, effect, k + 1));
        } else {
            let sq = successors(bbs[p].terminator);
            let a = asks_table(bbs, nodes, x, effect, k);
            let j = choose|j: int| 0 <= j < sq.len() && (sq[j] as int) < a.len() && #[trigger] a[sq[j] as int];
            let t = sq[j] as int;
            lemma_asks_unfold(bbs, nodes, t, x, effect, 0);
            assert(asks_within(bbs, nodes, t, x, effect, 1));
        }
    }
    assert forall|t: int| 0 <= t < bbs.len() && #[trigger] asks_within(bbs, nodes, t, x, effect, k) implies asks_within(bbs, nodes, t, x, effect, k + 1) by {
        lemma_asks_unfold(bbs, nodes, t, x, effect, k);
        if k > 0 {
            lemma_asks_unfold(bbs, nodes, t, x, effect, (k - 1) as nat);
            if !asks_own(bbs, nodes, t, x, effect) {
                assert(carries_within(bbs, nodes, t, x, effect, (k - 1) as nat));
            }
        }
    }
}

/// Following needs back over `k + 1` blocks asks `t` for `x` exactly when
/// following them over `k` does.
pub open spec fn steady(bbs: Seq<BlockModel>, nodes: Seq<NodeModel>, t: int, x: u32, effect: bool, k: nat) -> bool {
    asks_within(bbs, nodes, t, x, effect, k) == asks_within(bbs, nodes, t, x, effect, k + 1)
}

/// Following needs back one block further at step `k` changes what some
/// block asks for.
pub open spec fn changes(bbs: Seq<BlockModel>, nodes: Seq<NodeModel>, x: u32, effect: bool, k: nat) -> bool {
    exists|t: int| 0 <= t < bbs.len() && !#[trigger] steady(bbs, nodes, t, x, effect, k)
}

/// Two steps that ask for the same blocks are followed by steps that ask
/// for the same blocks.
proof fn lemma_within_stable(bbs: Seq<BlockModel>, nodes: Seq<NodeModel>, x: u32, effect: bool, k: nat)
    requires
        targets_in_range(bbs),
        forall|t: int| 0 <= t < bbs.len() ==> #[trigger] steady(bbs, nodes, t, x, effect, k),
    ensures
        forall|t: int| 0 <= t < bbs.len() ==> #[trigger] steady(bbs, nodes, t, x, effect, k + 1),
{
    lemma_table_len(bbs, nodes, x, effect, k);
    lemma_table_len(bbs, nodes, x, effect, k + 1);
    assert forall|t: int| 0 <= t < bbs.len() implies #[trigger] steady(bbs, nodes, t, x, effect, k + 1) by {
        lemma_asks_unfold(bbs, nodes, t, x, effect, k);
        lemma_asks_unfold(bbs, nodes, t, x, effect, k + 1);
        assert((k + 1) + 1 == k + 2);
        let sq = successors(bbs[t].terminator);
        let a0 = asks_table(bbs, nodes, x, effect, k);
        let a1 = asks_table(bbs, nodes, x, effect, k + 1);
        if carries_within(bbs, nodes, t, x, effect, k + 1) {
            let j = choose|j: int| 0 <= j < sq.len() && (sq[j] as int) < a1.len() && #[trigger] a1[sq[j] as int];
            assert(steady(bbs, nodes, sq[j] as int, x, effect, k));
            assert(a0[sq[j] as int]);
        }
        if carries_within(bbs, nodes, t, x, effect, k) {
            let j = choose|j: int| 0 <= j < sq.len() && (sq[j] as int) < a0.len() && #[trigger] a0[sq[j] as int];
            assert(steady(bbs, nodes, sq[j] as int, x, effect, k));
            assert(a1[sq[j] as int]);
        }
    }
}

/// The number of blocks below `n` that ask for `x` within `k`.
pub open spec fn asking_count(bbs: Seq<BlockModel>, nodes: Seq<NodeModel>, x: u32, effect: bool, k: nat, n: int) -> nat
    decreases n,
{
    if n <= 0 {
        0
    } else {
        asking_count(bbs, nodes, x, effect, k, n - 1) + if asks_within(bbs, nodes, n - 1, x, effect, k) {
            1nat
        } else {
            0nat
        }
    }
}

proof fn lemma_count_grows(bbs: Seq<BlockModel>, nodes: Seq<NodeModel>, x: u32, effect: bool, k: nat, n: int)
    requires
        0 <= n <= bbs.len(),
    ensures
        asking_count(bbs, nodes, x, effect, k, n) <= asking_count(bbs, nodes, x, effect, k + 1, n),
        asking_count(bbs, nodes, x, effect, k, n) <= n,
        (exists|t: int| 0 <= t < n && !#[trigger] steady(bbs, nodes, t, x, effect, k))
            ==> asking_count(bbs, nodes, x, effect, k, n) < asking_count(bbs, nodes, x, effect, k + 1, n),
    decreases n,
{
    lemma_within_mono(bbs, nodes, x, effect, k);
    if n > 0 {
        lemma_count_grows(bbs, nodes, x, effect, k, n - 1);
        if exists|t: int| 0 <= t < n && !#[trigger] steady(bbs, nodes, t, x, effect, k) {
            let t = choose|t: int| 0 <= t < n && !#[trigger] steady(bbs, nodes, t, x, effect, k);
            if t < n - 1 {
                assert(exists|t2: int| 0 <= t2 < n - 1 && !#[trigger] steady(bbs, nodes, t2, x, effect, k));
            }
        }
    }
}

proof fn lemma_count_bound(bbs: Seq<BlockModel>, nodes: Seq<NodeModel>, x: u32, effect: bool, k: nat)
    requires
        forall|i: nat| i <= k ==> #[trigger] changes(bbs, nodes, x, effect, i),
    ensures
        asking_count(bbs, nodes, x, effect, k + 1, bbs.len() as int) >= k + 1,
    decreases k,
{
    let n = bbs.len() as int;
    assert(changes(bbs, nodes, x, effect, k));
    lemma_count_grows(bbs, nodes, x, effect, k, n);
    if k > 0 {
        lemma_count_bound(bbs, nodes, x, effect, (k - 1) as nat);
        assert(((k - 1) as nat) + 1 == k);
    }
}

/// After as many steps as there are blocks, following needs back one block
/// further asks for nothing new.
pub proof fn lemma_asks_settled(bbs: Seq<BlockModel>, nodes: Seq<NodeModel>, t: int, x: u32, effect: bool)
    requires
        targets_in_range(bbs),
        0 <= t < bbs.len(),
    ensures
        asks_within(bbs, nodes, t, x, effect, bbs.len() as nat + 1) == asks_within(bbs, nodes, t, x, effect, bbs.len() as nat),
{
    let b = bbs.len() as nat;
    if forall|i: nat| i <= b ==> #[trigger] changes(bbs, nodes, x, effect, i) {
        lemma_count_bound(bbs, nodes, x, effect, b);
        lemma_count_grows(bbs, nodes, x, effect, b + 1, bbs.len() as int);
        assert(false);
    }
    let i0 = choose|i: nat| i <= b && !#[trigger] changes(bbs, nodes, x, effect, i);
    lemma_stable_from(bbs, nodes, x, effect, i0, b);
    assert(steady(bbs, nodes, t, x, effect, b));
}

proof fn lemma_stable_from(bbs: Seq<BlockModel>, nodes: Seq<NodeModel>, x: u32, effect: bool, i: nat, m: nat)
    requires
        targets_in_range(bbs),
        i <= m,
        forall|t: int| 0 <= t < bbs.len() ==> #[trigger] steady(bbs, nodes, t, x, effect, i),
    ensures
        forall|t: int| 0 <= t < bbs.len() ==> #[trigger] steady(bbs, nodes, t, x, effect, m),
    decreases m - i,
{
    if i < m {
        lemma_within_stable(bbs, nodes, x, effect, i);
        lemma_stable_from(bbs, nodes, x, effect, i + 1, m);
    }
}

/// A block that must pass `x` on and does not define it needs `x` from
/// every predecessor at whose end `x` is visible.
pub proof fn lemma_carried_closed(bbs: Seq<BlockModel>, nodes: Seq<NodeModel>, p: int, t: int, x: u32, effect: bool)
    requires
        targets_in_range(bbs),
        0 <= p < bbs.len(),
        0 <= t < bbs.len(),
        exists|j: int| 0 <= j < successors(bbs[p].terminator).len() && successors(bbs[p].terminator)[j] as int == t,
        visible(bbs, p).contains(x),
        asks_own(bbs, nodes, t, x, effect) || (home_block(bbs, x) != t && carries(bbs, nodes, t, x, effect)),
    ensures
        carries(bbs, nodes, p, x, effect),
{
    let b = bbs.len() as nat;
    lemma_asks_settled(bbs, nodes, t, x, effect);
    lemma_asks_unfold(bbs, nodes, t, x, effect, b);
    lemma_table_len(bbs, nodes, x, effect, b);
    assert(asks_within(bbs, nodes, t, x, effect, b));
    let sq = successors(bbs[p].terminator);
    let j = choose|j: int| 0 <= j < sq.len() && sq[j] as int == t;
    let a = asks_table(bbs, nodes, x, effect, b);
    assert(a[sq[j] as int]);
}

// ---------------------------------------------------------------------------
// What a block needs on its own account, input by input
// ---------------------------------------------------------------------------

pub proof fn lemma_not_from_iff(bbs: Seq<BlockModel>, ids: Seq<u32>, b: int, x: u32)
    ensures
        crate::semantics::not_from(bbs, ids, b).contains(x) <==> (ids.contains(x) && home_block(bbs, x) != b),
    decreases ids.len(),
{
    if ids.len() > 0 {
        lemma_not_from_iff(bbs, ids.drop_last(), b, x);
        crate::semantics::lemma_drop_last_push(ids);
        crate::semantics::lemma_push_contains(ids.drop_last(), ids.last(), x);
        crate::semantics::lemma_push_contains(crate::semantics::not_from(bbs, ids.drop_last(), b), ids.last(), x);
    }
}

/// The foreign inputs of the first `k + 1` nodes of block `t`.
pub proof fn lemma_foreign_step(bbs: Seq<BlockModel>, nodes: Seq<NodeModel>, t: int, e: bool, k: int, x: u32)
    requires
        0 <= t < bbs.len(),
        0 <= k < bbs[t].node_ids.len(),
    ensures
        crate::semantics::foreign_inputs_upto(bbs, nodes, t, e, k + 1).contains(x) == (
        crate::semantics::foreign_inputs_upto(bbs, nodes, t, e, k).contains(x) || (crate::semantics::inputs_of(
            nodes[bbs[t].node_ids[k] as int],
            e,
        ).contains(x) && home_block(bbs, x) != t)),
{
    let ins = crate::semantics::inputs_of(nodes[bbs[t].node_ids[k] as int], e);
    crate::semantics::lemma_add_contains(
        crate::semantics::foreign_inputs_upto(bbs, nodes, t, e, k),
        crate::semantics::not_from(bbs, ins, t),
        x,
    );
    lemma_not_from_iff(bbs, ins, t, x);
}

/// A foreign input is defined in another block.
pub proof fn lemma_foreign_home(bbs: Seq<BlockModel>, nodes: Seq<NodeModel>, t: int, e: bool, k: int, x: u32)
    requires
        0 <= t < bbs.len(),
        0 <= k <= bbs[t].node_ids.len(),
    ensures
        crate::semantics::foreign_inputs_upto(bbs, nodes, t, e, k).contains(x) ==> home_block(bbs, x) != t,
    decreases k,
{
    if k > 0 {
        lemma_foreign_home(bbs, nodes, t, e, k - 1, x);
        lemma_foreign_step(bbs, nodes, t, e, k - 1, x);
    }
}

} // verus!
