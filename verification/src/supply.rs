//! Every value a continuation takes from another block is handed to it by
//! every jump into it.
use vstd::prelude::*;
use crate::carry::{asks_own, carried_upto, carries, lemma_carried_closed, lemma_foreign_home, lemma_foreign_step, passed};
use crate::model::{
    arg_values, node_refs, successors, term_common_args, term_effect_args, BlockModel, GraphModel, NodeModel,
    TermModel, ValueModel,
};
use crate::laws::lemma_pass1_args_kept;
use crate::model::{with_effect_args};
use crate::semantics::{
    add_common_refs, add_effect_refs, final_terms, lemma_add_common_refs_passes, lemma_add_common_refs_values,
    lemma_add_effect_refs_passes, lemma_add_effect_refs_values, lemma_with_args_accessors, pass1_requests,
    pass1_terms,
};
use crate::semantics::{
    dedup_seq, foreign_inputs, foreign_inputs_upto, gather_visible, graph_wf, home_block, home_upto, id_space,
    inputs_of, lemma_add_contains, lemma_dedup_contains, lemma_drop_last_push, lemma_push_contains, listed_below,
    preds, requests, requests_upto, selector_values, visible, visible_among, visible_upto, Slot,
};

verus! {

// ---------------------------------------------------------------------------
// Where a block's nodes come from
// ---------------------------------------------------------------------------

/// A block that does not list `x` is not its home.
proof fn lemma_home_not_listed(bbs: Seq<BlockModel>, x: u32, t: int, k: int)
    requires
        0 <= t < bbs.len(),
        k <= bbs.len(),
        !bbs[t].node_ids.contains(x),
    ensures
        home_upto(bbs, x, k) != t,
    decreases k,
{
    if k > 0 {
        lemma_home_not_listed(bbs, x, t, k - 1);
    }
}

/// An input of a listed node that comes from another block is among the
/// block's foreign inputs.
proof fn lemma_foreign_has(bbs: Seq<BlockModel>, nodes: Seq<NodeModel>, t: int, e: bool, k: int, i: int, x: u32)
    requires
        0 <= t < bbs.len(),
        0 <= i < k <= bbs[t].node_ids.len(),
        inputs_of(nodes[bbs[t].node_ids[i] as int], e).contains(x),
        home_block(bbs, x) != t,
    ensures
        foreign_inputs_upto(bbs, nodes, t, e, k).contains(x),
    decreases k,
{
    lemma_foreign_step(bbs, nodes, t, e, k - 1, x);
    if i < k - 1 {
        lemma_foreign_has(bbs, nodes, t, e, k - 1, i, x);
    }
}

proof fn lemma_visible_among_in(ids: Seq<u32>, vis: Seq<u32>, x: u32)
    ensures
        visible_among(ids, vis).contains(x) ==> ids.contains(x) && vis.contains(x),
    decreases ids.len(),
{
    if ids.len() > 0 {
        lemma_visible_among_in(ids.drop_last(), vis, x);
        lemma_push_contains(visible_among(ids.drop_last(), vis), ids.last(), x);
        lemma_drop_last_push(ids);
        lemma_push_contains(ids.drop_last(), ids.last(), x);
    }
}

/// A node a block is asked for directly comes from one of its successors
/// that reads it from another block, and the block sees it.
proof fn lemma_requests_source(bbs: Seq<BlockModel>, nodes: Seq<NodeModel>, t: int, e: bool, k: int, x: u32) -> (q: int)
    requires
        requests_upto(bbs, nodes, t, e, k).contains(x),
    ensures
        0 <= q < k,
        preds(bbs, q).contains(t as u32),
        foreign_inputs(bbs, nodes, q, e).contains(x),
        visible(bbs, t).contains(x),
    decreases k,
{
    if k <= 0 {
        assert(requests_upto(bbs, nodes, t, e, k) =~= Seq::<u32>::empty());
        assert(false);
        0
    } else {
        lemma_add_contains(requests_upto(bbs, nodes, t, e, k - 1), requests(bbs, nodes, t, k - 1, e), x);
        if requests_upto(bbs, nodes, t, e, k - 1).contains(x) {
            lemma_requests_source(bbs, nodes, t, e, k - 1, x)
        } else {
            lemma_visible_among_in(foreign_inputs(bbs, nodes, k - 1, e), visible(bbs, t), x);
            k - 1
        }
    }
}

/// The ids below `n` a block carries are exactly those it must carry.
proof fn lemma_carried_has(bbs: Seq<BlockModel>, nodes: Seq<NodeModel>, p: int, e: bool, n: int, x: u32)
    requires
        0 <= n <= id_space(),
    ensures
        carried_upto(bbs, nodes, p, e, n).contains(x) <==> (carries(bbs, nodes, p, x, e) && (x as int) < n),
    decreases n,
{
    if n > 0 {
        lemma_carried_has(bbs, nodes, p, e, n - 1, x);
        let last: Seq<u32> = if carries(bbs, nodes, p, (n - 1) as u32, e) { seq![(n - 1) as u32] } else { seq![] };
        lemma_add_contains(carried_upto(bbs, nodes, p, e, n - 1), last, x);
        assert(last.contains(x) <==> (carries(bbs, nodes, p, x, e) && x as int == n - 1)) by {
            if last.contains(x) {
                assert(last[0] == x);
            }
            if carries(bbs, nodes, p, x, e) && x as int == n - 1 {
                assert(last[0] == x);
            }
        }
    }
}

/// The visible sets of blocks `ps` gathered hold only ids below `n` when
/// every set does.
proof fn lemma_gather_visible_below(ps: Seq<u32>, vis: Seq<Seq<u32>>, n: int, x: u32)
    requires
        forall|i: int, y: u32| 0 <= i < vis.len() && #[trigger] vis[i].contains(y) ==> (y as int) < n,
        gather_visible(ps, vis).contains(x),
    ensures
        (x as int) < n,
    decreases ps.len(),
{
    if ps.len() > 0 {
        let last: Seq<u32> = if (ps.last() as int) < vis.len() { vis[ps.last() as int] } else { seq![] };
        lemma_add_contains(gather_visible(ps.drop_last(), vis), last, x);
        if gather_visible(ps.drop_last(), vis).contains(x) {
            lemma_gather_visible_below(ps.drop_last(), vis, n, x);
        } else if (ps.last() as int) < vis.len() {
            assert(vis[ps.last() as int].contains(x));
        }
    }
}

/// Every id visible at the end of a block among the first `k` is below
/// `n` when every listed id is.
proof fn lemma_visible_upto_below(bbs: Seq<BlockModel>, n: int, k: int)
    requires
        listed_below(bbs, n),
        0 <= k <= bbs.len(),
    ensures
        visible_upto(bbs, k).len() == k,
        forall|i: int, y: u32| 0 <= i < k && #[trigger] visible_upto(bbs, k)[i].contains(y) ==> (y as int) < n,
    decreases k,
{
    crate::semantics::lemma_visible_upto_len(bbs, k);
    if k > 0 {
        lemma_visible_upto_below(bbs, n, k - 1);
        let prev = visible_upto(bbs, k - 1);
        let ids = bbs[k - 1].node_ids;
        let all = ids + gather_visible(preds(bbs, k - 1), prev);
        assert forall|i: int, y: u32| 0 <= i < k && #[trigger] visible_upto(bbs, k)[i].contains(y) implies (y as int) < n by {
            if i < k - 1 {
                assert(visible_upto(bbs, k)[i] == prev[i]);
            } else {
                assert(visible_upto(bbs, k)[i] == dedup_seq(all));
                lemma_dedup_contains(all, y);
                lemma_add_contains(ids, gather_visible(preds(bbs, k - 1), prev), y);
                if ids.contains(y) {
                    let j = choose|j: int| 0 <= j < ids.len() && ids[j] == y;
                    assert(bbs[k - 1].node_ids[j] == y);
                } else {
                    lemma_gather_visible_below(preds(bbs, k - 1), prev, n, y);
                }
            }
        }
    }
}

/// Every id visible at the end of a block is a node of the pool.
proof fn lemma_visible_below(g: GraphModel, p: int, x: u32)
    requires
        graph_wf(g),
        0 <= p < g.bbs.len(),
        visible(g.bbs, p).contains(x),
    ensures
        (x as int) < g.nodes.len(),
{
    lemma_visible_upto_below(g.bbs, g.nodes.len() as int, g.bbs.len() as int);
}

/// A predecessor of `t` names `t` among its targets.
proof fn lemma_succ_of_pred(bbs: Seq<BlockModel>, t: int, p: int) -> (j: int)
    requires
        bbs.len() <= id_space(),
        0 <= t < bbs.len(),
        0 <= p < bbs.len(),
        preds(bbs, t).contains(p as u32),
    ensures
        0 <= j < successors(bbs[p].terminator).len(),
        successors(bbs[p].terminator)[j] as int == t,
{
    crate::laws::law_predecessors(bbs, t, p);
    let ss = successors(bbs[p].terminator);
    let j = choose|j: int| 0 <= j < ss.len() && ss[j] == t as u32;
    j
}

// ---------------------------------------------------------------------------
// From carrying to passing
// ---------------------------------------------------------------------------

/// A block that must carry `x`, and sees it, passes `x` after both passes.
proof fn lemma_carries_supplied(g: GraphModel, p: int, x: u32, e: bool)
    requires
        graph_wf(g),
        0 <= p < g.bbs.len(),
        carries(g.bbs, g.nodes, p, x, e),
        visible(g.bbs, p).contains(x),
    ensures
        passed(final_terms(g)[p], e).contains(ValueModel::Node(x)),
{
    let n = g.nodes.len() as int;
    lemma_visible_below(g, p, x);
    lemma_carried_has(g.bbs, g.nodes, p, e, n, x);
    lemma_add_contains(
        requests_upto(g.bbs, g.nodes, p, e, g.bbs.len() as int),
        carried_upto(g.bbs, g.nodes, p, e, n),
        x,
    );
    let t = g.bbs[p].terminator;
    let re = pass1_requests(g.bbs, g.nodes, p, true);
    let rc = pass1_requests(g.bbs, g.nodes, p, false);
    let e1 = add_effect_refs(term_effect_args(t), re);
    let c1 = add_common_refs(term_common_args(t), rc);
    lemma_add_effect_refs_passes(term_effect_args(t), re, x);
    lemma_add_common_refs_passes(term_common_args(t), rc, x);
    lemma_with_args_accessors(t, e1, c1);
    lemma_with_args_accessors(with_effect_args(t, e1), e1, c1);
    assert(passed(pass1_terms(g)[p], e).contains(ValueModel::Node(x)));
    lemma_pass1_args_kept(g, p, ValueModel::Node(x), e);
}

/// What the first pass has a block pass, it passed already or was asked
/// to carry.
proof fn lemma_pass1_source(g: GraphModel, t: int, x: u32, e: bool)
    requires
        0 <= t < g.bbs.len(),
        passed(pass1_terms(g)[t], e).contains(ValueModel::Node(x)),
    ensures
        passed(g.bbs[t].terminator, e).contains(ValueModel::Node(x)) || pass1_requests(g.bbs, g.nodes, t, e).contains(x),
{
    let o = g.bbs[t].terminator;
    let re = pass1_requests(g.bbs, g.nodes, t, true);
    let rc = pass1_requests(g.bbs, g.nodes, t, false);
    let e1 = add_effect_refs(term_effect_args(o), re);
    let c1 = add_common_refs(term_common_args(o), rc);
    lemma_with_args_accessors(o, e1, c1);
    lemma_with_args_accessors(with_effect_args(o, e1), e1, c1);
    lemma_add_effect_refs_values(term_effect_args(o), re, ValueModel::Node(x));
    lemma_add_common_refs_values(term_common_args(o), rc, ValueModel::Node(x));
}

/// A block that does not list `x` and needs it on its own account, or
/// must carry it, makes each predecessor that sees `x` carry it too.
proof fn lemma_pred_carries(g: GraphModel, t: int, p: int, x: u32, e: bool)
    requires
        graph_wf(g),
        0 <= t < g.bbs.len(),
        0 <= p < g.bbs.len(),
        preds(g.bbs, t).contains(p as u32),
        visible(g.bbs, p).contains(x),
        !g.bbs[t].node_ids.contains(x),
        asks_own(g.bbs, g.nodes, t, x, e) || carries(g.bbs, g.nodes, t, x, e),
    ensures
        carries(g.bbs, g.nodes, p, x, e),
{
    lemma_home_not_listed(g.bbs, x, t, g.bbs.len() as int);
    let j = lemma_succ_of_pred(g.bbs, t, p);
    lemma_carried_closed(g.bbs, g.nodes, p, t, x, e);
}

/// A block whose first pass passes `x`, and that does not list `x`,
/// makes each predecessor that sees `x` carry it.
proof fn lemma_pass1_pred_carries(g: GraphModel, t: int, p: int, x: u32, e: bool)
    requires
        graph_wf(g),
        0 <= t < g.bbs.len(),
        0 <= p < g.bbs.len(),
        preds(g.bbs, t).contains(p as u32),
        visible(g.bbs, p).contains(x),
        !g.bbs[t].node_ids.contains(x),
        passed(pass1_terms(g)[t], e).contains(ValueModel::Node(x)),
    ensures
        carries(g.bbs, g.nodes, p, x, e),
{
    let bbs = g.bbs;
    let nodes = g.nodes;
    lemma_home_not_listed(bbs, x, t, bbs.len() as int);
    lemma_pass1_source(g, t, x, e);
    if passed(bbs[t].terminator, e).contains(ValueModel::Node(x)) {
        crate::locality::lemma_node_refs_iff(passed(bbs[t].terminator, e), x);
        assert(asks_own(bbs, nodes, t, x, e));
    } else {
        let n = nodes.len() as int;
        lemma_add_contains(requests_upto(bbs, nodes, t, e, bbs.len() as int), carried_upto(bbs, nodes, t, e, n), x);
        if carried_upto(bbs, nodes, t, e, n).contains(x) {
            lemma_carried_has(bbs, nodes, t, e, n, x);
        } else {
            let q = lemma_requests_source(bbs, nodes, t, e, bbs.len() as int, x);
            lemma_foreign_home(bbs, nodes, q, e, bbs[q].node_ids.len() as int, x);
            assert(asks_own(bbs, nodes, q, x, e));
            let jq = lemma_succ_of_pred(bbs, q, t);
            lemma_carried_closed(bbs, nodes, t, q, x, e);
        }
    }
    lemma_pred_carries(g, t, p, x, e);
}

// ---------------------------------------------------------------------------
// The law
// ---------------------------------------------------------------------------

/// Whether block `t` takes node `x` from its predecessors on its own
/// account (as an effect when `effect`, an ordinary value otherwise): it
/// does not list `x`, and a node it lists reads `x`, its terminator passes
/// `x` on after the first pass, or it branches on `x`.
pub open spec fn imports(g: GraphModel, t: int, x: u32, effect: bool) -> bool {
    let ids = g.bbs[t].node_ids;
    &&& !ids.contains(x)
    &&& {
        ||| exists|i: int| 0 <= i < ids.len() && #[trigger] inputs_of(g.nodes[ids[i] as int], effect).contains(x)
        ||| passed(pass1_terms(g)[t], effect).contains(ValueModel::Node(x))
        ||| (!effect && selector_values(g.bbs[t].terminator).contains(ValueModel::Node(x)))
    }
}

/// Whether block `t` passes `x` on after both passes only because the
/// second pass had it inherit `x` from a predecessor.
pub open spec fn inherited_only(g: GraphModel, t: int, x: u32, effect: bool) -> bool {
    &&& passed(final_terms(g)[t], effect).contains(ValueModel::Node(x))
    &&& !passed(pass1_terms(g)[t], effect).contains(ValueModel::Node(x))
}

/// Whatever a block takes from its predecessors on its own account, every
/// predecessor at whose end it is visible hands over: if block `t` imports
/// node `x` and `p` is a predecessor of `t` that sees `x`, then after both
/// passes the terminator of `p` passes `x`, as an argument of the same
/// kind.
pub proof fn law_imports_supplied(g: GraphModel, t: int, p: int, x: u32, effect: bool)
    requires
        graph_wf(g),
        g.bbs.len() < usize::MAX,
        0 <= t < g.bbs.len(),
        0 <= p < g.bbs.len(),
        preds(g.bbs, t).contains(p as u32),
        imports(g, t, x, effect),
        visible(g.bbs, p).contains(x),
    ensures
        passed(final_terms(g)[p], effect).contains(ValueModel::Node(x)),
{
    let bbs = g.bbs;
    let nodes = g.nodes;
    let ids = bbs[t].node_ids;
    let o = bbs[t].terminator;
    lemma_home_not_listed(bbs, x, t, bbs.len() as int);
    if exists|i: int| 0 <= i < ids.len() && #[trigger] inputs_of(nodes[ids[i] as int], effect).contains(x) {
        let i = choose|i: int| 0 <= i < ids.len() && #[trigger] inputs_of(nodes[ids[i] as int], effect).contains(x);
        lemma_foreign_has(bbs, nodes, t, effect, ids.len() as int, i, x);
        lemma_pred_carries(g, t, p, x, effect);
    } else if !effect && selector_values(o).contains(ValueModel::Node(x)) {
        crate::locality::lemma_node_refs_iff(selector_values(o), x);
        lemma_pred_carries(g, t, p, x, effect);
    } else {
        lemma_pass1_pred_carries(g, t, p, x, effect);
    }
    lemma_carries_supplied(g, p, x, effect);
}

/// The first claim of `x` in slot `s`.
proof fn lemma_first_in_slot_claimed(q: Seq<(Slot, u32)>, s: Slot, x: u32) -> (j: int)
    requires
        crate::semantics::first_in_slot(q, s).contains(x),
    ensures
        0 <= j < q.len(),
        q[j] == (s, x),
    decreases q.len(),
{
    if q.len() == 0 {
        assert(false);
        0
    } else {
        let r = crate::semantics::first_in_slot(q.drop_last(), s);
        lemma_push_contains(r, q.last().1, x);
        if r.contains(x) {
            lemma_first_in_slot_claimed(q.drop_last(), s, x)
        } else {
            q.len() - 1
        }
    }
}

/// A claim made by the inputs of the first `k` listed nodes names an input
/// of one of them, in the slot of that input's kind.
proof fn lemma_input_claim_source(nodes: Seq<NodeModel>, blk: BlockModel, k: int, j: int) -> (i: int)
    requires
        0 <= k <= blk.node_ids.len(),
        0 <= j < crate::semantics::input_claims_upto(nodes, blk, k).len(),
    ensures
        0 <= i < k,
        crate::semantics::input_claims_upto(nodes, blk, k)[j].0 != Slot::Body,
        inputs_of(
            nodes[blk.node_ids[i] as int],
            crate::semantics::input_claims_upto(nodes, blk, k)[j].0 == Slot::Effect,
        ).contains(crate::semantics::input_claims_upto(nodes, blk, k)[j].1),
    decreases k,
{
    let ids = blk.node_ids;
    if k <= 0 {
        assert(false);
        0
    } else {
        let prev = crate::semantics::input_claims_upto(nodes, blk, k - 1);
        let nd = nodes[ids[k - 1] as int];
        let oc = crate::semantics::outside(inputs_of(nd, false), ids);
        let oe = crate::semantics::outside(inputs_of(nd, true), ids);
        let tc = crate::semantics::tagged(oc, Slot::Param);
        let te = crate::semantics::tagged(oe, Slot::Effect);
        let cur = crate::semantics::input_claims_upto(nodes, blk, k);
        assert(cur == prev + tc + te);
        if j < prev.len() {
            assert(cur[j] == prev[j]);
            lemma_input_claim_source(nodes, blk, k - 1, j)
        } else if j < prev.len() + tc.len() {
            let w = j - prev.len();
            assert(cur[j] == tc[w]);
            assert(oc.contains(oc[w]));
            crate::locality::lemma_outside_contains(inputs_of(nd, false), ids, oc[w]);
            k - 1
        } else {
            let w = j - prev.len() - tc.len();
            assert(cur[j] == te[w]);
            assert(oe.contains(oe[w]));
            crate::locality::lemma_outside_contains(inputs_of(nd, true), ids, oe[w]);
            k - 1
        }
    }
}

/// A claim of a block on an id it does not list comes from an input of a
/// listed node, an argument of its terminator, or its selector, in the
/// slot of that use's kind.
proof fn lemma_claim_source(nodes: Seq<NodeModel>, blk: BlockModel, j: int)
    requires
        0 <= j < crate::semantics::slot_claims(nodes, blk).len(),
        !blk.node_ids.contains(crate::semantics::slot_claims(nodes, blk)[j].1),
    ensures
        ({
            let c = crate::semantics::slot_claims(nodes, blk)[j];
            let e = c.0 == Slot::Effect;
            let ids = blk.node_ids;
            &&& c.0 != Slot::Body
            &&& {
                ||| exists|i: int| 0 <= i < ids.len() && #[trigger] inputs_of(nodes[ids[i] as int], e).contains(c.1)
                ||| passed(blk.terminator, e).contains(ValueModel::Node(c.1))
                ||| (!e && selector_values(blk.terminator).contains(ValueModel::Node(c.1)))
            }
        }),
{
    let ids = blk.node_ids;
    let bt = blk.terminator;
    let ic = crate::semantics::input_claims_upto(nodes, blk, ids.len() as int);
    let rc = node_refs(term_common_args(bt));
    let re = node_refs(arg_values(term_effect_args(bt)));
    let rs = node_refs(selector_values(bt));
    let oc = crate::semantics::outside(rc, ids);
    let oe = crate::semantics::outside(re, ids);
    let os = crate::semantics::outside(rs, ids);
    let tc = crate::semantics::tagged(oc, Slot::Param);
    let te = crate::semantics::tagged(oe, Slot::Effect);
    let ts = crate::semantics::tagged(os, Slot::Param);
    let own = crate::semantics::own_claims(nodes, ids);
    let q = crate::semantics::slot_claims(nodes, blk);
    assert(q == ic + tc + te + ts + own);
    let c = q[j];
    let w1 = ic.len() as int;
    let w2 = w1 + tc.len();
    let w3 = w2 + te.len();
    let w4 = w3 + ts.len();
    if j < w1 {
        assert(c == ic[j]);
        let i = lemma_input_claim_source(nodes, blk, ids.len() as int, j);
        assert(inputs_of(nodes[ids[i] as int], c.0 == Slot::Effect).contains(c.1));
    } else if j < w2 {
        assert(c == tc[j - w1]);
        assert(oc.contains(oc[j - w1]));
        crate::locality::lemma_outside_contains(rc, ids, c.1);
        crate::locality::lemma_node_refs_iff(term_common_args(bt), c.1);
    } else if j < w3 {
        assert(c == te[j - w2]);
        assert(oe.contains(oe[j - w2]));
        crate::locality::lemma_outside_contains(re, ids, c.1);
        crate::locality::lemma_node_refs_iff(arg_values(term_effect_args(bt)), c.1);
    } else if j < w4 {
        assert(c == ts[j - w3]);
        assert(os.contains(os[j - w3]));
        crate::locality::lemma_outside_contains(rs, ids, c.1);
        crate::locality::lemma_node_refs_iff(selector_values(bt), c.1);
    } else {
        assert(c == own[j - w4]);
        assert(ids.contains(ids[j - w4]));
    }
}

/// Each continuation's parameters are handed to it by every jump into it,
/// save those its block holds only because the second pass had it inherit
/// them from one predecessor: if node `x` is a parameter (an effect
/// parameter) of the continuation for block `t`, `t` does not list `x`, and
/// `t` passes `x` on after both passes only if it did after the first, then
/// every predecessor `p` of `t` at whose end `x` is visible passes `x` as an
/// ordinary (an effect) argument.
pub proof fn law_parameters_supplied(g: GraphModel, t: int, p: int, x: u32)
    requires
        graph_wf(g),
        g.bbs.len() < usize::MAX,
        0 <= t < g.bbs.len(),
        0 <= p < g.bbs.len(),
        preds(g.bbs, t).contains(p as u32),
        !g.bbs[t].node_ids.contains(x),
        visible(g.bbs, p).contains(x),
    ensures
        crate::semantics::param_ids(g.nodes, crate::semantics::final_block(g, t)).contains(x) && !inherited_only(
            g,
            t,
            x,
            false,
        ) ==> term_common_args(final_terms(g)[p]).contains(ValueModel::Node(x)),
        crate::semantics::effect_ids(g.nodes, crate::semantics::final_block(g, t)).contains(x) && !inherited_only(
            g,
            t,
            x,
            true,
        ) ==> arg_values(term_effect_args(final_terms(g)[p])).contains(ValueModel::Node(x)),
{
    let blk = crate::semantics::final_block(g, t);
    let q = crate::semantics::slot_claims(g.nodes, blk);
    let ft = final_terms(g)[t];
    let o = g.bbs[t].terminator;
    crate::laws::lemma_final_shape(g, t);
    assert(selector_values(ft) == selector_values(o)) by {
        match (ft, o) {
            (TermModel::Branch { .. }, TermModel::Branch { .. }) => {},
            (TermModel::Switch { .. }, TermModel::Switch { .. }) => {},
            _ => {},
        }
    }
    if crate::semantics::param_ids(g.nodes, blk).contains(x) && !inherited_only(g, t, x, false) {
        let j = lemma_first_in_slot_claimed(q, Slot::Param, x);
        lemma_claim_source(g.nodes, blk, j);
        law_imports_supplied(g, t, p, x, false);
    }
    if crate::semantics::effect_ids(g.nodes, blk).contains(x) && !inherited_only(g, t, x, true) {
        let j = lemma_first_in_slot_claimed(q, Slot::Effect, x);
        lemma_claim_source(g.nodes, blk, j);
        law_imports_supplied(g, t, p, x, true);
    }
}

} // verus!
