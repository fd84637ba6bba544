//! Properties of the conversion as a whole.
use vstd::prelude::*;
use crate::model::{
    arg_values, same_kind, successors, term_common_args, term_effect_args, with_common_args,
    with_effect_args, BlockModel, GraphModel, NodeModel, TermModel, ValueModel,
};
use crate::semantics::{
    add_common_refs, add_effect_refs, append_new, final_terms, foreign_inputs, graph_wf, keep_live,
    lemma_add_common_refs_passes, lemma_add_effect_refs_passes, lemma_drop_last_push,
    lemma_push_contains, lemma_with_args_accessors, pass1_terms, pass2_upto, preds,
    propagate_common, propagate_effect, propagated, requests, requests_upto, unnamed, visible,
    visible_among, last_use, last_uses, live_after, block_slot, pred_lists, lemma_add_contains,
    flat_cont_model, body_ids, is_param_node, remap_term_model, remap_args, lemma_pass1_args_below,
    lemma_pass2_shape, lemma_same_shape_trans, final_block, refs_below, pass1_requests,
};
use crate::carry::passed;

verus! {

// ---------------------------------------------------------------------------
// Helper lemmas
// ---------------------------------------------------------------------------

proof fn lemma_visible_among_keeps(ids: Seq<u32>, vis: Seq<u32>, x: u32)
    requires
        ids.contains(x),
        vis.contains(x),
    ensures
        visible_among(ids, vis).contains(x),
    decreases ids.len(),
{
    lemma_drop_last_push(ids);
    lemma_push_contains(ids.drop_last(), ids.last(), x);
    if ids.drop_last().contains(x) {
        lemma_visible_among_keeps(ids.drop_last(), vis, x);
        lemma_push_contains(visible_among(ids.drop_last(), vis), ids.last(), x);
    } else {
        lemma_push_contains(visible_among(ids.drop_last(), vis), ids.last(), x);
    }
}

proof fn lemma_requests_upto_keeps(g: GraphModel, p: int, e: bool, j: int, k: int, x: u32)
    requires
        0 <= j < k,
        requests(g.bbs, g.nodes, p, j, e).contains(x),
    ensures
        requests_upto(g.bbs, g.nodes, p, e, k).contains(x),
    decreases k,
{
    if j < k - 1 {
        lemma_requests_upto_keeps(g, p, e, j, k - 1, x);
    }
    lemma_add_contains(
        requests_upto(g.bbs, g.nodes, p, e, k - 1),
        requests(g.bbs, g.nodes, p, k - 1, e),
        x,
    );
}

proof fn lemma_append_new_keeps(req: Seq<ValueModel>, more: Seq<ValueModel>, v: ValueModel)
    requires
        req.contains(v),
    ensures
        append_new(req, more).contains(v),
    decreases more.len(),
{
    if more.len() > 0 {
        lemma_append_new_keeps(req, more.drop_last(), v);
        lemma_push_contains(append_new(req, more.drop_last()), more.last(), v);
    }
}

proof fn lemma_keep_live_keeps(req: Seq<ValueModel>, own: Seq<ValueModel>, ends: Seq<usize>, b: int, v: ValueModel)
    requires
        req.contains(v),
        own.contains(v),
    ensures
        keep_live(req, own, ends, b).contains(v),
    decreases req.len(),
{
    lemma_drop_last_push(req);
    lemma_push_contains(req.drop_last(), req.last(), v);
    let r = keep_live(req.drop_last(), own, ends, b);
    if req.drop_last().contains(v) {
        lemma_keep_live_keeps(req.drop_last(), own, ends, b, v);
    }
    lemma_push_contains(r, req.last(), v);
}

/// `propagated` keeps a block's own arguments.
proof fn lemma_propagated_keeps_own(own: Seq<ValueModel>, inh: Seq<ValueModel>, ends: Seq<usize>, b: int, v: ValueModel)
    requires
        own.contains(v),
    ensures
        propagated(own, inh, ends, b).contains(v),
{
    lemma_append_new_keeps(own, inh, v);
    lemma_keep_live_keeps(append_new(own, inh), own, ends, b, v);
}

/// Blocks from `k` on are still as the first pass left them.
proof fn lemma_pass2_untouched(terms: Seq<TermModel>, pres: Seq<Seq<u32>>, ee: Seq<usize>, ce: Seq<usize>, k: int, p: int)
    requires
        0 <= k <= p < terms.len(),
    ensures
        pass2_upto(terms, pres, ee, ce, k)[p] == terms[p],
        pass2_upto(terms, pres, ee, ce, k).len() == terms.len(),
    decreases k,
{
    if k > 0 {
        lemma_pass2_untouched(terms, pres, ee, ce, k - 1, p);
    }
}

/// Once block `p` has been propagated, later steps leave it alone.
proof fn lemma_pass2_settled(terms: Seq<TermModel>, pres: Seq<Seq<u32>>, ee: Seq<usize>, ce: Seq<usize>, k: int, p: int)
    requires
        0 <= p < k <= terms.len(),
    ensures
        pass2_upto(terms, pres, ee, ce, k)[p] == pass2_upto(terms, pres, ee, ce, p + 1)[p],
    decreases k,
{
    if k > p + 1 {
        lemma_pass2_settled(terms, pres, ee, ce, k - 1, p);
        lemma_pass2_untouched(terms, pres, ee, ce, 0, 0);
        crate::semantics::lemma_pass2_shape(terms, pres, ee, ce, k - 1);
    }
}

/// The terminator of block `p` after both passes, in terms of its
/// terminator after the first pass.
proof fn lemma_final_term(g: GraphModel, p: int)
    requires
        0 <= p < g.bbs.len(),
    ensures
        ({
            let t1 = pass1_terms(g);
            let prev = pass2_upto(t1, pred_lists(g), last_uses(g, true), last_uses(g, false), p);
            &&& prev[p] == t1[p]
            &&& final_terms(g)[p] == with_common_args(
                with_effect_args(t1[p], unnamed(propagate_effect(prev, pred_lists(g)[p], last_uses(g, true), p))),
                propagate_common(prev, pred_lists(g)[p], last_uses(g, false), p),
            )
        }),
{
    let t1 = pass1_terms(g);
    lemma_pass2_untouched(t1, pred_lists(g), last_uses(g, true), last_uses(g, false), p, p);
    lemma_pass2_settled(t1, pred_lists(g), last_uses(g, true), last_uses(g, false), g.bbs.len() as int, p);
}

// ---------------------------------------------------------------------------
// Laws
// ---------------------------------------------------------------------------

/// A value a block uses from another block is passed on by every
/// predecessor that sees it: if block `j` uses node `n` as a foreign input
/// (an effect input when `effect`, an ordinary one otherwise) and block `p`
/// is a predecessor of `j` at whose end `n` is visible, then after both
/// passes the terminator of `p` passes `n` as an argument of that kind.
pub proof fn law_foreign_uses_are_passed(g: GraphModel, j: int, p: int, n: u32, effect: bool)
    requires
        graph_wf(g),
        0 <= j < g.bbs.len(),
        0 <= p < g.bbs.len(),
        preds(g.bbs, j).contains(p as u32),
        foreign_inputs(g.bbs, g.nodes, j, effect).contains(n),
        visible(g.bbs, p).contains(n),
    ensures
        effect ==> arg_values(term_effect_args(final_terms(g)[p])).contains(ValueModel::Node(n)),
        !effect ==> term_common_args(final_terms(g)[p]).contains(ValueModel::Node(n)),
{
    let bl = g.bbs.len() as int;
    lemma_visible_among_keeps(foreign_inputs(g.bbs, g.nodes, j, effect), visible(g.bbs, p), n);
    lemma_requests_upto_keeps(g, p, effect, j, bl, n);
    let t = g.bbs[p].terminator;
    let re = pass1_requests(g.bbs, g.nodes, p, true);
    let rc = pass1_requests(g.bbs, g.nodes, p, false);
    lemma_add_contains(requests_upto(g.bbs, g.nodes, p, effect, bl), crate::carry::carried_upto(g.bbs, g.nodes, p, effect, g.nodes.len() as int), n);
    let e1 = add_effect_refs(term_effect_args(t), re);
    let c1 = add_common_refs(term_common_args(t), rc);
    lemma_add_effect_refs_passes(term_effect_args(t), re, n);
    lemma_add_common_refs_passes(term_common_args(t), rc, n);
    lemma_with_args_accessors(t, e1, c1);
    lemma_with_args_accessors(with_effect_args(t, e1), e1, c1);
    let t1 = pass1_terms(g);
    assert(term_effect_args(t1[p]) == e1);
    assert(term_common_args(t1[p]) == c1);
    lemma_final_term(g, p);
    let prev = pass2_upto(t1, pred_lists(g), last_uses(g, true), last_uses(g, false), p);
    let pe = propagate_effect(prev, pred_lists(g)[p], last_uses(g, true), p);
    let pc = propagate_common(prev, pred_lists(g)[p], last_uses(g, false), p);
    lemma_with_args_accessors(t1[p], unnamed(pe), pc);
    lemma_with_args_accessors(with_effect_args(t1[p], unnamed(pe)), unnamed(pe), pc);
    assert(arg_values(unnamed(pe)) =~= pe);
    if effect {
        let own = arg_values(e1);
        let inh = crate::semantics::gather_effect(prev, pred_lists(g)[p]);
        lemma_propagated_keeps_own(own, inh, last_uses(g, true), p, ValueModel::Node(n));
    } else {
        let inh = crate::semantics::gather_common(prev, pred_lists(g)[p]);
        lemma_propagated_keeps_own(c1, inh, last_uses(g, false), p, ValueModel::Node(n));
    }
}

/// Remapping a terminator keeps its kind and its targets, and looks up its
/// effect arguments without touching their names.
proof fn lemma_remap_term_shape(t: TermModel, m: Seq<usize>)
    ensures
        same_kind(remap_term_model(t, m), t),
        successors(remap_term_model(t, m)) == successors(t),
        term_effect_args(remap_term_model(t, m)) == remap_args(term_effect_args(t), m),
{
}

/// The blocks' terminators after both passes have the shape they had.
pub proof fn lemma_final_shape(g: GraphModel, b: int)
    requires
        0 <= b < g.bbs.len(),
    ensures
        same_kind(final_terms(g)[b], g.bbs[b].terminator),
        crate::model::same_shape(final_terms(g)[b], g.bbs[b].terminator),
        successors(final_terms(g)[b]) == successors(g.bbs[b].terminator),
{
    let t = g.bbs[b].terminator;
    let e1 = add_effect_refs(term_effect_args(t), pass1_requests(g.bbs, g.nodes, b, true));
    let c1 = add_common_refs(term_common_args(t), pass1_requests(g.bbs, g.nodes, b, false));
    lemma_with_args_accessors(t, e1, c1);
    lemma_with_args_accessors(with_effect_args(t, e1), e1, c1);
    lemma_same_shape_trans(with_common_args(with_effect_args(t, e1), c1), with_effect_args(t, e1), t);
    lemma_pass2_shape(pass1_terms(g), pred_lists(g), last_uses(g, true), last_uses(g, false), g.bbs.len() as int);
    lemma_same_shape_trans(final_terms(g)[b], pass1_terms(g)[b], t);
}

/// No id `body_ids` keeps names a parameter node.
proof fn lemma_body_ids_not_params(nodes: Seq<NodeModel>, ids: Seq<u32>)
    ensures
        forall|k: int| 0 <= k < body_ids(nodes, ids).len() ==> !is_param_node(nodes[#[trigger] body_ids(nodes, ids)[k] as int]),
    decreases ids.len(),
{
    if ids.len() > 0 {
        lemma_body_ids_not_params(nodes, ids.drop_last());
        let r = body_ids(nodes, ids.drop_last());
        assert forall|k: int| 0 <= k < body_ids(nodes, ids).len() implies !is_param_node(nodes[#[trigger] body_ids(nodes, ids)[k] as int]) by {
            if k < r.len() {
                assert(body_ids(nodes, ids)[k] == r[k]);
            }
        }
    }
}

/// The conversion yields one continuation per block, in block order, and
/// carries the graph's name, static data and externals over unchanged.
pub proof fn law_one_continuation_per_block(g: GraphModel)
    ensures
        flat_cont_model(g).continuations.len() == g.bbs.len(),
        flat_cont_model(g).name == g.name,
        flat_cont_model(g).static_data == g.static_data,
        flat_cont_model(g).externals == g.externals,
{
}

/// Each continuation ends the way its block ends: with a terminator of the
/// same kind that names the same targets in the same order.
pub proof fn law_control_flow_kept(g: GraphModel, b: int)
    requires
        0 <= b < g.bbs.len(),
    ensures
        same_kind(flat_cont_model(g).continuations[b].terminator, g.bbs[b].terminator),
        successors(flat_cont_model(g).continuations[b].terminator) == successors(g.bbs[b].terminator),
{
    let c = flat_cont_model(g).continuations[b];
    lemma_final_shape(g, b);
    let blk = final_block(g, b);
    assert(c == crate::semantics::remap_block(g.nodes, blk));
    let m = c.terminator;
    let p = crate::semantics::param_ids(g.nodes, blk);
    let e = crate::semantics::effect_ids(g.nodes, blk);
    let body = body_ids(g.nodes, blk.node_ids);
    lemma_remap_term_shape(
        final_terms(g)[b],
        crate::semantics::local_table(g.nodes.len() as int, p, e, body, body.len() - 1),
    );
}

/// A continuation's body holds no parameter nodes: the block's parameter
/// nodes become parameters of the continuation, and the body has one node
/// for each of the block's other nodes.
pub proof fn law_body_has_no_params(g: GraphModel, b: int, k: int)
    requires
        0 <= b < g.bbs.len(),
        0 <= k < flat_cont_model(g).continuations[b].nodes.len(),
    ensures
        !is_param_node(flat_cont_model(g).continuations[b].nodes[k]),
        flat_cont_model(g).continuations[b].nodes.len() == body_ids(g.nodes, g.bbs[b].node_ids).len(),
{
    let body = body_ids(g.nodes, g.bbs[b].node_ids);
    assert(final_block(g, b).node_ids == g.bbs[b].node_ids);
    lemma_body_ids_not_params(g.nodes, g.bbs[b].node_ids);
    assert(!is_param_node(g.nodes[body[k] as int]));
}

/// Effect names are labels only: no effect parameter of a continuation is
/// named, and every effect argument a continuation's terminator passes is
/// unnamed.
pub proof fn law_effects_unnamed(g: GraphModel, b: int)
    requires
        0 <= b < g.bbs.len(),
    ensures
        forall|i: int|
            0 <= i < flat_cont_model(g).continuations[b].effects.len() ==> (
            #[trigger] flat_cont_model(g).continuations[b].effects[i]) == Seq::<char>::empty(),
        forall|j: int|
            0 <= j < term_effect_args(flat_cont_model(g).continuations[b].terminator).len() ==> (
            #[trigger] term_effect_args(flat_cont_model(g).continuations[b].terminator)[j]).0
                == Seq::<char>::empty(),
{
    let blk = final_block(g, b);
    let p = crate::semantics::param_ids(g.nodes, blk);
    let e = crate::semantics::effect_ids(g.nodes, blk);
    let body = body_ids(g.nodes, blk.node_ids);
    let m = crate::semantics::local_table(g.nodes.len() as int, p, e, body, body.len() - 1);
    lemma_remap_term_shape(final_terms(g)[b], m);
    lemma_final_term(g, b);
    let t1 = pass1_terms(g);
    let prev = pass2_upto(t1, pred_lists(g), last_uses(g, true), last_uses(g, false), b);
    let pe = propagate_effect(prev, pred_lists(g)[b], last_uses(g, true), b);
    let pc = propagate_common(prev, pred_lists(g)[b], last_uses(g, false), b);
    lemma_with_args_accessors(t1[b], unnamed(pe), pc);
    lemma_with_args_accessors(with_effect_args(t1[b], unnamed(pe)), unnamed(pe), pc);
    assert(term_effect_args(final_terms(g)[b]) == unnamed(pe));
}

// ---------------------------------------------------------------------------
// The second pass
// ---------------------------------------------------------------------------

/// The terminator of block `q` as the second pass reads it while it works
/// on block `p`: already propagated when `q` comes before `p`, as the first
/// pass left it otherwise.
pub open spec fn seen_during(g: GraphModel, p: int, q: int) -> TermModel {
    if q < p {
        final_terms(g)[q]
    } else {
        pass1_terms(g)[q]
    }
}

/// Whether some block after `p` uses, from another block, the node `v`
/// refers to (as an effect input when `effect`, an ordinary one otherwise).
pub open spec fn used_after(g: GraphModel, v: ValueModel, p: int, effect: bool) -> bool {
    v is Node && last_use(g.bbs, g.nodes, v->Node_0, effect) > p
}

proof fn lemma_append_new_iff(req: Seq<ValueModel>, more: Seq<ValueModel>, v: ValueModel)
    ensures
        append_new(req, more).contains(v) <==> (req.contains(v) || more.contains(v)),
    decreases more.len(),
{
    crate::semantics::lemma_append_new_contains(req, more, v);
    if req.contains(v) {
        lemma_append_new_keeps(req, more, v);
    }
    if more.len() > 0 {
        lemma_append_new_iff(req, more.drop_last(), v);
        lemma_drop_last_push(more);
        lemma_push_contains(more.drop_last(), more.last(), v);
        lemma_push_contains(append_new(req, more.drop_last()), more.last(), v);
    }
}

proof fn lemma_keep_live_iff(req: Seq<ValueModel>, own: Seq<ValueModel>, ends: Seq<usize>, b: int, v: ValueModel)
    ensures
        keep_live(req, own, ends, b).contains(v) <==> (req.contains(v) && (own.contains(v) || live_after(v, ends, b))),
    decreases req.len(),
{
    if req.len() > 0 {
        lemma_keep_live_iff(req.drop_last(), own, ends, b, v);
        lemma_drop_last_push(req);
        lemma_push_contains(req.drop_last(), req.last(), v);
        lemma_push_contains(keep_live(req.drop_last(), own, ends, b), req.last(), v);
    }
}

/// What the predecessors `ps` pass on, gathered.
pub open spec fn gathered(terms: Seq<TermModel>, ps: Seq<u32>, effect: bool) -> Seq<ValueModel> {
    if effect {
        crate::semantics::gather_effect(terms, ps)
    } else {
        crate::semantics::gather_common(terms, ps)
    }
}

proof fn lemma_gathered_iff(terms: Seq<TermModel>, ps: Seq<u32>, effect: bool, v: ValueModel)
    ensures
        gathered(terms, ps, effect).contains(v) <==> exists|j: int|
            0 <= j < ps.len() && #[trigger] passed(terms[ps[j] as int], effect).contains(v),
    decreases ps.len(),
{
    if ps.len() > 0 {
        let d = ps.drop_last();
        lemma_gathered_iff(terms, d, effect, v);
        let last = passed(terms[ps.last() as int], effect);
        assert(gathered(terms, ps, effect) == gathered(terms, d, effect) + last);
        lemma_add_contains(gathered(terms, d, effect), last, v);
        if gathered(terms, ps, effect).contains(v) {
            if gathered(terms, d, effect).contains(v) {
                let j = choose|j: int| 0 <= j < d.len() && #[trigger] passed(terms[d[j] as int], effect).contains(v);
                assert(ps[j] == d[j]);
            } else {
                assert(ps[ps.len() - 1] == ps.last());
                assert(passed(terms[ps[ps.len() - 1] as int], effect).contains(v));
            }
        }
        if exists|j: int| 0 <= j < ps.len() && #[trigger] passed(terms[ps[j] as int], effect).contains(v) {
            let j = choose|j: int| 0 <= j < ps.len() && #[trigger] passed(terms[ps[j] as int], effect).contains(v);
            if j < d.len() {
                assert(ps[j] == d[j]);
                assert(passed(terms[d[j] as int], effect).contains(v));
            } else {
                assert(ps[j] == ps.last());
            }
        }
    } else {
        assert(gathered(terms, ps, effect) =~= Seq::<ValueModel>::empty());
    }
}

proof fn lemma_last_use_range(bbs: Seq<BlockModel>, nodes: Seq<NodeModel>, n: u32, effect: bool, k: int)
    requires
        0 <= k,
    ensures
        -1 <= crate::semantics::last_use_upto(bbs, nodes, n, effect, k) < k,
    decreases k,
{
    if k > 0 {
        lemma_last_use_range(bbs, nodes, n, effect, k - 1);
    }
}

/// The table of last uses tells, for a node of the pool, whether a block
/// after `p` still uses it.
proof fn lemma_live_after_used(g: GraphModel, v: ValueModel, p: int, effect: bool)
    requires
        g.bbs.len() < usize::MAX,
        0 <= p,
        v is Node ==> (v->Node_0 as int) < g.nodes.len(),
    ensures
        live_after(v, last_uses(g, effect), p) <==> used_after(g, v, p, effect),
{
    if v is Node {
        let n = v->Node_0;
        lemma_last_use_range(g.bbs, g.nodes, n, effect, g.bbs.len() as int);
        assert(last_uses(g, effect)[n as int] == block_slot(last_use(g.bbs, g.nodes, n, effect)));
    }
}

/// The second pass, argument by argument: after both passes, block `p`
/// passes `v` exactly when the first pass had it pass `v`, or some
/// predecessor passes `v` (as the second pass reads that predecessor) and
/// a later block still uses `v` from another block.
pub proof fn law_second_pass_arguments(g: GraphModel, p: int, v: ValueModel, effect: bool)
    requires
        graph_wf(g),
        g.bbs.len() < usize::MAX,
        0 <= p < g.bbs.len(),
    ensures
        passed(final_terms(g)[p], effect).contains(v) <==> (passed(pass1_terms(g)[p], effect).contains(v) || (
        used_after(g, v, p, effect) && exists|q: int|
            0 <= q < g.bbs.len() && preds(g.bbs, p).contains(q as u32) && #[trigger] passed(
                seen_during(g, p, q),
                effect,
            ).contains(v))),
{
    let len = g.bbs.len() as int;
    let n = g.nodes.len() as int;
    let t1 = pass1_terms(g);
    let pl = pred_lists(g);
    let ee = last_uses(g, true);
    let ce = last_uses(g, false);
    let ends = last_uses(g, effect);
    let prev = pass2_upto(t1, pl, ee, ce, p);
    let ps = pl[p];
    lemma_final_term(g, p);
    lemma_pass1_args_below(g);
    assert forall|t: int, j: int| 0 <= t < pl.len() && 0 <= j < pl[t].len() implies (#[trigger] pl[t][j] as int) < t1.len() by {
        crate::semantics::lemma_preds_upto_range(g.bbs, t, len);
    }
    crate::locality::lemma_pass2_args_below(t1, pl, ee, ce, p, n);
    lemma_pass2_shape(t1, pl, ee, ce, p);
    let pe = propagate_effect(prev, ps, ee, p);
    let pc = propagate_common(prev, ps, ce, p);
    lemma_with_args_accessors(t1[p], unnamed(pe), pc);
    lemma_with_args_accessors(with_effect_args(t1[p], unnamed(pe)), unnamed(pe), pc);
    assert(arg_values(unnamed(pe)) =~= pe);
    let own = passed(t1[p], effect);
    let inh = gathered(prev, ps, effect);
    assert(passed(final_terms(g)[p], effect) == keep_live(append_new(own, inh), own, ends, p));
    lemma_keep_live_iff(append_new(own, inh), own, ends, p, v);
    lemma_append_new_iff(own, inh, v);
    lemma_gathered_iff(prev, ps, effect, v);
    crate::semantics::lemma_preds_upto_range(g.bbs, p, len);
    // Each predecessor as the second pass reads it.
    assert forall|j: int| 0 <= j < ps.len() implies #[trigger] prev[ps[j] as int] == seen_during(g, p, ps[j] as int) by {
        let q = ps[j] as int;
        if q < p {
            lemma_pass2_settled(t1, pl, ee, ce, p, q);
            lemma_pass2_settled(t1, pl, ee, ce, len, q);
        } else {
            lemma_pass2_untouched(t1, pl, ee, ce, p, q);
        }
    }
    if inh.contains(v) {
        let j = choose|j: int| 0 <= j < ps.len() && #[trigger] passed(prev[ps[j] as int], effect).contains(v);
        let q = ps[j] as int;
        assert(ps.contains(q as u32));
        assert(passed(seen_during(g, p, q), effect).contains(v));
        let pv = passed(prev[q], effect);
        let k = choose|k: int| 0 <= k < pv.len() && pv[k] == v;
        assert(refs_below(pv, n));
        assert(pv[k] is Node ==> (pv[k]->Node_0 as int) < n);
        lemma_live_after_used(g, v, p, effect);
    }
    if exists|q: int|
        0 <= q < len && preds(g.bbs, p).contains(q as u32) && #[trigger] passed(seen_during(g, p, q), effect).contains(v) {
        let q = choose|q: int|
            0 <= q < len && preds(g.bbs, p).contains(q as u32) && #[trigger] passed(seen_during(g, p, q), effect).contains(v);
        let j = choose|j: int| 0 <= j < ps.len() && ps[j] == q as u32;
        assert(prev[ps[j] as int] == seen_during(g, p, q));
        assert(passed(prev[ps[j] as int], effect).contains(v));
        let pv = passed(prev[q], effect);
        let k = choose|k: int| 0 <= k < pv.len() && pv[k] == v;
        assert(refs_below(pv, n));
        assert(pv[k] is Node ==> (pv[k]->Node_0 as int) < n);
        lemma_live_after_used(g, v, p, effect);
    }
    if own.contains(v) {
        lemma_live_after_used(g, v, p, effect);
    }
}

// ---------------------------------------------------------------------------
// Sequences and control flow
// ---------------------------------------------------------------------------

/// Removing repetitions keeps every element, repeats none, and leaves a
/// sequence without repetitions as it is.
pub proof fn law_dedup(s: Seq<u32>)
    ensures
        crate::semantics::dedup_seq(s).no_duplicates(),
        forall|x: u32| #[trigger] crate::semantics::dedup_seq(s).contains(x) <==> s.contains(x),
        s.no_duplicates() ==> crate::semantics::dedup_seq(s) == s,
    decreases s.len(),
{
    assert forall|x: u32| #[trigger] crate::semantics::dedup_seq(s).contains(x) <==> s.contains(x) by {
        crate::semantics::lemma_dedup_contains(s, x);
    }
    if s.len() > 0 {
        let d = s.drop_last();
        law_dedup(d);
        let r = crate::semantics::dedup_seq(d);
        lemma_drop_last_push(s);
        if !r.contains(s.last()) {
            assert forall|i: int, j: int| 0 <= i < r.push(s.last()).len() && 0 <= j < r.push(s.last()).len() && i != j implies r.push(s.last())[i] != r.push(s.last())[j] by {
                if i == r.len() {
                    assert(r.contains(r[j]));
                } else if j == r.len() {
                    assert(r.contains(r[i]));
                }
            }
        }
        if s.no_duplicates() {
            assert(d.no_duplicates());
            assert(!d.contains(s.last())) by {
                if d.contains(s.last()) {
                    let j = choose|j: int| 0 <= j < d.len() && d[j] == s.last();
                    assert(s[j] == s[s.len() - 1]);
                }
            }
        }
    }
}

proof fn lemma_count_of_add(a: Seq<u32>, b: Seq<u32>, x: int)
    ensures
        crate::semantics::count_of(a + b, x) == crate::semantics::count_of(a, x) + crate::semantics::count_of(b, x),
    decreases b.len(),
{
    if b.len() == 0 {
        assert(a + b =~= a);
    } else {
        lemma_count_of_add(a, b.drop_last(), x);
        assert((a + b).drop_last() =~= a + b.drop_last());
        assert((a + b).last() == b.last());
    }
}

proof fn lemma_count_of_repeat(c: nat, y: u32, x: int)
    ensures
        crate::semantics::count_of(Seq::new(c, |j: int| y), x) == if y as int == x { c } else { 0 },
    decreases c,
{
    if c > 0 {
        lemma_count_of_repeat((c - 1) as nat, y, x);
        assert(Seq::new(c, |j: int| y).drop_last() =~= Seq::new((c - 1) as nat, |j: int| y));
    }
}

proof fn lemma_count_of_pos(s: Seq<u32>, x: int)
    ensures
        crate::semantics::count_of(s, x) > 0 <==> exists|j: int| 0 <= j < s.len() && s[j] as int == x,
    decreases s.len(),
{
    if s.len() > 0 {
        lemma_count_of_pos(s.drop_last(), x);
        if exists|j: int| 0 <= j < s.len() && s[j] as int == x {
            let j = choose|j: int| 0 <= j < s.len() && s[j] as int == x;
            if j < s.len() - 1 {
                assert(s.drop_last()[j] == s[j]);
            }
        }
        if exists|j: int| 0 <= j < s.drop_last().len() && s.drop_last()[j] as int == x {
            let j = choose|j: int| 0 <= j < s.drop_last().len() && s.drop_last()[j] as int == x;
            assert(s[j] == s.drop_last()[j]);
        }
    }
}

proof fn lemma_count_of_preds(bbs: Seq<BlockModel>, t: int, q: int, k: int)
    requires
        0 <= k <= bbs.len() <= crate::semantics::id_space(),
        0 <= q < bbs.len(),
    ensures
        crate::semantics::count_of(crate::semantics::preds_upto(bbs, t, k), q) == if q < k {
            crate::semantics::count_of(successors(bbs[q].terminator), t)
        } else {
            0
        },
    decreases k,
{
    if k > 0 {
        lemma_count_of_preds(bbs, t, q, k - 1);
        let c = crate::semantics::count_of(successors(bbs[k - 1].terminator), t);
        lemma_count_of_add(crate::semantics::preds_upto(bbs, t, k - 1), Seq::new(c, |j: int| (k - 1) as u32), q);
        lemma_count_of_repeat(c, (k - 1) as u32, q);
    }
}

/// Block `q` is a predecessor of block `t` as often as its terminator names
/// `t` as a target; in particular it is one exactly when it names `t`.
pub proof fn law_predecessors(bbs: Seq<BlockModel>, t: int, q: int)
    requires
        bbs.len() <= crate::semantics::id_space(),
        0 <= t < bbs.len(),
        0 <= q < bbs.len(),
    ensures
        crate::semantics::count_of(preds(bbs, t), q) == crate::semantics::count_of(successors(bbs[q].terminator), t),
        preds(bbs, t).contains(q as u32) <==> successors(bbs[q].terminator).contains(t as u32),
{
    lemma_count_of_preds(bbs, t, q, bbs.len() as int);
    let ps = preds(bbs, t);
    let ss = successors(bbs[q].terminator);
    lemma_count_of_pos(ps, q);
    lemma_count_of_pos(ss, t);
    crate::semantics::lemma_preds_upto_range(bbs, t, bbs.len() as int);
    if ps.contains(q as u32) {
        let j = choose|j: int| 0 <= j < ps.len() && ps[j] == q as u32;
        assert(ps[j] as int == q);
    }
    if exists|j: int| 0 <= j < ps.len() && ps[j] as int == q {
        let j = choose|j: int| 0 <= j < ps.len() && ps[j] as int == q;
        assert(ps[j] == q as u32);
    }
    if ss.contains(t as u32) {
        let j = choose|j: int| 0 <= j < ss.len() && ss[j] == t as u32;
        assert(ss[j] as int == t);
    }
    if exists|j: int| 0 <= j < ss.len() && ss[j] as int == t {
        let j = choose|j: int| 0 <= j < ss.len() && ss[j] as int == t;
        assert(ss[j] == t as u32);
    }
}

/// The conversion keeps every argument a block's terminator passes: after
/// both passes the terminator still passes it, as an argument of the same
/// kind.
pub proof fn law_own_arguments_kept(g: GraphModel, p: int, v: ValueModel, effect: bool)
    requires
        0 <= p < g.bbs.len(),
        passed(g.bbs[p].terminator, effect).contains(v),
    ensures
        passed(final_terms(g)[p], effect).contains(v),
{
    let t = g.bbs[p].terminator;
    let re = pass1_requests(g.bbs, g.nodes, p, true);
    let rc = pass1_requests(g.bbs, g.nodes, p, false);
    let e1 = add_effect_refs(term_effect_args(t), re);
    let c1 = add_common_refs(term_common_args(t), rc);
    lemma_add_effect_refs_passes(term_effect_args(t), re, 0);
    lemma_add_common_refs_passes(term_common_args(t), rc, 0);
    lemma_with_args_accessors(t, e1, c1);
    lemma_with_args_accessors(with_effect_args(t, e1), e1, c1);
    let t1 = pass1_terms(g);
    assert(passed(t1[p], effect).contains(v));
    lemma_pass1_args_kept(g, p, v, effect);
}

/// What the first pass has a block pass, the second pass keeps.
pub proof fn lemma_pass1_args_kept(g: GraphModel, p: int, v: ValueModel, effect: bool)
    requires
        0 <= p < g.bbs.len(),
        passed(pass1_terms(g)[p], effect).contains(v),
    ensures
        passed(final_terms(g)[p], effect).contains(v),
{
    let t1 = pass1_terms(g);
    lemma_final_term(g, p);
    let pl = pred_lists(g);
    let prev = pass2_upto(t1, pl, last_uses(g, true), last_uses(g, false), p);
    let pe = propagate_effect(prev, pl[p], last_uses(g, true), p);
    let pc = propagate_common(prev, pl[p], last_uses(g, false), p);
    lemma_with_args_accessors(t1[p], unnamed(pe), pc);
    lemma_with_args_accessors(with_effect_args(t1[p], unnamed(pe)), unnamed(pe), pc);
    assert(arg_values(unnamed(pe)) =~= pe);
    let own = passed(t1[p], effect);
    if effect {
        let inh = crate::semantics::gather_effect(prev, pl[p]);
        lemma_propagated_keeps_own(own, inh, last_uses(g, true), p, v);
    } else {
        let inh = crate::semantics::gather_common(prev, pl[p]);
        lemma_propagated_keeps_own(own, inh, last_uses(g, false), p, v);
    }
}

} // verus!
