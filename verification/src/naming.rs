//! The names a call node gives its effect arguments are labels only: they
//! reach the output unchanged and steer nothing else.
use vstd::prelude::*;
use crate::carry::{asks_own, asks_table, carried_upto, carries};
use crate::invariance::{differ_in_effect_names, erase_effect_names, law_effect_names_do_not_matter};
use crate::model::{arg_values, BlockModel, ContModel, FlatGraphModel, GraphModel, NodeModel, ValueModel};
use crate::semantics::{
    body_ids, effect_ids, final_block, final_terms, flat_cont_model, foreign_inputs, foreign_inputs_upto, graph_wf,
    infer_type_model, input_claims_upto, inputs_of, is_param_node, last_use_upto, last_uses, listed_below,
    own_claims, param_ids, pass1_requests, pass1_terms, remap_args, remap_block, remap_node_model, remap_values,
    requests, requests_upto, slot_claims, slot_of, unnamed,
};

verus! {

/// Node `n` with the names of a call's effect arguments dropped.
pub open spec fn erase_node_names(n: NodeModel) -> NodeModel {
    match n {
        NodeModel::Call { target, effect_args, args } => NodeModel::Call {
            target,
            effect_args: unnamed(arg_values(effect_args)),
            args,
        },
        _ => n,
    }
}

/// A continuation with every effect-argument name dropped, in its body's
/// call nodes and in its terminator.
pub open spec fn erase_cont_names(c: ContModel) -> ContModel {
    ContModel {
        effects: c.effects,
        params: c.params,
        nodes: c.nodes.map_values(|n: NodeModel| erase_node_names(n)),
        terminator: erase_effect_names(c.terminator),
    }
}

/// A flat-continuation graph with every effect-argument name dropped.
pub open spec fn erase_flat_names(f: FlatGraphModel) -> FlatGraphModel {
    FlatGraphModel {
        name: f.name,
        static_data: f.static_data,
        externals: f.externals,
        continuations: f.continuations.map_values(|c: ContModel| erase_cont_names(c)),
    }
}

/// Two node pools of one length whose nodes agree up to the names of call
/// effect arguments.
pub open spec fn pools_agree(a: Seq<NodeModel>, b: Seq<NodeModel>) -> bool {
    &&& a.len() == b.len()
    &&& forall|i: int| 0 <= i < a.len() ==> erase_node_names(#[trigger] a[i]) == erase_node_names(b[i])
}

/// Two graphs that differ at most in the names of effect arguments, in
/// call nodes and in terminators.
pub open spec fn differ_in_names(g1: GraphModel, g2: GraphModel) -> bool {
    &&& g1.name == g2.name
    &&& g1.static_data == g2.static_data
    &&& g1.externals == g2.externals
    &&& pools_agree(g1.nodes, g2.nodes)
    &&& g1.bbs.len() == g2.bbs.len()
    &&& forall|b: int|
        0 <= b < g1.bbs.len() ==> (#[trigger] g1.bbs[b]).node_ids == g2.bbs[b].node_ids
            && erase_effect_names(g1.bbs[b].terminator) == erase_effect_names(g2.bbs[b].terminator)
}

// ---------------------------------------------------------------------------
// One node
// ---------------------------------------------------------------------------

proof fn lemma_arg_values_unnamed(vs: Seq<ValueModel>)
    ensures
        arg_values(unnamed(vs)) == vs,
{
    assert(arg_values(unnamed(vs)) =~= vs);
}

/// Nodes equal up to call effect names have the same inputs, kind and
/// type, and remap to nodes equal up to those names.
proof fn lemma_node_agree(a: NodeModel, b: NodeModel)
    requires
        erase_node_names(a) == erase_node_names(b),
    ensures
        inputs_of(a, true) == inputs_of(b, true),
        inputs_of(a, false) == inputs_of(b, false),
        is_param_node(a) == is_param_node(b),
        slot_of(a) == slot_of(b),
        infer_type_model(a) == infer_type_model(b),
        forall|m: Seq<usize>|
            erase_node_names(#[trigger] remap_node_model(a, m)) == erase_node_names(remap_node_model(b, m)),
{
    match (a, b) {
        (NodeModel::Call { effect_args: ea, .. }, NodeModel::Call { effect_args: eb, .. }) => {
            lemma_arg_values_unnamed(arg_values(ea));
            lemma_arg_values_unnamed(arg_values(eb));
            assert(arg_values(ea) == arg_values(eb));
            assert forall|m: Seq<usize>| erase_node_names(#[trigger] remap_node_model(a, m)) == erase_node_names(
                remap_node_model(b, m),
            ) by {
                assert(arg_values(remap_args(ea, m)) =~= remap_values(arg_values(ea), m));
                assert(arg_values(remap_args(eb, m)) =~= remap_values(arg_values(eb), m));
            }
        },
        (NodeModel::Call { .. }, _) => {},
        _ => {
            assert(a == b);
        },
    }
}

// ---------------------------------------------------------------------------
// What the passes read of the pool
// ---------------------------------------------------------------------------

/// Pools that agree, under blocks listing only pool nodes.
pub open spec fn agree_under(bbs: Seq<BlockModel>, a: Seq<NodeModel>, b: Seq<NodeModel>) -> bool {
    pools_agree(a, b) && listed_below(bbs, a.len() as int)
}

proof fn lemma_listed_agree(bbs: Seq<BlockModel>, a: Seq<NodeModel>, b: Seq<NodeModel>, t: int, i: int)
    requires
        agree_under(bbs, a, b),
        0 <= t < bbs.len(),
        0 <= i < bbs[t].node_ids.len(),
    ensures
        inputs_of(a[bbs[t].node_ids[i] as int], true) == inputs_of(b[bbs[t].node_ids[i] as int], true),
        inputs_of(a[bbs[t].node_ids[i] as int], false) == inputs_of(b[bbs[t].node_ids[i] as int], false),
        slot_of(a[bbs[t].node_ids[i] as int]) == slot_of(b[bbs[t].node_ids[i] as int]),
        is_param_node(a[bbs[t].node_ids[i] as int]) == is_param_node(b[bbs[t].node_ids[i] as int]),
{
    let x = bbs[t].node_ids[i] as int;
    assert(x < a.len());
    lemma_node_agree(a[x], b[x]);
}

proof fn lemma_foreign_agree(bbs: Seq<BlockModel>, a: Seq<NodeModel>, b: Seq<NodeModel>, t: int, e: bool, k: int)
    requires
        agree_under(bbs, a, b),
        0 <= t < bbs.len(),
        k <= bbs[t].node_ids.len(),
    ensures
        foreign_inputs_upto(bbs, a, t, e, k) == foreign_inputs_upto(bbs, b, t, e, k),
    decreases k,
{
    if k > 0 {
        lemma_foreign_agree(bbs, a, b, t, e, k - 1);
        lemma_listed_agree(bbs, a, b, t, k - 1);
    }
}

proof fn lemma_foreign_all_agree(bbs: Seq<BlockModel>, a: Seq<NodeModel>, b: Seq<NodeModel>)
    requires
        agree_under(bbs, a, b),
    ensures
        forall|t: int, e: bool| 0 <= t < bbs.len() ==> #[trigger] foreign_inputs(bbs, a, t, e) == foreign_inputs(bbs, b, t, e),
{
    assert forall|t: int, e: bool| 0 <= t < bbs.len() implies #[trigger] foreign_inputs(bbs, a, t, e) == foreign_inputs(bbs, b, t, e) by {
        lemma_foreign_agree(bbs, a, b, t, e, bbs[t].node_ids.len() as int);
    }
}

proof fn lemma_requests_agree(bbs: Seq<BlockModel>, a: Seq<NodeModel>, b: Seq<NodeModel>, p: int, e: bool, k: int)
    requires
        agree_under(bbs, a, b),
        k <= bbs.len(),
    ensures
        requests_upto(bbs, a, p, e, k) == requests_upto(bbs, b, p, e, k),
    decreases k,
{
    if k > 0 {
        lemma_requests_agree(bbs, a, b, p, e, k - 1);
        lemma_foreign_all_agree(bbs, a, b);
        assert(foreign_inputs(bbs, a, k - 1, e) == foreign_inputs(bbs, b, k - 1, e));
        assert(requests(bbs, a, p, k - 1, e) == requests(bbs, b, p, k - 1, e));
    }
}

proof fn lemma_table_agree(bbs: Seq<BlockModel>, a: Seq<NodeModel>, b: Seq<NodeModel>, x: u32, e: bool, k: nat)
    requires
        agree_under(bbs, a, b),
    ensures
        asks_table(bbs, a, x, e, k) == asks_table(bbs, b, x, e, k),
    decreases k,
{
    lemma_foreign_all_agree(bbs, a, b);
    assert forall|t: int| 0 <= t < bbs.len() implies #[trigger] asks_own(bbs, a, t, x, e) == asks_own(bbs, b, t, x, e) by {
        assert(foreign_inputs(bbs, a, t, e) == foreign_inputs(bbs, b, t, e));
    }
    if k == 0 {
        assert(asks_table(bbs, a, x, e, k) =~= asks_table(bbs, b, x, e, k));
    } else {
        lemma_table_agree(bbs, a, b, x, e, (k - 1) as nat);
        assert(asks_table(bbs, a, x, e, k) =~= asks_table(bbs, b, x, e, k));
    }
}

proof fn lemma_carried_agree(bbs: Seq<BlockModel>, a: Seq<NodeModel>, b: Seq<NodeModel>, p: int, e: bool, n: int)
    requires
        agree_under(bbs, a, b),
    ensures
        carried_upto(bbs, a, p, e, n) == carried_upto(bbs, b, p, e, n),
    decreases n,
{
    if n > 0 {
        lemma_carried_agree(bbs, a, b, p, e, n - 1);
        lemma_table_agree(bbs, a, b, (n - 1) as u32, e, bbs.len() as nat);
        assert(carries(bbs, a, p, (n - 1) as u32, e) == carries(bbs, b, p, (n - 1) as u32, e));
    }
}

proof fn lemma_last_use_agree(bbs: Seq<BlockModel>, a: Seq<NodeModel>, b: Seq<NodeModel>, x: u32, e: bool, k: int)
    requires
        agree_under(bbs, a, b),
        k <= bbs.len(),
    ensures
        last_use_upto(bbs, a, x, e, k) == last_use_upto(bbs, b, x, e, k),
    decreases k,
{
    if k > 0 {
        lemma_last_use_agree(bbs, a, b, x, e, k - 1);
        lemma_foreign_all_agree(bbs, a, b);
        assert(foreign_inputs(bbs, a, k - 1, e) == foreign_inputs(bbs, b, k - 1, e));
    }
}

/// The first pass, the last uses and the second pass read the pool only
/// through what agreeing pools share.
proof fn lemma_passes_agree(g1: GraphModel, g2: GraphModel)
    requires
        g1.bbs == g2.bbs,
        agree_under(g1.bbs, g1.nodes, g2.nodes),
    ensures
        final_terms(g1) == final_terms(g2),
{
    let bbs = g1.bbs;
    let len = bbs.len() as int;
    let n = g1.nodes.len() as int;
    assert(pass1_terms(g1) =~= pass1_terms(g2)) by {
        assert forall|p: int| 0 <= p < len implies #[trigger] pass1_terms(g1)[p] == pass1_terms(g2)[p] by {
            lemma_requests_agree(bbs, g1.nodes, g2.nodes, p, true, len);
            lemma_requests_agree(bbs, g1.nodes, g2.nodes, p, false, len);
            lemma_carried_agree(bbs, g1.nodes, g2.nodes, p, true, n);
            lemma_carried_agree(bbs, g1.nodes, g2.nodes, p, false, n);
            assert(pass1_requests(bbs, g1.nodes, p, true) == pass1_requests(bbs, g2.nodes, p, true));
            assert(pass1_requests(bbs, g1.nodes, p, false) == pass1_requests(bbs, g2.nodes, p, false));
        }
    }
    assert forall|e: bool| #[trigger] last_uses(g1, e) == last_uses(g2, e) by {
        assert forall|x: int| 0 <= x < n implies #[trigger] last_uses(g1, e)[x] == last_uses(g2, e)[x] by {
            lemma_last_use_agree(bbs, g1.nodes, g2.nodes, x as u32, e, len);
        }
        assert(last_uses(g1, e) =~= last_uses(g2, e));
    }
    assert(last_uses(g1, true) == last_uses(g2, true));
    assert(last_uses(g1, false) == last_uses(g2, false));
    assert(crate::semantics::pred_lists(g1) == crate::semantics::pred_lists(g2));
}

// ---------------------------------------------------------------------------
// What the renumbering reads of the pool
// ---------------------------------------------------------------------------

/// Pools that agree on the nodes a block lists.
pub open spec fn agree_on(blk: BlockModel, a: Seq<NodeModel>, b: Seq<NodeModel>) -> bool {
    &&& pools_agree(a, b)
    &&& forall|i: int| 0 <= i < blk.node_ids.len() ==> (#[trigger] blk.node_ids[i] as int) < a.len()
}

proof fn lemma_listed_node_agree(blk: BlockModel, a: Seq<NodeModel>, b: Seq<NodeModel>, i: int)
    requires
        agree_on(blk, a, b),
        0 <= i < blk.node_ids.len(),
    ensures
        inputs_of(a[blk.node_ids[i] as int], true) == inputs_of(b[blk.node_ids[i] as int], true),
        inputs_of(a[blk.node_ids[i] as int], false) == inputs_of(b[blk.node_ids[i] as int], false),
        slot_of(a[blk.node_ids[i] as int]) == slot_of(b[blk.node_ids[i] as int]),
        is_param_node(a[blk.node_ids[i] as int]) == is_param_node(b[blk.node_ids[i] as int]),
{
    let x = blk.node_ids[i] as int;
    lemma_node_agree(a[x], b[x]);
}

proof fn lemma_input_claims_agree(blk: BlockModel, a: Seq<NodeModel>, b: Seq<NodeModel>, k: int)
    requires
        agree_on(blk, a, b),
        k <= blk.node_ids.len(),
    ensures
        input_claims_upto(a, blk, k) == input_claims_upto(b, blk, k),
    decreases k,
{
    if k > 0 {
        lemma_input_claims_agree(blk, a, b, k - 1);
        lemma_listed_node_agree(blk, a, b, k - 1);
    }
}

proof fn lemma_body_agree(ids: Seq<u32>, a: Seq<NodeModel>, b: Seq<NodeModel>)
    requires
        pools_agree(a, b),
        forall|i: int| 0 <= i < ids.len() ==> (#[trigger] ids[i] as int) < a.len(),
    ensures
        body_ids(a, ids) == body_ids(b, ids),
    decreases ids.len(),
{
    if ids.len() > 0 {
        lemma_body_agree(ids.drop_last(), a, b);
        let x = ids.last() as int;
        assert(x == ids[ids.len() - 1] as int);
        lemma_node_agree(a[x], b[x]);
    }
}

/// Blocks renumber to the same continuation, up to call effect names, over
/// agreeing pools.
proof fn lemma_block_agree(blk: BlockModel, a: Seq<NodeModel>, b: Seq<NodeModel>)
    requires
        agree_on(blk, a, b),
        forall|i: int| 0 <= i < blk.node_ids.len() ==> crate::semantics::node_refs_below(
            a[#[trigger] blk.node_ids[i] as int],
            a.len() as int,
        ),
        crate::semantics::term_refs_below(blk.terminator, a.len() as int),
    ensures
        erase_cont_names(remap_block(a, blk)) == erase_cont_names(remap_block(b, blk)),
{
    let ids = blk.node_ids;
    let n = a.len() as int;
    lemma_input_claims_agree(blk, a, b, ids.len() as int);
    assert(own_claims(a, ids) =~= own_claims(b, ids)) by {
        assert forall|i: int| 0 <= i < ids.len() implies #[trigger] own_claims(a, ids)[i] == own_claims(b, ids)[i] by {
            lemma_listed_node_agree(blk, a, b, i);
        }
    }
    assert(slot_claims(a, blk) == slot_claims(b, blk));
    let p = param_ids(a, blk);
    let e = effect_ids(a, blk);
    lemma_body_agree(ids, a, b);
    let body = body_ids(a, ids);
    let q = slot_claims(a, blk);
    crate::locality::lemma_slot_claims(a, blk, n);
    crate::locality::lemma_first_claims_distinct(q);
    let ra = remap_block(a, blk);
    let rb = remap_block(b, blk);
    assert(ra.params =~= rb.params) by {
        assert forall|i: int| 0 <= i < p.len() implies #[trigger] ra.params[i] == rb.params[i] by {
            let x = p[i];
            assert(p.contains(x));
            crate::semantics::lemma_add_contains(p, e, x);
            assert((p + e).contains(x));
            assert((x as int) < n);
            lemma_node_agree(a[x as int], b[x as int]);
        }
    }
    assert(erase_cont_names(ra).nodes =~= erase_cont_names(rb).nodes) by {
        assert forall|k: int| 0 <= k < body.len() implies #[trigger] erase_cont_names(ra).nodes[k] == erase_cont_names(
            rb,
        ).nodes[k] by {
            let x = body[k];
            assert(body.contains(x));
            crate::locality::lemma_body_ids_contains(a, ids, x);
            let j = choose|j: int| 0 <= j < ids.len() && ids[j] == x;
            assert((ids[j] as int) < n);
            lemma_node_agree(a[x as int], b[x as int]);
        }
    }
}

// ---------------------------------------------------------------------------
// The law
// ---------------------------------------------------------------------------

/// After both passes every terminator refers only to pool nodes.
proof fn lemma_final_refs_below(g: GraphModel, b: int)
    requires
        graph_wf(g),
        0 <= b < g.bbs.len(),
    ensures
        crate::semantics::term_refs_below(final_terms(g)[b], g.nodes.len() as int),
{
    let n = g.nodes.len() as int;
    let len = g.bbs.len() as int;
    let pl = crate::semantics::pred_lists(g);
    let t1 = pass1_terms(g);
    crate::semantics::lemma_pass1_args_below(g);
    assert forall|t: int, q: int| 0 <= t < pl.len() && 0 <= q < pl[t].len() implies (#[trigger] pl[t][q] as int) < t1.len() by {
        crate::semantics::lemma_preds_upto_range(g.bbs, t, len);
    }
    crate::locality::lemma_pass2_args_below(t1, pl, last_uses(g, true), last_uses(g, false), len, n);
    crate::semantics::lemma_pass2_shape(t1, pl, last_uses(g, true), last_uses(g, false), len);
    crate::laws::lemma_final_shape(g, b);
    let tf = final_terms(g)[b];
    assert(crate::semantics::term_refs_below(g.bbs[b].terminator, n));
    assert(crate::semantics::refs_below(crate::model::term_common_args(tf), n));
    assert(crate::semantics::refs_below(arg_values(crate::model::term_effect_args(tf)), n));
}

/// Effect-argument names are labels only: two graphs that differ only in
/// the names they give effect arguments, in call nodes and in terminators,
/// convert to flat-continuation graphs that are equal once every such name
/// is dropped.
pub proof fn law_names_do_not_matter(g1: GraphModel, g2: GraphModel)
    requires
        graph_wf(g1),
        graph_wf(g2),
        differ_in_names(g1, g2),
    ensures
        erase_flat_names(flat_cont_model(g1)) == erase_flat_names(flat_cont_model(g2)),
{
    let n = g1.nodes.len() as int;
    let g3 = GraphModel { nodes: g2.nodes, ..g1 };
    // The same blocks over agreeing pools.
    lemma_passes_agree(g1, g3);
    assert forall|b: int| 0 <= b < g1.bbs.len() implies #[trigger] erase_cont_names(flat_cont_model(g1).continuations[b])
        == erase_cont_names(flat_cont_model(g3).continuations[b]) by {
        let blk = final_block(g1, b);
        assert(blk == final_block(g3, b));
        lemma_final_refs_below(g1, b);
        assert forall|i: int| 0 <= i < blk.node_ids.len() implies (#[trigger] blk.node_ids[i] as int) < n by {
            assert(g1.bbs[b].node_ids[i] == blk.node_ids[i]);
        }
        assert forall|i: int| 0 <= i < blk.node_ids.len() implies crate::semantics::node_refs_below(
            g1.nodes[#[trigger] blk.node_ids[i] as int],
            n,
        ) by {
            assert(g1.bbs[b].node_ids[i] == blk.node_ids[i]);
        }
        lemma_block_agree(blk, g1.nodes, g2.nodes);
    }
    assert(erase_flat_names(flat_cont_model(g1)).continuations =~= erase_flat_names(flat_cont_model(g3)).continuations);
    // The same pool under blocks that differ in terminator names.
    assert(graph_wf(g3)) by {
        assert forall|b: int, j: int| 0 <= b < g3.bbs.len() && 0 <= j < g3.bbs[b].node_ids.len() implies crate::semantics::node_refs_below(
            g3.nodes[#[trigger] g3.bbs[b].node_ids[j] as int],
            n,
        ) by {
            assert(g1.bbs[b].node_ids == g2.bbs[b].node_ids);
            assert(g2.bbs[b].node_ids[j] == g3.bbs[b].node_ids[j]);
        }
    }
    assert(differ_in_effect_names(g3, g2));
    law_effect_names_do_not_matter(g3, g2);
}

} // verus!
