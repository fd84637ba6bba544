//! What the conversion does not look at: the names of terminator effect
//! arguments.
use vstd::prelude::*;
use crate::model::{
    arg_values, successors, term_common_args, term_effect_args, with_effect_args, BlockModel,
    EffectArgModel, GraphModel, NodeModel, TermModel, ValueModel,
};
use crate::semantics::{
    add_effect_ref, add_effect_refs, add_common_refs, final_terms, flat_cont_model, foreign_inputs,
    foreign_inputs_upto, gather_common, gather_effect, graph_wf, home_block, home_upto,
    last_use_upto, last_uses, lemma_pass2_shape, lemma_preds_upto_range, not_from, pass1_terms,
    pass2_upto, pred_lists, preds, preds_upto, propagate_common, propagate_effect, requests,
    requests_upto, unnamed, visible, visible_upto, with_requests,
};

verus! {

/// Terminator `t` with the names of its effect arguments dropped.
pub open spec fn erase_effect_names(t: TermModel) -> TermModel {
    with_effect_args(t, unnamed(arg_values(term_effect_args(t))))
}

/// Two block lists whose blocks list the same nodes and name the same
/// targets.
pub open spec fn same_skeleton(a: Seq<BlockModel>, b: Seq<BlockModel>) -> bool {
    &&& a.len() == b.len()
    &&& forall|i: int|
        0 <= i < a.len() ==> (#[trigger] a[i]).node_ids == b[i].node_ids && successors(a[i].terminator)
            == successors(b[i].terminator)
}

/// Two graphs that differ at most in the names their terminators give
/// effect arguments.
pub open spec fn differ_in_effect_names(g1: GraphModel, g2: GraphModel) -> bool {
    &&& g1.name == g2.name
    &&& g1.static_data == g2.static_data
    &&& g1.externals == g2.externals
    &&& g1.nodes == g2.nodes
    &&& g1.bbs.len() == g2.bbs.len()
    &&& forall|b: int|
        0 <= b < g1.bbs.len() ==> (#[trigger] g1.bbs[b]).node_ids == g2.bbs[b].node_ids
            && erase_effect_names(g1.bbs[b].terminator) == erase_effect_names(g2.bbs[b].terminator)
}

// ---------------------------------------------------------------------------
// Terminators equal up to effect names
// ---------------------------------------------------------------------------

proof fn lemma_with_effect_twice(t: TermModel, a: Seq<EffectArgModel>, b: Seq<EffectArgModel>)
    ensures
        with_effect_args(with_effect_args(t, a), b) == with_effect_args(t, b),
{
}

proof fn lemma_arg_values_unnamed(vs: Seq<ValueModel>)
    ensures
        arg_values(unnamed(vs)) == vs,
{
    assert(arg_values(unnamed(vs)) =~= vs);
}

/// What two terminators equal up to effect names have in common.
proof fn lemma_erased_equal(t1: TermModel, t2: TermModel)
    requires
        erase_effect_names(t1) == erase_effect_names(t2),
    ensures
        term_common_args(t1) == term_common_args(t2),
        arg_values(term_effect_args(t1)) == arg_values(term_effect_args(t2)),
        successors(t1) == successors(t2),
        forall|x: Seq<EffectArgModel>| #[trigger] with_effect_args(t1, x) == with_effect_args(t2, x),
{
    let u1 = unnamed(arg_values(term_effect_args(t1)));
    let u2 = unnamed(arg_values(term_effect_args(t2)));
    crate::semantics::lemma_with_args_accessors(t1, u1, seq![]);
    crate::semantics::lemma_with_args_accessors(t2, u2, seq![]);
    lemma_arg_values_unnamed(arg_values(term_effect_args(t1)));
    lemma_arg_values_unnamed(arg_values(term_effect_args(t2)));
    assert forall|x: Seq<EffectArgModel>| #[trigger] with_effect_args(t1, x) == with_effect_args(t2, x) by {
        lemma_with_effect_twice(t1, u1, x);
        lemma_with_effect_twice(t2, u2, x);
    }
}

/// `add_effect_refs` passes the same values from argument lists that pass
/// the same values.
proof fn lemma_add_effect_refs_values_eq(a1: Seq<EffectArgModel>, a2: Seq<EffectArgModel>, ids: Seq<u32>)
    requires
        arg_values(a1) == arg_values(a2),
    ensures
        arg_values(add_effect_refs(a1, ids)) == arg_values(add_effect_refs(a2, ids)),
    decreases ids.len(),
{
    if ids.len() > 0 {
        lemma_add_effect_refs_values_eq(a1, a2, ids.drop_last());
        let r1 = add_effect_refs(a1, ids.drop_last());
        let r2 = add_effect_refs(a2, ids.drop_last());
        let v = ValueModel::Node(ids.last());
        assert(arg_values(r1.push((seq![], v))) =~= arg_values(r1).push(v));
        assert(arg_values(r2.push((seq![], v))) =~= arg_values(r2).push(v));
        assert(add_effect_refs(a1, ids) == add_effect_ref(r1, ids.last()));
        assert(add_effect_refs(a2, ids) == add_effect_ref(r2, ids.last()));
    }
}

/// A terminator after the first pass, up to effect names, depends on the
/// given terminator only up to effect names.
proof fn lemma_with_requests_erased(t1: TermModel, t2: TermModel, re: Seq<u32>, rc: Seq<u32>)
    requires
        erase_effect_names(t1) == erase_effect_names(t2),
    ensures
        erase_effect_names(with_requests(t1, re, rc)) == erase_effect_names(with_requests(t2, re, rc)),
{
    lemma_erased_equal(t1, t2);
    let e1 = add_effect_refs(term_effect_args(t1), re);
    let e2 = add_effect_refs(term_effect_args(t2), re);
    let c = add_common_refs(term_common_args(t1), rc);
    lemma_add_effect_refs_values_eq(term_effect_args(t1), term_effect_args(t2), re);
    crate::semantics::lemma_with_args_accessors(with_effect_args(t1, e1), e1, c);
    crate::semantics::lemma_with_args_accessors(with_effect_args(t2, e2), e2, c);
    crate::semantics::lemma_with_args_accessors(t1, e1, c);
    crate::semantics::lemma_with_args_accessors(t2, e2, c);
    let u = unnamed(arg_values(e1));
    crate::semantics::lemma_with_args_overwrite(t1, e1, u, c, c);
    crate::semantics::lemma_with_args_overwrite(t2, e2, u, c, c);
    assert(with_effect_args(t1, u) == with_effect_args(t2, u));
}

// ---------------------------------------------------------------------------
// The analyses see only node lists and targets
// ---------------------------------------------------------------------------

proof fn lemma_preds_upto_skeleton(a: Seq<BlockModel>, b: Seq<BlockModel>, t: int, k: int)
    requires
        same_skeleton(a, b),
        k <= a.len(),
    ensures
        preds_upto(a, t, k) == preds_upto(b, t, k),
    decreases k,
{
    if k > 0 {
        lemma_preds_upto_skeleton(a, b, t, k - 1);
        assert(successors(a[k - 1].terminator) == successors(b[k - 1].terminator));
    }
}

proof fn lemma_preds_skeleton(a: Seq<BlockModel>, b: Seq<BlockModel>)
    requires
        same_skeleton(a, b),
    ensures
        forall|t: int| #[trigger] preds(a, t) == preds(b, t),
{
    assert forall|t: int| #[trigger] preds(a, t) == preds(b, t) by {
        lemma_preds_upto_skeleton(a, b, t, a.len() as int);
    }
}

proof fn lemma_home_upto_skeleton(a: Seq<BlockModel>, b: Seq<BlockModel>, n: u32, k: int)
    requires
        same_skeleton(a, b),
        k <= a.len(),
    ensures
        home_upto(a, n, k) == home_upto(b, n, k),
    decreases k,
{
    if k > 0 {
        lemma_home_upto_skeleton(a, b, n, k - 1);
        assert(a[k - 1].node_ids == b[k - 1].node_ids);
    }
}

proof fn lemma_visible_upto_skeleton(a: Seq<BlockModel>, b: Seq<BlockModel>, k: int)
    requires
        same_skeleton(a, b),
        k <= a.len(),
    ensures
        visible_upto(a, k) == visible_upto(b, k),
    decreases k,
{
    if k > 0 {
        lemma_visible_upto_skeleton(a, b, k - 1);
        lemma_preds_skeleton(a, b);
        assert(preds(a, k - 1) == preds(b, k - 1));
        assert(a[k - 1].node_ids == b[k - 1].node_ids);
    }
}

proof fn lemma_not_from_skeleton(a: Seq<BlockModel>, b: Seq<BlockModel>, ids: Seq<u32>, blk: int)
    requires
        same_skeleton(a, b),
    ensures
        not_from(a, ids, blk) == not_from(b, ids, blk),
    decreases ids.len(),
{
    if ids.len() > 0 {
        lemma_not_from_skeleton(a, b, ids.drop_last(), blk);
        lemma_home_upto_skeleton(a, b, ids.last(), a.len() as int);
        assert(home_block(a, ids.last()) == home_block(b, ids.last()));
    }
}

proof fn lemma_foreign_upto_skeleton(
    a: Seq<BlockModel>,
    b: Seq<BlockModel>,
    nodes: Seq<NodeModel>,
    blk: int,
    e: bool,
    k: int,
)
    requires
        same_skeleton(a, b),
        0 <= blk < a.len(),
    ensures
        foreign_inputs_upto(a, nodes, blk, e, k) == foreign_inputs_upto(b, nodes, blk, e, k),
    decreases k,
{
    if k > 0 {
        lemma_foreign_upto_skeleton(a, b, nodes, blk, e, k - 1);
        assert(a[blk].node_ids == b[blk].node_ids);
        lemma_not_from_skeleton(a, b, crate::semantics::inputs_of(nodes[a[blk].node_ids[k - 1] as int], e), blk);
    }
}

proof fn lemma_foreign_skeleton(a: Seq<BlockModel>, b: Seq<BlockModel>, nodes: Seq<NodeModel>)
    requires
        same_skeleton(a, b),
    ensures
        forall|blk: int, e: bool|
            0 <= blk < a.len() ==> #[trigger] foreign_inputs(a, nodes, blk, e) == foreign_inputs(b, nodes, blk, e),
{
    assert forall|blk: int, e: bool|
        0 <= blk < a.len() implies #[trigger] foreign_inputs(a, nodes, blk, e) == foreign_inputs(b, nodes, blk, e) by {
        assert(a[blk].node_ids == b[blk].node_ids);
        lemma_foreign_upto_skeleton(a, b, nodes, blk, e, a[blk].node_ids.len() as int);
    }
}

proof fn lemma_requests_upto_skeleton(
    a: Seq<BlockModel>,
    b: Seq<BlockModel>,
    nodes: Seq<NodeModel>,
    p: int,
    e: bool,
    k: int,
)
    requires
        same_skeleton(a, b),
        k <= a.len(),
    ensures
        requests_upto(a, nodes, p, e, k) == requests_upto(b, nodes, p, e, k),
    decreases k,
{
    if k > 0 {
        lemma_requests_upto_skeleton(a, b, nodes, p, e, k - 1);
        lemma_preds_skeleton(a, b);
        lemma_foreign_skeleton(a, b, nodes);
        lemma_visible_upto_skeleton(a, b, a.len() as int);
        assert(preds(a, k - 1) == preds(b, k - 1));
        assert(foreign_inputs(a, nodes, k - 1, e) == foreign_inputs(b, nodes, k - 1, e));
        assert(visible(a, p) == visible(b, p));
        assert(requests(a, nodes, p, k - 1, e) == requests(b, nodes, p, k - 1, e));
    }
}

proof fn lemma_last_use_upto_skeleton(
    a: Seq<BlockModel>,
    b: Seq<BlockModel>,
    nodes: Seq<NodeModel>,
    n: u32,
    e: bool,
    k: int,
)
    requires
        same_skeleton(a, b),
        k <= a.len(),
    ensures
        last_use_upto(a, nodes, n, e, k) == last_use_upto(b, nodes, n, e, k),
    decreases k,
{
    if k > 0 {
        lemma_last_use_upto_skeleton(a, b, nodes, n, e, k - 1);
        lemma_preds_skeleton(a, b);
        lemma_foreign_skeleton(a, b, nodes);
        assert(preds(a, k - 1) == preds(b, k - 1));
        assert(foreign_inputs(a, nodes, k - 1, e) == foreign_inputs(b, nodes, k - 1, e));
    }
}

// ---------------------------------------------------------------------------
// Carrying needs back reads effect arguments by value only
// ---------------------------------------------------------------------------

/// Block lists with the same skeleton whose terminators agree up to
/// effect names.
pub open spec fn blocks_erased_equal(a: Seq<BlockModel>, b: Seq<BlockModel>) -> bool {
    &&& same_skeleton(a, b)
    &&& forall|t: int| 0 <= t < a.len() ==> erase_effect_names((#[trigger] a[t]).terminator) == erase_effect_names(b[t].terminator)
}

proof fn lemma_asks_own_erased(a: Seq<BlockModel>, b: Seq<BlockModel>, nodes: Seq<NodeModel>, t: int, x: u32, e: bool)
    requires
        blocks_erased_equal(a, b),
        0 <= t < a.len(),
    ensures
        crate::carry::asks_own(a, nodes, t, x, e) == crate::carry::asks_own(b, nodes, t, x, e),
{
    lemma_home_upto_skeleton(a, b, x, a.len() as int);
    lemma_foreign_skeleton(a, b, nodes);
    assert(foreign_inputs(a, nodes, t, e) == foreign_inputs(b, nodes, t, e));
    let t1 = a[t].terminator;
    let t2 = b[t].terminator;
    lemma_erased_equal(t1, t2);
    assert(crate::carry::passed(t1, e) == crate::carry::passed(t2, e));
    let u1 = unnamed(arg_values(term_effect_args(t1)));
    let u2 = unnamed(arg_values(term_effect_args(t2)));
    assert(crate::semantics::selector_values(with_effect_args(t1, u1)) == crate::semantics::selector_values(t1));
    assert(crate::semantics::selector_values(with_effect_args(t2, u2)) == crate::semantics::selector_values(t2));
}

proof fn lemma_asks_table_erased(a: Seq<BlockModel>, b: Seq<BlockModel>, nodes: Seq<NodeModel>, x: u32, e: bool, k: nat)
    requires
        blocks_erased_equal(a, b),
    ensures
        crate::carry::asks_table(a, nodes, x, e, k) == crate::carry::asks_table(b, nodes, x, e, k),
    decreases k,
{
    lemma_home_upto_skeleton(a, b, x, a.len() as int);
    lemma_visible_upto_skeleton(a, b, a.len() as int);
    if k > 0 {
        lemma_asks_table_erased(a, b, nodes, x, e, (k - 1) as nat);
    }
    let ta = crate::carry::asks_table(a, nodes, x, e, k);
    let tb = crate::carry::asks_table(b, nodes, x, e, k);
    assert forall|t: int| 0 <= t < a.len() implies ta[t] == tb[t] by {
        lemma_asks_own_erased(a, b, nodes, t, x, e);
        assert(successors(a[t].terminator) == successors(b[t].terminator));
        assert(visible(a, t) == visible(b, t));
    }
    assert(ta =~= tb);
}

proof fn lemma_carried_erased(a: Seq<BlockModel>, b: Seq<BlockModel>, nodes: Seq<NodeModel>, p: int, e: bool, n: int)
    requires
        blocks_erased_equal(a, b),
        0 <= p < a.len(),
    ensures
        crate::carry::carried_upto(a, nodes, p, e, n) == crate::carry::carried_upto(b, nodes, p, e, n),
    decreases n,
{
    if n > 0 {
        lemma_carried_erased(a, b, nodes, p, e, n - 1);
        lemma_asks_table_erased(a, b, nodes, (n - 1) as u32, e, a.len() as nat);
        lemma_visible_upto_skeleton(a, b, a.len() as int);
        assert(successors(a[p].terminator) == successors(b[p].terminator));
        assert(visible(a, p) == visible(b, p));
    }
}

// ---------------------------------------------------------------------------
// The second pass reads effect arguments by value only
// ---------------------------------------------------------------------------

/// Two terminator lists equal up to effect names.
pub open spec fn terms_erased_equal(t1: Seq<TermModel>, t2: Seq<TermModel>) -> bool {
    &&& t1.len() == t2.len()
    &&& forall|p: int| 0 <= p < t1.len() ==> erase_effect_names(#[trigger] t1[p]) == erase_effect_names(t2[p])
}

proof fn lemma_gather_erased(t1: Seq<TermModel>, t2: Seq<TermModel>, ps: Seq<u32>)
    requires
        terms_erased_equal(t1, t2),
        forall|q: int| 0 <= q < ps.len() ==> (#[trigger] ps[q] as int) < t1.len(),
    ensures
        gather_common(t1, ps) == gather_common(t2, ps),
        gather_effect(t1, ps) == gather_effect(t2, ps),
    decreases ps.len(),
{
    if ps.len() > 0 {
        lemma_gather_erased(t1, t2, ps.drop_last());
        let p = ps.last() as int;
        assert(ps[ps.len() - 1] == ps.last());
        lemma_erased_equal(t1[p], t2[p]);
    }
}

proof fn lemma_pass2_erased(
    t1: Seq<TermModel>,
    t2: Seq<TermModel>,
    pres: Seq<Seq<u32>>,
    ee: Seq<usize>,
    ce: Seq<usize>,
    k: int,
)
    requires
        terms_erased_equal(t1, t2),
        0 <= k <= t1.len(),
        pres.len() == t1.len(),
        forall|t: int, q: int| 0 <= t < pres.len() && 0 <= q < pres[t].len() ==> (#[trigger] pres[t][q] as int) < t1.len(),
    ensures
        terms_erased_equal(pass2_upto(t1, pres, ee, ce, k), pass2_upto(t2, pres, ee, ce, k)),
        forall|p: int| 0 <= p < k ==> #[trigger] pass2_upto(t1, pres, ee, ce, k)[p] == pass2_upto(t2, pres, ee, ce, k)[p],
    decreases k,
{
    lemma_pass2_shape(t1, pres, ee, ce, k);
    lemma_pass2_shape(t2, pres, ee, ce, k);
    if k > 0 {
        lemma_pass2_erased(t1, t2, pres, ee, ce, k - 1);
        let b = k - 1;
        let prev1 = pass2_upto(t1, pres, ee, ce, b);
        let prev2 = pass2_upto(t2, pres, ee, ce, b);
        lemma_pass2_shape(t1, pres, ee, ce, b);
        assert forall|q: int| 0 <= q < pres[b].len() implies (#[trigger] pres[b][q] as int) < prev1.len() by {
            assert((pres[b][q] as int) < t1.len());
        }
        lemma_gather_erased(prev1, prev2, pres[b]);
        assert(erase_effect_names(prev1[b]) == erase_effect_names(prev2[b]));
        lemma_erased_equal(prev1[b], prev2[b]);
        let pe = propagate_effect(prev1, pres[b], ee, b);
        let pc = propagate_common(prev1, pres[b], ce, b);
        assert(pe == propagate_effect(prev2, pres[b], ee, b));
        assert(pc == propagate_common(prev2, pres[b], ce, b));
        assert(with_effect_args(prev1[b], unnamed(pe)) == with_effect_args(prev2[b], unnamed(pe)));
        let cur1 = pass2_upto(t1, pres, ee, ce, k);
        let cur2 = pass2_upto(t2, pres, ee, ce, k);
        assert forall|p: int| 0 <= p < cur1.len() implies erase_effect_names(#[trigger] cur1[p]) == erase_effect_names(cur2[p]) by {
            if p != b {
                assert(cur1[p] == prev1[p]);
                assert(cur2[p] == prev2[p]);
            }
        }
        assert forall|p: int| 0 <= p < k implies #[trigger] cur1[p] == cur2[p] by {
            if p != b {
                assert(cur1[p] == prev1[p]);
                assert(cur2[p] == prev2[p]);
            }
        }
    }
}

// ---------------------------------------------------------------------------
// The law
// ---------------------------------------------------------------------------

/// Effect-argument names are labels only: two graphs that differ only in
/// the names their terminators give effect arguments convert to the same
/// flat-continuation graph.
pub proof fn law_effect_names_do_not_matter(g1: GraphModel, g2: GraphModel)
    requires
        graph_wf(g1),
        graph_wf(g2),
        differ_in_effect_names(g1, g2),
    ensures
        flat_cont_model(g1) == flat_cont_model(g2),
{
    let a = g1.bbs;
    let b = g2.bbs;
    let nodes = g1.nodes;
    let len = a.len() as int;
    assert(same_skeleton(a, b)) by {
        assert forall|i: int| 0 <= i < a.len() implies (#[trigger] a[i]).node_ids == b[i].node_ids && successors(
            a[i].terminator,
        ) == successors(b[i].terminator) by {
            lemma_erased_equal(a[i].terminator, b[i].terminator);
        }
    }
    lemma_preds_skeleton(a, b);
    assert(blocks_erased_equal(a, b));
    assert(pred_lists(g1) == pred_lists(g2));
    assert(last_uses(g1, true) == last_uses(g2, true)) by {
        assert forall|n: int| 0 <= n < nodes.len() implies #[trigger] last_uses(g1, true)[n] == last_uses(g2, true)[n] by {
            lemma_last_use_upto_skeleton(a, b, nodes, n as u32, true, len);
        }
        assert(last_uses(g1, true) =~= last_uses(g2, true));
    }
    assert(last_uses(g1, false) == last_uses(g2, false)) by {
        assert forall|n: int| 0 <= n < nodes.len() implies #[trigger] last_uses(g1, false)[n] == last_uses(g2, false)[n] by {
            lemma_last_use_upto_skeleton(a, b, nodes, n as u32, false, len);
        }
        assert(last_uses(g1, false) =~= last_uses(g2, false));
    }
    let p1 = pass1_terms(g1);
    let p2 = pass1_terms(g2);
    assert(terms_erased_equal(p1, p2)) by {
        assert forall|p: int| 0 <= p < p1.len() implies erase_effect_names(#[trigger] p1[p]) == erase_effect_names(p2[p]) by {
            lemma_requests_upto_skeleton(a, b, nodes, p, true, len);
            lemma_requests_upto_skeleton(a, b, nodes, p, false, len);
            lemma_carried_erased(a, b, nodes, p, true, nodes.len() as int);
            lemma_carried_erased(a, b, nodes, p, false, nodes.len() as int);
            lemma_with_requests_erased(
                a[p].terminator,
                b[p].terminator,
                crate::semantics::pass1_requests(a, nodes, p, true),
                crate::semantics::pass1_requests(a, nodes, p, false),
            );
        }
    }
    let pl = pred_lists(g1);
    assert forall|t: int, q: int| 0 <= t < pl.len() && 0 <= q < pl[t].len() implies (#[trigger] pl[t][q] as int) < p1.len() by {
        lemma_preds_upto_range(a, t, len);
    }
    lemma_pass2_erased(p1, p2, pl, last_uses(g1, true), last_uses(g1, false), len);
    lemma_pass2_shape(p1, pl, last_uses(g1, true), last_uses(g1, false), len);
    lemma_pass2_shape(p2, pl, last_uses(g1, true), last_uses(g1, false), len);
    assert(final_terms(g1) =~= final_terms(g2));
    assert(flat_cont_model(g1).continuations =~= flat_cont_model(g2).continuations) by {
        assert forall|i: int| 0 <= i < len implies #[trigger] flat_cont_model(g1).continuations[i]
            == flat_cont_model(g2).continuations[i] by {
            assert(a[i].node_ids == b[i].node_ids);
            assert(crate::semantics::final_block(g1, i) == crate::semantics::final_block(g2, i));
        }
    }
}

} // verus!
