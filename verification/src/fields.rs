//! What the renumbering keeps of a node: everything but its operands, and,
//! for a parameter, the type its defining node carries.
use vstd::prelude::*;
use crate::common::RawTypeModel;
use crate::model::{
    arg_values, same_kind, successors, term_common_args, term_effect_args, EffectArgModel, GraphModel, NodeModel,
    TermModel,
};
use crate::semantics::{
    body_ids, common_operands, effect_operands, final_block, flat_cont_model, infer_type_model, is_param_node,
    param_ids, remap_node_model, remap_term_model, remap_values, selector_values,
};

verus! {

/// The names of a list of effect arguments, in order.
pub open spec fn arg_names(args: Seq<EffectArgModel>) -> Seq<Seq<char>> {
    args.map_values(|a: EffectArgModel| a.0)
}

/// Whether `a` and `b` are the same kind of node and agree on every field
/// that is not an operand: types, signedness, conditions, opcodes,
/// operators, constants, references, parameter positions and effect
/// argument names. Operand counts agree too.
pub open spec fn same_fields(a: NodeModel, b: NodeModel) -> bool {
    match (a, b) {
        (NodeModel::Const(v1, t1), NodeModel::Const(v2, t2)) => v1 == v2 && t1 == t2,
        (NodeModel::DataRef(d1), NodeModel::DataRef(d2)) => d1 == d2,
        (NodeModel::ExternRef(e1), NodeModel::ExternRef(e2)) => e1 == e2,
        (NodeModel::ContRef(c1), NodeModel::ContRef(c2)) => c1 == c2,
        (NodeModel::Param(i1), NodeModel::Param(i2)) => i1 == i2,
        (NodeModel::EffectParam(i1), NodeModel::EffectParam(i2)) => i1 == i2,
        (
            NodeModel::Load { data_type: t1, signed: s1, .. },
            NodeModel::Load { data_type: t2, signed: s2, .. },
        ) => t1 == t2 && s1 == s2,
        (NodeModel::Store { data_type: t1, .. }, NodeModel::Store { data_type: t2, .. }) => t1 == t2,
        (NodeModel::AtomicCAS { data_type: t1, .. }, NodeModel::AtomicCAS { data_type: t2, .. }) => t1 == t2,
        (
            NodeModel::AtomicRMW { data_type: t1, operator: o1, .. },
            NodeModel::AtomicRMW { data_type: t2, operator: o2, .. },
        ) => t1 == t2 && o1 == o2,
        (NodeModel::GEP(t1, _, i1), NodeModel::GEP(t2, _, i2)) => t1 == t2 && i1.len() == i2.len(),
        (NodeModel::Select(..), NodeModel::Select(..)) => true,
        (NodeModel::Icmp(c1, _, _), NodeModel::Icmp(c2, _, _)) => c1 == c2,
        (NodeModel::Compute(o1, v1), NodeModel::Compute(o2, v2)) => o1 == o2 && v1.len() == v2.len(),
        (NodeModel::Proj(_, k1), NodeModel::Proj(_, k2)) => k1 == k2,
        (NodeModel::TokenMerge(v1), NodeModel::TokenMerge(v2)) => v1.len() == v2.len(),
        (NodeModel::Alloc(t1), NodeModel::Alloc(t2)) => t1 == t2,
        (
            NodeModel::Call { effect_args: e1, args: a1, .. },
            NodeModel::Call { effect_args: e2, args: a2, .. },
        ) => arg_names(e1) == arg_names(e2) && a1.len() == a2.len(),
        _ => false,
    }
}

/// The type field a node carries, if it carries one: a constant's type,
/// the data type of a memory access, a GEP's indexed type.
pub open spec fn carried_type(n: NodeModel) -> Option<RawTypeModel> {
    match n {
        NodeModel::Const(_, t) => Some(t),
        NodeModel::Load { data_type, .. } => Some(data_type),
        NodeModel::Store { data_type, .. } => Some(data_type),
        NodeModel::AtomicCAS { data_type, .. } => Some(data_type),
        NodeModel::AtomicRMW { data_type, .. } => Some(data_type),
        NodeModel::GEP(t, _, _) => Some(t),
        _ => None,
    }
}

/// Renumbering a node changes only its operands: the result is the same
/// kind of node with the same non-operand fields, and its operands are the
/// input's operands, each looked up in the table, in the same order.
pub proof fn law_remap_changes_only_operands(n: NodeModel, m: Seq<usize>)
    ensures
        same_fields(remap_node_model(n, m), n),
        effect_operands(remap_node_model(n, m)) == remap_values(effect_operands(n), m),
        common_operands(remap_node_model(n, m)) == remap_values(common_operands(n), m),
{
    let r = remap_node_model(n, m);
    match n {
        NodeModel::Load { .. } => {
            assert(effect_operands(r) =~= remap_values(effect_operands(n), m));
            assert(common_operands(r) =~= remap_values(common_operands(n), m));
        },
        NodeModel::Store { .. } => {
            assert(effect_operands(r) =~= remap_values(effect_operands(n), m));
            assert(common_operands(r) =~= remap_values(common_operands(n), m));
        },
        NodeModel::AtomicCAS { .. } => {
            assert(effect_operands(r) =~= remap_values(effect_operands(n), m));
            assert(common_operands(r) =~= remap_values(common_operands(n), m));
        },
        NodeModel::AtomicRMW { .. } => {
            assert(effect_operands(r) =~= remap_values(effect_operands(n), m));
            assert(common_operands(r) =~= remap_values(common_operands(n), m));
        },
        NodeModel::GEP(t, base, ix) => {
            assert(effect_operands(r) =~= remap_values(effect_operands(n), m));
            assert(common_operands(r) =~= remap_values(common_operands(n), m));
        },
        NodeModel::Select(..) => {
            assert(effect_operands(r) =~= remap_values(effect_operands(n), m));
            assert(common_operands(r) =~= remap_values(common_operands(n), m));
        },
        NodeModel::Icmp(..) => {
            assert(effect_operands(r) =~= remap_values(effect_operands(n), m));
            assert(common_operands(r) =~= remap_values(common_operands(n), m));
        },
        NodeModel::Compute(..) => {
            assert(effect_operands(r) =~= remap_values(effect_operands(n), m));
            assert(common_operands(r) =~= remap_values(common_operands(n), m));
        },
        NodeModel::Proj(..) => {
            assert(effect_operands(r) =~= remap_values(effect_operands(n), m));
            assert(common_operands(r) =~= remap_values(common_operands(n), m));
        },
        NodeModel::TokenMerge(..) => {
            assert(effect_operands(r) =~= remap_values(effect_operands(n), m));
            assert(common_operands(r) =~= remap_values(common_operands(n), m));
        },
        NodeModel::Call { effect_args, .. } => {
            assert(effect_operands(r) =~= remap_values(effect_operands(n), m));
            assert(common_operands(r) =~= remap_values(common_operands(n), m));
            assert(arg_names(crate::semantics::remap_args(effect_args, m)) =~= arg_names(effect_args));
        },
        _ => {
            assert(effect_operands(r) =~= remap_values(effect_operands(n), m));
            assert(common_operands(r) =~= remap_values(common_operands(n), m));
        },
    }
}

/// A parameter's type is the type its defining node carries, where it
/// carries one.
pub proof fn law_param_type_is_carried(n: NodeModel, t: RawTypeModel)
    requires
        carried_type(n) == Some(t),
    ensures
        infer_type_model(n) == t,
{
}

/// Each continuation's parameters are typed by their defining nodes: the
/// `i`-th parameter of block `b`'s continuation stands for the node
/// `param_ids(..)[i]` of the pool, and when that node carries a type field
/// the parameter has that type.
pub proof fn law_continuation_param_types(g: GraphModel, b: int, i: int)
    requires
        0 <= b < g.bbs.len(),
        0 <= i < param_ids(g.nodes, final_block(g, b)).len(),
    ensures
        flat_cont_model(g).continuations[b].params.len() == param_ids(g.nodes, final_block(g, b)).len(),
        carried_type(g.nodes[param_ids(g.nodes, final_block(g, b))[i] as int]) is Some ==> flat_cont_model(
            g,
        ).continuations[b].params[i] == carried_type(g.nodes[param_ids(g.nodes, final_block(g, b))[i] as int])->0,
{
    let x = param_ids(g.nodes, final_block(g, b))[i];
    if carried_type(g.nodes[x as int]) is Some {
        law_param_type_is_carried(g.nodes[x as int], carried_type(g.nodes[x as int])->0);
    }
}

/// Each body node of a continuation is a node its block lists, not a
/// parameter, renumbered: the same kind of node with the same non-operand
/// fields.
pub proof fn law_body_nodes_keep_fields(g: GraphModel, b: int, k: int)
    requires
        0 <= b < g.bbs.len(),
        0 <= k < flat_cont_model(g).continuations[b].nodes.len(),
    ensures
        exists|i: int|
            0 <= i < g.bbs[b].node_ids.len() && !is_param_node(g.nodes[#[trigger] g.bbs[b].node_ids[i] as int])
                && same_fields(flat_cont_model(g).continuations[b].nodes[k], g.nodes[g.bbs[b].node_ids[i] as int]),
{
    let blk = final_block(g, b);
    let ids = g.bbs[b].node_ids;
    let body = body_ids(g.nodes, blk.node_ids);
    let c = flat_cont_model(g).continuations[b];
    assert(c == crate::semantics::remap_block(g.nodes, blk));
    let x = body[k];
    let p = param_ids(g.nodes, blk);
    let e = crate::semantics::effect_ids(g.nodes, blk);
    let m = crate::semantics::local_table(g.nodes.len() as int, p, e, body, k);
    assert(c.nodes[k] == remap_node_model(g.nodes[x as int], m));
    law_remap_changes_only_operands(g.nodes[x as int], m);
    assert(body.contains(x));
    crate::locality::lemma_body_ids_contains(g.nodes, blk.node_ids, x);
    let i = choose|i: int| 0 <= i < ids.len() && ids[i] == x;
    assert(g.nodes[ids[i] as int] == g.nodes[x as int]);
}

/// A parameter whose defining node carries no type field is typed by the
/// node's kind: a comparison or a select yields one bit, a computation 32
/// bits, and anything else (a parameter node, a reference, a projection,
/// a token merge, an allocation, a call) a token.
pub proof fn law_param_type_uncarried(n: NodeModel)
    requires
        carried_type(n) is None,
    ensures
        (n is Icmp || n is Select) ==> infer_type_model(n) == RawTypeModel::Scalar(1),
        n is Compute ==> infer_type_model(n) == RawTypeModel::Scalar(32),
        !(n is Icmp || n is Select || n is Compute) ==> infer_type_model(n) == RawTypeModel::Token,
{
}

/// Renumbering a terminator changes only its operands: it keeps its kind,
/// its targets and its effect argument names, and every argument, its
/// condition and its case are the input's, looked up in the table.
pub proof fn law_remap_term_changes_only_operands(t: TermModel, m: Seq<usize>)
    ensures
        same_kind(remap_term_model(t, m), t),
        successors(remap_term_model(t, m)) == successors(t),
        arg_names(term_effect_args(remap_term_model(t, m))) == arg_names(term_effect_args(t)),
        arg_values(term_effect_args(remap_term_model(t, m))) == remap_values(arg_values(term_effect_args(t)), m),
        term_common_args(remap_term_model(t, m)) == remap_values(term_common_args(t), m),
        selector_values(remap_term_model(t, m)) == remap_values(selector_values(t), m),
{
    let r = remap_term_model(t, m);
    assert(arg_names(term_effect_args(r)) =~= arg_names(term_effect_args(t)));
    assert(arg_values(term_effect_args(r)) =~= remap_values(arg_values(term_effect_args(t)), m));
    assert(selector_values(r) =~= remap_values(selector_values(t), m));
}

} // verus!
