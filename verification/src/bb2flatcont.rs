//! The conversion from basic blocks to flat continuations.
use vstd::prelude::*;
use crate::basicblock::{
    blocks_model, cont_ids_model, nodes_model, effect_args_model, node_ids_model, values_model,
    BasicBlock, BasicBlockGraph, ContId as BbCid, Node as BBNode, NodeId as BbNid,
    Terminator as BBTerm, Value as BbValue,
};
use crate::flatcont::{
    ContId as FcCid, FlatContinuation, FlatContGraph, GepIndices as FcGepIndices, Node as FCNode,
    NodeId as FcNid, Operands as FcOperands, Terminator as FCTerm, Value as FcValue,
};
use crate::common::RawType;
use crate::model::{
    arg_values, node_refs, successors, term_common_args, term_effect_args, with_common_args,
    with_effect_args, BlockModel, NodeModel, TermModel, ValueModel,
};
use crate::semantics::{
    add_common_ref, add_effect_ref, block_slot, count_of, dedup_seq, gather_visible, home_block,
    home_upto, id_space, lemma_dedup_contains, lemma_push_contains, lemma_request_common,
    lemma_request_effect, lemma_visible_upto_len, lemma_visible_upto_prefix, listed_below,
    node_inputs, not_from, preds, preds_upto, unnamed, visible, visible_among, visible_upto,
    with_requests, inputs_below, inputs_of, foreign_inputs_upto, requests, requests_upto,
    last_use_upto, last_use, pass1_terminator, lemma_preds_upto_range, lemma_visible_among_add,
    lemma_add_contains, append_new, gather_common, gather_effect, live_after, keep_live,
    propagate_common, propagate_effect, lemma_append_new_add, lemma_append_new_contains,
    lemma_gather_common_push, pass2_upto, args_below, refs_below, lemma_gather_below,
    lemma_propagated_below, lemma_with_args_accessors, remap_value, remap_values, remap_args,
    remap_node_model, remap_term_model, infer_type_model, is_param_node, term_refs_below,
    node_refs_below, lemma_refs_below_split, effect_operands, common_operands, table_size, Slot,
    slot_of, first_in_slot, claim_ids, outside, tagged, own_claims, input_claims_upto, slot_claims,
    lemma_outside_push, lemma_tagged_push, lemma_first_in_slot_push, lemma_node_refs_push,
    lemma_inputs_below, body_ids, last_pos, local_table, remap_block, param_ids, effect_ids,
    lemma_body_ids_prefix, lemma_distinct_below_len, targets_in_range, graph_wf, flat_cont_model,
    final_terms, final_block, pass1_terms, pred_lists, last_uses, lemma_pass1_args_below,
    lemma_graph_inputs_below, lemma_pass2_shape, selector_values,
};


verus! {

// ---------------------------------------------------------------------------
// Helpers
// ---------------------------------------------------------------------------

pub fn fid(x: u32) -> (r: FcNid)
    ensures
        r.0 == x,
{
    FcNid(x)
}

pub fn cid(x: u32) -> (r: BbCid)
    ensures
        r.0 == x,
{
    BbCid(x)
}

pub fn fcid(x: u32) -> (r: FcCid)
    ensures
        r.0 == x,
{
    FcCid(x)
}

/// Whether `n` occurs in `v`.
pub fn contains_node(v: &[BbNid], n: BbNid) -> (r: bool)
    ensures
        r == node_ids_model(v@).contains(n.0),
{
    let mut i: usize = 0;
    while i < v.len()
        invariant
            i <= v.len(),
            forall|j: int| 0 <= j < i ==> v@[j].0 != n.0,
        decreases v.len() - i,
    {
        if v[i].0 == n.0 {
            proof {
                assert(node_ids_model(v@)[i as int] == n.0);
            }
            return true;
        }
        i = i + 1;
    }
    proof {
        if node_ids_model(v@).contains(n.0) {
            let j = choose|j: int| 0 <= j < node_ids_model(v@).len() && node_ids_model(v@)[j] == n.0;
            assert(v@[j].0 == n.0);
        }
    }
    false
}

/// Removes repeated ids from `v`, keeping each at its first occurrence.
pub fn dedup(v: &mut Vec<BbNid>)
    ensures
        node_ids_model(final(v)@) == dedup_seq(node_ids_model(old(v)@)),
{
    let ghost orig = node_ids_model(v@);
    let mut out: Vec<BbNid> = Vec::new();
    let mut i: usize = 0;
    while i < v.len()
        invariant
            i <= v.len(),
            orig == node_ids_model(v@),
            node_ids_model(out@) == dedup_seq(orig.take(i as int)),
        decreases v.len() - i,
    {
        let x = v[i];
        proof {
            assert(orig.take(i + 1).drop_last() =~= orig.take(i as int));
            assert(orig.take(i + 1).last() == x.0);
        }
        if !contains_node(out.as_slice(), x) {
            out.push(x);
            proof {
                assert(node_ids_model(out@) =~= node_ids_model(out@.drop_last()).push(x.0));
            }
        }
        i = i + 1;
    }
    proof {
        assert(orig.take(v.len() as int) =~= orig);
    }
    *v = out;
}

/// The node references of two concatenated lists.
pub proof fn lemma_node_refs_add(a: Seq<ValueModel>, b: Seq<ValueModel>)
    ensures
        node_refs(a + b) == node_refs(a) + node_refs(b),
    decreases b.len(),
{
    if b.len() == 0 {
        assert(a + b =~= a);
        assert(node_refs(a) + node_refs(b) =~= node_refs(a));
    } else {
        lemma_node_refs_add(a, b.drop_last());
        assert((a + b).drop_last() =~= a + b.drop_last());
        assert((a + b).last() == b.last());
        match b.last() {
            ValueModel::Node(n) => {
                assert(node_refs(a) + node_refs(b) =~= (node_refs(a) + node_refs(b.drop_last())).push(n));
            },
            _ => {
                assert(node_refs(a) + node_refs(b) =~= node_refs(a) + node_refs(b.drop_last()));
            },
        }
    }
}

/// Appends the node `v` refers to, if any, to `out`.
fn push_ref(out: &mut Vec<BbNid>, v: &BbValue)
    ensures
        node_ids_model(final(out)@) == node_ids_model(old(out)@) + node_refs(seq![v@]),
{
    proof {
        assert(seq![v@].drop_last() =~= Seq::<ValueModel>::empty());
        assert(node_refs(Seq::<ValueModel>::empty()) == Seq::<u32>::empty());
    }
    match v {
        BbValue::Node(n) => {
            out.push(*n);
            proof {
                assert(node_ids_model(out@) =~= node_ids_model(old(out)@) + node_refs(seq![v@]));
            }
        },
        _ => {
            proof {
                assert(node_ids_model(out@) =~= node_ids_model(old(out)@) + node_refs(seq![v@]));
            }
        },
    }
}

/// Appends the nodes among `vs` to `out`, in order.
fn push_refs(out: &mut Vec<BbNid>, vs: &[BbValue])
    ensures
        node_ids_model(final(out)@) == node_ids_model(old(out)@) + node_refs(values_model(vs@)),
{
    let mut i: usize = 0;
    while i < vs.len()
        invariant
            i <= vs.len(),
            node_ids_model(out@) == node_ids_model(old(out)@) + node_refs(
                values_model(vs@.take(i as int)),
            ),
        decreases vs.len() - i,
    {
        push_ref(out, &vs[i]);
        proof {
            assert(values_model(vs@.take(i + 1)) =~= values_model(vs@.take(i as int)) + seq![
                vs@[i as int]@,
            ]);
            lemma_node_refs_add(values_model(vs@.take(i as int)), seq![vs@[i as int]@]);
        }
        i = i + 1;
    }
    proof {
        assert(vs@.take(vs.len() as int) =~= vs@);
    }
}

/// Appends the nodes among the values of `args` to `out`, in order.
fn push_arg_refs(out: &mut Vec<BbNid>, args: &[(String, BbValue)])
    ensures
        node_ids_model(final(out)@) == node_ids_model(old(out)@) + node_refs(
            arg_values(effect_args_model(args@)),
        ),
{
    let mut i: usize = 0;
    while i < args.len()
        invariant
            i <= args.len(),
            node_ids_model(out@) == node_ids_model(old(out)@) + node_refs(
                arg_values(effect_args_model(args@.take(i as int))),
            ),
        decreases args.len() - i,
    {
        push_ref(out, &args[i].1);
        proof {
            assert(arg_values(effect_args_model(args@.take(i + 1))) =~= arg_values(
                effect_args_model(args@.take(i as int)),
            ) + seq![args@[i as int].1@]);
            lemma_node_refs_add(
                arg_values(effect_args_model(args@.take(i as int))),
                seq![args@[i as int].1@],
            );
        }
        i = i + 1;
    }
    proof {
        assert(args@.take(args.len() as int) =~= args@);
    }
}

/// The pool nodes `node` reads: its effect inputs and its ordinary inputs,
/// each in operand order without repetition.
pub fn get_inputs(node: &BBNode) -> (r: (Vec<BbNid>, Vec<BbNid>))
    ensures
        (node_ids_model(r.0@), node_ids_model(r.1@)) == node_inputs(node@),
{
    let mut eff: Vec<BbNid> = Vec::new();
    let mut com: Vec<BbNid> = Vec::new();
    proof {
        assert(node_refs(Seq::<ValueModel>::empty()) == Seq::<u32>::empty());
        assert(node_ids_model(eff@) =~= Seq::<u32>::empty());
        assert(node_ids_model(com@) =~= Seq::<u32>::empty());
    }
    match node {
        BBNode::Load { effect_state, addr, .. } => {
            push_ref(&mut eff, effect_state);
            push_ref(&mut com, addr);
        },
        BBNode::Store { effect_state, addr, value, .. } => {
            push_ref(&mut eff, effect_state);
            push_ref(&mut com, addr);
            push_ref(&mut com, value);
            proof {
                lemma_node_refs_add(seq![addr@], seq![value@]);
                assert(seq![addr@] + seq![value@] =~= seq![addr@, value@]);
            }
        },
        BBNode::AtomicCAS { effect_state, addr, old, new, .. } => {
            push_ref(&mut eff, effect_state);
            push_ref(&mut com, addr);
            push_ref(&mut com, old);
            push_ref(&mut com, new);
            proof {
                lemma_node_refs_add(seq![addr@], seq![old@]);
                lemma_node_refs_add(seq![addr@, old@], seq![new@]);
                assert(seq![addr@] + seq![old@] =~= seq![addr@, old@]);
                assert(seq![addr@, old@] + seq![new@] =~= seq![addr@, old@, new@]);
            }
        },
        BBNode::AtomicRMW { effect_state, addr, value, .. } => {
            push_ref(&mut eff, effect_state);
            push_ref(&mut com, addr);
            push_ref(&mut com, value);
            proof {
                lemma_node_refs_add(seq![addr@], seq![value@]);
                assert(seq![addr@] + seq![value@] =~= seq![addr@, value@]);
            }
        },
        BBNode::GEP(_, base, indices) => {
            push_ref(&mut com, base);
            push_refs(&mut com, indices.as_slice());
            proof {
                lemma_node_refs_add(
                    seq![base@],
                    values_model(crate::basicblock::gep_index_items(*indices)),
                );
            }
        },
        BBNode::Select(c, t, f) => {
            push_ref(&mut com, c);
            push_ref(&mut com, t);
            push_ref(&mut com, f);
            proof {
                lemma_node_refs_add(seq![c@], seq![t@]);
                lemma_node_refs_add(seq![c@, t@], seq![f@]);
                assert(seq![c@] + seq![t@] =~= seq![c@, t@]);
                assert(seq![c@, t@] + seq![f@] =~= seq![c@, t@, f@]);
            }
        },
        BBNode::Icmp(_, a, b) => {
            push_ref(&mut com, a);
            push_ref(&mut com, b);
            proof {
                lemma_node_refs_add(seq![a@], seq![b@]);
                assert(seq![a@] + seq![b@] =~= seq![a@, b@]);
            }
        },
        BBNode::Compute(_, operands) => {
            push_refs(&mut com, operands.as_slice());
        },
        BBNode::Proj(v, _) => {
            push_ref(&mut com, v);
        },
        BBNode::TokenMerge(vs) => {
            push_refs(&mut eff, vs.as_slice());
        },
        BBNode::Call { target, effect_args, args } => {
            push_arg_refs(&mut eff, effect_args.as_slice());
            push_ref(&mut com, target);
            push_refs(&mut com, args.as_slice());
            proof { lemma_node_refs_add(seq![target@], values_model(args@)); }
        },
        _ => {},
    }
    proof {
        assert(node_ids_model(eff@) =~= node_refs(crate::semantics::effect_operands(node@)));
        assert(node_ids_model(com@) =~= node_refs(crate::semantics::common_operands(node@)));
    }
    dedup(&mut eff);
    dedup(&mut com);
    (eff, com)
}

// ---------------------------------------------------------------------------
// Control flow
// ---------------------------------------------------------------------------

/// The blocks `term` may pass control to, in the order it lists them.
pub fn successor_ids(term: &BBTerm) -> (r: Vec<BbCid>)
    ensures
        cont_ids_model(r@) == successors(term@),
{
    match term {
        BBTerm::Jump { target, .. } => {
            let r = vec![*target];
            proof { assert(cont_ids_model(r@) =~= successors(term@)); }
            r
        },
        BBTerm::Branch { then_target, else_target, .. } => {
            let r = vec![*then_target, *else_target];
            proof { assert(cont_ids_model(r@) =~= successors(term@)); }
            r
        },
        BBTerm::Switch { targets, .. } => crate::basicblock::clone_cont_ids(targets),
        BBTerm::Return { .. } => {
            let r: Vec<BbCid> = Vec::new();
            proof { assert(cont_ids_model(r@) =~= successors(term@)); }
            r
        },
    }
}

/// The predecessors of every block.
pub fn compute_pres(bbs: &[BasicBlock]) -> (r: Vec<Vec<BbCid>>)
    requires
        targets_in_range(blocks_model(bbs@)),
    ensures
        r@.len() == bbs.len(),
        forall|t: int| 0 <= t < bbs.len() ==> cont_ids_model(#[trigger] r@[t]@) == preds(
            blocks_model(bbs@),
            t,
        ),
{
    let ghost bm = blocks_model(bbs@);
    let n = bbs.len();
    let mut pres: Vec<Vec<BbCid>> = Vec::new();
    let mut t: usize = 0;
    while t < n
        invariant
            t <= n,
            n == bbs.len(),
            pres@.len() == t,
            forall|u: int| 0 <= u < t ==> (#[trigger] pres@[u])@ == Seq::<BbCid>::empty(),
        decreases n - t,
    {
        pres.push(Vec::new());
        t = t + 1;
    }
    let mut i: usize = 0;
    while i < n
        invariant
            i <= n,
            n == bbs.len(),
            bm == blocks_model(bbs@),
            targets_in_range(bm),
            pres@.len() == n,
            forall|u: int| 0 <= u < n ==> cont_ids_model(#[trigger] pres@[u]@) == preds_upto(bm, u, i as int),
        decreases n - i,
    {
        let succ = successor_ids(&bbs[i].terminator);
        let ghost sm = successors(bm[i as int].terminator);
        let mut j: usize = 0;
        while j < succ.len()
            invariant
                i < n,
                n == bbs.len(),
                bm == blocks_model(bbs@),
                targets_in_range(bm),
                cont_ids_model(succ@) == sm,
                sm == successors(bm[i as int].terminator),
                j <= succ.len(),
                pres@.len() == n,
                forall|u: int| 0 <= u < n ==> cont_ids_model(#[trigger] pres@[u]@) == preds_upto(bm, u, i as int) + Seq::new(
                    count_of(sm.take(j as int), u),
                    |k: int| #[verifier::truncate] (i as u32),
                ),
            decreases succ.len() - j,
        {
            let tgt = succ[j];
            proof {
                assert(sm[j as int] == tgt.0);
                assert((tgt.0 as int) < n);
                assert(sm.take(j + 1).drop_last() =~= sm.take(j as int));
            }
            let ghost old_pres = pres@;
            pres[tgt.0 as usize].push(cid(#[verifier::truncate] (i as u32)));
            proof {
                assert forall|u: int| 0 <= u < n implies cont_ids_model(#[trigger] pres@[u]@) == preds_upto(bm, u, i as int) + Seq::new(
                    count_of(sm.take(j + 1), u),
                    |k: int| #[verifier::truncate] (i as u32),
                ) by {
                    if u == tgt.0 as int {
                        assert(count_of(sm.take(j + 1), u) == count_of(sm.take(j as int), u) + 1);
                        assert(cont_ids_model(pres@[u]@) =~= cont_ids_model(old_pres[u]@).push(#[verifier::truncate] (i as u32)));
                        assert(Seq::new(count_of(sm.take(j + 1), u), |k: int| i as u32) =~= Seq::new(
                            count_of(sm.take(j as int), u),
                            |k: int| #[verifier::truncate] (i as u32),
                        ).push(#[verifier::truncate] (i as u32)));
                    } else {
                        assert(count_of(sm.take(j + 1), u) == count_of(sm.take(j as int), u));
                        assert(pres@[u] == old_pres[u]);
                    }
                }
            }
            j = j + 1;
        }
        proof {
            assert(sm.take(succ.len() as int) =~= sm);
            assert forall|u: int| 0 <= u < n implies cont_ids_model(#[trigger] pres@[u]@) == preds_upto(bm, u, i + 1) by {
                assert(preds_upto(bm, u, i + 1) == preds_upto(bm, u, i as int) + Seq::new(
                    count_of(sm, u),
                    |k: int| #[verifier::truncate] (i as u32),
                ));
            }
        }
        i = i + 1;
    }
    pres
}

// ---------------------------------------------------------------------------
// Tables
// ---------------------------------------------------------------------------

/// A vector of `n` copies of `x`.
pub fn filled_usize(n: usize, x: usize) -> (r: Vec<usize>)
    ensures
        r@ == Seq::new(n as nat, |i: int| x),
{
    let mut v: Vec<usize> = Vec::new();
    let mut i: usize = 0;
    while i < n
        invariant
            i <= n,
            v@ == Seq::new(i as nat, |j: int| x),
        decreases n - i,
    {
        v.push(x);
        i = i + 1;
        assert(v@ =~= Seq::new(i as nat, |j: int| x));
    }
    v
}

/// A vector of `n` copies of `x`.
pub fn filled_bool(n: usize, x: bool) -> (r: Vec<bool>)
    ensures
        r@ == Seq::new(n as nat, |i: int| x),
{
    let mut v: Vec<bool> = Vec::new();
    let mut i: usize = 0;
    while i < n
        invariant
            i <= n,
            v@ == Seq::new(i as nat, |j: int| x),
        decreases n - i,
    {
        v.push(x);
        i = i + 1;
        assert(v@ =~= Seq::new(i as nat, |j: int| x));
    }
    v
}

/// For every pool node, the last block that lists it (`usize::MAX` if none).
pub fn home_blocks(bbs: &[BasicBlock], num_nodes: usize) -> (r: Vec<usize>)
    requires
        listed_below(blocks_model(bbs@), num_nodes as int),
        num_nodes <= id_space(),
    ensures
        r@.len() == num_nodes,
        forall|n: int| 0 <= n < num_nodes ==> #[trigger] r@[n] == block_slot(
            home_block(blocks_model(bbs@), n as u32),
        ),
{
    let ghost bm = blocks_model(bbs@);
    let mut nmap = filled_usize(num_nodes, usize::MAX);
    let mut b: usize = 0;
    while b < bbs.len()
        invariant
            b <= bbs.len(),
            bm == blocks_model(bbs@),
            listed_below(bm, num_nodes as int),
            num_nodes <= id_space(),
            nmap@.len() == num_nodes,
            forall|n: int| 0 <= n < num_nodes ==> #[trigger] nmap@[n] == block_slot(
                home_upto(bm, n as u32, b as int),
            ),
        decreases bbs.len() - b,
    {
        let ids = &bbs[b].node_ids;
        let ghost im = bm[b as int].node_ids;
        let mut k: usize = 0;
        while k < ids.len()
            invariant
                b < bbs.len(),
                k <= ids.len(),
                ids == &bbs@[b as int].node_ids,
                im == node_ids_model(ids@),
                bm == blocks_model(bbs@),
                im == bm[b as int].node_ids,
                listed_below(bm, num_nodes as int),
                num_nodes <= id_space(),
                nmap@.len() == num_nodes,
                forall|n: int| 0 <= n < num_nodes ==> #[trigger] nmap@[n] == block_slot(
                    if im.take(k as int).contains(n as u32) {
                        b as int
                    } else {
                        home_upto(bm, n as u32, b as int)
                    },
                ),
            decreases ids.len() - k,
        {
            let id = ids[k];
            proof {
                assert(im[k as int] == id.0);
                assert((id.0 as int) < num_nodes);
                assert(im.take(k + 1) == im.take(k as int).push(id.0)) by {
                    assert(im.take(k + 1) =~= im.take(k as int).push(id.0));
                }
            }
            nmap.set(id.0 as usize, b);
            proof {
                assert forall|n: int| 0 <= n < num_nodes implies #[trigger] nmap@[n] == block_slot(
                    if im.take(k + 1).contains(n as u32) {
                        b as int
                    } else {
                        home_upto(bm, n as u32, b as int)
                    },
                ) by {
                    lemma_push_contains(im.take(k as int), id.0, n as u32);
                }
            }
            k = k + 1;
        }
        proof {
            assert(im.take(ids.len() as int) =~= im);
        }
        b = b + 1;
    }
    nmap
}

/// Appends to `out` the ids of `src` it does not hold yet, in order;
/// `seen` marks the ids `out` holds.
fn extend_unseen(
    out: &mut Vec<BbNid>,
    seen: &mut Vec<bool>,
    src: &[BbNid],
    Ghost(prefix): Ghost<Seq<u32>>,
)
    requires
        node_ids_model(old(out)@) == dedup_seq(prefix),
        forall|n: int| 0 <= n < old(seen)@.len() ==> #[trigger] old(seen)@[n] == prefix.contains(n as u32),
        forall|i: int| 0 <= i < src@.len() ==> (#[trigger] src@[i].0 as int) < old(seen)@.len(),
        old(seen)@.len() <= id_space(),
        forall|i: int| 0 <= i < old(out)@.len() ==> (#[trigger] old(out)@[i].0 as int) < old(seen)@.len(),
    ensures
        forall|i: int| 0 <= i < final(out)@.len() ==> (#[trigger] final(out)@[i].0 as int) < old(seen)@.len(),
        node_ids_model(final(out)@) == dedup_seq(prefix + node_ids_model(src@)),
        final(seen)@.len() == old(seen)@.len(),
        forall|n: int| 0 <= n < final(seen)@.len() ==> #[trigger] final(seen)@[n] == (prefix + node_ids_model(src@)).contains(n as u32),
{
    let ghost sm = node_ids_model(src@);
    let mut i: usize = 0;
    while i < src.len()
        invariant
            i <= src.len(),
            sm == node_ids_model(src@),
            seen@.len() == old(seen)@.len(),
            seen@.len() <= id_space(),
            forall|j: int| 0 <= j < src@.len() ==> (#[trigger] src@[j].0 as int) < seen@.len(),
            forall|j: int| 0 <= j < out@.len() ==> (#[trigger] out@[j].0 as int) < seen@.len(),
            node_ids_model(out@) == dedup_seq(prefix + sm.take(i as int)),
            forall|n: int| 0 <= n < seen@.len() ==> #[trigger] seen@[n] == (prefix + sm.take(i as int)).contains(n as u32),
        decreases src.len() - i,
    {
        let x = src[i];
        let ghost cur = prefix + sm.take(i as int);
        proof {
            assert(sm[i as int] == x.0);
            assert(prefix + sm.take(i + 1) =~= cur.push(x.0));
            assert((cur.push(x.0)).drop_last() =~= cur);
            lemma_dedup_contains(cur, x.0);
        }
        if !seen[x.0 as usize] {
            seen.set(x.0 as usize, true);
            out.push(x);
            proof {
                assert(node_ids_model(out@) =~= dedup_seq(cur).push(x.0));
            }
        }
        proof {
            assert forall|n: int| 0 <= n < seen@.len() implies #[trigger] seen@[n] == (prefix + sm.take(i + 1)).contains(n as u32) by {
                lemma_push_contains(cur, x.0, n as u32);
            }
        }
        i = i + 1;
    }
    proof {
        assert(sm.take(src.len() as int) =~= sm);
    }
}

/// The predecessor table of `bbs`, as `compute_pres` builds it.
pub open spec fn is_pred_table(bbs: Seq<crate::model::BlockModel>, pres: Seq<Vec<BbCid>>) -> bool {
    &&& pres.len() == bbs.len()
    &&& forall|t: int| 0 <= t < bbs.len() ==> cont_ids_model(#[trigger] pres[t]@) == preds(bbs, t)
}

/// For every block, the nodes visible at its end: its own nodes, then what
/// its earlier-numbered predecessors see, each once.
pub fn visible_sets(bbs: &[BasicBlock], pres: &[Vec<BbCid>], num_nodes: usize) -> (r: Vec<
    Vec<BbNid>,
>)
    requires
        listed_below(blocks_model(bbs@), num_nodes as int),
        num_nodes <= id_space(),
        is_pred_table(blocks_model(bbs@), pres@),
    ensures
        r@.len() == bbs.len(),
        forall|b: int| 0 <= b < bbs.len() ==> node_ids_model(#[trigger] r@[b]@) == visible(
            blocks_model(bbs@),
            b,
        ),
        forall|b: int, i: int| 0 <= b < r@.len() && 0 <= i < r@[b]@.len() ==> (#[trigger] r@[b]@[i].0 as int) < num_nodes,
{
    let ghost bm = blocks_model(bbs@);
    let mut vis: Vec<Vec<BbNid>> = Vec::new();
    let mut b: usize = 0;
    while b < bbs.len()
        invariant
            b <= bbs.len(),
            bm == blocks_model(bbs@),
            listed_below(bm, num_nodes as int),
            num_nodes <= id_space(),
            is_pred_table(bm, pres@),
            vis@.len() == b,
            forall|j: int| 0 <= j < b ==> node_ids_model(#[trigger] vis@[j]@) == visible_upto(bm, b as int)[j],
            forall|j: int, i: int| 0 <= j < b && 0 <= i < vis@[j]@.len() ==> (#[trigger] vis@[j]@[i].0 as int) < num_nodes,
        decreases bbs.len() - b,
    {
        let ghost vm = visible_upto(bm, b as int);
        proof { lemma_visible_upto_len(bm, b as int); }
        let mut seen = filled_bool(num_nodes, false);
        let mut out: Vec<BbNid> = Vec::new();
        let ids = &bbs[b].node_ids;
        let ghost im = bm[b as int].node_ids;
        proof {
            assert(node_ids_model(out@) =~= dedup_seq(Seq::<u32>::empty()));
            assert(Seq::<u32>::empty() + im =~= im);
            assert forall|i: int| 0 <= i < ids@.len() implies (#[trigger] ids@[i].0 as int) < seen@.len() by {
                assert(im[i] == ids@[i].0);
            }
        }
        extend_unseen(&mut out, &mut seen, ids.as_slice(), Ghost(Seq::<u32>::empty()));
        let ghost ps = preds(bm, b as int);
        let ps_b = &pres[b];
        let mut q: usize = 0;
        while q < ps_b.len()
            invariant
                b < bbs.len(),
                bm == blocks_model(bbs@),
                num_nodes <= id_space(),
                is_pred_table(bm, pres@),
                ps_b == &pres@[b as int],
                ps == cont_ids_model(ps_b@),
                im == bm[b as int].node_ids,
                vm == visible_upto(bm, b as int),
                vm.len() == b,
                vis@.len() == b,
                forall|j: int| 0 <= j < b ==> node_ids_model(#[trigger] vis@[j]@) == vm[j],
                forall|j: int, i: int| 0 <= j < b && 0 <= i < vis@[j]@.len() ==> (#[trigger] vis@[j]@[i].0 as int) < num_nodes,
                q <= ps_b.len(),
                seen@.len() == num_nodes,
                forall|i: int| 0 <= i < out@.len() ==> (#[trigger] out@[i].0 as int) < num_nodes,
                node_ids_model(out@) == dedup_seq(im + gather_visible(ps.take(q as int), vm)),
                forall|n: int| 0 <= n < seen@.len() ==> #[trigger] seen@[n] == (im + gather_visible(ps.take(q as int), vm)).contains(n as u32),
            decreases ps_b.len() - q,
        {
            let pre = ps_b[q];
            let ghost prefix = im + gather_visible(ps.take(q as int), vm);
            proof {
                assert(ps[q as int] == pre.0);
                assert(ps.take(q + 1).drop_last() =~= ps.take(q as int));
                assert(ps.take(q + 1).last() == pre.0);
            }
            if (pre.0 as usize) < b {
                let src = vis[pre.0 as usize].as_slice();
                proof {
                    assert(im + gather_visible(ps.take(q + 1), vm) =~= prefix + node_ids_model(src@));
                }
                extend_unseen(&mut out, &mut seen, src, Ghost(prefix));
            } else {
                proof {
                    assert(im + gather_visible(ps.take(q + 1), vm) =~= prefix);
                }
            }
            q = q + 1;
        }
        proof {
            assert(ps.take(ps_b.len() as int) =~= ps);
            assert(visible_upto(bm, b + 1) == vm.push(dedup_seq(im + gather_visible(ps, vm))));
        }
        vis.push(out);
        b = b + 1;
    }
    proof {
        assert forall|j: int| 0 <= j < bbs.len() implies node_ids_model(#[trigger] vis@[j]@) == visible(bm, j) by {
            lemma_visible_upto_prefix(bm, bbs.len() as int, j);
            lemma_visible_upto_prefix(bm, bbs.len() as int, j);
        }
    }
    vis
}

// (pass 1 lives after the argument helpers)

// ---------------------------------------------------------------------------
// Terminator arguments: read, append, set
// ---------------------------------------------------------------------------

/// The effect arguments of `t`.
pub fn term_eff_slice(t: &BBTerm) -> (r: &[(String, BbValue)])
    ensures
        effect_args_model(r@) == term_effect_args(t@),
{
    match t {
        BBTerm::Jump { effect_args, .. } => effect_args.as_slice(),
        BBTerm::Branch { effect_args, .. } => effect_args.as_slice(),
        BBTerm::Switch { effect_args, .. } => effect_args.as_slice(),
        BBTerm::Return { effect_args, .. } => effect_args.as_slice(),
    }
}

/// The ordinary arguments of `t`.
pub fn term_com_slice(t: &BBTerm) -> (r: &[BbValue])
    ensures
        values_model(r@) == term_common_args(t@),
{
    match t {
        BBTerm::Jump { common_args, .. } => common_args.as_slice(),
        BBTerm::Branch { common_args, .. } => common_args.as_slice(),
        BBTerm::Switch { common_args, .. } => common_args.as_slice(),
        BBTerm::Return { common_args, .. } => common_args.as_slice(),
    }
}

/// Mutable access to the effect arguments of `t`.
pub fn eff_args_mut(t: &mut BBTerm) -> (r: &mut Vec<(String, BbValue)>)
    ensures
        effect_args_model(r@) == term_effect_args(old(t)@),
        final(t)@ == with_effect_args(old(t)@, effect_args_model(final(r)@)),
{
    match t {
        BBTerm::Jump { effect_args, .. } => effect_args,
        BBTerm::Branch { effect_args, .. } => effect_args,
        BBTerm::Switch { effect_args, .. } => effect_args,
        BBTerm::Return { effect_args, .. } => effect_args,
    }
}

/// Mutable access to the ordinary arguments of `t`.
pub fn com_args_mut(t: &mut BBTerm) -> (r: &mut Vec<BbValue>)
    ensures
        values_model(r@) == term_common_args(old(t)@),
        final(t)@ == with_common_args(old(t)@, values_model(final(r)@)),
{
    match t {
        BBTerm::Jump { common_args, .. } => common_args,
        BBTerm::Branch { common_args, .. } => common_args,
        BBTerm::Switch { common_args, .. } => common_args,
        BBTerm::Return { common_args, .. } => common_args,
    }
}

/// Whether some argument in `args` passes node `n`.
pub fn args_pass_node(args: &[(String, BbValue)], n: BbNid) -> (r: bool)
    ensures
        r == arg_values(effect_args_model(args@)).contains(ValueModel::Node(n.0)),
{
    let ghost vals = arg_values(effect_args_model(args@));
    let mut i: usize = 0;
    while i < args.len()
        invariant
            i <= args.len(),
            vals == arg_values(effect_args_model(args@)),
            forall|j: int| 0 <= j < i ==> vals[j] != ValueModel::Node(n.0),
        decreases args.len() - i,
    {
        if let BbValue::Node(m) = &args[i].1 {
            if m.0 == n.0 {
                proof { assert(vals[i as int] == ValueModel::Node(n.0)); }
                return true;
            }
        }
        i = i + 1;
    }
    false
}

/// Whether `vs` contains a reference to node `n`.
pub fn values_pass_node(vs: &[BbValue], n: BbNid) -> (r: bool)
    ensures
        r == values_model(vs@).contains(ValueModel::Node(n.0)),
{
    let ghost vals = values_model(vs@);
    let mut i: usize = 0;
    while i < vs.len()
        invariant
            i <= vs.len(),
            vals == values_model(vs@),
            forall|j: int| 0 <= j < i ==> vals[j] != ValueModel::Node(n.0),
        decreases vs.len() - i,
    {
        if let BbValue::Node(m) = &vs[i] {
            if m.0 == n.0 {
                proof { assert(vals[i as int] == ValueModel::Node(n.0)); }
                return true;
            }
        }
        i = i + 1;
    }
    false
}

/// Passes node `nid` as an unnamed effect argument of `t`, unless `t`
/// already passes it.
pub fn push_eff(t: &mut BBTerm, nid: BbNid)
    ensures
        final(t)@ == with_effect_args(old(t)@, add_effect_ref(term_effect_args(old(t)@), nid.0)),
{
    let ea = eff_args_mut(t);
    if !args_pass_node(ea.as_slice(), nid) {
        ea.push((String::new(), BbValue::Node(nid)));
        proof {
            assert(effect_args_model(ea@) =~= term_effect_args(old(t)@).push(
                (Seq::<char>::empty(), ValueModel::Node(nid.0)),
            ));
        }
    }
}

/// Passes node `nid` as an ordinary argument of `t`, unless `t` already
/// passes it.
pub fn push_com(t: &mut BBTerm, nid: BbNid)
    ensures
        final(t)@ == with_common_args(old(t)@, add_common_ref(term_common_args(old(t)@), nid.0)),
{
    let ca = com_args_mut(t);
    if !values_pass_node(ca.as_slice(), nid) {
        ca.push(BbValue::Node(nid));
        proof {
            assert(values_model(ca@) =~= term_common_args(old(t)@).push(ValueModel::Node(nid.0)));
        }
    }
}

/// Replaces the effect arguments of `t` by `vals`, unnamed.
pub fn set_eff(t: &mut BBTerm, vals: &[BbValue])
    ensures
        final(t)@ == with_effect_args(old(t)@, unnamed(values_model(vals@))),
{
    let mut out: Vec<(String, BbValue)> = Vec::new();
    let mut i: usize = 0;
    while i < vals.len()
        invariant
            i <= vals.len(),
            out@.len() == i,
            forall|j: int| 0 <= j < i ==> (#[trigger] out@[j]).0@ == Seq::<char>::empty() && out@[j].1@ == vals@[j]@,
        decreases vals.len() - i,
    {
        out.push((String::new(), vals[i].clone()));
        i = i + 1;
    }
    proof {
        assert(effect_args_model(out@) =~= unnamed(values_model(vals@)));
    }
    *eff_args_mut(t) = out;
}

/// Replaces the ordinary arguments of `t` by `vals`.
pub fn set_com(t: &mut BBTerm, vals: Vec<BbValue>)
    ensures
        final(t)@ == with_common_args(old(t)@, values_model(vals@)),
{
    *com_args_mut(t) = vals;
}

// ---------------------------------------------------------------------------
// Pass 1: every block asks its predecessors for the values it uses
// ---------------------------------------------------------------------------

/// Whether the delivery of `inp` reaches block `p`: `p` is among `pres_b`
/// and sees `inp`.
pub open spec fn reaches(pres_b: Seq<BbCid>, visible: Seq<Vec<BbNid>>, p: int, inp: u32) -> bool {
    cont_ids_model(pres_b).contains(p as u32) && node_ids_model(visible[p]@).contains(inp)
}

/// Asks every block of `pres_b` that sees `inp` to pass it on.
fn deliver(
    acc: &mut Vec<BasicBlock>,
    pres_b: &[BbCid],
    visible: &[Vec<BbNid>],
    inp: BbNid,
    effect: bool,
    Ghost(base): Ghost<Seq<TermModel>>,
    Ghost(re): Ghost<Seq<Seq<u32>>>,
    Ghost(rc): Ghost<Seq<Seq<u32>>>,
)
    requires
        old(acc)@.len() == visible@.len(),
        base.len() == old(acc)@.len(),
        re.len() == old(acc)@.len(),
        rc.len() == old(acc)@.len(),
        old(acc)@.len() <= id_space(),
        forall|q: int| 0 <= q < pres_b@.len() ==> (#[trigger] pres_b@[q].0 as int) < old(acc)@.len(),
        forall|p: int| 0 <= p < old(acc)@.len() ==> (#[trigger] old(acc)@[p]).terminator@ == with_requests(base[p], re[p], rc[p]),
    ensures
        final(acc)@.len() == old(acc)@.len(),
        forall|p: int| 0 <= p < final(acc)@.len() ==> (#[trigger] final(acc)@[p]).node_ids == old(acc)@[p].node_ids,
        forall|p: int| 0 <= p < final(acc)@.len() ==> (#[trigger] final(acc)@[p]).terminator@ == with_requests(
            base[p],
            if effect && reaches(pres_b@, visible@, p, inp.0) { re[p].push(inp.0) } else { re[p] },
            if !effect && reaches(pres_b@, visible@, p, inp.0) { rc[p].push(inp.0) } else { rc[p] },
        ),
{
    let ghost pm = cont_ids_model(pres_b@);
    let mut q: usize = 0;
    while q < pres_b.len()
        invariant
            q <= pres_b.len(),
            pm == cont_ids_model(pres_b@),
            acc@.len() == old(acc)@.len(),
            acc@.len() == visible@.len(),
            acc@.len() <= id_space(),
            forall|j: int| 0 <= j < pres_b@.len() ==> (#[trigger] pres_b@[j].0 as int) < acc@.len(),
            forall|p: int| 0 <= p < acc@.len() ==> (#[trigger] acc@[p]).node_ids == old(acc)@[p].node_ids,
            forall|p: int| 0 <= p < acc@.len() ==> (#[trigger] acc@[p]).terminator@ == with_requests(
                base[p],
                if effect && pm.take(q as int).contains(p as u32) && node_ids_model(visible@[p]@).contains(inp.0) {
                    re[p].push(inp.0)
                } else {
                    re[p]
                },
                if !effect && pm.take(q as int).contains(p as u32) && node_ids_model(visible@[p]@).contains(inp.0) {
                    rc[p].push(inp.0)
                } else {
                    rc[p]
                },
            ),
        decreases pres_b.len() - q,
    {
        let pre = pres_b[q];
        let pi = pre.0 as usize;
        proof {
            assert(pm[q as int] == pre.0);
            assert(pm.take(q + 1) == pm.take(q as int).push(pre.0)) by {
                assert(pm.take(q + 1) =~= pm.take(q as int).push(pre.0));
            }
        }
        let ghost before = acc@;
        if contains_node(visible[pi].as_slice(), inp) {
            let ghost cur_re = if effect && pm.take(q as int).contains(pre.0) { re[pi as int].push(inp.0) } else { re[pi as int] };
            let ghost cur_rc = if !effect && pm.take(q as int).contains(pre.0) { rc[pi as int].push(inp.0) } else { rc[pi as int] };
            if effect {
                push_eff(&mut acc[pi].terminator, inp);
                proof {
                    lemma_request_effect(base[pi as int], cur_re, cur_rc, inp.0);
                    lemma_request_effect(base[pi as int], re[pi as int], cur_rc, inp.0);
                    assert(re[pi as int].push(inp.0).contains(inp.0)) by {
                        lemma_push_contains(re[pi as int], inp.0, inp.0);
                    }
                }
            } else {
                push_com(&mut acc[pi].terminator, inp);
                proof {
                    lemma_request_common(base[pi as int], cur_re, cur_rc, inp.0);
                    lemma_request_common(base[pi as int], cur_re, rc[pi as int], inp.0);
                    assert(rc[pi as int].push(inp.0).contains(inp.0)) by {
                        lemma_push_contains(rc[pi as int], inp.0, inp.0);
                    }
                }
            }
        }
        proof {
            assert forall|p: int| 0 <= p < acc@.len() implies (#[trigger] acc@[p]).terminator@ == with_requests(
                base[p],
                if effect && pm.take(q + 1).contains(p as u32) && node_ids_model(visible@[p]@).contains(inp.0) {
                    re[p].push(inp.0)
                } else {
                    re[p]
                },
                if !effect && pm.take(q + 1).contains(p as u32) && node_ids_model(visible@[p]@).contains(inp.0) {
                    rc[p].push(inp.0)
                } else {
                    rc[p]
                },
            ) by {
                lemma_push_contains(pm.take(q as int), pre.0, p as u32);
                if p != pi as int {
                    assert(acc@[p] == before[p]);
                }
            }
        }
        q = q + 1;
    }
    proof {
        assert(pm.take(pres_b@.len() as int) =~= pm);
    }
}

/// `home_block` never names a block past the end.
pub proof fn lemma_home_upto_range(bbs: Seq<BlockModel>, n: u32, k: int)
    requires
        0 <= k <= bbs.len(),
    ensures
        -1 <= home_upto(bbs, n, k) < k,
    decreases k,
{
    if k > 0 {
        lemma_home_upto_range(bbs, n, k - 1);
    }
}

/// Delivers, for each of `inputs` that block `b` does not define, the
/// input to the predecessors in `pres_b` that see it, and records `b` as
/// its latest use when `b` has a predecessor.
fn request_inputs(
    acc: &mut Vec<BasicBlock>,
    pres_b: &[BbCid],
    visible: &[Vec<BbNid>],
    homes: &[usize],
    last: &mut Vec<usize>,
    b: usize,
    inputs: &[BbNid],
    effect: bool,
    Ghost(bm): Ghost<Seq<BlockModel>>,
    Ghost(base): Ghost<Seq<TermModel>>,
    Ghost(re): Ghost<Seq<Seq<u32>>>,
    Ghost(rc): Ghost<Seq<Seq<u32>>>,
)
    requires
        old(acc)@.len() == visible@.len(),
        old(acc)@.len() == bm.len(),
        base.len() == old(acc)@.len(),
        re.len() == old(acc)@.len(),
        rc.len() == old(acc)@.len(),
        old(acc)@.len() <= id_space(),
        bm.len() <= usize::MAX,
        b < bm.len(),
        forall|q: int| 0 <= q < pres_b@.len() ==> (#[trigger] pres_b@[q].0 as int) < old(acc)@.len(),
        forall|p: int| 0 <= p < old(acc)@.len() ==> (#[trigger] old(acc)@[p]).terminator@ == with_requests(base[p], re[p], rc[p]),
        homes@.len() == old(last)@.len(),
        homes@.len() <= id_space(),
        forall|n: int| 0 <= n < homes@.len() ==> #[trigger] homes@[n] == block_slot(home_block(bm, n as u32)),
        forall|i: int| 0 <= i < inputs@.len() ==> (#[trigger] inputs@[i].0 as int) < homes@.len(),
    ensures
        final(acc)@.len() == old(acc)@.len(),
        forall|p: int| 0 <= p < final(acc)@.len() ==> (#[trigger] final(acc)@[p]).node_ids == old(acc)@[p].node_ids,
        forall|p: int| 0 <= p < final(acc)@.len() ==> (#[trigger] final(acc)@[p]).terminator@ == with_requests(
            base[p],
            if effect && cont_ids_model(pres_b@).contains(p as u32) {
                re[p] + visible_among(not_from(bm, node_ids_model(inputs@), b as int), node_ids_model(visible@[p]@))
            } else {
                re[p]
            },
            if !effect && cont_ids_model(pres_b@).contains(p as u32) {
                rc[p] + visible_among(not_from(bm, node_ids_model(inputs@), b as int), node_ids_model(visible@[p]@))
            } else {
                rc[p]
            },
        ),
        final(last)@.len() == old(last)@.len(),
        forall|n: int| 0 <= n < final(last)@.len() ==> #[trigger] final(last)@[n] == if pres_b@.len() > 0 && not_from(
            bm,
            node_ids_model(inputs@),
            b as int,
        ).contains(n as u32) {
            b
        } else {
            old(last)@[n]
        },
{
    let ghost im = node_ids_model(inputs@);
    let ghost pm = cont_ids_model(pres_b@);
    let mut x: usize = 0;
    while x < inputs.len()
        invariant
            x <= inputs.len(),
            im == node_ids_model(inputs@),
            pm == cont_ids_model(pres_b@),
            acc@.len() == old(acc)@.len(),
            acc@.len() == visible@.len(),
            acc@.len() == bm.len(),
            acc@.len() <= id_space(),
            bm.len() <= usize::MAX,
            b < bm.len(),
            base.len() == acc@.len(),
            forall|q: int| 0 <= q < pres_b@.len() ==> (#[trigger] pres_b@[q].0 as int) < acc@.len(),
            homes@.len() == last@.len(),
            homes@.len() <= id_space(),
            last@.len() == old(last)@.len(),
            forall|n: int| 0 <= n < homes@.len() ==> #[trigger] homes@[n] == block_slot(home_block(bm, n as u32)),
            forall|i: int| 0 <= i < inputs@.len() ==> (#[trigger] inputs@[i].0 as int) < homes@.len(),
            forall|p: int| 0 <= p < acc@.len() ==> (#[trigger] acc@[p]).node_ids == old(acc)@[p].node_ids,
            forall|p: int| 0 <= p < acc@.len() ==> (#[trigger] acc@[p]).terminator@ == with_requests(
                base[p],
                if effect && pm.contains(p as u32) {
                    re[p] + visible_among(not_from(bm, im.take(x as int), b as int), node_ids_model(visible@[p]@))
                } else {
                    re[p]
                },
                if !effect && pm.contains(p as u32) {
                    rc[p] + visible_among(not_from(bm, im.take(x as int), b as int), node_ids_model(visible@[p]@))
                } else {
                    rc[p]
                },
            ),
            forall|n: int| 0 <= n < last@.len() ==> #[trigger] last@[n] == if pres_b@.len() > 0 && not_from(
                bm,
                im.take(x as int),
                b as int,
            ).contains(n as u32) {
                b
            } else {
                old(last)@[n]
            },
        decreases inputs.len() - x,
    {
        let inp = inputs[x];
        let ghost prev = im.take(x as int);
        proof {
            assert(im[x as int] == inp.0);
            assert(im.take(x + 1).drop_last() =~= prev);
            assert(im.take(x + 1).last() == inp.0);
            lemma_home_upto_range(bm, inp.0, bm.len() as int);
        }
        if homes[inp.0 as usize] != b {
            let ghost re1 = Seq::new(acc@.len(), |p: int| if effect && pm.contains(p as u32) {
                re[p] + visible_among(not_from(bm, prev, b as int), node_ids_model(visible@[p]@))
            } else {
                re[p]
            });
            let ghost rc1 = Seq::new(acc@.len(), |p: int| if !effect && pm.contains(p as u32) {
                rc[p] + visible_among(not_from(bm, prev, b as int), node_ids_model(visible@[p]@))
            } else {
                rc[p]
            });
            deliver(acc, pres_b, visible, inp, effect, Ghost(base), Ghost(re1), Ghost(rc1));
            let ghost last_before = last@;
            if pres_b.len() > 0 {
                last.set(inp.0 as usize, b);
            }
            proof {
                assert(home_block(bm, inp.0) != b as int);
                assert(not_from(bm, im.take(x + 1), b as int) == not_from(bm, prev, b as int).push(inp.0));
                assert forall|p: int| 0 <= p < acc@.len() implies (#[trigger] acc@[p]).terminator@ == with_requests(
                    base[p],
                    if effect && pm.contains(p as u32) {
                        re[p] + visible_among(not_from(bm, im.take(x + 1), b as int), node_ids_model(visible@[p]@))
                    } else {
                        re[p]
                    },
                    if !effect && pm.contains(p as u32) {
                        rc[p] + visible_among(not_from(bm, im.take(x + 1), b as int), node_ids_model(visible@[p]@))
                    } else {
                        rc[p]
                    },
                ) by {
                    let vp = node_ids_model(visible@[p]@);
                    let nf = not_from(bm, prev, b as int);
                    assert(nf.push(inp.0).drop_last() =~= nf);
                    if vp.contains(inp.0) {
                        assert(visible_among(nf.push(inp.0), vp) == visible_among(nf, vp).push(inp.0));
                        assert(re[p] + visible_among(nf, vp).push(inp.0) =~= (re[p] + visible_among(nf, vp)).push(inp.0));
                        assert(rc[p] + visible_among(nf, vp).push(inp.0) =~= (rc[p] + visible_among(nf, vp)).push(inp.0));
                    } else {
                        assert(visible_among(nf.push(inp.0), vp) == visible_among(nf, vp));
                    }
                }
                assert forall|n: int| 0 <= n < last@.len() implies #[trigger] last@[n] == if pres_b@.len() > 0 && not_from(
                    bm,
                    im.take(x + 1),
                    b as int,
                ).contains(n as u32) {
                    b
                } else {
                    old(last)@[n]
                } by {
                    lemma_push_contains(not_from(bm, prev, b as int), inp.0, n as u32);
                    if n != inp.0 as int {
                        assert(last@[n] == last_before[n]);
                    }
                }
            }
        } else {
            proof {
                assert(home_block(bm, inp.0) == b as int);
                assert(not_from(bm, im.take(x + 1), b as int) == not_from(bm, prev, b as int));
            }
        }
        x = x + 1;
    }
    proof {
        assert(im.take(inputs@.len() as int) =~= im);
    }
}

/// What block `b` asks of block `p` on account of its first `k` nodes.
pub open spec fn requests_partial(
    bm: Seq<BlockModel>,
    nm: Seq<NodeModel>,
    p: int,
    b: int,
    effect: bool,
    k: int,
) -> Seq<u32> {
    if preds(bm, b).contains(p as u32) {
        visible_among(foreign_inputs_upto(bm, nm, b, effect, k), visible(bm, p))
    } else {
        seq![]
    }
}

/// The visible-set table `visible_sets` builds.
pub open spec fn is_visible_table(bm: Seq<BlockModel>, visible: Seq<Vec<BbNid>>) -> bool {
    &&& visible.len() == bm.len()
    &&& forall|b: int| 0 <= b < bm.len() ==> node_ids_model(#[trigger] visible[b]@) == crate::semantics::visible(bm, b)
}

/// The table of defining blocks `home_blocks` builds.
pub open spec fn is_home_table(bm: Seq<BlockModel>, homes: Seq<usize>) -> bool {
    forall|n: int| 0 <= n < homes.len() ==> #[trigger] homes[n] == block_slot(home_block(bm, n as u32))
}

/// The first pass: every block asks each predecessor that sees them for
/// the values and effect tokens it uses from other blocks, and every block
/// also passes on what it must carry to a block further on (a value some
/// block needs and no block on the way defines).  Returns the blocks with
/// the grown terminators, and for every node the last block that used it
/// as an effect input and as an ordinary input.
pub fn forward_requests(
    bbs: &[BasicBlock],
    nodes: &[BBNode],
    pres: &[Vec<BbCid>],
    visible: &[Vec<BbNid>],
    homes: &[usize],
) -> (r: (Vec<BasicBlock>, Vec<usize>, Vec<usize>))
    requires
        bbs.len() <= id_space(),
        nodes.len() <= id_space(),
        listed_below(blocks_model(bbs@), nodes.len() as int),
        inputs_below(blocks_model(bbs@), nodes_model(nodes@), nodes.len() as int),
        is_pred_table(blocks_model(bbs@), pres@),
        is_visible_table(blocks_model(bbs@), visible@),
        forall|t: int, i: int| 0 <= t < visible@.len() && 0 <= i < visible@[t]@.len() ==> (#[trigger] visible@[t]@[i].0 as int) < nodes.len(),
        forall|t: int| 0 <= t < bbs.len() ==> term_refs_below(#[trigger] bbs@[t].terminator@, nodes.len() as int),
        homes@.len() == nodes.len(),
        is_home_table(blocks_model(bbs@), homes@),
    ensures
        r.0@.len() == bbs.len(),
        forall|p: int| 0 <= p < bbs.len() ==> (#[trigger] r.0@[p]).node_ids@ == bbs@[p].node_ids@,
        forall|p: int| 0 <= p < bbs.len() ==> (#[trigger] r.0@[p]).terminator@ == pass1_terminator(
            blocks_model(bbs@),
            nodes_model(nodes@),
            p,
        ),
        r.1@.len() == nodes.len(),
        r.2@.len() == nodes.len(),
        forall|n: int| 0 <= n < nodes.len() ==> #[trigger] r.1@[n] == block_slot(
            last_use(blocks_model(bbs@), nodes_model(nodes@), n as u32, true),
        ),
        forall|n: int| 0 <= n < nodes.len() ==> #[trigger] r.2@[n] == block_slot(
            last_use(blocks_model(bbs@), nodes_model(nodes@), n as u32, false),
        ),
{
    let ghost bm = blocks_model(bbs@);
    let ghost nm = nodes_model(nodes@);
    let ghost base = Seq::new(bbs@.len(), |p: int| bm[p].terminator);
    let nb = bbs.len();
    let num_nodes = nodes.len();
    let mut acc: Vec<BasicBlock> = Vec::new();
    let mut c: usize = 0;
    while c < nb
        invariant
            c <= nb,
            nb == bbs.len(),
            acc@.len() == c,
            forall|p: int| 0 <= p < c ==> (#[trigger] acc@[p]).node_ids@ == bbs@[p].node_ids@,
            forall|p: int| 0 <= p < c ==> (#[trigger] acc@[p]).terminator@ == bbs@[p].terminator@,
        decreases nb - c,
    {
        acc.push(bbs[c].clone());
        c = c + 1;
    }
    proof {
        assert forall|p: int| 0 <= p < nb implies (#[trigger] acc@[p]).terminator@ == with_requests(
            base[p],
            requests_upto(bm, nm, p, true, 0),
            requests_upto(bm, nm, p, false, 0),
        ) by {
            let t = base[p];
            assert(crate::semantics::add_effect_refs(term_effect_args(t), seq![]) == term_effect_args(t));
            assert(crate::semantics::add_common_refs(term_common_args(t), seq![]) == term_common_args(t));
        }
    }
    let mut eff_last = filled_usize(num_nodes, usize::MAX);
    let mut com_last = filled_usize(num_nodes, usize::MAX);
    let mut b: usize = 0;
    while b < nb
        invariant
            b <= nb,
            nb == bbs.len(),
            num_nodes == nodes.len(),
            bm == blocks_model(bbs@),
            nm == nodes_model(nodes@),
            base == Seq::new(bbs@.len(), |p: int| bm[p].terminator),
            nb <= id_space(),
            num_nodes <= id_space(),
            listed_below(bm, num_nodes as int),
            inputs_below(bm, nm, num_nodes as int),
            is_pred_table(bm, pres@),
            is_visible_table(bm, visible@),
            homes@.len() == num_nodes,
            is_home_table(bm, homes@),
            acc@.len() == nb,
            forall|p: int| 0 <= p < nb ==> (#[trigger] acc@[p]).node_ids@ == bbs@[p].node_ids@,
            forall|p: int| 0 <= p < nb ==> (#[trigger] acc@[p]).terminator@ == with_requests(
                base[p],
                requests_upto(bm, nm, p, true, b as int),
                requests_upto(bm, nm, p, false, b as int),
            ),
            eff_last@.len() == num_nodes,
            com_last@.len() == num_nodes,
            forall|n: int| 0 <= n < num_nodes ==> #[trigger] eff_last@[n] == block_slot(
                last_use_upto(bm, nm, n as u32, true, b as int),
            ),
            forall|n: int| 0 <= n < num_nodes ==> #[trigger] com_last@[n] == block_slot(
                last_use_upto(bm, nm, n as u32, false, b as int),
            ),
        decreases nb - b,
    {
        let ids = &bbs[b].node_ids;
        let pres_b = pres[b].as_slice();
        let ghost im = bm[b as int].node_ids;
        let ghost ps = preds(bm, b as int);
        proof {
            lemma_preds_upto_range(bm, b as int, bm.len() as int);
            assert forall|q: int| 0 <= q < pres_b@.len() implies (#[trigger] pres_b@[q].0 as int) < acc@.len() by {
                assert(cont_ids_model(pres_b@)[q] == pres_b@[q].0);
            }
        }
        let mut k: usize = 0;
        while k < ids.len()
            invariant
                b < nb,
                nb == bbs.len(),
                num_nodes == nodes.len(),
                bm == blocks_model(bbs@),
                nm == nodes_model(nodes@),
                base == Seq::new(bbs@.len(), |p: int| bm[p].terminator),
                nb <= id_space(),
                num_nodes <= id_space(),
                listed_below(bm, num_nodes as int),
                inputs_below(bm, nm, num_nodes as int),
                is_pred_table(bm, pres@),
                is_visible_table(bm, visible@),
                homes@.len() == num_nodes,
                is_home_table(bm, homes@),
                ids == &bbs@[b as int].node_ids,
                im == bm[b as int].node_ids,
                im == node_ids_model(ids@),
                pres_b@ == pres@[b as int]@,
                ps == preds(bm, b as int),
                ps == cont_ids_model(pres_b@),
                forall|q: int| 0 <= q < pres_b@.len() ==> (#[trigger] pres_b@[q].0 as int) < nb,
                k <= ids.len(),
                acc@.len() == nb,
                forall|p: int| 0 <= p < nb ==> (#[trigger] acc@[p]).node_ids@ == bbs@[p].node_ids@,
                forall|p: int| 0 <= p < nb ==> (#[trigger] acc@[p]).terminator@ == with_requests(
                    base[p],
                    requests_upto(bm, nm, p, true, b as int) + requests_partial(bm, nm, p, b as int, true, k as int),
                    requests_upto(bm, nm, p, false, b as int) + requests_partial(bm, nm, p, b as int, false, k as int),
                ),
                eff_last@.len() == num_nodes,
                com_last@.len() == num_nodes,
                forall|n: int| 0 <= n < num_nodes ==> #[trigger] eff_last@[n] == if ps.len() > 0 && foreign_inputs_upto(bm, nm, b as int, true, k as int).contains(n as u32) {
                    b
                } else {
                    block_slot(last_use_upto(bm, nm, n as u32, true, b as int))
                },
                forall|n: int| 0 <= n < num_nodes ==> #[trigger] com_last@[n] == if ps.len() > 0 && foreign_inputs_upto(bm, nm, b as int, false, k as int).contains(n as u32) {
                    b
                } else {
                    block_slot(last_use_upto(bm, nm, n as u32, false, b as int))
                },
            decreases ids.len() - k,
        {
            let nid = ids[k];
            proof {
                assert(im[k as int] == nid.0);
                assert((nid.0 as int) < num_nodes);
            }
            let (effs, coms) = get_inputs(&nodes[nid.0 as usize]);
            let ghost node_m = nm[nid.0 as int];
            proof {
                assert(nodes@[nid.0 as int]@ == node_m);
                assert(node_ids_model(effs@) == inputs_of(node_m, true));
                assert(node_ids_model(coms@) == inputs_of(node_m, false));
                assert forall|i: int| 0 <= i < effs@.len() implies (#[trigger] effs@[i].0 as int) < homes@.len() by {
                    assert(node_ids_model(effs@)[i] == effs@[i].0);
                    assert(inputs_of(nm[im[k as int] as int], true)[i] == effs@[i].0);
                }
                assert forall|i: int| 0 <= i < coms@.len() implies (#[trigger] coms@[i].0 as int) < homes@.len() by {
                    assert(node_ids_model(coms@)[i] == coms@[i].0);
                    assert(inputs_of(nm[im[k as int] as int], false)[i] == coms@[i].0);
                }
            }
            let ghost re0 = Seq::new(nb as nat, |p: int| requests_upto(bm, nm, p, true, b as int) + requests_partial(bm, nm, p, b as int, true, k as int));
            let ghost rc0 = Seq::new(nb as nat, |p: int| requests_upto(bm, nm, p, false, b as int) + requests_partial(bm, nm, p, b as int, false, k as int));
            let ghost last_e0 = eff_last@;
            request_inputs(&mut acc, pres_b, visible, homes, &mut eff_last, b, effs.as_slice(), true, Ghost(bm), Ghost(base), Ghost(re0), Ghost(rc0));
            let ghost re1 = Seq::new(nb as nat, |p: int| if ps.contains(p as u32) {
                re0[p] + visible_among(not_from(bm, inputs_of(node_m, true), b as int), node_ids_model(visible@[p]@))
            } else {
                re0[p]
            });
            let ghost last_c0 = com_last@;
            request_inputs(&mut acc, pres_b, visible, homes, &mut com_last, b, coms.as_slice(), false, Ghost(bm), Ghost(base), Ghost(re1), Ghost(rc0));
            proof {
                assert(foreign_inputs_upto(bm, nm, b as int, true, k + 1) == foreign_inputs_upto(bm, nm, b as int, true, k as int) + not_from(bm, inputs_of(node_m, true), b as int));
                assert(foreign_inputs_upto(bm, nm, b as int, false, k + 1) == foreign_inputs_upto(bm, nm, b as int, false, k as int) + not_from(bm, inputs_of(node_m, false), b as int));
                assert forall|p: int| 0 <= p < nb implies (#[trigger] acc@[p]).terminator@ == with_requests(
                    base[p],
                    requests_upto(bm, nm, p, true, b as int) + requests_partial(bm, nm, p, b as int, true, k + 1),
                    requests_upto(bm, nm, p, false, b as int) + requests_partial(bm, nm, p, b as int, false, k + 1),
                ) by {
                    let vp = crate::semantics::visible(bm, p);
                    assert(node_ids_model(visible@[p]@) == vp);
                    lemma_visible_among_add(foreign_inputs_upto(bm, nm, b as int, true, k as int), not_from(bm, inputs_of(node_m, true), b as int), vp);
                    lemma_visible_among_add(foreign_inputs_upto(bm, nm, b as int, false, k as int), not_from(bm, inputs_of(node_m, false), b as int), vp);
                    if ps.contains(p as u32) {
                        assert(requests_upto(bm, nm, p, true, b as int) + requests_partial(bm, nm, p, b as int, true, k + 1) =~= re0[p] + visible_among(not_from(bm, inputs_of(node_m, true), b as int), vp));
                        assert(requests_upto(bm, nm, p, false, b as int) + requests_partial(bm, nm, p, b as int, false, k + 1) =~= rc0[p] + visible_among(not_from(bm, inputs_of(node_m, false), b as int), vp));
                    } else {
                        assert(requests_upto(bm, nm, p, true, b as int) + requests_partial(bm, nm, p, b as int, true, k + 1) =~= re0[p]);
                        assert(requests_upto(bm, nm, p, false, b as int) + requests_partial(bm, nm, p, b as int, false, k + 1) =~= rc0[p]);
                    }
                }
                assert forall|n: int| 0 <= n < num_nodes implies #[trigger] eff_last@[n] == if ps.len() > 0 && foreign_inputs_upto(bm, nm, b as int, true, k + 1).contains(n as u32) {
                    b
                } else {
                    block_slot(last_use_upto(bm, nm, n as u32, true, b as int))
                } by {
                    lemma_add_contains(foreign_inputs_upto(bm, nm, b as int, true, k as int), not_from(bm, inputs_of(node_m, true), b as int), n as u32);
                }
                assert forall|n: int| 0 <= n < num_nodes implies #[trigger] com_last@[n] == if ps.len() > 0 && foreign_inputs_upto(bm, nm, b as int, false, k + 1).contains(n as u32) {
                    b
                } else {
                    block_slot(last_use_upto(bm, nm, n as u32, false, b as int))
                } by {
                    lemma_add_contains(foreign_inputs_upto(bm, nm, b as int, false, k as int), not_from(bm, inputs_of(node_m, false), b as int), n as u32);
                }
            }
            k = k + 1;
        }
        proof {
            assert(im.len() == ids@.len());
            assert forall|p: int| 0 <= p < nb implies (#[trigger] acc@[p]).terminator@ == with_requests(
                base[p],
                requests_upto(bm, nm, p, true, b + 1),
                requests_upto(bm, nm, p, false, b + 1),
            ) by {
                assert(requests_partial(bm, nm, p, b as int, true, ids@.len() as int) == requests(bm, nm, p, b as int, true));
                assert(requests_partial(bm, nm, p, b as int, false, ids@.len() as int) == requests(bm, nm, p, b as int, false));
            }
        }
        b = b + 1;
    }
    // Every block also passes on what it must carry to blocks further on.
    let carry_e = crate::relay::carry_table(bbs, nodes, visible, homes, true);
    let carry_c = crate::relay::carry_table(bbs, nodes, visible, homes, false);
    let mut p: usize = 0;
    while p < nb
        invariant
            p <= nb,
            nb == bbs.len(),
            num_nodes == nodes.len(),
            num_nodes <= id_space(),
            bm == blocks_model(bbs@),
            nm == nodes_model(nodes@),
            base == Seq::new(bbs@.len(), |q: int| bm[q].terminator),
            acc@.len() == nb,
            carry_e@.len() == nb,
            carry_c@.len() == nb,
            forall|q: int| 0 <= q < nb ==> (#[trigger] carry_e@[q])@.len() == num_nodes,
            forall|q: int| 0 <= q < nb ==> (#[trigger] carry_c@[q])@.len() == num_nodes,
            forall|q: int, x: int| 0 <= q < nb && 0 <= x < num_nodes ==> #[trigger] carry_e@[q]@[x] == crate::carry::carries(bm, nm, q, x as u32, true),
            forall|q: int, x: int| 0 <= q < nb && 0 <= x < num_nodes ==> #[trigger] carry_c@[q]@[x] == crate::carry::carries(bm, nm, q, x as u32, false),
            forall|q: int| 0 <= q < nb ==> (#[trigger] acc@[q]).node_ids@ == bbs@[q].node_ids@,
            forall|q: int| 0 <= q < nb ==> (#[trigger] acc@[q]).terminator@ == with_requests(
                base[q],
                requests_upto(bm, nm, q, true, nb as int) + if q < p { crate::carry::carried_upto(bm, nm, q, true, num_nodes as int) } else { seq![] },
                requests_upto(bm, nm, q, false, nb as int) + if q < p { crate::carry::carried_upto(bm, nm, q, false, num_nodes as int) } else { seq![] },
            ),
        decreases nb - p,
    {
        proof {
            assert(requests_upto(bm, nm, p as int, true, nb as int) + crate::carry::carried_upto(bm, nm, p as int, true, 0) =~= requests_upto(bm, nm, p as int, true, nb as int) + seq![]);
            assert(requests_upto(bm, nm, p as int, false, nb as int) + crate::carry::carried_upto(bm, nm, p as int, false, 0) =~= requests_upto(bm, nm, p as int, false, nb as int) + seq![]);
        }
        let mut x: usize = 0;
        while x < num_nodes
            invariant
                x <= num_nodes,
                p < nb,
                nb == bbs.len(),
                num_nodes == nodes.len(),
                num_nodes <= id_space(),
                bm == blocks_model(bbs@),
                nm == nodes_model(nodes@),
                base == Seq::new(bbs@.len(), |q: int| bm[q].terminator),
                acc@.len() == nb,
                carry_e@.len() == nb,
                carry_c@.len() == nb,
                forall|q: int| 0 <= q < nb ==> (#[trigger] carry_e@[q])@.len() == num_nodes,
                forall|q: int| 0 <= q < nb ==> (#[trigger] carry_c@[q])@.len() == num_nodes,
                forall|q: int, y: int| 0 <= q < nb && 0 <= y < num_nodes ==> #[trigger] carry_e@[q]@[y] == crate::carry::carries(bm, nm, q, y as u32, true),
                forall|q: int, y: int| 0 <= q < nb && 0 <= y < num_nodes ==> #[trigger] carry_c@[q]@[y] == crate::carry::carries(bm, nm, q, y as u32, false),
                forall|q: int| 0 <= q < nb ==> (#[trigger] acc@[q]).node_ids@ == bbs@[q].node_ids@,
                forall|q: int| 0 <= q < nb && q != p ==> (#[trigger] acc@[q]).terminator@ == with_requests(
                    base[q],
                    requests_upto(bm, nm, q, true, nb as int) + if q < p { crate::carry::carried_upto(bm, nm, q, true, num_nodes as int) } else { seq![] },
                    requests_upto(bm, nm, q, false, nb as int) + if q < p { crate::carry::carried_upto(bm, nm, q, false, num_nodes as int) } else { seq![] },
                ),
                acc@[p as int].terminator@ == with_requests(
                    base[p as int],
                    requests_upto(bm, nm, p as int, true, nb as int) + crate::carry::carried_upto(bm, nm, p as int, true, x as int),
                    requests_upto(bm, nm, p as int, false, nb as int) + crate::carry::carried_upto(bm, nm, p as int, false, x as int),
                ),
            decreases num_nodes - x,
        {
            let ghost re = requests_upto(bm, nm, p as int, true, nb as int) + crate::carry::carried_upto(bm, nm, p as int, true, x as int);
            let ghost rc = requests_upto(bm, nm, p as int, false, nb as int) + crate::carry::carried_upto(bm, nm, p as int, false, x as int);
            let ghost before = acc@;
            let nid = BbNid(x as u32);
            if carry_e[p][x] {
                push_eff(&mut acc[p].terminator, nid);
                proof {
                    lemma_request_effect(base[p as int], re, rc, x as u32);
                }
            }
            let ghost re2 = if crate::carry::carries(bm, nm, p as int, x as u32, true) { re.push(x as u32) } else { re };
            proof {
                assert(acc@[p as int].terminator@ == with_requests(base[p as int], re2, rc));
            }
            if carry_c[p][x] {
                push_com(&mut acc[p].terminator, nid);
                proof {
                    lemma_request_common(base[p as int], re2, rc, x as u32);
                }
            }
            proof {
                assert(requests_upto(bm, nm, p as int, true, nb as int) + crate::carry::carried_upto(bm, nm, p as int, true, x + 1) =~= re2);
                let rc2 = if crate::carry::carries(bm, nm, p as int, x as u32, false) { rc.push(x as u32) } else { rc };
                assert(requests_upto(bm, nm, p as int, false, nb as int) + crate::carry::carried_upto(bm, nm, p as int, false, x + 1) =~= rc2);
                assert forall|q: int| 0 <= q < nb implies (#[trigger] acc@[q]).node_ids@ == bbs@[q].node_ids@ by {
                    if q != p as int {
                        assert(acc@[q] == before[q]);
                    }
                }
                assert forall|q: int| 0 <= q < nb && q != p ==> (#[trigger] acc@[q]).terminator@ == with_requests(
                    base[q],
                    requests_upto(bm, nm, q, true, nb as int) + if q < p { crate::carry::carried_upto(bm, nm, q, true, num_nodes as int) } else { seq![] },
                    requests_upto(bm, nm, q, false, nb as int) + if q < p { crate::carry::carried_upto(bm, nm, q, false, num_nodes as int) } else { seq![] },
                ) by {
                    if 0 <= q < nb && q != p {
                        assert(acc@[q] == before[q]);
                    }
                }
            }
            x = x + 1;
        }
        p = p + 1;
    }
    proof {
        assert forall|q: int| 0 <= q < nb implies (#[trigger] acc@[q]).terminator@ == pass1_terminator(bm, nm, q) by {
            assert(base[q] == bm[q].terminator);
        }
    }
    (acc, eff_last, com_last)
}

// ---------------------------------------------------------------------------
// Pass 2: propagate and prune
// ---------------------------------------------------------------------------

/// The terminators of a list of blocks.
pub open spec fn terms_model(bbs: Seq<BasicBlock>) -> Seq<TermModel> {
    bbs.map_values(|b: BasicBlock| b.terminator@)
}

/// Whether `vs` holds a value equal to `v`.
pub fn contains_value(vs: &[BbValue], v: &BbValue) -> (r: bool)
    ensures
        r == values_model(vs@).contains(v@),
{
    let ghost vm = values_model(vs@);
    let mut i: usize = 0;
    while i < vs.len()
        invariant
            i <= vs.len(),
            vm == values_model(vs@),
            forall|j: int| 0 <= j < i ==> vm[j] != v@,
        decreases vs.len() - i,
    {
        if crate::basicblock::values_equal(&vs[i], v) {
            proof { assert(vm[i as int] == v@); }
            return true;
        }
        i = i + 1;
    }
    false
}

/// The values of a list of effect arguments.
pub fn arg_values_of(args: &[(String, BbValue)]) -> (r: Vec<BbValue>)
    ensures
        values_model(r@) == arg_values(effect_args_model(args@)),
{
    let mut out: Vec<BbValue> = Vec::new();
    let mut i: usize = 0;
    while i < args.len()
        invariant
            i <= args.len(),
            out@.len() == i,
            forall|j: int| 0 <= j < i ==> (#[trigger] out@[j])@ == args@[j].1@,
        decreases args.len() - i,
    {
        out.push(args[i].1.clone());
        i = i + 1;
    }
    proof {
        assert(values_model(out@) =~= arg_values(effect_args_model(args@)));
    }
    out
}

/// Appends to `req` each of `more` it does not hold yet.
fn append_values_new(req: &mut Vec<BbValue>, more: &[BbValue])
    ensures
        values_model(final(req)@) == append_new(values_model(old(req)@), values_model(more@)),
{
    let ghost mm = values_model(more@);
    let ghost r0 = values_model(req@);
    let mut i: usize = 0;
    while i < more.len()
        invariant
            i <= more.len(),
            mm == values_model(more@),
            values_model(req@) == append_new(r0, mm.take(i as int)),
        decreases more.len() - i,
    {
        proof {
            assert(mm.take(i + 1).drop_last() =~= mm.take(i as int));
            assert(mm.take(i + 1).last() == more@[i as int]@);
        }
        if !contains_value(req.as_slice(), &more[i]) {
            req.push(more[i].clone());
            proof {
                assert(values_model(req@) =~= append_new(r0, mm.take(i as int)).push(more@[i as int]@));
            }
        }
        i = i + 1;
    }
    proof {
        assert(mm.take(more.len() as int) =~= mm);
    }
}

/// Whether `v` is still used after block `b` by the table of last uses.
pub fn is_live(v: &BbValue, ends: &[usize], b: usize) -> (r: bool)
    requires
        v@ is Node ==> (v@->Node_0 as int) < ends@.len(),
    ensures
        r == live_after(v@, ends@, b as int),
{
    match v {
        BbValue::Node(n) => {
            let e = ends[n.0 as usize];
            e != usize::MAX && e > b
        },
        _ => false,
    }
}

/// The values of `req` that are in `own` or still used after block `b`.
fn keep_live_values(req: &[BbValue], own: &[BbValue], ends: &[usize], b: usize) -> (r: Vec<BbValue>)
    requires
        forall|j: int| 0 <= j < req@.len() && (#[trigger] req@[j])@ is Node && !values_model(own@).contains(req@[j]@)
            ==> (req@[j]@->Node_0 as int) < ends@.len(),
    ensures
        values_model(r@) == keep_live(values_model(req@), values_model(own@), ends@, b as int),
{
    let ghost rm = values_model(req@);
    let ghost om = values_model(own@);
    let mut out: Vec<BbValue> = Vec::new();
    let mut i: usize = 0;
    while i < req.len()
        invariant
            i <= req.len(),
            rm == values_model(req@),
            om == values_model(own@),
            forall|j: int| 0 <= j < req@.len() && (#[trigger] req@[j])@ is Node && !om.contains(req@[j]@)
                ==> (req@[j]@->Node_0 as int) < ends@.len(),
            values_model(out@) == keep_live(rm.take(i as int), om, ends@, b as int),
        decreases req.len() - i,
    {
        proof {
            assert(rm.take(i + 1).drop_last() =~= rm.take(i as int));
            assert(rm.take(i + 1).last() == req@[i as int]@);
        }
        let keep = if contains_value(own, &req[i]) {
            true
        } else {
            is_live(&req[i], ends, b)
        };
        if keep {
            out.push(req[i].clone());
            proof {
                assert(values_model(out@) =~= keep_live(rm.take(i as int), om, ends@, b as int).push(req@[i as int]@));
            }
        }
        i = i + 1;
    }
    proof {
        assert(rm.take(req.len() as int) =~= rm);
    }
    out
}

/// Whether every inherited node reference that is not among a block's own
/// arguments has an entry in the table of last uses.
pub open spec fn inherited_in_table(own: Seq<ValueModel>, inherited: Seq<ValueModel>, len: int) -> bool {
    forall|j: int| 0 <= j < inherited.len() && (#[trigger] inherited[j]) is Node && !own.contains(inherited[j])
        ==> (inherited[j]->Node_0 as int) < len
}

/// Shared body of `propagate_com` and `propagate_eff`.
fn propagate_values(
    bbs: &[BasicBlock],
    pres_b: &[BbCid],
    own: &[BbValue],
    ends: &[usize],
    bb_id: usize,
    effect: bool,
) -> (r: Vec<BbValue>)
    requires
        forall|q: int| 0 <= q < pres_b@.len() ==> (#[trigger] pres_b@[q].0 as int) < bbs@.len(),
        inherited_in_table(
            values_model(own@),
            if effect {
                gather_effect(terms_model(bbs@), cont_ids_model(pres_b@))
            } else {
                gather_common(terms_model(bbs@), cont_ids_model(pres_b@))
            },
            ends@.len() as int,
        ),
    ensures
        values_model(r@) == keep_live(
            append_new(
                values_model(own@),
                if effect {
                    gather_effect(terms_model(bbs@), cont_ids_model(pres_b@))
                } else {
                    gather_common(terms_model(bbs@), cont_ids_model(pres_b@))
                },
            ),
            values_model(own@),
            ends@,
            bb_id as int,
        ),
{
    let ghost tm = terms_model(bbs@);
    let ghost pm = cont_ids_model(pres_b@);
    let ghost om = values_model(own@);
    let ghost gathered = if effect { gather_effect(tm, pm) } else { gather_common(tm, pm) };
    let mut req = crate::basicblock::clone_values(own);
    proof {
        assert(append_new(om, Seq::<ValueModel>::empty()) == om);
        assert(pm.take(0) =~= Seq::<u32>::empty());
    }
    let mut q: usize = 0;
    while q < pres_b.len()
        invariant
            q <= pres_b.len(),
            tm == terms_model(bbs@),
            pm == cont_ids_model(pres_b@),
            om == values_model(own@),
            forall|j: int| 0 <= j < pres_b@.len() ==> (#[trigger] pres_b@[j].0 as int) < bbs@.len(),
            values_model(req@) == append_new(
                om,
                if effect { gather_effect(tm, pm.take(q as int)) } else { gather_common(tm, pm.take(q as int)) },
            ),
        decreases pres_b.len() - q,
    {
        let pre = pres_b[q].0 as usize;
        proof {
            assert(pm[q as int] == pre as u32);
            assert(pm.take(q + 1) =~= pm.take(q as int).push(pre as u32));
            lemma_gather_common_push(tm, pm.take(q as int), pre as u32);
            assert(tm[pre as int] == bbs@[pre as int].terminator@);
        }
        if effect {
            let vals = arg_values_of(term_eff_slice(&bbs[pre].terminator));
            append_values_new(&mut req, vals.as_slice());
            proof {
                lemma_append_new_add(om, gather_effect(tm, pm.take(q as int)), arg_values(term_effect_args(tm[pre as int])));
            }
        } else {
            append_values_new(&mut req, term_com_slice(&bbs[pre].terminator));
            proof {
                lemma_append_new_add(om, gather_common(tm, pm.take(q as int)), term_common_args(tm[pre as int]));
            }
        }
        q = q + 1;
    }
    proof {
        assert(pm.take(pres_b.len() as int) =~= pm);
        assert forall|j: int| 0 <= j < req@.len() && (#[trigger] req@[j])@ is Node && !om.contains(req@[j]@)
            implies (req@[j]@->Node_0 as int) < ends@.len() by {
            let v = req@[j]@;
            assert(values_model(req@)[j] == v);
            lemma_append_new_contains(om, gathered, v);
            let k = choose|k: int| 0 <= k < gathered.len() && gathered[k] == v;
        }
    }
    keep_live_values(req.as_slice(), own, ends, bb_id)
}

/// The ordinary arguments block `bb_id` passes once it inherits those of
/// its predecessors: its own, then each new one that some predecessor
/// passes and a later block still uses.
pub fn propagate_com(bbs: &[BasicBlock], pres: &[Vec<BbCid>], end_map: &[usize], bb_id: usize) -> (r: Vec<BbValue>)
    requires
        bb_id < bbs.len(),
        bb_id < pres.len(),
        forall|q: int| 0 <= q < pres@[bb_id as int]@.len() ==> (#[trigger] pres@[bb_id as int]@[q].0 as int) < bbs@.len(),
        inherited_in_table(
            term_common_args(terms_model(bbs@)[bb_id as int]),
            gather_common(terms_model(bbs@), cont_ids_model(pres@[bb_id as int]@)),
            end_map@.len() as int,
        ),
    ensures
        values_model(r@) == propagate_common(terms_model(bbs@), cont_ids_model(pres@[bb_id as int]@), end_map@, bb_id as int),
{
    let own = term_com_slice(&bbs[bb_id].terminator);
    proof {
        assert(terms_model(bbs@)[bb_id as int] == bbs@[bb_id as int].terminator@);
    }
    propagate_values(bbs, pres[bb_id].as_slice(), own, end_map, bb_id, false)
}

/// The effect argument values block `bb_id` passes once it inherits those
/// of its predecessors: its own, then each new one that some predecessor
/// passes and a later block still uses.
pub fn propagate_eff(bbs: &[BasicBlock], pres: &[Vec<BbCid>], end_map: &[usize], bb_id: usize) -> (r: Vec<BbValue>)
    requires
        bb_id < bbs.len(),
        bb_id < pres.len(),
        forall|q: int| 0 <= q < pres@[bb_id as int]@.len() ==> (#[trigger] pres@[bb_id as int]@[q].0 as int) < bbs@.len(),
        inherited_in_table(
            arg_values(term_effect_args(terms_model(bbs@)[bb_id as int])),
            gather_effect(terms_model(bbs@), cont_ids_model(pres@[bb_id as int]@)),
            end_map@.len() as int,
        ),
    ensures
        values_model(r@) == propagate_effect(terms_model(bbs@), cont_ids_model(pres@[bb_id as int]@), end_map@, bb_id as int),
{
    let own = arg_values_of(term_eff_slice(&bbs[bb_id].terminator));
    proof {
        assert(terms_model(bbs@)[bb_id as int] == bbs@[bb_id as int].terminator@);
    }
    propagate_values(bbs, pres[bb_id].as_slice(), own.as_slice(), end_map, bb_id, true)
}

/// The second pass: block by block, in order, each terminator inherits
/// the arguments of its predecessors' terminators (as they stand by then)
/// and drops inherited ones that no later block uses.
pub fn prune_pass(
    acc: &mut Vec<BasicBlock>,
    pres: &[Vec<BbCid>],
    eff_end: &[usize],
    com_end: &[usize],
)
    requires
        pres@.len() == old(acc)@.len(),
        forall|t: int, q: int| 0 <= t < pres@.len() && 0 <= q < pres@[t]@.len() ==> (#[trigger] pres@[t]@[q].0 as int) < old(acc)@.len(),
        eff_end@.len() == com_end@.len(),
        args_below(terms_model(old(acc)@), eff_end@.len() as int),
    ensures
        final(acc)@.len() == old(acc)@.len(),
        forall|p: int| 0 <= p < final(acc)@.len() ==> (#[trigger] final(acc)@[p]).node_ids == old(acc)@[p].node_ids,
        terms_model(final(acc)@) == pass2_upto(
            terms_model(old(acc)@),
            Seq::new(pres@.len(), |t: int| cont_ids_model(pres@[t]@)),
            eff_end@,
            com_end@,
            old(acc)@.len() as int,
        ),
        args_below(terms_model(final(acc)@), eff_end@.len() as int),
{
    let ghost t0 = terms_model(acc@);
    let ghost pm = Seq::new(pres@.len(), |t: int| cont_ids_model(pres@[t]@));
    let ghost n = eff_end@.len() as int;
    let nb = acc.len();
    let mut b: usize = 0;
    while b < nb
        invariant
            b <= nb,
            nb == acc@.len(),
            acc@.len() == old(acc)@.len(),
            pres@.len() == nb,
            pm == Seq::new(pres@.len(), |t: int| cont_ids_model(pres@[t]@)),
            forall|t: int, q: int| 0 <= t < pres@.len() && 0 <= q < pres@[t]@.len() ==> (#[trigger] pres@[t]@[q].0 as int) < nb,
            eff_end@.len() == com_end@.len(),
            n == eff_end@.len(),
            forall|p: int| 0 <= p < acc@.len() ==> (#[trigger] acc@[p]).node_ids == old(acc)@[p].node_ids,
            terms_model(acc@) == pass2_upto(t0, pm, eff_end@, com_end@, b as int),
            args_below(terms_model(acc@), n),
        decreases nb - b,
    {
        let ghost tm = terms_model(acc@);
        let ghost ps = pm[b as int];
        proof {
            assert(ps == cont_ids_model(pres@[b as int]@));
            assert forall|q: int| 0 <= q < ps.len() implies (#[trigger] ps[q] as int) < tm.len() by {
                assert(ps[q] == pres@[b as int]@[q].0);
            }
            lemma_gather_below(tm, ps, n);
            assert(tm[b as int] == acc@[b as int].terminator@);
        }
        let eff = propagate_eff(acc.as_slice(), pres, eff_end, b);
        let com = propagate_com(acc.as_slice(), pres, com_end, b);
        proof {
            lemma_propagated_below(arg_values(term_effect_args(tm[b as int])), crate::semantics::gather_effect(tm, ps), eff_end@, b as int, n);
            lemma_propagated_below(term_common_args(tm[b as int]), crate::semantics::gather_common(tm, ps), com_end@, b as int, n);
        }
        let ghost before = acc@;
        set_eff(&mut acc[b].terminator, eff.as_slice());
        set_com(&mut acc[b].terminator, com);
        proof {
            let newt = with_common_args(
                with_effect_args(tm[b as int], unnamed(crate::semantics::propagate_effect(tm, ps, eff_end@, b as int))),
                crate::semantics::propagate_common(tm, ps, com_end@, b as int),
            );
            assert(acc@[b as int].terminator@ == newt);
            assert(terms_model(acc@) =~= tm.update(b as int, newt));
            lemma_with_args_accessors(tm[b as int], unnamed(crate::semantics::propagate_effect(tm, ps, eff_end@, b as int)), crate::semantics::propagate_common(tm, ps, com_end@, b as int));
            lemma_with_args_accessors(with_effect_args(tm[b as int], unnamed(crate::semantics::propagate_effect(tm, ps, eff_end@, b as int))), unnamed(crate::semantics::propagate_effect(tm, ps, eff_end@, b as int)), crate::semantics::propagate_common(tm, ps, com_end@, b as int));
            assert forall|p: int| 0 <= p < acc@.len() implies (#[trigger] acc@[p]).node_ids == old(acc)@[p].node_ids by {
                if p != b as int {
                    assert(acc@[p] == before[p]);
                }
            }
            assert(args_below(terms_model(acc@), n)) by {
                assert forall|p: int| 0 <= p < terms_model(acc@).len() implies {
                    &&& refs_below(term_common_args(#[trigger] terms_model(acc@)[p]), n)
                    &&& refs_below(arg_values(term_effect_args(terms_model(acc@)[p])), n)
                } by {
                    if p != b as int {
                        assert(terms_model(acc@)[p] == tm[p]);
                    }
                }
            }
        }
        b = b + 1;
    }
}

// ---------------------------------------------------------------------------
// Remap global node ids to local continuation indices
// ---------------------------------------------------------------------------

/// `v` with its node id looked up in the table `m`.
fn map_value(v: &BbValue, m: &[usize]) -> (r: FcValue)
    requires
        v@ is Node ==> (v@->Node_0 as int) < m@.len(),
    ensures
        r@ == remap_value(v@, m@),
{
    match v {
        BbValue::Node(n) => FcValue::Node(fid(#[verifier::truncate] (m[n.0 as usize] as u32))),
        BbValue::Const(c, t) => FcValue::Const(*c, t.clone()),
        BbValue::Param(i) => FcValue::Param(*i),
        BbValue::Effect(i) => FcValue::Effect(*i),
    }
}

/// Each of `vs` with its node id looked up in the table `m`.
fn map_values(vs: &[BbValue], m: &[usize]) -> (r: Vec<FcValue>)
    requires
        refs_below(values_model(vs@), m@.len() as int),
    ensures
        crate::flatcont::values_model(r@) == remap_values(values_model(vs@), m@),
{
    let mut out: Vec<FcValue> = Vec::new();
    let mut i: usize = 0;
    while i < vs.len()
        invariant
            i <= vs.len(),
            refs_below(values_model(vs@), m@.len() as int),
            out@.len() == i,
            forall|j: int| 0 <= j < i ==> (#[trigger] out@[j])@ == remap_value(vs@[j]@, m@),
        decreases vs.len() - i,
    {
        proof {
            assert(values_model(vs@)[i as int] == vs@[i as int]@);
        }
        out.push(map_value(&vs[i], m));
        i = i + 1;
    }
    proof {
        assert(crate::flatcont::values_model(out@) =~= remap_values(values_model(vs@), m@));
    }
    out
}

/// Each effect argument with its node id looked up in `m`; names kept.
fn map_args(args: &[(String, BbValue)], m: &[usize]) -> (r: Vec<(String, FcValue)>)
    requires
        refs_below(arg_values(effect_args_model(args@)), m@.len() as int),
    ensures
        crate::flatcont::effect_args_model(r@) == remap_args(effect_args_model(args@), m@),
{
    let mut out: Vec<(String, FcValue)> = Vec::new();
    let mut i: usize = 0;
    while i < args.len()
        invariant
            i <= args.len(),
            refs_below(arg_values(effect_args_model(args@)), m@.len() as int),
            out@.len() == i,
            forall|j: int| 0 <= j < i ==> (#[trigger] out@[j]).0@ == args@[j].0@ && out@[j].1@ == remap_value(args@[j].1@, m@),
        decreases args.len() - i,
    {
        proof {
            assert(arg_values(effect_args_model(args@))[i as int] == args@[i as int].1@);
        }
        out.push((args[i].0.clone(), map_value(&args[i].1, m)));
        i = i + 1;
    }
    proof {
        assert(crate::flatcont::effect_args_model(out@) =~= remap_args(effect_args_model(args@), m@));
    }
    out
}

/// Whether the `j`-th of a list of values that `refs_below` bounds is in range.
proof fn lemma_refs_below_at(vs: Seq<ValueModel>, n: int, j: int)
    requires
        refs_below(vs, n),
        0 <= j < vs.len(),
    ensures
        vs[j] is Node ==> (vs[j]->Node_0 as int) < n,
{
}

/// `node` with every operand looked up in the table `m` of local indices.
pub fn remap_node(node: &BBNode, m: &[usize]) -> (r: FCNode)
    requires
        !is_param_node(node@),
        node_refs_below(node@, table_size(m@)),
    ensures
        r@ == remap_node_model(node@, m@),
{
    let ghost n = table_size(m@);
    let ghost eo = effect_operands(node@);
    let ghost co = common_operands(node@);
    match node {
        BBNode::Const(v, t) => FCNode::Const(*v, t.clone()),
        BBNode::DataRef(d) => FCNode::DataRef(*d),
        BBNode::ExternRef(e) => FCNode::ExternRef(*e),
        BBNode::ContRef(c) => FCNode::ContRef(fcid(c.0)),
        BBNode::Load { data_type, effect_state, addr, signed } => {
            proof {
                lemma_refs_below_at(eo, n, 0);
                lemma_refs_below_at(co, n, 0);
            }
            FCNode::Load {
                data_type: data_type.clone(),
                effect_state: map_value(effect_state, m),
                addr: map_value(addr, m),
                signed: *signed,
            }
        },
        BBNode::Store { data_type, effect_state, addr, value } => {
            proof {
                lemma_refs_below_at(eo, n, 0);
                lemma_refs_below_at(co, n, 0);
                lemma_refs_below_at(co, n, 1);
            }
            FCNode::Store {
                data_type: data_type.clone(),
                effect_state: map_value(effect_state, m),
                addr: map_value(addr, m),
                value: map_value(value, m),
            }
        },
        BBNode::AtomicCAS { data_type, effect_state, addr, old, new } => {
            proof {
                lemma_refs_below_at(eo, n, 0);
                lemma_refs_below_at(co, n, 0);
                lemma_refs_below_at(co, n, 1);
                lemma_refs_below_at(co, n, 2);
            }
            FCNode::AtomicCAS {
                data_type: data_type.clone(),
                effect_state: map_value(effect_state, m),
                addr: map_value(addr, m),
                old: map_value(old, m),
                new: map_value(new, m),
            }
        },
        BBNode::AtomicRMW { data_type, effect_state, addr, value, operator } => {
            proof {
                lemma_refs_below_at(eo, n, 0);
                lemma_refs_below_at(co, n, 0);
                lemma_refs_below_at(co, n, 1);
            }
            FCNode::AtomicRMW {
                data_type: data_type.clone(),
                effect_state: map_value(effect_state, m),
                addr: map_value(addr, m),
                value: map_value(value, m),
                operator: *operator,
            }
        },
        BBNode::GEP(t, base, indices) => {
            proof {
                lemma_refs_below_split(seq![base@], values_model(crate::basicblock::gep_index_items(*indices)), n);
                lemma_refs_below_at(seq![base@], n, 0);
            }
            let ix = map_values(indices.as_slice(), m);
            FCNode::GEP(t.clone(), map_value(base, m), FcGepIndices::from_vec(ix))
        },
        BBNode::Select(c, t, f) => {
            proof {
                lemma_refs_below_at(co, n, 0);
                lemma_refs_below_at(co, n, 1);
                lemma_refs_below_at(co, n, 2);
            }
            FCNode::Select(map_value(c, m), map_value(t, m), map_value(f, m))
        },
        BBNode::Icmp(cond, a, b) => {
            proof {
                lemma_refs_below_at(co, n, 0);
                lemma_refs_below_at(co, n, 1);
            }
            FCNode::Icmp(*cond, map_value(a, m), map_value(b, m))
        },
        BBNode::Compute(op, operands) => {
            let ops = map_values(operands.as_slice(), m);
            FCNode::Compute(*op, FcOperands::from_vec(ops))
        },
        BBNode::Proj(v, k) => {
            proof {
                lemma_refs_below_at(co, n, 0);
            }
            FCNode::Proj(map_value(v, m), *k)
        },
        BBNode::TokenMerge(vs) => FCNode::TokenMerge(map_values(vs.as_slice(), m)),
        BBNode::Alloc(t) => FCNode::Alloc(t.clone()),
        BBNode::Call { target, effect_args, args } => {
            proof {
                lemma_refs_below_split(seq![target@], values_model(args@), n);
                lemma_refs_below_at(seq![target@], n, 0);
            }
            FCNode::Call {
                target: map_value(target, m),
                effect_args: map_args(effect_args.as_slice(), m),
                args: map_values(args.as_slice(), m),
            }
        },
        BBNode::Param(_) | BBNode::EffectParam(_) => {
            proof {
                assert(false);
            }
            FCNode::Alloc(RawType::Token)
        },
    }
}

/// Block ids as continuation ids.
fn map_targets(targets: &Vec<BbCid>) -> (r: Vec<FcCid>)
    ensures
        crate::flatcont::cont_ids_model(r@) == cont_ids_model(targets@),
{
    let mut out: Vec<FcCid> = Vec::new();
    let mut i: usize = 0;
    while i < targets.len()
        invariant
            i <= targets.len(),
            out@.len() == i,
            forall|j: int| 0 <= j < i ==> (#[trigger] out@[j]).0 == targets@[j].0,
        decreases targets.len() - i,
    {
        out.push(fcid(targets[i].0));
        i = i + 1;
    }
    proof {
        assert(crate::flatcont::cont_ids_model(out@) =~= cont_ids_model(targets@));
    }
    out
}

/// `term` with every argument, condition and case looked up in the table
/// `m` of local indices.
pub fn remap_term(term: &BBTerm, m: &[usize]) -> (r: FCTerm)
    requires
        term_refs_below(term@, m@.len() as int),
    ensures
        r@ == remap_term_model(term@, m@),
{
    let ghost n = m@.len() as int;
    match term {
        BBTerm::Jump { effect_args, common_args, target } => FCTerm::Jump {
            effect_args: map_args(effect_args.as_slice(), m),
            common_args: map_values(common_args.as_slice(), m),
            target: fcid(target.0),
        },
        BBTerm::Branch { effect_args, common_args, cond, then_target, else_target } => {
            proof {
                lemma_refs_below_at(seq![cond@], n, 0);
            }
            FCTerm::Branch {
                effect_args: map_args(effect_args.as_slice(), m),
                common_args: map_values(common_args.as_slice(), m),
                cond: map_value(cond, m),
                then_target: fcid(then_target.0),
                else_target: fcid(else_target.0),
            }
        },
        BBTerm::Switch { effect_args, common_args, case, targets } => {
            proof {
                lemma_refs_below_at(seq![case@], n, 0);
            }
            FCTerm::Switch {
                effect_args: map_args(effect_args.as_slice(), m),
                common_args: map_values(common_args.as_slice(), m),
                case: map_value(case, m),
                targets: map_targets(targets),
            }
        },
        BBTerm::Return { effect_args, common_args } => FCTerm::Return {
            effect_args: map_args(effect_args.as_slice(), m),
            common_args: map_values(common_args.as_slice(), m),
        },
    }
}

/// The type a node's value is taken to have when it arrives as a parameter.
pub fn infer_type(node: &BBNode) -> (r: RawType)
    ensures
        r@ == infer_type_model(node@),
{
    match node {
        BBNode::Const(_, t) => t.clone(),
        BBNode::Load { data_type, .. } => data_type.clone(),
        BBNode::Store { data_type, .. } => data_type.clone(),
        BBNode::AtomicCAS { data_type, .. } => data_type.clone(),
        BBNode::AtomicRMW { data_type, .. } => data_type.clone(),
        BBNode::GEP(t, ..) => t.clone(),
        BBNode::Icmp(..) => RawType::Scalar(1),
        BBNode::Select(..) => RawType::Scalar(1),
        BBNode::Compute(..) => RawType::Scalar(32),
        _ => RawType::Token,
    }
}

/// The name an effect parameter gets: always empty.
pub fn effect_name(_node: &BBNode) -> (r: String)
    ensures
        r@ == Seq::<char>::empty(),
{
    String::new()
}

// ---------------------------------------------------------------------------
// Per-block remapping: claim parameters, number locals, rewrite
// ---------------------------------------------------------------------------

/// The state of the claim scan after the claims `q`: `p` and `e` list the
/// ids first claimed as value and effect parameters, `seen` marks every id
/// claimed so far.
pub open spec fn claim_state(p: Seq<BbNid>, e: Seq<BbNid>, seen: Seq<bool>, q: Seq<(Slot, u32)>, n: int) -> bool {
    let pe = node_ids_model(p) + node_ids_model(e);
    &&& node_ids_model(p) == first_in_slot(q, Slot::Param)
    &&& node_ids_model(e) == first_in_slot(q, Slot::Effect)
    &&& seen.len() == n
    &&& n <= id_space()
    &&& forall|x: int| 0 <= x < n ==> #[trigger] seen[x] == claim_ids(q).contains(x as u32)
    &&& pe.no_duplicates()
    &&& forall|j: int| 0 <= j < pe.len() ==> (#[trigger] pe[j] as int) < n && seen[pe[j] as int]
}

/// The slot a block's own node takes.
pub fn slot_of_node(node: &BBNode) -> (r: Slot)
    ensures
        r == slot_of(node@),
{
    match node {
        BBNode::Param(_) => Slot::Param,
        BBNode::EffectParam(_) => Slot::Effect,
        _ => Slot::Body,
    }
}

/// Claims node `id` for `slot`, unless it is already claimed.
fn claim(
    p: &mut Vec<BbNid>,
    e: &mut Vec<BbNid>,
    seen: &mut Vec<bool>,
    id: BbNid,
    slot: Slot,
    Ghost(q): Ghost<Seq<(Slot, u32)>>,
    Ghost(n): Ghost<int>,
)
    requires
        claim_state(old(p)@, old(e)@, old(seen)@, q, n),
        (id.0 as int) < n,
    ensures
        claim_state(final(p)@, final(e)@, final(seen)@, q.push((slot, id.0)), n),
{
    proof {
        lemma_first_in_slot_push(q, (slot, id.0), Slot::Param);
        lemma_first_in_slot_push(q, (slot, id.0), Slot::Effect);
    }
    let ghost q2 = q.push((slot, id.0));
    let ghost pm0 = node_ids_model(p@);
    let ghost em0 = node_ids_model(e@);
    if !seen[id.0 as usize] {
        seen.set(id.0 as usize, true);
        proof {
            assert(!claim_ids(q).contains(id.0));
            assert(!(pm0 + em0).contains(id.0)) by {
                if (pm0 + em0).contains(id.0) {
                    let j = choose|j: int| 0 <= j < (pm0 + em0).len() && (pm0 + em0)[j] == id.0;
                }
            }
        }
        match slot {
            Slot::Param => {
                p.push(id);
                proof {
                    assert(node_ids_model(p@) =~= pm0.push(id.0));
                    let pe = pm0.push(id.0) + em0;
                    assert forall|i: int, j: int| 0 <= i < pe.len() && 0 <= j < pe.len() && i != j implies pe[i] != pe[j] by {
                        if i == pm0.len() as int {
                            if j < pm0.len() { assert(pe[j] == (pm0 + em0)[j]); } else { assert(pe[j] == (pm0 + em0)[j - 1]); }
                        } else if j == pm0.len() as int {
                            if i < pm0.len() { assert(pe[i] == (pm0 + em0)[i]); } else { assert(pe[i] == (pm0 + em0)[i - 1]); }
                        } else {
                            let i2 = if i < pm0.len() { i } else { i - 1 };
                            let j2 = if j < pm0.len() { j } else { j - 1 };
                            assert(pe[i] == (pm0 + em0)[i2]);
                            assert(pe[j] == (pm0 + em0)[j2]);
                        }
                    }
                    assert forall|j: int| 0 <= j < pe.len() implies (#[trigger] pe[j] as int) < n && seen@[pe[j] as int] by {
                        if j != pm0.len() as int {
                            let j2 = if j < pm0.len() { j } else { j - 1 };
                            assert(pe[j] == (pm0 + em0)[j2]);
                        }
                    }
                }
            },
            Slot::Effect => {
                e.push(id);
                proof {
                    assert(node_ids_model(e@) =~= em0.push(id.0));
                    let pe = pm0 + em0.push(id.0);
                    assert(pe =~= (pm0 + em0).push(id.0));
                    assert forall|i: int, j: int| 0 <= i < pe.len() && 0 <= j < pe.len() && i != j implies pe[i] != pe[j] by {
                        if i == (pm0 + em0).len() as int {
                            assert(pe[j] == (pm0 + em0)[j]);
                        } else if j == (pm0 + em0).len() as int {
                            assert(pe[i] == (pm0 + em0)[i]);
                        } else {
                            assert(pe[i] == (pm0 + em0)[i]);
                            assert(pe[j] == (pm0 + em0)[j]);
                        }
                    }
                    assert forall|j: int| 0 <= j < pe.len() implies (#[trigger] pe[j] as int) < n && seen@[pe[j] as int] by {
                        if j < (pm0 + em0).len() {
                            assert(pe[j] == (pm0 + em0)[j]);
                        }
                    }
                }
            },
            Slot::Body => {
                proof {
                    let pe = pm0 + em0;
                    assert forall|j: int| 0 <= j < pe.len() implies (#[trigger] pe[j] as int) < n && seen@[pe[j] as int] by {
                    }
                }
            },
        }
        proof {
            assert forall|x: int| 0 <= x < n implies #[trigger] seen@[x] == claim_ids(q2).contains(x as u32) by {
                lemma_push_contains(claim_ids(q), id.0, x as u32);
            }
        }
    } else {
        proof {
            assert(claim_ids(q).contains(id.0));
            assert forall|x: int| 0 <= x < n implies #[trigger] seen@[x] == claim_ids(q2).contains(x as u32) by {
                lemma_push_contains(claim_ids(q), id.0, x as u32);
            }
        }
    }
}

/// Claims, for `slot`, each of `ids` that `local` does not hold.
fn claim_outside(
    p: &mut Vec<BbNid>,
    e: &mut Vec<BbNid>,
    seen: &mut Vec<bool>,
    ids: &[BbNid],
    local: &[BbNid],
    slot: Slot,
    Ghost(q): Ghost<Seq<(Slot, u32)>>,
    Ghost(n): Ghost<int>,
)
    requires
        claim_state(old(p)@, old(e)@, old(seen)@, q, n),
        forall|j: int| 0 <= j < ids@.len() ==> (#[trigger] ids@[j].0 as int) < n,
    ensures
        claim_state(
            final(p)@,
            final(e)@,
            final(seen)@,
            q + tagged(outside(node_ids_model(ids@), node_ids_model(local@)), slot),
            n,
        ),
{
    let ghost im = node_ids_model(ids@);
    let ghost lm = node_ids_model(local@);
    proof {
        assert(q + tagged(outside(im.take(0), lm), slot) =~= q);
    }
    let mut x: usize = 0;
    while x < ids.len()
        invariant
            x <= ids.len(),
            im == node_ids_model(ids@),
            lm == node_ids_model(local@),
            forall|j: int| 0 <= j < ids@.len() ==> (#[trigger] ids@[j].0 as int) < n,
            claim_state(p@, e@, seen@, q + tagged(outside(im.take(x as int), lm), slot), n),
        decreases ids.len() - x,
    {
        let id = ids[x];
        let ghost cur = q + tagged(outside(im.take(x as int), lm), slot);
        proof {
            assert(im[x as int] == id.0);
            assert(im.take(x + 1) =~= im.take(x as int).push(id.0));
            lemma_outside_push(im.take(x as int), id.0, lm);
            lemma_tagged_push(outside(im.take(x as int), lm), id.0, slot);
        }
        if !contains_node(local, id) {
            claim(p, e, seen, id, slot, Ghost(cur), Ghost(n));
            proof {
                assert(q + tagged(outside(im.take(x + 1), lm), slot) =~= cur.push((slot, id.0)));
            }
        } else {
            proof {
                assert(q + tagged(outside(im.take(x + 1), lm), slot) =~= cur);
            }
        }
        x = x + 1;
    }
    proof {
        assert(im.take(ids.len() as int) =~= im);
    }
}

/// Claims, for `slot`, each node among `vals` that `local` does not hold.
fn claim_value_refs(
    p: &mut Vec<BbNid>,
    e: &mut Vec<BbNid>,
    seen: &mut Vec<bool>,
    vals: &[BbValue],
    local: &[BbNid],
    slot: Slot,
    Ghost(q): Ghost<Seq<(Slot, u32)>>,
    Ghost(n): Ghost<int>,
)
    requires
        claim_state(old(p)@, old(e)@, old(seen)@, q, n),
        refs_below(values_model(vals@), n),
    ensures
        claim_state(
            final(p)@,
            final(e)@,
            final(seen)@,
            q + tagged(outside(node_refs(values_model(vals@)), node_ids_model(local@)), slot),
            n,
        ),
{
    let ghost vm = values_model(vals@);
    let ghost lm = node_ids_model(local@);
    proof {
        assert(vm.take(0) =~= Seq::<ValueModel>::empty());
        assert(q + tagged(outside(node_refs(vm.take(0)), lm), slot) =~= q);
    }
    let mut x: usize = 0;
    while x < vals.len()
        invariant
            x <= vals.len(),
            vm == values_model(vals@),
            lm == node_ids_model(local@),
            refs_below(vm, n),
            claim_state(p@, e@, seen@, q + tagged(outside(node_refs(vm.take(x as int)), lm), slot), n),
        decreases vals.len() - x,
    {
        let ghost cur = q + tagged(outside(node_refs(vm.take(x as int)), lm), slot);
        proof {
            assert(vm[x as int] == vals@[x as int]@);
            assert(vm.take(x + 1) =~= vm.take(x as int).push(vm[x as int]));
            lemma_node_refs_push(vm.take(x as int), vm[x as int]);
        }
        if let BbValue::Node(id) = &vals[x] {
            let id = *id;
            proof {
                lemma_outside_push(node_refs(vm.take(x as int)), id.0, lm);
                lemma_tagged_push(outside(node_refs(vm.take(x as int)), lm), id.0, slot);
            }
            if !contains_node(local, id) {
                claim(p, e, seen, id, slot, Ghost(cur), Ghost(n));
                proof {
                    assert(q + tagged(outside(node_refs(vm.take(x + 1)), lm), slot) =~= cur.push((slot, id.0)));
                }
            } else {
                proof {
                    assert(q + tagged(outside(node_refs(vm.take(x + 1)), lm), slot) =~= cur);
                }
            }
        } else {
            proof {
                assert(q + tagged(outside(node_refs(vm.take(x + 1)), lm), slot) =~= cur);
            }
        }
        x = x + 1;
    }
    proof {
        assert(vm.take(vals.len() as int) =~= vm);
    }
}

/// Claims each of a block's own nodes for the slot its kind takes.
fn claim_own(
    p: &mut Vec<BbNid>,
    e: &mut Vec<BbNid>,
    seen: &mut Vec<bool>,
    ids: &[BbNid],
    g_nodes: &[BBNode],
    Ghost(q): Ghost<Seq<(Slot, u32)>>,
    Ghost(n): Ghost<int>,
)
    requires
        claim_state(old(p)@, old(e)@, old(seen)@, q, n),
        n == g_nodes@.len(),
        forall|j: int| 0 <= j < ids@.len() ==> (#[trigger] ids@[j].0 as int) < n,
    ensures
        claim_state(
            final(p)@,
            final(e)@,
            final(seen)@,
            q + own_claims(nodes_model(g_nodes@), node_ids_model(ids@)),
            n,
        ),
{
    let ghost im = node_ids_model(ids@);
    let ghost nm = nodes_model(g_nodes@);
    proof {
        assert(q + own_claims(nm, im.take(0)) =~= q);
    }
    let mut x: usize = 0;
    while x < ids.len()
        invariant
            x <= ids.len(),
            im == node_ids_model(ids@),
            nm == nodes_model(g_nodes@),
            n == g_nodes@.len(),
            forall|j: int| 0 <= j < ids@.len() ==> (#[trigger] ids@[j].0 as int) < n,
            claim_state(p@, e@, seen@, q + own_claims(nm, im.take(x as int)), n),
        decreases ids.len() - x,
    {
        let id = ids[x];
        let ghost cur = q + own_claims(nm, im.take(x as int));
        proof {
            assert(im[x as int] == id.0);
        }
        let slot = slot_of_node(&g_nodes[id.0 as usize]);
        claim(p, e, seen, id, slot, Ghost(cur), Ghost(n));
        proof {
            assert(nm[id.0 as int] == g_nodes@[id.0 as int]@);
            assert(q + own_claims(nm, im.take(x + 1)) =~= cur.push((slot, id.0)));
        }
        x = x + 1;
    }
    proof {
        assert(im.take(ids.len() as int) =~= im);
    }
}

/// Whether `node` is a block parameter.
pub fn is_param_like(node: &BBNode) -> (r: bool)
    ensures
        r == is_param_node(node@),
{
    match node {
        BBNode::Param(_) => true,
        BBNode::EffectParam(_) => true,
        _ => false,
    }
}

/// The selector of `t`: its condition or case, if it has one.
pub fn selector_of(t: &BBTerm) -> (r: Vec<BbValue>)
    ensures
        values_model(r@) == selector_values(t@),
{
    match t {
        BBTerm::Branch { cond, .. } => {
            let r = vec![cond.clone()];
            proof { assert(values_model(r@) =~= selector_values(t@)); }
            r
        },
        BBTerm::Switch { case, .. } => {
            let r = vec![case.clone()];
            proof { assert(values_model(r@) =~= selector_values(t@)); }
            r
        },
        _ => {
            let r: Vec<BbValue> = Vec::new();
            proof { assert(values_model(r@) =~= selector_values(t@)); }
            r
        },
    }
}

/// What `remap_cont` needs of a block: its ids, and every node id its
/// nodes and terminator mention, are in the pool, and the pool and the block
/// together fit the address space.
pub open spec fn block_in_range(nm: Seq<NodeModel>, blk: BlockModel) -> bool {
    &&& nm.len() <= id_space()
    &&& nm.len() + blk.node_ids.len() <= usize::MAX
    &&& forall|j: int| 0 <= j < blk.node_ids.len() ==> (#[trigger] blk.node_ids[j] as int) < nm.len()
    &&& forall|j: int| 0 <= j < blk.node_ids.len() ==> node_refs_below(nm[#[trigger] blk.node_ids[j] as int], nm.len() as int)
    &&& crate::semantics::term_refs_below(blk.terminator, nm.len() as int)
}

/// The continuation of one block: its foreign inputs, terminator arguments,
/// selector and own parameter nodes become value and effect parameters
/// (each once, at its first claim), its other nodes the body, and every
/// node id is renumbered to its local index.
pub fn remap_cont(bb: &BasicBlock, g_nodes: &[BBNode]) -> (r: FlatContinuation)
    requires
        block_in_range(nodes_model(g_nodes@), bb@),
    ensures
        r@ == remap_block(nodes_model(g_nodes@), bb@),
{
    let ghost nm = nodes_model(g_nodes@);
    let ghost blk = bb@;
    let n = g_nodes.len();
    let ids = bb.node_ids.as_slice();
    let ghost im = node_ids_model(ids@);
    let ghost ni = n as int;
    proof {
        assert(im == blk.node_ids);
        assert forall|j: int| 0 <= j < ids@.len() implies (#[trigger] ids@[j].0 as int) < ni by {
            assert(im[j] == ids@[j].0);
        }
    }
    let mut p: Vec<BbNid> = Vec::new();
    let mut e: Vec<BbNid> = Vec::new();
    let mut seen = filled_bool(n, false);
    proof {
        let q0 = Seq::<(Slot, u32)>::empty();
        assert(node_ids_model(p@) =~= first_in_slot(q0, Slot::Param));
        assert(node_ids_model(e@) =~= first_in_slot(q0, Slot::Effect));
        assert(claim_ids(q0) =~= Seq::<u32>::empty());
        assert(node_ids_model(p@) + node_ids_model(e@) =~= Seq::<u32>::empty());
        assert(input_claims_upto(nm, blk, 0) == q0);
    }
    let mut k: usize = 0;
    while k < ids.len()
        invariant
            k <= ids.len(),
            nm == nodes_model(g_nodes@),
            blk == bb@,
            im == node_ids_model(ids@),
            im == blk.node_ids,
            ids@ == bb.node_ids@,
            ni == n,
            n == g_nodes@.len(),
            block_in_range(nm, blk),
            forall|j: int| 0 <= j < ids@.len() ==> (#[trigger] ids@[j].0 as int) < ni,
            claim_state(p@, e@, seen@, input_claims_upto(nm, blk, k as int), ni),
        decreases ids.len() - k,
    {
        let nid = ids[k];
        let ghost node_m = nm[nid.0 as int];
        proof {
            assert(im[k as int] == nid.0);
            assert(node_refs_below(node_m, ni));
            lemma_inputs_below(node_m, ni, true);
            lemma_inputs_below(node_m, ni, false);
            assert(g_nodes@[nid.0 as int]@ == node_m);
        }
        let (effs, coms) = get_inputs(&g_nodes[nid.0 as usize]);
        let ghost q = input_claims_upto(nm, blk, k as int);
        proof {
            assert forall|j: int| 0 <= j < coms@.len() implies (#[trigger] coms@[j].0 as int) < ni by {
                assert(node_ids_model(coms@)[j] == coms@[j].0);
                assert(crate::semantics::inputs_of(node_m, false)[j] == coms@[j].0);
            }
            assert forall|j: int| 0 <= j < effs@.len() implies (#[trigger] effs@[j].0 as int) < ni by {
                assert(node_ids_model(effs@)[j] == effs@[j].0);
                assert(crate::semantics::inputs_of(node_m, true)[j] == effs@[j].0);
            }
        }
        claim_outside(&mut p, &mut e, &mut seen, coms.as_slice(), ids, Slot::Param, Ghost(q), Ghost(ni));
        let ghost q1 = q + tagged(outside(node_ids_model(coms@), im), Slot::Param);
        claim_outside(&mut p, &mut e, &mut seen, effs.as_slice(), ids, Slot::Effect, Ghost(q1), Ghost(ni));
        proof {
            assert(input_claims_upto(nm, blk, k + 1) == q1 + tagged(outside(node_ids_model(effs@), im), Slot::Effect));
        }
        k = k + 1;
    }
    let ghost q_in = input_claims_upto(nm, blk, ids@.len() as int);
    proof {
        assert(ids@.len() == blk.node_ids.len());
    }
    let com_vals = term_com_slice(&bb.terminator);
    claim_value_refs(&mut p, &mut e, &mut seen, com_vals, ids, Slot::Param, Ghost(q_in), Ghost(ni));
    let ghost q_c = q_in + tagged(outside(node_refs(term_common_args(blk.terminator)), im), Slot::Param);
    let eff_vals = arg_values_of(term_eff_slice(&bb.terminator));
    claim_value_refs(&mut p, &mut e, &mut seen, eff_vals.as_slice(), ids, Slot::Effect, Ghost(q_c), Ghost(ni));
    let ghost q_e = q_c + tagged(outside(node_refs(arg_values(term_effect_args(blk.terminator))), im), Slot::Effect);
    let sel = selector_of(&bb.terminator);
    proof {
        assert(term_refs_below(blk.terminator, ni));
    }
    claim_value_refs(&mut p, &mut e, &mut seen, sel.as_slice(), ids, Slot::Param, Ghost(q_e), Ghost(ni));
    let ghost q_s = q_e + tagged(outside(node_refs(selector_values(blk.terminator)), im), Slot::Param);
    claim_own(&mut p, &mut e, &mut seen, ids, g_nodes, Ghost(q_s), Ghost(ni));
    let ghost pm = node_ids_model(p@);
    let ghost em = node_ids_model(e@);
    let ghost bodym = body_ids(nm, im);
    proof {
        assert(q_s + own_claims(nm, im) == slot_claims(nm, blk));
        assert(pm == param_ids(nm, blk));
        assert(em == effect_ids(nm, blk));
        lemma_distinct_below_len(pm + em, ni);
        assert forall|j: int| 0 <= j < p@.len() implies (#[trigger] p@[j].0 as int) < ni by {
            assert(pm[j] == p@[j].0);
            assert((pm + em)[j] == pm[j]);
        }
        assert forall|j: int| 0 <= j < e@.len() implies (#[trigger] e@[j].0 as int) < ni by {
            assert(em[j] == e@[j].0);
            assert((pm + em)[pm.len() + j] == em[j]);
        }
    }
    let np = p.len();
    let ne = e.len();
    let body_off = np + ne;
    let mut loc = filled_usize(n, usize::MAX);
    let mut i: usize = 0;
    while i < np
        invariant
            i <= np,
            np == p@.len(),
            pm == node_ids_model(p@),
            ni == n,
            ni <= id_space(),
            loc@.len() == n,
            forall|j: int| 0 <= j < p@.len() ==> (#[trigger] p@[j].0 as int) < ni,
            forall|x: int| 0 <= x < n ==> #[trigger] loc@[x] == if last_pos(pm, i - 1, x as u32) >= 0 {
                last_pos(pm, i - 1, x as u32) as usize
            } else {
                usize::MAX
            },
        decreases np - i,
    {
        let id = p[i];
        proof { assert(pm[i as int] == id.0); }
        loc.set(id.0 as usize, i);
        i = i + 1;
    }
    let mut i: usize = 0;
    while i < ne
        invariant
            i <= ne,
            np == p@.len(),
            ne == e@.len(),
            body_off == np + ne,
            pm == node_ids_model(p@),
            em == node_ids_model(e@),
            ni == n,
            ni <= id_space(),
            loc@.len() == n,
            forall|j: int| 0 <= j < e@.len() ==> (#[trigger] e@[j].0 as int) < ni,
            forall|x: int| 0 <= x < n ==> #[trigger] loc@[x] == if last_pos(em, i - 1, x as u32) >= 0 {
                (np + last_pos(em, i - 1, x as u32)) as usize
            } else if last_pos(pm, np - 1, x as u32) >= 0 {
                last_pos(pm, np - 1, x as u32) as usize
            } else {
                usize::MAX
            },
        decreases ne - i,
    {
        let id = e[i];
        proof { assert(em[i as int] == id.0); }
        loc.set(id.0 as usize, np + i);
        i = i + 1;
    }
    proof {
        assert(loc@ =~= local_table(ni, pm, em, bodym, -1));
    }
    let mut body: Vec<FCNode> = Vec::new();
    let mut i: usize = 0;
    while i < ids.len()
        invariant
            i <= ids.len(),
            nm == nodes_model(g_nodes@),
            blk == bb@,
            im == node_ids_model(ids@),
            im == blk.node_ids,
            ni == n,
            n == g_nodes@.len(),
            block_in_range(nm, blk),
            forall|j: int| 0 <= j < ids@.len() ==> (#[trigger] ids@[j].0 as int) < ni,
            body_off == pm.len() + em.len(),
            body_off <= ni,
            ni + ids@.len() <= usize::MAX,
            bodym == body_ids(nm, im),
            body@.len() == body_ids(nm, im.take(i as int)).len(),
            body@.len() <= i,
            loc@ == local_table(ni, pm, em, bodym, body@.len() - 1),
            forall|k: int| 0 <= k < body@.len() ==> (#[trigger] body@[k])@ == remap_node_model(
                nm[bodym[k] as int],
                local_table(ni, pm, em, bodym, k),
            ),
        decreases ids.len() - i,
    {
        let nid = ids[i];
        proof {
            assert(im[i as int] == nid.0);
            assert(im.take(i + 1) =~= im.take(i as int).push(nid.0));
            assert(im.take(i + 1).drop_last() =~= im.take(i as int));
            lemma_body_ids_prefix(nm, im, i + 1);
            lemma_body_ids_prefix(nm, im, i as int);
            assert(g_nodes@[nid.0 as int]@ == nm[nid.0 as int]);
        }
        if !is_param_like(&g_nodes[nid.0 as usize]) {
            let kb = body.len();
            let ghost old_loc = loc@;
            proof {
                assert(body_ids(nm, im.take(i + 1)) == body_ids(nm, im.take(i as int)).push(nid.0));
                assert(body_ids(nm, im.take(i + 1))[kb as int] == nid.0);
                assert(bodym.take(kb + 1)[kb as int] == bodym[kb as int]);
                assert(bodym[kb as int] == nid.0);
            }
            loc.set(nid.0 as usize, body_off + kb);
            proof {
                assert(loc@ =~= local_table(ni, pm, em, bodym, kb as int));
                assert(node_refs_below(nm[nid.0 as int], ni));
            }
            let fnode = remap_node(&g_nodes[nid.0 as usize], loc.as_slice());
            body.push(fnode);
        } else {
            proof {
                assert(body_ids(nm, im.take(i + 1)) == body_ids(nm, im.take(i as int)));
            }
        }
        i = i + 1;
    }
    proof {
        assert(im.take(ids@.len() as int) =~= im);
    }
    let mut params: Vec<RawType> = Vec::new();
    let mut j: usize = 0;
    while j < p.len()
        invariant
            j <= p.len(),
            pm == node_ids_model(p@),
            nm == nodes_model(g_nodes@),
            n == g_nodes@.len(),
            forall|x: int| 0 <= x < p@.len() ==> (#[trigger] p@[x].0 as int) < n,
            params@.len() == j,
            forall|x: int| 0 <= x < j ==> (#[trigger] params@[x])@ == crate::semantics::infer_type_model(nm[pm[x] as int]),
        decreases p.len() - j,
    {
        proof { assert(pm[j as int] == p@[j as int].0); assert(g_nodes@[p@[j as int].0 as int]@ == nm[pm[j as int] as int]); }
        params.push(infer_type(&g_nodes[p[j].0 as usize]));
        j = j + 1;
    }
    let mut effects: Vec<String> = Vec::new();
    let mut j: usize = 0;
    while j < e.len()
        invariant
            j <= e.len(),
            n == g_nodes@.len(),
            forall|x: int| 0 <= x < e@.len() ==> (#[trigger] e@[x].0 as int) < n,
            effects@.len() == j,
            forall|x: int| 0 <= x < j ==> (#[trigger] effects@[x])@ == Seq::<char>::empty(),
        decreases e.len() - j,
    {
        effects.push(effect_name(&g_nodes[e[j].0 as usize]));
        j = j + 1;
    }
    let terminator = remap_term(&bb.terminator, loc.as_slice());
    let r = FlatContinuation { effects, params, nodes: body, terminator };
    proof {
        assert(r@.effects =~= remap_block(nm, blk).effects);
        assert(r@.params =~= remap_block(nm, blk).params);
        assert(r@.nodes =~= remap_block(nm, blk).nodes);
    }
    r
}

/// The continuation of every block, in order.
pub fn remap_conts(bbs: &[BasicBlock], g_nodes: &[BBNode]) -> (r: Vec<FlatContinuation>)
    requires
        forall|b: int| 0 <= b < bbs@.len() ==> block_in_range(nodes_model(g_nodes@), #[trigger] bbs@[b]@),
    ensures
        r@.len() == bbs.len(),
        forall|b: int| 0 <= b < bbs@.len() ==> (#[trigger] r@[b])@ == remap_block(nodes_model(g_nodes@), bbs@[b]@),
{
    let mut out: Vec<FlatContinuation> = Vec::new();
    let mut b: usize = 0;
    while b < bbs.len()
        invariant
            b <= bbs.len(),
            forall|c: int| 0 <= c < bbs@.len() ==> block_in_range(nodes_model(g_nodes@), #[trigger] bbs@[c]@),
            out@.len() == b,
            forall|c: int| 0 <= c < b ==> (#[trigger] out@[c])@ == remap_block(nodes_model(g_nodes@), bbs@[c]@),
        decreases bbs.len() - b,
    {
        out.push(remap_cont(&bbs[b], g_nodes));
        b = b + 1;
    }
    out
}

/// Converts a basic-block graph into flat continuations: one per block, in
/// order, each self-contained.
///
/// First every block asks the predecessors that see them for the values and
/// effect tokens it uses from other blocks; then, block by block, each
/// terminator inherits its predecessors' arguments, keeping inherited ones
/// only while a later block still uses them; finally every block becomes a
/// continuation whose foreign inputs and parameters are its parameters and
/// whose node ids are renumbered locally.
pub fn bb_to_flat_cont(graph: &BasicBlockGraph) -> (r: FlatContGraph)
    requires
        graph_wf(graph@),
    ensures
        r@ == flat_cont_model(graph@),
{
    let ghost g = graph@;
    let bbs = graph.bbs.as_slice();
    let g_nodes = graph.nodes.as_slice();
    let ghost bm = blocks_model(bbs@);
    let ghost nm = nodes_model(g_nodes@);
    let ghost n = g_nodes@.len() as int;
    proof {
        assert(bm =~= g.bbs);
        assert(nm =~= g.nodes);
        lemma_graph_inputs_below(g);
    }
    let pres = compute_pres(bbs);
    let homes = home_blocks(bbs, g_nodes.len());
    let visible = visible_sets(bbs, pres.as_slice(), g_nodes.len());
    proof {
        assert forall|t: int| 0 <= t < bbs.len() implies term_refs_below(#[trigger] bbs@[t].terminator@, g_nodes.len() as int) by {
            assert(bm[t] == bbs@[t]@);
        }
    }
    let (mut acc, eff_end, com_end) = forward_requests(
        bbs,
        g_nodes,
        pres.as_slice(),
        visible.as_slice(),
        homes.as_slice(),
    );
    proof {
        lemma_pass1_args_below(g);
        assert(terms_model(acc@) =~= pass1_terms(g));
        assert forall|t: int, q: int| 0 <= t < pres@.len() && 0 <= q < pres@[t]@.len() implies (#[trigger] pres@[t]@[q].0 as int) < acc@.len() by {
            crate::semantics::lemma_preds_upto_range(bm, t, bm.len() as int);
            assert(cont_ids_model(pres@[t]@)[q] == pres@[t]@[q].0);
        }
        assert(Seq::new(pres@.len(), |t: int| cont_ids_model(pres@[t]@)) =~= pred_lists(g));
        assert(eff_end@ =~= last_uses(g, true));
        assert(com_end@ =~= last_uses(g, false));
    }
    let ghost acc1 = acc@;
    prune_pass(&mut acc, pres.as_slice(), eff_end.as_slice(), com_end.as_slice());
    proof {
        assert(terms_model(acc@) == final_terms(g));
        lemma_pass2_shape(pass1_terms(g), pred_lists(g), last_uses(g, true), last_uses(g, false), g.bbs.len() as int);
        assert forall|b: int| 0 <= b < acc@.len() implies block_in_range(nm, #[trigger] acc@[b]@) by {
            assert(acc@[b].node_ids == acc1[b].node_ids);
            assert(acc@[b]@ == final_block(g, b));
            assert(terms_model(acc@)[b] == acc@[b].terminator@);
            crate::semantics::lemma_same_shape_trans(final_terms(g)[b], pass1_terms(g)[b], g.bbs[b].terminator);
            assert(crate::semantics::term_refs_below(g.bbs[b].terminator, n));
            assert forall|j: int| 0 <= j < acc@[b]@.node_ids.len() implies (#[trigger] acc@[b]@.node_ids[j] as int) < nm.len() by {
                assert(g.bbs[b].node_ids[j] == acc@[b]@.node_ids[j]);
            }
            assert(nm.len() + g.bbs[b].node_ids.len() <= usize::MAX);
        }
    }
    let continuations = remap_conts(acc.as_slice(), g_nodes);
    let r = FlatContGraph {
        name: graph.name.clone(),
        static_data: graph.static_data.clone(),
        externals: graph.externals.clone(),
        continuations,
    };
    proof {
        assert(r@.continuations =~= flat_cont_model(g).continuations) by {
            assert forall|b: int| 0 <= b < g.bbs.len() implies r@.continuations[b] == flat_cont_model(g).continuations[b] by {
                assert(acc@[b]@ == final_block(g, b));
            }
        }
        assert(r@.static_data =~= g.static_data);
        assert(r@.externals =~= g.externals);
    }
    r
}

} // verus!
