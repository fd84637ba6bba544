//! Every continuation the conversion builds is self-contained: its nodes
//! and its terminator refer only to its own parameters and to body nodes
//! that come before them.
use vstd::prelude::*;
use crate::bb2flatcont::block_in_range;
use crate::model::{
    arg_values, node_refs, same_shape, term_common_args, term_effect_args, with_effect_args,
    BlockModel, ContModel, GraphModel, NodeModel, TermModel, ValueModel,
};
use crate::semantics::{
    args_below, final_block, final_terms, flat_cont_model, graph_wf, last_uses, pass2_upto,
    pred_lists, refs_below, selector_values, body_ids, claim_ids, common_operands, effect_operands, first_in_slot, inputs_of,
    input_claims_upto, is_param_node, last_pos, local_index, lemma_add_contains,
    lemma_dedup_contains, lemma_drop_last_push, lemma_first_in_slot_push, lemma_outside_push,
    lemma_push_contains, outside, own_claims, slot_claims, tagged, Slot,
};

verus! {

// ---------------------------------------------------------------------------
// Positions
// ---------------------------------------------------------------------------

/// `last_pos` finds the last occurrence of `x` among the first `k + 1`
/// elements of `s`, if there is one.
proof fn lemma_last_pos(s: Seq<u32>, k: int, x: u32)
    requires
        -1 <= k < s.len(),
    ensures
        -1 <= last_pos(s, k, x) <= k,
        last_pos(s, k, x) >= 0 ==> s[last_pos(s, k, x)] == x,
        last_pos(s, k, x) >= 0 <==> s.take(k + 1).contains(x),
    decreases k + 1,
{
    if k >= 0 {
        lemma_last_pos(s, k - 1, x);
        assert(s.take(k + 1) =~= s.take(k).push(s[k]));
        lemma_push_contains(s.take(k), s[k], x);
    } else {
        assert(s.take(0) =~= Seq::<u32>::empty());
    }
}

/// An occurrence of `x` before position `k`, with `s[k]` not `x`, puts the
/// last occurrence up to `k` strictly before `k`.
proof fn lemma_last_pos_before(s: Seq<u32>, k: int, x: u32)
    requires
        0 <= k < s.len(),
        s.take(k).contains(x),
        s[k] != x,
    ensures
        0 <= last_pos(s, k, x) < k,
{
    lemma_last_pos(s, k - 1, x);
}

/// `s.contains(x)` through `last_pos` over all of `s`.
proof fn lemma_last_pos_all(s: Seq<u32>, x: u32)
    ensures
        -1 <= last_pos(s, s.len() - 1, x) < s.len(),
        last_pos(s, s.len() - 1, x) >= 0 <==> s.contains(x),
{
    lemma_last_pos(s, s.len() - 1, x);
    assert(s.take(s.len() as int) =~= s);
}

// ---------------------------------------------------------------------------
// Filters
// ---------------------------------------------------------------------------

pub proof fn lemma_outside_contains(ids: Seq<u32>, local: Seq<u32>, x: u32)
    ensures
        outside(ids, local).contains(x) <==> (ids.contains(x) && !local.contains(x)),
    decreases ids.len(),
{
    if ids.len() > 0 {
        lemma_outside_contains(ids.drop_last(), local, x);
        lemma_drop_last_push(ids);
        lemma_outside_push(ids.drop_last(), ids.last(), local);
        lemma_push_contains(ids.drop_last(), ids.last(), x);
        lemma_push_contains(outside(ids.drop_last(), local), ids.last(), x);
    }
}

/// The ids `body_ids` keeps are exactly the non-parameter ids listed.
pub proof fn lemma_body_ids_contains(nodes: Seq<NodeModel>, ids: Seq<u32>, x: u32)
    ensures
        body_ids(nodes, ids).contains(x) <==> (ids.contains(x) && !is_param_node(nodes[x as int])),
    decreases ids.len(),
{
    if ids.len() > 0 {
        lemma_body_ids_contains(nodes, ids.drop_last(), x);
        lemma_drop_last_push(ids);
        lemma_push_contains(ids.drop_last(), ids.last(), x);
        lemma_push_contains(body_ids(nodes, ids.drop_last()), ids.last(), x);
    }
}

/// Each body id stands at some position of the listed ids, with the body
/// ids of the ids before it the body ids before it.
proof fn lemma_body_position(nodes: Seq<NodeModel>, ids: Seq<u32>, k: int) -> (i: int)
    requires
        0 <= k < body_ids(nodes, ids).len(),
    ensures
        0 <= i < ids.len(),
        ids[i] == body_ids(nodes, ids)[k],
        body_ids(nodes, ids.take(i)) == body_ids(nodes, ids).take(k),
    decreases ids.len(),
{
    let d = ids.drop_last();
    let r = body_ids(nodes, d);
    if k < r.len() {
        let i = lemma_body_position(nodes, d, k);
        assert(d.take(i) =~= ids.take(i));
        assert(body_ids(nodes, ids)[k] == r[k]);
        assert(body_ids(nodes, ids).take(k) =~= r.take(k));
        i
    } else {
        let i = d.len() as int;
        assert(ids.take(i) =~= d);
        assert(body_ids(nodes, ids).take(k) =~= r);
        i
    }
}

// ---------------------------------------------------------------------------
// Claims
// ---------------------------------------------------------------------------

proof fn lemma_claim_ids_add(a: Seq<(Slot, u32)>, b: Seq<(Slot, u32)>)
    ensures
        claim_ids(a + b) == claim_ids(a) + claim_ids(b),
{
    assert(claim_ids(a + b) =~= claim_ids(a) + claim_ids(b));
}

proof fn lemma_claim_ids_tagged(ids: Seq<u32>, s: Slot)
    ensures
        claim_ids(tagged(ids, s)) == ids,
        forall|j: int| 0 <= j < tagged(ids, s).len() ==> (#[trigger] tagged(ids, s)[j]).0 == s,
{
    assert(claim_ids(tagged(ids, s)) =~= ids);
}

/// An id claimed only in parameter slots is among the first claims of the
/// value or the effect slot.
proof fn lemma_first_claim(q: Seq<(Slot, u32)>, x: u32)
    requires
        claim_ids(q).contains(x),
        forall|j: int| 0 <= j < q.len() && (#[trigger] q[j]).1 == x ==> q[j].0 != Slot::Body,
    ensures
        first_in_slot(q, Slot::Param).contains(x) || first_in_slot(q, Slot::Effect).contains(x),
    decreases q.len(),
{
    let d = q.drop_last();
    let c = q.last();
    assert(q == d.push(c)) by {
        lemma_drop_last_push(q);
    }
    lemma_first_in_slot_push(d, c, Slot::Param);
    lemma_first_in_slot_push(d, c, Slot::Effect);
    lemma_push_contains(claim_ids(d), c.1, x);
    if claim_ids(d).contains(x) {
        assert forall|j: int| 0 <= j < d.len() && (#[trigger] d[j]).1 == x implies d[j].0 != Slot::Body by {
            assert(q[j] == d[j]);
        }
        lemma_first_claim(d, x);
        lemma_push_contains(first_in_slot(d, Slot::Param), c.1, x);
        lemma_push_contains(first_in_slot(d, Slot::Effect), c.1, x);
    } else {
        assert(q[q.len() - 1] == c);
        lemma_push_contains(first_in_slot(d, Slot::Param), c.1, x);
        lemma_push_contains(first_in_slot(d, Slot::Effect), c.1, x);
    }
}

/// The first claims of the value slot and of the effect slot together name
/// each id at most once, and only claimed ids.
pub proof fn lemma_first_claims_distinct(q: Seq<(Slot, u32)>)
    ensures
        (first_in_slot(q, Slot::Param) + first_in_slot(q, Slot::Effect)).no_duplicates(),
        forall|x: u32|
            #[trigger] (first_in_slot(q, Slot::Param) + first_in_slot(q, Slot::Effect)).contains(x) ==> claim_ids(
                q,
            ).contains(x),
    decreases q.len(),
{
    let fp = first_in_slot(q, Slot::Param);
    let fe = first_in_slot(q, Slot::Effect);
    if q.len() == 0 {
        assert(fp + fe =~= Seq::<u32>::empty());
    } else {
        let d = q.drop_last();
        let c = q.last();
        assert(q == d.push(c)) by {
            lemma_drop_last_push(q);
        }
        lemma_first_claims_distinct(d);
        lemma_first_in_slot_push(d, c, Slot::Param);
        lemma_first_in_slot_push(d, c, Slot::Effect);
        let dp = first_in_slot(d, Slot::Param);
        let de = first_in_slot(d, Slot::Effect);
        let fresh = !claim_ids(d).contains(c.1);
        assert forall|x: u32| #[trigger] (fp + fe).contains(x) implies claim_ids(q).contains(x) by {
            lemma_add_contains(fp, fe, x);
            lemma_add_contains(dp, de, x);
            lemma_push_contains(dp, c.1, x);
            lemma_push_contains(de, c.1, x);
            lemma_push_contains(claim_ids(d), c.1, x);
        }
        if fresh && c.0 == Slot::Param {
            assert(!(dp + de).contains(c.1));
            assert(fp + fe =~= (dp + de).insert(dp.len() as int, c.1));
            assert forall|i: int, j: int| 0 <= i < (fp + fe).len() && 0 <= j < (fp + fe).len() && i != j implies (fp
                + fe)[i] != (fp + fe)[j] by {
                let w = dp.len() as int;
                if i == w {
                    let j2 = if j < w { j } else { j - 1 };
                    assert((fp + fe)[j] == (dp + de)[j2]);
                } else if j == w {
                    let i2 = if i < w { i } else { i - 1 };
                    assert((fp + fe)[i] == (dp + de)[i2]);
                } else {
                    let i2 = if i < w { i } else { i - 1 };
                    let j2 = if j < w { j } else { j - 1 };
                    assert((fp + fe)[i] == (dp + de)[i2]);
                    assert((fp + fe)[j] == (dp + de)[j2]);
                }
            }
        } else if fresh && c.0 == Slot::Effect {
            assert(!(dp + de).contains(c.1));
            assert(fp + fe =~= (dp + de).push(c.1));
            assert forall|i: int, j: int| 0 <= i < (fp + fe).len() && 0 <= j < (fp + fe).len() && i != j implies (fp
                + fe)[i] != (fp + fe)[j] by {
                let w = (dp + de).len() as int;
                if i == w {
                    assert((fp + fe)[j] == (dp + de)[j]);
                } else if j == w {
                    assert((fp + fe)[i] == (dp + de)[i]);
                } else {
                    assert((fp + fe)[i] == (dp + de)[i]);
                    assert((fp + fe)[j] == (dp + de)[j]);
                }
            }
        } else {
            assert(fp + fe =~= dp + de);
        }
    }
}

// ---------------------------------------------------------------------------
// The claims of one block
// ---------------------------------------------------------------------------

/// No claim of `q` is for the body.
pub open spec fn no_body_claims(q: Seq<(Slot, u32)>) -> bool {
    forall|j: int| 0 <= j < q.len() ==> (#[trigger] q[j]).0 != Slot::Body
}

proof fn lemma_no_body_add(a: Seq<(Slot, u32)>, b: Seq<(Slot, u32)>)
    requires
        no_body_claims(a),
        no_body_claims(b),
    ensures
        no_body_claims(a + b),
{
    assert forall|j: int| 0 <= j < (a + b).len() implies (#[trigger] (a + b)[j]).0 != Slot::Body by {
        if j < a.len() {
            assert((a + b)[j] == a[j]);
        } else {
            assert((a + b)[j] == b[j - a.len()]);
        }
    }
}

/// Every input of the `i`-th node of `blk` lies below `n`.
proof fn lemma_inputs_bounded(nd: NodeModel, n: int, e: bool, x: u32)
    requires
        crate::semantics::node_refs_below(nd, n),
        inputs_of(nd, e).contains(x),
    ensures
        (x as int) < n,
{
    crate::semantics::lemma_inputs_below(nd, n, e);
    let j = choose|j: int| 0 <= j < inputs_of(nd, e).len() && inputs_of(nd, e)[j] == x;
}

/// The claims made by the inputs of the first `k` listed nodes: all for
/// parameter slots, all of ids the block does not list and that lie below
/// `n`, and covering every such input.
proof fn lemma_input_claims(nodes: Seq<NodeModel>, blk: BlockModel, k: int, n: int)
    requires
        0 <= k <= blk.node_ids.len(),
        forall|i: int| 0 <= i < blk.node_ids.len() ==> crate::semantics::node_refs_below(
            nodes[#[trigger] blk.node_ids[i] as int],
            n,
        ),
    ensures
        no_body_claims(input_claims_upto(nodes, blk, k)),
        forall|x: u32| #[trigger] claim_ids(input_claims_upto(nodes, blk, k)).contains(x) ==> (x as int) < n
            && !blk.node_ids.contains(x),
        forall|i: int, e: bool, x: u32|
            0 <= i < k && #[trigger] inputs_of(nodes[blk.node_ids[i] as int], e).contains(x)
                && !blk.node_ids.contains(x) ==> claim_ids(input_claims_upto(nodes, blk, k)).contains(x),
    decreases k,
{
    let ids = blk.node_ids;
    if k == 0 {
        assert(claim_ids(input_claims_upto(nodes, blk, 0)) =~= Seq::<u32>::empty());
    } else {
        lemma_input_claims(nodes, blk, k - 1, n);
        let prev = input_claims_upto(nodes, blk, k - 1);
        let nd = nodes[ids[k - 1] as int];
        let oc = outside(inputs_of(nd, false), ids);
        let oe = outside(inputs_of(nd, true), ids);
        let tc = tagged(oc, Slot::Param);
        let te = tagged(oe, Slot::Effect);
        let cur = input_claims_upto(nodes, blk, k);
        assert(cur == prev + tc + te);
        lemma_claim_ids_tagged(oc, Slot::Param);
        lemma_claim_ids_tagged(oe, Slot::Effect);
        lemma_no_body_add(prev, tc);
        lemma_no_body_add(prev + tc, te);
        lemma_claim_ids_add(prev, tc);
        lemma_claim_ids_add(prev + tc, te);
        assert(claim_ids(cur) == claim_ids(prev) + oc + oe);
        assert forall|x: u32| #[trigger] claim_ids(cur).contains(x) implies (x as int) < n && !ids.contains(x) by {
            lemma_add_contains(claim_ids(prev) + oc, oe, x);
            lemma_add_contains(claim_ids(prev), oc, x);
            lemma_outside_contains(inputs_of(nd, false), ids, x);
            lemma_outside_contains(inputs_of(nd, true), ids, x);
            if inputs_of(nd, false).contains(x) {
                lemma_inputs_bounded(nd, n, false, x);
            }
            if inputs_of(nd, true).contains(x) {
                lemma_inputs_bounded(nd, n, true, x);
            }
        }
        assert forall|i: int, e: bool, x: u32|
            0 <= i < k && #[trigger] inputs_of(nodes[ids[i] as int], e).contains(x) && !ids.contains(x) implies claim_ids(
            cur,
        ).contains(x) by {
            lemma_add_contains(claim_ids(prev) + oc, oe, x);
            lemma_add_contains(claim_ids(prev), oc, x);
            lemma_outside_contains(inputs_of(nd, false), ids, x);
            lemma_outside_contains(inputs_of(nd, true), ids, x);
        }
    }
}

/// Every claim of a block is for a parameter slot unless it is the own
/// claim of a listed non-parameter node; every claimed id lies below `n`;
/// foreign inputs, foreign terminator arguments and listed parameter nodes
/// are all claimed.
pub proof fn lemma_slot_claims(nodes: Seq<NodeModel>, blk: BlockModel, n: int)
    requires
        forall|i: int| 0 <= i < blk.node_ids.len() ==> (#[trigger] blk.node_ids[i] as int) < n,
        forall|i: int| 0 <= i < blk.node_ids.len() ==> crate::semantics::node_refs_below(
            nodes[#[trigger] blk.node_ids[i] as int],
            n,
        ),
        crate::semantics::term_refs_below(blk.terminator, n),
    ensures
        forall|j: int|
            0 <= j < slot_claims(nodes, blk).len() && (#[trigger] slot_claims(nodes, blk)[j]).0 == Slot::Body
                ==> blk.node_ids.contains(slot_claims(nodes, blk)[j].1) && !is_param_node(
                nodes[slot_claims(nodes, blk)[j].1 as int],
            ),
        forall|x: u32| #[trigger] claim_ids(slot_claims(nodes, blk)).contains(x) ==> (x as int) < n,
        forall|i: int, e: bool, x: u32|
            0 <= i < blk.node_ids.len() && #[trigger] inputs_of(nodes[blk.node_ids[i] as int], e).contains(x)
                && !blk.node_ids.contains(x) ==> claim_ids(slot_claims(nodes, blk)).contains(x),
        forall|x: u32|
            #[trigger] node_refs(term_common_args(blk.terminator)).contains(x) && !blk.node_ids.contains(x)
                ==> claim_ids(slot_claims(nodes, blk)).contains(x),
        forall|x: u32|
            #[trigger] node_refs(arg_values(term_effect_args(blk.terminator))).contains(x)
                && !blk.node_ids.contains(x) ==> claim_ids(slot_claims(nodes, blk)).contains(x),
        forall|x: u32|
            #[trigger] node_refs(selector_values(blk.terminator)).contains(x) && !blk.node_ids.contains(x)
                ==> claim_ids(slot_claims(nodes, blk)).contains(x),
        forall|x: u32|
            #[trigger] blk.node_ids.contains(x) && is_param_node(nodes[x as int]) ==> claim_ids(
                slot_claims(nodes, blk),
            ).contains(x),
{
    let ids = blk.node_ids;
    let ic = input_claims_upto(nodes, blk, ids.len() as int);
    lemma_input_claims(nodes, blk, ids.len() as int, n);
    let rc = node_refs(term_common_args(blk.terminator));
    let re = node_refs(arg_values(term_effect_args(blk.terminator)));
    let rs = node_refs(selector_values(blk.terminator));
    let oc = outside(rc, ids);
    let oe = outside(re, ids);
    let os = outside(rs, ids);
    let tc = tagged(oc, Slot::Param);
    let te = tagged(oe, Slot::Effect);
    let ts = tagged(os, Slot::Param);
    let own = own_claims(nodes, ids);
    let q = slot_claims(nodes, blk);
    let front = ic + tc + te + ts;
    assert(q == front + own);
    lemma_claim_ids_tagged(oc, Slot::Param);
    lemma_claim_ids_tagged(oe, Slot::Effect);
    lemma_claim_ids_tagged(os, Slot::Param);
    lemma_no_body_add(ic, tc);
    lemma_no_body_add(ic + tc, te);
    lemma_no_body_add(ic + tc + te, ts);
    lemma_claim_ids_add(ic, tc);
    lemma_claim_ids_add(ic + tc, te);
    lemma_claim_ids_add(ic + tc + te, ts);
    lemma_claim_ids_add(front, own);
    assert(claim_ids(own) =~= ids);
    assert(claim_ids(q) == claim_ids(ic) + oc + oe + os + ids);
    crate::semantics::lemma_node_refs_below(term_common_args(blk.terminator), n);
    crate::semantics::lemma_node_refs_below(arg_values(term_effect_args(blk.terminator)), n);
    assert(refs_below(selector_values(blk.terminator), n)) by {
        match blk.terminator {
            TermModel::Branch { cond, .. } => {},
            TermModel::Switch { case, .. } => {},
            _ => {},
        }
    }
    crate::semantics::lemma_node_refs_below(selector_values(blk.terminator), n);
    assert forall|j: int|
        0 <= j < q.len() && (#[trigger] q[j]).0 == Slot::Body implies ids.contains(q[j].1) && !is_param_node(
        nodes[q[j].1 as int],
    ) by {
        let w = front.len() as int;
        if j < w {
            assert(q[j] == front[j]);
        } else {
            assert(q[j] == own[j - w]);
            assert(ids[j - w] == q[j].1);
        }
    }
    assert forall|x: u32| #[trigger] claim_ids(q).contains(x) <==> (claim_ids(ic).contains(x) || oc.contains(x)
        || oe.contains(x) || os.contains(x) || ids.contains(x)) by {
        lemma_add_contains(claim_ids(ic) + oc + oe + os, ids, x);
        lemma_add_contains(claim_ids(ic) + oc + oe, os, x);
        lemma_add_contains(claim_ids(ic) + oc, oe, x);
        lemma_add_contains(claim_ids(ic), oc, x);
    }
    assert forall|x: u32| #[trigger] claim_ids(q).contains(x) implies (x as int) < n by {
        lemma_outside_contains(rc, ids, x);
        lemma_outside_contains(re, ids, x);
        lemma_outside_contains(rs, ids, x);
        if rc.contains(x) {
            let j = choose|j: int| 0 <= j < rc.len() && rc[j] == x;
        }
        if re.contains(x) {
            let j = choose|j: int| 0 <= j < re.len() && re[j] == x;
        }
        if rs.contains(x) {
            let j = choose|j: int| 0 <= j < rs.len() && rs[j] == x;
        }
        if ids.contains(x) {
            let j = choose|j: int| 0 <= j < ids.len() && ids[j] == x;
        }
    }
    assert forall|x: u32| #[trigger] rc.contains(x) && !ids.contains(x) implies claim_ids(q).contains(x) by {
        lemma_outside_contains(rc, ids, x);
    }
    assert forall|x: u32| #[trigger] re.contains(x) && !ids.contains(x) implies claim_ids(q).contains(x) by {
        lemma_outside_contains(re, ids, x);
    }
    assert forall|x: u32| #[trigger] rs.contains(x) && !ids.contains(x) implies claim_ids(q).contains(x) by {
        lemma_outside_contains(rs, ids, x);
    }
}

/// A claimed id that the block does not list as a body node is one of the
/// continuation's parameters or effect parameters.
proof fn lemma_claimed_is_param(nodes: Seq<NodeModel>, blk: BlockModel, n: int, x: u32)
    requires
        forall|i: int| 0 <= i < blk.node_ids.len() ==> (#[trigger] blk.node_ids[i] as int) < n,
        forall|i: int| 0 <= i < blk.node_ids.len() ==> crate::semantics::node_refs_below(
            nodes[#[trigger] blk.node_ids[i] as int],
            n,
        ),
        crate::semantics::term_refs_below(blk.terminator, n),
        claim_ids(slot_claims(nodes, blk)).contains(x),
        !blk.node_ids.contains(x) || is_param_node(nodes[x as int]),
    ensures
        crate::semantics::param_ids(nodes, blk).contains(x) || crate::semantics::effect_ids(nodes, blk).contains(x),
{
    lemma_slot_claims(nodes, blk, n);
    let q = slot_claims(nodes, blk);
    assert forall|j: int| 0 <= j < q.len() && (#[trigger] q[j]).1 == x implies q[j].0 != Slot::Body by {
        if q[j].0 == Slot::Body {
            assert(blk.node_ids.contains(q[j].1));
        }
    }
    lemma_first_claim(q, x);
}

// ---------------------------------------------------------------------------
// Local indices
// ---------------------------------------------------------------------------

/// A parameter or effect parameter that is no body node gets an index
/// below the body.
proof fn lemma_local_index_param(p: Seq<u32>, e: Seq<u32>, body: Seq<u32>, k: int, x: u32)
    requires
        -1 <= k < body.len(),
        !body.contains(x),
        p.contains(x) || e.contains(x),
    ensures
        0 <= local_index(p, e, body, k, x) < p.len() + e.len(),
{
    lemma_last_pos(body, k, x);
    let pre = body.take(k + 1);
    if pre.contains(x) {
        let j = choose|j: int| 0 <= j < pre.len() && pre[j] == x;
        assert(body[j] == x);
    }
    lemma_last_pos_all(e, x);
    lemma_last_pos_all(p, x);
}

/// A body node numbered before the `k`-th one, and other than it, gets an
/// index below the `k`-th body node's.
proof fn lemma_local_index_body(p: Seq<u32>, e: Seq<u32>, body: Seq<u32>, k: int, x: u32)
    requires
        0 <= k < body.len(),
        body.take(k).contains(x),
        body[k] != x,
    ensures
        p.len() + e.len() <= local_index(p, e, body, k, x) < p.len() + e.len() + k,
{
    lemma_last_pos_before(body, k, x);
}

/// Once the whole body is numbered, every body node has an index within it.
proof fn lemma_local_index_end(p: Seq<u32>, e: Seq<u32>, body: Seq<u32>, x: u32)
    requires
        body.contains(x),
    ensures
        p.len() + e.len() <= local_index(p, e, body, body.len() - 1, x) < p.len() + e.len() + body.len(),
{
    lemma_last_pos_all(body, x);
}

proof fn lemma_body_ids_len(nodes: Seq<NodeModel>, ids: Seq<u32>)
    ensures
        body_ids(nodes, ids).len() <= ids.len(),
    decreases ids.len(),
{
    if ids.len() > 0 {
        lemma_body_ids_len(nodes, ids.drop_last());
    }
}

proof fn lemma_node_refs_contains(vs: Seq<ValueModel>, j: int)
    requires
        0 <= j < vs.len(),
        vs[j] is Node,
    ensures
        node_refs(vs).contains(vs[j]->Node_0),
    decreases vs.len(),
{
    let d = vs.drop_last();
    if j < d.len() {
        assert(d[j] == vs[j]);
        lemma_node_refs_contains(d, j);
        let r = node_refs(d);
        match vs.last() {
            ValueModel::Node(m) => {
                lemma_push_contains(r, m, vs[j]->Node_0);
            },
            _ => {},
        }
    } else {
        assert(vs.last() == vs[j]);
        lemma_push_contains(node_refs(d), vs[j]->Node_0, vs[j]->Node_0);
    }
}

/// `node_refs(vs)` holds `x` exactly when `vs` refers to node `x`.
pub proof fn lemma_node_refs_iff(vs: Seq<ValueModel>, x: u32)
    ensures
        node_refs(vs).contains(x) <==> vs.contains(ValueModel::Node(x)),
    decreases vs.len(),
{
    if vs.contains(ValueModel::Node(x)) {
        let j = choose|j: int| 0 <= j < vs.len() && vs[j] == ValueModel::Node(x);
        lemma_node_refs_contains(vs, j);
    }
    if vs.len() > 0 {
        let d = vs.drop_last();
        lemma_node_refs_iff(d, x);
        lemma_drop_last_push(vs);
        lemma_push_contains(d, vs.last(), ValueModel::Node(x));
        match vs.last() {
            ValueModel::Node(m) => {
                lemma_push_contains(node_refs(d), m, x);
            },
            _ => {},
        }
    }
}

// ---------------------------------------------------------------------------
// Remapping keeps operands in place
// ---------------------------------------------------------------------------

proof fn lemma_remap_operands(nd: NodeModel, m: Seq<usize>)
    ensures
        effect_operands(crate::semantics::remap_node_model(nd, m)) == crate::semantics::remap_values(
            effect_operands(nd),
            m,
        ),
        common_operands(crate::semantics::remap_node_model(nd, m)) == crate::semantics::remap_values(
            common_operands(nd),
            m,
        ),
{
    let r = crate::semantics::remap_node_model(nd, m);
    assert(effect_operands(r) =~= crate::semantics::remap_values(effect_operands(nd), m));
    assert(common_operands(r) =~= crate::semantics::remap_values(common_operands(nd), m));
}

proof fn lemma_remap_term_args(t: TermModel, m: Seq<usize>)
    ensures
        term_common_args(crate::semantics::remap_term_model(t, m)) == crate::semantics::remap_values(
            term_common_args(t),
            m,
        ),
        arg_values(term_effect_args(crate::semantics::remap_term_model(t, m))) == crate::semantics::remap_values(
            arg_values(term_effect_args(t)),
            m,
        ),
{
    let r = crate::semantics::remap_term_model(t, m);
    assert(arg_values(term_effect_args(r)) =~= crate::semantics::remap_values(arg_values(term_effect_args(t)), m));
}

/// Looking node ids up in a table whose entries for them are below `bound`.
proof fn lemma_refs_below_remap(vs: Seq<ValueModel>, m: Seq<usize>, bound: int)
    requires
        bound <= crate::semantics::id_space(),
        forall|j: int| 0 <= j < vs.len() && (#[trigger] vs[j]) is Node ==> (m[vs[j]->Node_0 as int] as int) < bound,
    ensures
        crate::semantics::refs_below(crate::semantics::remap_values(vs, m), bound),
{
    let r = crate::semantics::remap_values(vs, m);
    assert forall|j: int| 0 <= j < r.len() && (#[trigger] r[j]) is Node implies (r[j]->Node_0 as int) < bound by {
        assert(r[j] == crate::semantics::remap_value(vs[j], m));
    }
}

// ---------------------------------------------------------------------------
// One block
// ---------------------------------------------------------------------------

/// The node ids a node reads, through its effect operands and its ordinary
/// ones.
pub open spec fn reads(nd: NodeModel) -> Seq<u32> {
    node_refs(effect_operands(nd)) + node_refs(common_operands(nd))
}

/// Block `blk` reads each node it lists only after listing it: a listed
/// node that another listed node reads is a parameter node, or is listed
/// before the reader and is not the reader itself.
pub open spec fn reads_after_defs(nodes: Seq<NodeModel>, blk: BlockModel) -> bool {
    forall|i: int, x: u32|
        0 <= i < blk.node_ids.len() && #[trigger] reads(nodes[blk.node_ids[i] as int]).contains(x)
            && blk.node_ids.contains(x) ==> is_param_node(nodes[x as int]) || (x != blk.node_ids[i]
            && blk.node_ids.take(i).contains(x))
}

/// Continuation `c` refers only to what it has: each body node to the
/// parameters, the effect parameters and the body nodes before it, the
/// terminator to the parameters, the effect parameters and the body.
pub open spec fn self_contained(c: ContModel) -> bool {
    let base = c.params.len() + c.effects.len();
    &&& forall|k: int| 0 <= k < c.nodes.len() ==> crate::semantics::node_refs_below(#[trigger] c.nodes[k], base + k)
    &&& crate::semantics::term_refs_below(c.terminator, (base + c.nodes.len()) as int)
}

/// What the lemmas on one block assume of it.
pub open spec fn block_ok(nodes: Seq<NodeModel>, blk: BlockModel) -> bool {
    &&& block_in_range(nodes, blk)
    &&& reads_after_defs(nodes, blk)
    &&& nodes.len() + blk.node_ids.len() < crate::semantics::id_space()
}

/// A claimed id that is no body node gets an index below the body, whatever
/// body node is being numbered.
proof fn lemma_param_local(nodes: Seq<NodeModel>, blk: BlockModel, x: u32, k: int)
    requires
        block_ok(nodes, blk),
        claim_ids(slot_claims(nodes, blk)).contains(x),
        !blk.node_ids.contains(x) || is_param_node(nodes[x as int]),
        -1 <= k < body_ids(nodes, blk.node_ids).len(),
    ensures
        0 <= local_index(
            crate::semantics::param_ids(nodes, blk),
            crate::semantics::effect_ids(nodes, blk),
            body_ids(nodes, blk.node_ids),
            k,
            x,
        ) < crate::semantics::param_ids(nodes, blk).len() + crate::semantics::effect_ids(nodes, blk).len(),
{
    lemma_claimed_is_param(nodes, blk, nodes.len() as int, x);
    lemma_body_ids_contains(nodes, blk.node_ids, x);
    lemma_local_index_param(
        crate::semantics::param_ids(nodes, blk),
        crate::semantics::effect_ids(nodes, blk),
        body_ids(nodes, blk.node_ids),
        k,
        x,
    );
}

/// Once the body is numbered, a listed node has an index within the
/// continuation.
proof fn lemma_listed_index(nodes: Seq<NodeModel>, blk: BlockModel, x: u32)
    requires
        block_ok(nodes, blk),
        blk.node_ids.contains(x),
    ensures
        0 <= local_index(
            crate::semantics::param_ids(nodes, blk),
            crate::semantics::effect_ids(nodes, blk),
            body_ids(nodes, blk.node_ids),
            body_ids(nodes, blk.node_ids).len() - 1,
            x,
        ) < crate::semantics::param_ids(nodes, blk).len() + crate::semantics::effect_ids(nodes, blk).len()
            + body_ids(nodes, blk.node_ids).len(),
{
    let body = body_ids(nodes, blk.node_ids);
    lemma_body_ids_contains(nodes, blk.node_ids, x);
    if is_param_node(nodes[x as int]) {
        lemma_slot_claims(nodes, blk, nodes.len() as int);
        lemma_param_local(nodes, blk, x, body.len() - 1);
    } else {
        lemma_local_index_end(crate::semantics::param_ids(nodes, blk), crate::semantics::effect_ids(nodes, blk), body, x);
    }
}

/// Once the body is numbered, a node the terminator passes has an index
/// within the continuation.
proof fn lemma_passed_index(nodes: Seq<NodeModel>, blk: BlockModel, x: u32)
    requires
        block_ok(nodes, blk),
        node_refs(term_common_args(blk.terminator)).contains(x) || node_refs(
            arg_values(term_effect_args(blk.terminator)),
        ).contains(x),
    ensures
        0 <= local_index(
            crate::semantics::param_ids(nodes, blk),
            crate::semantics::effect_ids(nodes, blk),
            body_ids(nodes, blk.node_ids),
            body_ids(nodes, blk.node_ids).len() - 1,
            x,
        ) < crate::semantics::param_ids(nodes, blk).len() + crate::semantics::effect_ids(nodes, blk).len()
            + body_ids(nodes, blk.node_ids).len(),
{
    if blk.node_ids.contains(x) {
        lemma_listed_index(nodes, blk, x);
    } else {
        lemma_slot_claims(nodes, blk, nodes.len() as int);
        lemma_param_local(nodes, blk, x, body_ids(nodes, blk.node_ids).len() - 1);
    }
}

/// Once the body is numbered, the node a terminator chooses its target by
/// has an index within the continuation.
proof fn lemma_selector_index(nodes: Seq<NodeModel>, blk: BlockModel, x: u32)
    requires
        block_ok(nodes, blk),
        node_refs(selector_values(blk.terminator)).contains(x),
    ensures
        0 <= local_index(
            crate::semantics::param_ids(nodes, blk),
            crate::semantics::effect_ids(nodes, blk),
            body_ids(nodes, blk.node_ids),
            body_ids(nodes, blk.node_ids).len() - 1,
            x,
        ) < crate::semantics::param_ids(nodes, blk).len() + crate::semantics::effect_ids(nodes, blk).len()
            + body_ids(nodes, blk.node_ids).len(),
{
    if blk.node_ids.contains(x) {
        lemma_listed_index(nodes, blk, x);
    } else {
        lemma_slot_claims(nodes, blk, nodes.len() as int);
        lemma_param_local(nodes, blk, x, body_ids(nodes, blk.node_ids).len() - 1);
    }
}

/// An operand of the `k`-th body node (the `i`-th listed node) gets an
/// index below that body node's.
proof fn lemma_operand_index(nodes: Seq<NodeModel>, blk: BlockModel, k: int, i: int, x: u32)
    requires
        block_ok(nodes, blk),
        0 <= k < body_ids(nodes, blk.node_ids).len(),
        0 <= i < blk.node_ids.len(),
        blk.node_ids[i] == body_ids(nodes, blk.node_ids)[k],
        body_ids(nodes, blk.node_ids.take(i)) == body_ids(nodes, blk.node_ids).take(k),
        reads(nodes[blk.node_ids[i] as int]).contains(x),
    ensures
        0 <= local_index(
            crate::semantics::param_ids(nodes, blk),
            crate::semantics::effect_ids(nodes, blk),
            body_ids(nodes, blk.node_ids),
            k,
            x,
        ) < crate::semantics::param_ids(nodes, blk).len() + crate::semantics::effect_ids(nodes, blk).len() + k,
{
    let ids = blk.node_ids;
    let body = body_ids(nodes, ids);
    let nd = nodes[ids[i] as int];
    let p = crate::semantics::param_ids(nodes, blk);
    let e = crate::semantics::effect_ids(nodes, blk);
    lemma_slot_claims(nodes, blk, nodes.len() as int);
    if ids.contains(x) {
        if is_param_node(nodes[x as int]) {
            lemma_param_local(nodes, blk, x, k);
        } else {
            assert(x != ids[i] && ids.take(i).contains(x));
            lemma_body_ids_contains(nodes, ids.take(i), x);
            lemma_local_index_body(p, e, body, k, x);
        }
    } else {
        lemma_add_contains(node_refs(effect_operands(nd)), node_refs(common_operands(nd)), x);
        lemma_dedup_contains(node_refs(effect_operands(nd)), x);
        lemma_dedup_contains(node_refs(common_operands(nd)), x);
        if node_refs(effect_operands(nd)).contains(x) {
            assert(inputs_of(nd, true).contains(x));
        } else {
            assert(inputs_of(nd, false).contains(x));
        }
        lemma_param_local(nodes, blk, x, k);
    }
}

/// Every node reference in `vs` is read by `nd` through these operands.
proof fn lemma_operand_reads(nd: NodeModel, vs: Seq<ValueModel>, j: int)
    requires
        vs == effect_operands(nd) || vs == common_operands(nd),
        0 <= j < vs.len(),
        vs[j] is Node,
    ensures
        reads(nd).contains(vs[j]->Node_0),
{
    lemma_node_refs_contains(vs, j);
    lemma_add_contains(node_refs(effect_operands(nd)), node_refs(common_operands(nd)), vs[j]->Node_0);
}

/// The continuation of a block that reads its nodes after listing them and
/// branches on a node of its own is self-contained.
proof fn lemma_block_self_contained(nodes: Seq<NodeModel>, blk: BlockModel)
    requires
        block_ok(nodes, blk),
    ensures
        self_contained(crate::semantics::remap_block(nodes, blk)),
{
    let n = nodes.len() as int;
    let ids = blk.node_ids;
    let p = crate::semantics::param_ids(nodes, blk);
    let e = crate::semantics::effect_ids(nodes, blk);
    let body = body_ids(nodes, ids);
    let q = slot_claims(nodes, blk);
    let c = crate::semantics::remap_block(nodes, blk);
    let base = p.len() + e.len();
    lemma_slot_claims(nodes, blk, n);
    lemma_first_claims_distinct(q);
    assert forall|j: int| 0 <= j < (p + e).len() implies (#[trigger] (p + e)[j] as int) < n by {
        assert((p + e).contains((p + e)[j]));
    }
    crate::semantics::lemma_distinct_below_len(p + e, n);
    lemma_body_ids_len(nodes, ids);
    assert(base + body.len() < crate::semantics::id_space());
    assert(c.params.len() == p.len());
    assert(c.effects.len() == e.len());
    assert(c.nodes.len() == body.len());
    assert forall|k: int| 0 <= k < c.nodes.len() implies crate::semantics::node_refs_below(#[trigger] c.nodes[k], base + k) by {
        let i = lemma_body_position(nodes, ids, k);
        let nd = nodes[body[k] as int];
        let m = crate::semantics::local_table(n, p, e, body, k);
        assert(c.nodes[k] == crate::semantics::remap_node_model(nd, m));
        lemma_remap_operands(nd, m);
        assert(crate::semantics::node_refs_below(nd, n));
        let eo = effect_operands(nd);
        let co = common_operands(nd);
        crate::semantics::lemma_node_refs_below(eo, n);
        crate::semantics::lemma_node_refs_below(co, n);
        assert forall|j: int| 0 <= j < eo.len() && (#[trigger] eo[j]) is Node implies (m[eo[j]->Node_0 as int] as int) < base + k by {
            lemma_operand_reads(nd, eo, j);
            lemma_operand_index(nodes, blk, k, i, eo[j]->Node_0);
        }
        assert forall|j: int| 0 <= j < co.len() && (#[trigger] co[j]) is Node implies (m[co[j]->Node_0 as int] as int) < base + k by {
            lemma_operand_reads(nd, co, j);
            lemma_operand_index(nodes, blk, k, i, co[j]->Node_0);
        }
        lemma_refs_below_remap(eo, m, base + k);
        lemma_refs_below_remap(co, m, base + k);
    }
    let t = blk.terminator;
    let m = crate::semantics::local_table(n, p, e, body, body.len() - 1);
    let bound = (base + body.len()) as int;
    lemma_remap_term_args(t, m);
    let ca = term_common_args(t);
    let ea = arg_values(term_effect_args(t));
    assert forall|j: int| 0 <= j < ca.len() && (#[trigger] ca[j]) is Node implies (m[ca[j]->Node_0 as int] as int) < bound by {
        lemma_node_refs_contains(ca, j);
        lemma_passed_index(nodes, blk, ca[j]->Node_0);
    }
    assert forall|j: int| 0 <= j < ea.len() && (#[trigger] ea[j]) is Node implies (m[ea[j]->Node_0 as int] as int) < bound by {
        lemma_node_refs_contains(ea, j);
        lemma_passed_index(nodes, blk, ea[j]->Node_0);
    }
    lemma_refs_below_remap(ca, m, bound);
    lemma_refs_below_remap(ea, m, bound);
    match t {
        TermModel::Branch { cond, .. } => {
            if cond is Node {
                lemma_node_refs_contains(seq![cond], 0);
                lemma_selector_index(nodes, blk, cond->Node_0);
            }
            lemma_refs_below_remap(seq![cond], m, bound);
            assert(crate::semantics::remap_values(seq![cond], m) =~= seq![crate::semantics::remap_value(cond, m)]);
        },
        TermModel::Switch { case, .. } => {
            if case is Node {
                lemma_node_refs_contains(seq![case], 0);
                lemma_selector_index(nodes, blk, case->Node_0);
            }
            lemma_refs_below_remap(seq![case], m, bound);
            assert(crate::semantics::remap_values(seq![case], m) =~= seq![crate::semantics::remap_value(case, m)]);
        },
        _ => {},
    }
}

// ---------------------------------------------------------------------------
// The whole graph
// ---------------------------------------------------------------------------

/// The second pass passes on only nodes the first pass already bounded.
pub proof fn lemma_pass2_args_below(
    terms: Seq<TermModel>,
    pres: Seq<Seq<u32>>,
    ee: Seq<usize>,
    ce: Seq<usize>,
    k: int,
    n: int,
)
    requires
        args_below(terms, n),
        0 <= k <= terms.len(),
        pres.len() == terms.len(),
        forall|t: int, q: int| 0 <= t < pres.len() && 0 <= q < pres[t].len() ==> (#[trigger] pres[t][q] as int) < terms.len(),
    ensures
        args_below(pass2_upto(terms, pres, ee, ce, k), n),
    decreases k,
{
    crate::semantics::lemma_pass2_shape(terms, pres, ee, ce, k);
    if k > 0 {
        lemma_pass2_args_below(terms, pres, ee, ce, k - 1, n);
        let b = k - 1;
        let prev = pass2_upto(terms, pres, ee, ce, b);
        crate::semantics::lemma_pass2_shape(terms, pres, ee, ce, b);
        let ps = pres[b];
        assert forall|q: int| 0 <= q < ps.len() implies (#[trigger] ps[q] as int) < prev.len() by {
            assert((pres[b][q] as int) < terms.len());
        }
        crate::semantics::lemma_gather_below(prev, ps, n);
        assert(refs_below(term_common_args(prev[b]), n));
        crate::semantics::lemma_propagated_below(
            arg_values(term_effect_args(prev[b])),
            crate::semantics::gather_effect(prev, ps),
            ee,
            b,
            n,
        );
        crate::semantics::lemma_propagated_below(
            term_common_args(prev[b]),
            crate::semantics::gather_common(prev, ps),
            ce,
            b,
            n,
        );
        let pe = crate::semantics::propagate_effect(prev, ps, ee, b);
        let pc = crate::semantics::propagate_common(prev, ps, ce, b);
        let u = crate::semantics::unnamed(pe);
        crate::semantics::lemma_with_args_accessors(prev[b], u, pc);
        crate::semantics::lemma_with_args_accessors(with_effect_args(prev[b], u), u, pc);
        let cur = pass2_upto(terms, pres, ee, ce, k);
        assert forall|p: int| 0 <= p < cur.len() implies {
            &&& refs_below(term_common_args(#[trigger] cur[p]), n)
            &&& refs_below(arg_values(term_effect_args(cur[p])), n)
        } by {
            if p != b {
                assert(cur[p] == prev[p]);
            }
        }
    }
}

/// After both passes, block `b` still satisfies what the remapping needs.
proof fn lemma_final_block_ok(g: GraphModel, b: int)
    requires
        graph_wf(g),
        0 <= b < g.bbs.len(),
        reads_after_defs(g.nodes, g.bbs[b]),
        g.nodes.len() + g.bbs[b].node_ids.len() < crate::semantics::id_space(),
    ensures
        block_ok(g.nodes, final_block(g, b)),
{
    let n = g.nodes.len() as int;
    let len = g.bbs.len() as int;
    let blk = final_block(g, b);
    let t0 = g.bbs[b].terminator;
    crate::semantics::lemma_pass1_args_below(g);
    let pl = pred_lists(g);
    let t1 = crate::semantics::pass1_terms(g);
    assert forall|t: int, q: int| 0 <= t < pl.len() && 0 <= q < pl[t].len() implies (#[trigger] pl[t][q] as int) < t1.len() by {
        crate::semantics::lemma_preds_upto_range(g.bbs, t, len);
    }
    lemma_pass2_args_below(t1, pl, last_uses(g, true), last_uses(g, false), len, n);
    crate::semantics::lemma_pass2_shape(t1, pl, last_uses(g, true), last_uses(g, false), len);
    let tf = final_terms(g)[b];
    assert(same_shape(t1[b], t0));
    crate::semantics::lemma_same_shape_trans(tf, t1[b], t0);
    assert(crate::semantics::term_refs_below(t0, n));
    assert(refs_below(term_common_args(tf), n));
    assert(refs_below(arg_values(term_effect_args(tf)), n));
    assert(crate::semantics::term_refs_below(tf, n));
    assert(blk.node_ids == g.bbs[b].node_ids);
    assert forall|j: int| 0 <= j < blk.node_ids.len() implies (#[trigger] blk.node_ids[j] as int) < n by {
        assert(g.bbs[b].node_ids[j] == blk.node_ids[j]);
    }
    assert(block_in_range(g.nodes, blk));
    assert(reads_after_defs(g.nodes, blk));
}

/// Every continuation is self-contained: each body node refers only to the
/// continuation's parameters, its effect parameters and the body nodes
/// before it, and its terminator only to its parameters, its effect
/// parameters and its body. This holds of every block that reads each node
/// it lists only after listing it, when the pool and the block together
/// number fewer than 2^32 nodes.
pub proof fn law_continuations_self_contained(g: GraphModel, b: int)
    requires
        graph_wf(g),
        0 <= b < g.bbs.len(),
        reads_after_defs(g.nodes, g.bbs[b]),
        g.nodes.len() + g.bbs[b].node_ids.len() < crate::semantics::id_space(),
    ensures
        self_contained(flat_cont_model(g).continuations[b]),
{
    lemma_final_block_ok(g, b);
    lemma_block_self_contained(g.nodes, final_block(g, b));
}

} // verus!
