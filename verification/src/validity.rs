//! Deciding whether a graph is one the conversion accepts.
use vstd::prelude::*;
use crate::basicblock::{
    effect_args_model, values_model, BasicBlockGraph, Node as BBNode, Terminator as BBTerm,
    Value as BbValue, gep_index_items,
};
use crate::model::{
    arg_values, successors, ValueModel,
};
use crate::semantics::{
    graph_wf, id_space, listed_below, node_refs_below, refs_below, term_refs_below,
};

verus! {

/// Value `v` refers to no node, or to one below `n`.
pub open spec fn value_below(v: ValueModel, n: int) -> bool {
    v is Node ==> (v->Node_0 as int) < n
}

proof fn lemma_refs_below_push(s: Seq<ValueModel>, v: ValueModel, n: int)
    ensures
        refs_below(s.push(v), n) <==> (refs_below(s, n) && value_below(v, n)),
{
    if refs_below(s.push(v), n) {
        assert forall|j: int| 0 <= j < s.len() && (#[trigger] s[j]) is Node implies (s[j]->Node_0 as int) < n by {
            assert(s.push(v)[j] == s[j]);
        }
        assert(s.push(v)[s.len() as int] == v);
    }
    if refs_below(s, n) && value_below(v, n) {
        assert forall|j: int| 0 <= j < s.push(v).len() && (#[trigger] s.push(v)[j]) is Node implies (s.push(v)[j]->Node_0 as int) < n by {
            if j < s.len() {
                assert(s.push(v)[j] == s[j]);
            }
        }
    }
}

proof fn lemma_refs_below_empty(n: int)
    ensures
        refs_below(Seq::<ValueModel>::empty(), n),
{
}

proof fn lemma_refs_below_concat(a: Seq<ValueModel>, b: Seq<ValueModel>, n: int)
    ensures
        refs_below(a + b, n) <==> (refs_below(a, n) && refs_below(b, n)),
{
    if refs_below(a + b, n) {
        crate::semantics::lemma_refs_below_split(a, b, n);
    }
    if refs_below(a, n) && refs_below(b, n) {
        crate::semantics::lemma_refs_below_add(a, b, n);
    }
}

proof fn lemma_refs_below_one(a: ValueModel, n: int)
    ensures
        refs_below(seq![a], n) <==> value_below(a, n),
{
    lemma_refs_below_push(Seq::empty(), a, n);
}

proof fn lemma_refs_below_two(a: ValueModel, b: ValueModel, n: int)
    ensures
        refs_below(seq![a, b], n) <==> (value_below(a, n) && value_below(b, n)),
{
    lemma_refs_below_push(Seq::empty(), a, n);
    lemma_refs_below_push(seq![a], b, n);
}

proof fn lemma_refs_below_three(a: ValueModel, b: ValueModel, c: ValueModel, n: int)
    ensures
        refs_below(seq![a, b, c], n) <==> (value_below(a, n) && value_below(b, n) && value_below(c, n)),
{
    lemma_refs_below_two(a, b, n);
    lemma_refs_below_push(seq![a, b], c, n);
}

/// Whether `v` refers to no node, or to one below `n`.
pub fn value_in_pool(v: &BbValue, n: usize) -> (r: bool)
    ensures
        r == value_below(v@, n as int),
{
    match v {
        BbValue::Node(x) => (x.0 as usize) < n,
        _ => true,
    }
}

/// Whether every node `vs` refers to is below `n`.
pub fn values_in_pool(vs: &[BbValue], n: usize) -> (r: bool)
    ensures
        r == refs_below(values_model(vs@), n as int),
{
    let ghost m = values_model(vs@);
    let mut i: usize = 0;
    while i < vs.len()
        invariant
            i <= vs.len(),
            m == values_model(vs@),
            refs_below(m.take(i as int), n as int),
        decreases vs.len() - i,
    {
        proof {
            assert(m.take(i + 1) =~= m.take(i as int).push(vs@[i as int]@));
            lemma_refs_below_push(m.take(i as int), vs@[i as int]@, n as int);
        }
        if !value_in_pool(&vs[i], n) {
            proof {
                assert(m.take(i + 1) =~= m.take(i as int).push(vs@[i as int]@));
                assert(!refs_below(m, n as int)) by {
                    assert(m[i as int] == vs@[i as int]@);
                }
            }
            return false;
        }
        i = i + 1;
    }
    proof {
        assert(m.take(vs.len() as int) =~= m);
    }
    true
}

/// Whether every node the effect arguments `args` pass is below `n`.
pub fn effect_args_in_pool(args: &[(String, BbValue)], n: usize) -> (r: bool)
    ensures
        r == refs_below(arg_values(effect_args_model(args@)), n as int),
{
    let ghost m = arg_values(effect_args_model(args@));
    let mut i: usize = 0;
    while i < args.len()
        invariant
            i <= args.len(),
            m == arg_values(effect_args_model(args@)),
            refs_below(m.take(i as int), n as int),
        decreases args.len() - i,
    {
        proof {
            assert(m[i as int] == args@[i as int].1@);
            assert(m.take(i + 1) =~= m.take(i as int).push(args@[i as int].1@));
            lemma_refs_below_push(m.take(i as int), args@[i as int].1@, n as int);
        }
        if !value_in_pool(&args[i].1, n) {
            return false;
        }
        i = i + 1;
    }
    proof {
        assert(m.take(args.len() as int) =~= m);
    }
    true
}

/// A pool size as an integer.
pub open spec fn pool_size(n: usize) -> int {
    n as int
}

/// Whether every node `node` reads is below `n`.
pub fn node_in_pool(node: &BBNode, n: usize) -> (r: bool)
    ensures
        r == node_refs_below(node@, pool_size(n)),
{
    let ghost k = pool_size(n);
    proof {
        lemma_refs_below_empty(k);
    }
    match node {
        BBNode::Load { effect_state, addr, .. } => {
            proof {
                lemma_refs_below_one(effect_state@, k);
                lemma_refs_below_one(addr@, k);
            }
            value_in_pool(effect_state, n) && value_in_pool(addr, n)
        },
        BBNode::Store { effect_state, addr, value, .. } => {
            proof {
                lemma_refs_below_one(effect_state@, k);
                lemma_refs_below_two(addr@, value@, k);
            }
            value_in_pool(effect_state, n) && value_in_pool(addr, n) && value_in_pool(value, n)
        },
        BBNode::AtomicCAS { effect_state, addr, old, new, .. } => {
            proof {
                lemma_refs_below_one(effect_state@, k);
                lemma_refs_below_three(addr@, old@, new@, k);
            }
            value_in_pool(effect_state, n) && value_in_pool(addr, n) && value_in_pool(old, n)
                && value_in_pool(new, n)
        },
        BBNode::AtomicRMW { effect_state, addr, value, .. } => {
            proof {
                lemma_refs_below_one(effect_state@, k);
                lemma_refs_below_two(addr@, value@, k);
            }
            value_in_pool(effect_state, n) && value_in_pool(addr, n) && value_in_pool(value, n)
        },
        BBNode::GEP(_, base, indices) => {
            proof {
                lemma_refs_below_one(base@, k);
                lemma_refs_below_concat(seq![base@], values_model(gep_index_items(*indices)), k);
            }
            value_in_pool(base, n) && values_in_pool(indices.as_slice(), n)
        },
        BBNode::Select(c, t, f) => {
            proof {
                lemma_refs_below_three(c@, t@, f@, k);
            }
            value_in_pool(c, n) && value_in_pool(t, n) && value_in_pool(f, n)
        },
        BBNode::Icmp(_, a, b) => {
            proof {
                lemma_refs_below_two(a@, b@, k);
            }
            value_in_pool(a, n) && value_in_pool(b, n)
        },
        BBNode::Compute(_, ops) => values_in_pool(ops.as_slice(), n),
        BBNode::Proj(v, _) => {
            proof {
                lemma_refs_below_one(v@, k);
            }
            value_in_pool(v, n)
        },
        BBNode::TokenMerge(vs) => values_in_pool(vs.as_slice(), n),
        BBNode::Call { target, effect_args, args } => {
            proof {
                lemma_refs_below_one(target@, k);
                lemma_refs_below_concat(seq![target@], values_model(args@), k);
            }
            effect_args_in_pool(effect_args.as_slice(), n) && value_in_pool(target, n)
                && values_in_pool(args.as_slice(), n)
        },
        _ => true,
    }
}

/// Whether every node `t` refers to (arguments, condition, case) is below
/// `n`.
pub fn term_in_pool(t: &BBTerm, n: usize) -> (r: bool)
    ensures
        r == term_refs_below(t@, n as int),
{
    let ghost k = n as int;
    match t {
        BBTerm::Jump { effect_args, common_args, .. } => effect_args_in_pool(effect_args.as_slice(), n)
            && values_in_pool(common_args.as_slice(), n),
        BBTerm::Branch { effect_args, common_args, cond, .. } => {
            proof {
                lemma_refs_below_one(cond@, k);
            }
            effect_args_in_pool(effect_args.as_slice(), n) && values_in_pool(common_args.as_slice(), n)
                && value_in_pool(cond, n)
        },
        BBTerm::Switch { effect_args, common_args, case, .. } => {
            proof {
                lemma_refs_below_one(case@, k);
            }
            effect_args_in_pool(effect_args.as_slice(), n) && values_in_pool(common_args.as_slice(), n)
                && value_in_pool(case, n)
        },
        BBTerm::Return { effect_args, common_args } => effect_args_in_pool(effect_args.as_slice(), n)
            && values_in_pool(common_args.as_slice(), n),
    }
}

/// Whether every target `t` names is below `b`.
pub fn targets_below(t: &BBTerm, b: usize) -> (r: bool)
    ensures
        r == forall|j: int| 0 <= j < successors(t@).len() ==> (#[trigger] successors(t@)[j] as int) < b,
{
    let succ = crate::bb2flatcont::successor_ids(t);
    let ghost s = successors(t@);
    let mut i: usize = 0;
    while i < succ.len()
        invariant
            i <= succ.len(),
            s == successors(t@),
            crate::basicblock::cont_ids_model(succ@) == s,
            forall|j: int| 0 <= j < i ==> (#[trigger] s[j] as int) < b,
        decreases succ.len() - i,
    {
        proof {
            assert(s[i as int] == succ@[i as int].0);
        }
        if (succ[i].0 as usize) >= b {
            return false;
        }
        i = i + 1;
    }
    true
}

/// Whether `graph` is one the conversion accepts: block and node ids fit in
/// 32 bits, every node id a block mentions is in the pool, every target is
/// a block, and the pool with any one block fits the address space.
pub fn graph_is_valid(graph: &BasicBlockGraph) -> (r: bool)
    ensures
        r == graph_wf(graph@),
{
    let ghost g = graph@;
    let nb = graph.bbs.len();
    let n = graph.nodes.len();
    if nb as u64 > 0x1_0000_0000u64 || n as u64 > 0x1_0000_0000u64 {
        return false;
    }
    let ghost k = n as int;
    let mut b: usize = 0;
    while b < nb
        invariant
            b <= nb,
            nb == graph.bbs.len(),
            n == graph.nodes.len(),
            g == graph@,
            k == n,
            nb <= id_space(),
            k <= id_space(),
            forall|c: int| 0 <= c < b ==> k + (#[trigger] g.bbs[c]).node_ids.len() <= usize::MAX,
            forall|c: int, i: int|
                0 <= c < b && 0 <= i < g.bbs[c].node_ids.len() ==> (#[trigger] g.bbs[c].node_ids[i] as int) < k,
            forall|c: int, j: int|
                0 <= c < b && 0 <= j < g.bbs[c].node_ids.len() ==> node_refs_below(
                    g.nodes[#[trigger] g.bbs[c].node_ids[j] as int],
                    k,
                ),
            forall|c: int| 0 <= c < b ==> term_refs_below((#[trigger] g.bbs[c]).terminator, k),
            forall|c: int, j: int|
                0 <= c < b && 0 <= j < successors(g.bbs[c].terminator).len() ==> (
                #[trigger] successors(g.bbs[c].terminator)[j] as int) < nb,
        decreases nb - b,
    {
        let bb = &graph.bbs[b];
        let ghost blk = g.bbs[b as int];
        proof {
            assert(blk == bb@);
        }
        let ids = bb.node_ids.as_slice();
        if n.checked_add(ids.len()).is_none() {
            proof {
                assert(blk.node_ids.len() == ids@.len());
            }
            return false;
        }
        let mut i: usize = 0;
        while i < ids.len()
            invariant
                i <= ids.len(),
                b < nb,
                nb == graph.bbs.len(),
                n == graph.nodes.len(),
                g == graph@,
                k == n,
                blk == g.bbs[b as int],
                blk.node_ids == crate::basicblock::node_ids_model(ids@),
                forall|j: int| 0 <= j < i ==> (#[trigger] blk.node_ids[j] as int) < k,
                forall|j: int| 0 <= j < i ==> node_refs_below(g.nodes[#[trigger] blk.node_ids[j] as int], k),
            decreases ids.len() - i,
        {
            let id = ids[i];
            proof {
                assert(blk.node_ids[i as int] == id.0);
            }
            if (id.0 as usize) >= n {
                proof {
                    assert(!listed_below(g.bbs, k)) by {
                        assert(!((g.bbs[b as int].node_ids[i as int] as int) < k));
                    }
                }
                return false;
            }
            if !node_in_pool(&graph.nodes[id.0 as usize], n) {
                proof {
                    assert(graph.nodes@[id.0 as int]@ == g.nodes[id.0 as int]);
                    assert(!node_refs_below(g.nodes[g.bbs[b as int].node_ids[i as int] as int], k));
                }
                return false;
            }
            proof {
                assert(graph.nodes@[id.0 as int]@ == g.nodes[id.0 as int]);
            }
            i = i + 1;
        }
        if !term_in_pool(&bb.terminator, n) {
            proof {
                assert(!term_refs_below(g.bbs[b as int].terminator, k));
            }
            return false;
        }
        if !targets_below(&bb.terminator, nb) {
            proof {
                let j = choose|j: int|
                    0 <= j < successors(blk.terminator).len() && !((successors(blk.terminator)[j] as int) < nb);
                assert(!((successors(g.bbs[b as int].terminator)[j] as int) < g.bbs.len()));
            }
            return false;
        }
        b = b + 1;
    }
    true
}

} // verus!
