//! What the conversion computes, stated over the models of `crate::model`.
use vstd::prelude::*;
use crate::common::RawTypeModel;
use crate::model::{
    arg_values, node_refs, same_shape, successors, term_common_args, term_effect_args,
    with_common_args, with_effect_args, BlockModel, ContModel, EffectArgModel, FlatGraphModel,
    GraphModel, NodeModel, TermModel, ValueModel,
};

verus! {

// ---------------------------------------------------------------------------
// Sequences
// ---------------------------------------------------------------------------

/// `s` without repeated elements: each element kept at its first occurrence.
pub open spec fn dedup_seq<A>(s: Seq<A>) -> Seq<A>
    decreases s.len(),
{
    if s.len() == 0 {
        s
    } else {
        let d = dedup_seq(s.drop_last());
        if d.contains(s.last()) {
            d
        } else {
            d.push(s.last())
        }
    }
}

/// An element of `s.push(a)` is `a` or an element of `s`.
pub proof fn lemma_push_contains<A>(s: Seq<A>, a: A, x: A)
    ensures
        s.push(a).contains(x) <==> (s.contains(x) || a == x),
{
    if s.contains(x) {
        let j = choose|j: int| 0 <= j < s.len() && s[j] == x;
        assert(s.push(a)[j] == x);
    }
    if a == x {
        assert(s.push(a)[s.len() as int] == x);
    }
    if s.push(a).contains(x) {
        let j = choose|j: int| 0 <= j < s.push(a).len() && s.push(a)[j] == x;
        if j < s.len() {
            assert(s[j] == x);
        }
    }
}

/// A non-empty `s` is `s.drop_last()` with its last element pushed.
pub proof fn lemma_drop_last_push<A>(s: Seq<A>)
    requires
        s.len() > 0,
    ensures
        s.drop_last().push(s.last()) == s,
{
    assert(s.drop_last().push(s.last()) =~= s);
}

/// `dedup_seq(s)` holds exactly the elements of `s`.
pub proof fn lemma_dedup_contains<A>(s: Seq<A>, x: A)
    ensures
        dedup_seq(s).contains(x) <==> s.contains(x),
    decreases s.len(),
{
    if s.len() > 0 {
        let d = dedup_seq(s.drop_last());
        lemma_dedup_contains(s.drop_last(), x);
        lemma_dedup_contains(s.drop_last(), s.last());
        lemma_drop_last_push(s);
        lemma_push_contains(s.drop_last(), s.last(), x);
        lemma_push_contains(d, s.last(), x);
    }
}

/// Number of occurrences of `x` in `s`.
pub open spec fn count_of(s: Seq<u32>, x: int) -> nat
    decreases s.len(),
{
    if s.len() == 0 {
        0
    } else {
        count_of(s.drop_last(), x) + if s.last() as int == x {
            1nat
        } else {
            0nat
        }
    }
}

// ---------------------------------------------------------------------------
// Node inputs
// ---------------------------------------------------------------------------

/// The operands through which a node consumes effect tokens.
pub open spec fn effect_operands(n: NodeModel) -> Seq<ValueModel> {
    match n {
        NodeModel::Load { effect_state, .. } => seq![effect_state],
        NodeModel::Store { effect_state, .. } => seq![effect_state],
        NodeModel::AtomicCAS { effect_state, .. } => seq![effect_state],
        NodeModel::AtomicRMW { effect_state, .. } => seq![effect_state],
        NodeModel::TokenMerge(vs) => vs,
        NodeModel::Call { effect_args, .. } => arg_values(effect_args),
        _ => seq![],
    }
}

/// The operands through which a node consumes ordinary values.
pub open spec fn common_operands(n: NodeModel) -> Seq<ValueModel> {
    match n {
        NodeModel::Load { addr, .. } => seq![addr],
        NodeModel::Store { addr, value, .. } => seq![addr, value],
        NodeModel::AtomicCAS { addr, old, new, .. } => seq![addr, old, new],
        NodeModel::AtomicRMW { addr, value, .. } => seq![addr, value],
        NodeModel::GEP(_, base, indices) => seq![base] + indices,
        NodeModel::Select(c, t, f) => seq![c, t, f],
        NodeModel::Icmp(_, a, b) => seq![a, b],
        NodeModel::Compute(_, ops) => ops,
        NodeModel::Proj(v, _) => seq![v],
        NodeModel::Call { target, args, .. } => seq![target] + args,
        _ => seq![],
    }
}

/// The pool nodes a node reads: effect inputs first, ordinary inputs
/// second, each without repetition.
pub open spec fn node_inputs(n: NodeModel) -> (Seq<u32>, Seq<u32>) {
    (dedup_seq(node_refs(effect_operands(n))), dedup_seq(node_refs(common_operands(n))))
}

/// One of the two input lists of `node_inputs`.
pub open spec fn inputs_of(n: NodeModel, effect: bool) -> Seq<u32> {
    if effect {
        node_inputs(n).0
    } else {
        node_inputs(n).1
    }
}

/// Whether a node is a block parameter rather than a computation.
pub open spec fn is_param_node(n: NodeModel) -> bool {
    n is Param || n is EffectParam
}

// ---------------------------------------------------------------------------
// Control flow
// ---------------------------------------------------------------------------

/// The predecessors of block `t` among the first `k` blocks: each block `i`
/// once per time its terminator names `t`, in increasing order of `i`.
pub open spec fn preds_upto(bbs: Seq<BlockModel>, t: int, k: int) -> Seq<u32>
    decreases k,
{
    if k <= 0 {
        seq![]
    } else {
        preds_upto(bbs, t, k - 1) + Seq::new(
            count_of(successors(bbs[k - 1].terminator), t),
            |j: int| (k - 1) as u32,
        )
    }
}

/// The predecessors of block `t`.
pub open spec fn preds(bbs: Seq<BlockModel>, t: int) -> Seq<u32> {
    preds_upto(bbs, t, bbs.len() as int)
}

/// The number of distinct 32-bit ids.
pub open spec fn id_space() -> int {
    0x1_0000_0000
}

/// Every node id a block lists is below `n`.
pub open spec fn listed_below(bbs: Seq<BlockModel>, n: int) -> bool {
    forall|b: int, i: int|
        0 <= b < bbs.len() && 0 <= i < bbs[b].node_ids.len() ==> (#[trigger] bbs[b].node_ids[i] as int) < n
}

/// Block index `h` as stored in a table, with `usize::MAX` for "none".
pub open spec fn block_slot(h: int) -> usize {
    if h >= 0 {
        h as usize
    } else {
        usize::MAX
    }
}

/// Predecessor lists name only blocks that exist.
pub proof fn lemma_preds_upto_range(bbs: Seq<BlockModel>, t: int, k: int)
    requires
        0 <= k <= id_space(),
    ensures
        forall|j: int| 0 <= j < preds_upto(bbs, t, k).len() ==> (#[trigger] preds_upto(bbs, t, k)[j] as int) < k,
    decreases k,
{
    if k > 0 {
        lemma_preds_upto_range(bbs, t, k - 1);
        let prev = preds_upto(bbs, t, k - 1);
        let extra = Seq::new(count_of(successors(bbs[k - 1].terminator), t), |j: int| (k - 1) as u32);
        assert forall|j: int| 0 <= j < preds_upto(bbs, t, k).len() implies (#[trigger] preds_upto(bbs, t, k)[j] as int) < k by {
            if j >= prev.len() {
                assert(preds_upto(bbs, t, k)[j] == extra[j - prev.len()]);
            }
        }
    }
}

/// Every input of every node a block lists is below `n`.
pub open spec fn inputs_below(bbs: Seq<BlockModel>, nodes: Seq<NodeModel>, n: int) -> bool {
    forall|b: int, i: int, e: bool, j: int|
        0 <= b < bbs.len() && 0 <= i < bbs[b].node_ids.len() && 0 <= j < inputs_of(
            nodes[bbs[b].node_ids[i] as int],
            e,
        ).len() ==> (#[trigger] inputs_of(nodes[bbs[b].node_ids[i] as int], e)[j] as int) < n
}

/// The last of the first `k` blocks that lists node `n`, or -1.
pub open spec fn home_upto(bbs: Seq<BlockModel>, n: u32, k: int) -> int
    decreases k,
{
    if k <= 0 {
        -1
    } else if bbs[k - 1].node_ids.contains(n) {
        k - 1
    } else {
        home_upto(bbs, n, k - 1)
    }
}

/// The block that defines node `n` (the last one listing it), or -1.
pub open spec fn home_block(bbs: Seq<BlockModel>, n: u32) -> int {
    home_upto(bbs, n, bbs.len() as int)
}

/// The visible sets of the blocks in `ps` that precede index `vis.len()`,
/// concatenated in the order of `ps`.
pub open spec fn gather_visible(ps: Seq<u32>, vis: Seq<Seq<u32>>) -> Seq<u32>
    decreases ps.len(),
{
    if ps.len() == 0 {
        seq![]
    } else {
        gather_visible(ps.drop_last(), vis) + if (ps.last() as int) < vis.len() {
            vis[ps.last() as int]
        } else {
            seq![]
        }
    }
}

/// Visible sets of the first `k` blocks: a block sees its own nodes, then
/// whatever its earlier-numbered predecessors see, without repetition.
pub open spec fn visible_upto(bbs: Seq<BlockModel>, k: int) -> Seq<Seq<u32>>
    decreases k,
{
    if k <= 0 {
        seq![]
    } else {
        let prev = visible_upto(bbs, k - 1);
        prev.push(dedup_seq(bbs[k - 1].node_ids + gather_visible(preds(bbs, k - 1), prev)))
    }
}

/// `visible_upto` grows by one set per block and never revises earlier sets.
pub proof fn lemma_visible_upto_prefix(bbs: Seq<BlockModel>, k: int, b: int)
    requires
        0 <= b < k,
    ensures
        visible_upto(bbs, k).len() == k,
        visible_upto(bbs, k)[b] == visible_upto(bbs, b + 1)[b],
    decreases k,
{
    lemma_visible_upto_len(bbs, k);
    if k > b + 1 {
        lemma_visible_upto_prefix(bbs, k - 1, b);
    }
}

pub proof fn lemma_visible_upto_len(bbs: Seq<BlockModel>, k: int)
    requires
        0 <= k,
    ensures
        visible_upto(bbs, k).len() == k,
    decreases k,
{
    if k > 0 {
        lemma_visible_upto_len(bbs, k - 1);
    }
}

/// The nodes visible at the end of block `b`.
pub open spec fn visible(bbs: Seq<BlockModel>, b: int) -> Seq<u32> {
    visible_upto(bbs, bbs.len() as int)[b]
}

// ---------------------------------------------------------------------------
// Cross-block uses
// ---------------------------------------------------------------------------

/// The ids among `ids` that block `b` does not define, in order.
pub open spec fn not_from(bbs: Seq<BlockModel>, ids: Seq<u32>, b: int) -> Seq<u32>
    decreases ids.len(),
{
    if ids.len() == 0 {
        seq![]
    } else {
        let r = not_from(bbs, ids.drop_last(), b);
        if home_block(bbs, ids.last()) != b {
            r.push(ids.last())
        } else {
            r
        }
    }
}

/// The ids among `ids` that occur in `vis`, in order.
pub open spec fn visible_among(ids: Seq<u32>, vis: Seq<u32>) -> Seq<u32>
    decreases ids.len(),
{
    if ids.len() == 0 {
        seq![]
    } else {
        let r = visible_among(ids.drop_last(), vis);
        if vis.contains(ids.last()) {
            r.push(ids.last())
        } else {
            r
        }
    }
}

/// The inputs (effect or ordinary) of the first `k` nodes block `b` lists
/// that some other block defines, node by node.
pub open spec fn foreign_inputs_upto(
    bbs: Seq<BlockModel>,
    nodes: Seq<NodeModel>,
    b: int,
    effect: bool,
    k: int,
) -> Seq<u32>
    decreases k,
{
    if k <= 0 {
        seq![]
    } else {
        foreign_inputs_upto(bbs, nodes, b, effect, k - 1) + not_from(
            bbs,
            inputs_of(nodes[bbs[b].node_ids[k - 1] as int], effect),
            b,
        )
    }
}

/// The inputs of block `b`'s nodes that some other block defines.
pub open spec fn foreign_inputs(bbs: Seq<BlockModel>, nodes: Seq<NodeModel>, b: int, effect: bool) -> Seq<u32> {
    foreign_inputs_upto(bbs, nodes, b, effect, bbs[b].node_ids.len() as int)
}

/// What block `b` asks its predecessor `p` to pass on: those of its foreign
/// inputs that are visible at the end of `p`.
pub open spec fn requests(
    bbs: Seq<BlockModel>,
    nodes: Seq<NodeModel>,
    p: int,
    b: int,
    effect: bool,
) -> Seq<u32> {
    if preds(bbs, b).contains(p as u32) {
        visible_among(foreign_inputs(bbs, nodes, b, effect), visible(bbs, p))
    } else {
        seq![]
    }
}

/// What the first `k` blocks ask block `p` to pass on, block by block.
pub open spec fn requests_upto(
    bbs: Seq<BlockModel>,
    nodes: Seq<NodeModel>,
    p: int,
    effect: bool,
    k: int,
) -> Seq<u32>
    decreases k,
{
    if k <= 0 {
        seq![]
    } else {
        requests_upto(bbs, nodes, p, effect, k - 1) + requests(bbs, nodes, p, k - 1, effect)
    }
}

/// The last block, among the first `k`, that uses node `n` as a foreign
/// input and has a predecessor; -1 if there is none.
pub open spec fn last_use_upto(
    bbs: Seq<BlockModel>,
    nodes: Seq<NodeModel>,
    n: u32,
    effect: bool,
    k: int,
) -> int
    decreases k,
{
    if k <= 0 {
        -1
    } else if foreign_inputs(bbs, nodes, k - 1, effect).contains(n) && preds(bbs, k - 1).len() > 0 {
        k - 1
    } else {
        last_use_upto(bbs, nodes, n, effect, k - 1)
    }
}

/// The last block that uses node `n` as a foreign input; -1 if none does.
pub open spec fn last_use(bbs: Seq<BlockModel>, nodes: Seq<NodeModel>, n: u32, effect: bool) -> int {
    last_use_upto(bbs, nodes, n, effect, bbs.len() as int)
}

// ---------------------------------------------------------------------------
// Terminator arguments
// ---------------------------------------------------------------------------

/// `args` with an unnamed argument for node `n` appended, unless some
/// argument already passes `n`.
pub open spec fn add_effect_ref(args: Seq<EffectArgModel>, n: u32) -> Seq<EffectArgModel> {
    if arg_values(args).contains(ValueModel::Node(n)) {
        args
    } else {
        args.push((seq![], ValueModel::Node(n)))
    }
}

/// `args` with node `n` appended, unless it already passes `n`.
pub open spec fn add_common_ref(args: Seq<ValueModel>, n: u32) -> Seq<ValueModel> {
    if args.contains(ValueModel::Node(n)) {
        args
    } else {
        args.push(ValueModel::Node(n))
    }
}

/// `args` after `add_effect_ref` for each of `ids` in turn.
pub open spec fn add_effect_refs(args: Seq<EffectArgModel>, ids: Seq<u32>) -> Seq<EffectArgModel>
    decreases ids.len(),
{
    if ids.len() == 0 {
        args
    } else {
        add_effect_ref(add_effect_refs(args, ids.drop_last()), ids.last())
    }
}

/// `args` after `add_common_ref` for each of `ids` in turn.
pub open spec fn add_common_refs(args: Seq<ValueModel>, ids: Seq<u32>) -> Seq<ValueModel>
    decreases ids.len(),
{
    if ids.len() == 0 {
        args
    } else {
        add_common_ref(add_common_refs(args, ids.drop_last()), ids.last())
    }
}

/// Terminator `t` once it passes the effect inputs `re` and the ordinary
/// inputs `rc` on top of its own arguments.
pub open spec fn with_requests(t: TermModel, re: Seq<u32>, rc: Seq<u32>) -> TermModel {
    with_common_args(
        with_effect_args(t, add_effect_refs(term_effect_args(t), re)),
        add_common_refs(term_common_args(t), rc),
    )
}

/// The terminator of block `p` after the first pass: everything its
/// successors ask of it is passed on.
pub open spec fn pass1_terminator(bbs: Seq<BlockModel>, nodes: Seq<NodeModel>, p: int) -> TermModel {
    with_requests(bbs[p].terminator, pass1_requests(bbs, nodes, p, true), pass1_requests(bbs, nodes, p, false))
}

/// What the first pass has block `p` pass on: what its successors ask of
/// it directly, then, in increasing order, every other node it must carry
/// to a block further on.
pub open spec fn pass1_requests(bbs: Seq<BlockModel>, nodes: Seq<NodeModel>, p: int, effect: bool) -> Seq<u32> {
    requests_upto(bbs, nodes, p, effect, bbs.len() as int) + crate::carry::carried_upto(
        bbs,
        nodes,
        p,
        effect,
        nodes.len() as int,
    )
}

/// The values as unnamed effect arguments.
pub open spec fn unnamed(vs: Seq<ValueModel>) -> Seq<EffectArgModel> {
    vs.map_values(|v: ValueModel| (Seq::<char>::empty(), v))
}

} // verus!

verus! {

// ---------------------------------------------------------------------------
// Lemmas on terminator arguments
// ---------------------------------------------------------------------------

pub proof fn lemma_with_args_accessors(t: TermModel, e: Seq<EffectArgModel>, c: Seq<ValueModel>)
    ensures
        term_effect_args(with_effect_args(t, e)) == e,
        term_common_args(with_effect_args(t, e)) == term_common_args(t),
        term_common_args(with_common_args(t, c)) == c,
        term_effect_args(with_common_args(t, c)) == term_effect_args(t),
        successors(with_effect_args(t, e)) == successors(t),
        successors(with_common_args(t, c)) == successors(t),
        same_shape(with_effect_args(t, e), t),
        same_shape(with_common_args(t, c), t),
{
}

pub proof fn lemma_with_args_overwrite(
    t: TermModel,
    e1: Seq<EffectArgModel>,
    e2: Seq<EffectArgModel>,
    c1: Seq<ValueModel>,
    c2: Seq<ValueModel>,
)
    ensures
        with_effect_args(with_common_args(with_effect_args(t, e1), c1), e2) == with_common_args(
            with_effect_args(t, e2),
            c1,
        ),
        with_common_args(with_common_args(with_effect_args(t, e1), c1), c2) == with_common_args(
            with_effect_args(t, e1),
            c2,
        ),
{
}

/// Adding a reference keeps every value already passed.
pub proof fn lemma_add_effect_ref_keeps(args: Seq<EffectArgModel>, n: u32, v: ValueModel)
    ensures
        arg_values(args).contains(v) ==> arg_values(add_effect_ref(args, n)).contains(v),
        arg_values(add_effect_ref(args, n)).contains(ValueModel::Node(n)),
{
    if !arg_values(args).contains(ValueModel::Node(n)) {
        let a = args.push((seq![], ValueModel::Node(n)));
        assert(arg_values(a) =~= arg_values(args).push(ValueModel::Node(n)));
        lemma_push_contains(arg_values(args), ValueModel::Node(n), v);
        lemma_push_contains(arg_values(args), ValueModel::Node(n), ValueModel::Node(n));
    }
}

pub proof fn lemma_add_common_ref_keeps(args: Seq<ValueModel>, n: u32, v: ValueModel)
    ensures
        args.contains(v) ==> add_common_ref(args, n).contains(v),
        add_common_ref(args, n).contains(ValueModel::Node(n)),
{
    if !args.contains(ValueModel::Node(n)) {
        lemma_push_contains(args, ValueModel::Node(n), v);
        lemma_push_contains(args, ValueModel::Node(n), ValueModel::Node(n));
    }
}

/// Every requested id ends up passed.
pub proof fn lemma_add_effect_refs_passes(args: Seq<EffectArgModel>, ids: Seq<u32>, n: u32)
    ensures
        ids.contains(n) ==> arg_values(add_effect_refs(args, ids)).contains(ValueModel::Node(n)),
        forall|v: ValueModel| arg_values(args).contains(v) ==> arg_values(add_effect_refs(args, ids)).contains(v),
    decreases ids.len(),
{
    if ids.len() > 0 {
        lemma_add_effect_refs_passes(args, ids.drop_last(), n);
        let a = add_effect_refs(args, ids.drop_last());
        lemma_drop_last_push(ids);
        lemma_push_contains(ids.drop_last(), ids.last(), n);
        lemma_add_effect_ref_keeps(a, ids.last(), ValueModel::Node(n));
        assert forall|v: ValueModel| arg_values(args).contains(v) implies arg_values(add_effect_refs(args, ids)).contains(v) by {
            lemma_add_effect_ref_keeps(a, ids.last(), v);
        }
    }
}

pub proof fn lemma_add_common_refs_passes(args: Seq<ValueModel>, ids: Seq<u32>, n: u32)
    ensures
        ids.contains(n) ==> add_common_refs(args, ids).contains(ValueModel::Node(n)),
        forall|v: ValueModel| args.contains(v) ==> add_common_refs(args, ids).contains(v),
    decreases ids.len(),
{
    if ids.len() > 0 {
        lemma_add_common_refs_passes(args, ids.drop_last(), n);
        let a = add_common_refs(args, ids.drop_last());
        lemma_drop_last_push(ids);
        lemma_push_contains(ids.drop_last(), ids.last(), n);
        lemma_add_common_ref_keeps(a, ids.last(), ValueModel::Node(n));
        assert forall|v: ValueModel| args.contains(v) implies add_common_refs(args, ids).contains(v) by {
            lemma_add_common_ref_keeps(a, ids.last(), v);
        }
    }
}

/// Passing one more effect input on top of `with_requests`.
pub proof fn lemma_request_effect(t: TermModel, re: Seq<u32>, rc: Seq<u32>, n: u32)
    ensures
        with_effect_args(
            with_requests(t, re, rc),
            add_effect_ref(term_effect_args(with_requests(t, re, rc)), n),
        ) == with_requests(t, re.push(n), rc),
        re.contains(n) ==> with_requests(t, re.push(n), rc) == with_requests(t, re, rc),
{
    assert(re.push(n).drop_last() =~= re);
    lemma_add_effect_refs_passes(term_effect_args(t), re, n);
}

/// Passing one more ordinary input on top of `with_requests`.
pub proof fn lemma_request_common(t: TermModel, re: Seq<u32>, rc: Seq<u32>, n: u32)
    ensures
        with_common_args(
            with_requests(t, re, rc),
            add_common_ref(term_common_args(with_requests(t, re, rc)), n),
        ) == with_requests(t, re, rc.push(n)),
        rc.contains(n) ==> with_requests(t, re, rc.push(n)) == with_requests(t, re, rc),
{
    assert(rc.push(n).drop_last() =~= rc);
    lemma_add_common_refs_passes(term_common_args(t), rc, n);
}

/// `visible_among` distributes over concatenation.
pub proof fn lemma_visible_among_add(a: Seq<u32>, b: Seq<u32>, vis: Seq<u32>)
    ensures
        visible_among(a + b, vis) == visible_among(a, vis) + visible_among(b, vis),
    decreases b.len(),
{
    if b.len() == 0 {
        assert(a + b =~= a);
        assert(visible_among(a, vis) + visible_among(b, vis) =~= visible_among(a, vis));
    } else {
        lemma_visible_among_add(a, b.drop_last(), vis);
        assert((a + b).drop_last() =~= a + b.drop_last());
        assert((a + b).last() == b.last());
        if vis.contains(b.last()) {
            assert(visible_among(a, vis) + visible_among(b, vis) =~= (visible_among(a, vis)
                + visible_among(b.drop_last(), vis)).push(b.last()));
        } else {
            assert(visible_among(a, vis) + visible_among(b, vis) =~= visible_among(a, vis)
                + visible_among(b.drop_last(), vis));
        }
    }
}

/// `x` occurs in `a + b` iff it occurs in `a` or in `b`.
pub proof fn lemma_add_contains<A>(a: Seq<A>, b: Seq<A>, x: A)
    ensures
        (a + b).contains(x) <==> (a.contains(x) || b.contains(x)),
{
    if a.contains(x) {
        let j = choose|j: int| 0 <= j < a.len() && a[j] == x;
        assert((a + b)[j] == x);
    }
    if b.contains(x) {
        let j = choose|j: int| 0 <= j < b.len() && b[j] == x;
        assert((a + b)[a.len() + j] == x);
    }
    if (a + b).contains(x) {
        let j = choose|j: int| 0 <= j < (a + b).len() && (a + b)[j] == x;
        if j < a.len() {
            assert(a[j] == x);
        } else {
            assert(b[j - a.len()] == x);
        }
    }
}

} // verus!

verus! {

// ---------------------------------------------------------------------------
// Pass 2: propagation and pruning
// ---------------------------------------------------------------------------

/// `req` with each of `more` appended that it does not hold yet.
pub open spec fn append_new(req: Seq<ValueModel>, more: Seq<ValueModel>) -> Seq<ValueModel>
    decreases more.len(),
{
    if more.len() == 0 {
        req
    } else {
        let r = append_new(req, more.drop_last());
        if r.contains(more.last()) {
            r
        } else {
            r.push(more.last())
        }
    }
}

/// The ordinary arguments of the terminators of blocks `ps`, concatenated.
pub open spec fn gather_common(terms: Seq<TermModel>, ps: Seq<u32>) -> Seq<ValueModel>
    decreases ps.len(),
{
    if ps.len() == 0 {
        seq![]
    } else {
        gather_common(terms, ps.drop_last()) + term_common_args(terms[ps.last() as int])
    }
}

/// The effect argument values of the terminators of blocks `ps`,
/// concatenated.
pub open spec fn gather_effect(terms: Seq<TermModel>, ps: Seq<u32>) -> Seq<ValueModel>
    decreases ps.len(),
{
    if ps.len() == 0 {
        seq![]
    } else {
        gather_effect(terms, ps.drop_last()) + arg_values(term_effect_args(terms[ps.last() as int]))
    }
}

/// Whether value `v` is still used after block `b`, by the table of last
/// uses `ends` (`usize::MAX` for none).
pub open spec fn live_after(v: ValueModel, ends: Seq<usize>, b: int) -> bool {
    match v {
        ValueModel::Node(n) => ends[n as int] != usize::MAX && ends[n as int] > b,
        _ => false,
    }
}

/// The values of `req` that are in `own` or still used after block `b`.
pub open spec fn keep_live(req: Seq<ValueModel>, own: Seq<ValueModel>, ends: Seq<usize>, b: int) -> Seq<ValueModel>
    decreases req.len(),
{
    if req.len() == 0 {
        seq![]
    } else {
        let r = keep_live(req.drop_last(), own, ends, b);
        if own.contains(req.last()) || live_after(req.last(), ends, b) {
            r.push(req.last())
        } else {
            r
        }
    }
}

/// A block's own arguments, then the new ones its predecessors pass,
/// keeping inherited ones only while a later block still uses them.
pub open spec fn propagated(own: Seq<ValueModel>, inherited: Seq<ValueModel>, ends: Seq<usize>, b: int) -> Seq<ValueModel> {
    keep_live(append_new(own, inherited), own, ends, b)
}

/// The ordinary arguments block `b` passes after propagation: its own,
/// then each new one some predecessor passes and a later block still uses.
pub open spec fn propagate_common(terms: Seq<TermModel>, ps: Seq<u32>, ends: Seq<usize>, b: int) -> Seq<ValueModel> {
    propagated(term_common_args(terms[b]), gather_common(terms, ps), ends, b)
}

/// The effect argument values block `b` passes after propagation.
pub open spec fn propagate_effect(terms: Seq<TermModel>, ps: Seq<u32>, ends: Seq<usize>, b: int) -> Seq<ValueModel> {
    propagated(arg_values(term_effect_args(terms[b])), gather_effect(terms, ps), ends, b)
}

/// The terminators after blocks `0..k` have been propagated, in order;
/// a block reads its predecessors' terminators as they stand then.
pub open spec fn pass2_upto(
    terms: Seq<TermModel>,
    pres: Seq<Seq<u32>>,
    eff_ends: Seq<usize>,
    com_ends: Seq<usize>,
    k: int,
) -> Seq<TermModel>
    decreases k,
{
    if k <= 0 {
        terms
    } else {
        let prev = pass2_upto(terms, pres, eff_ends, com_ends, k - 1);
        let b = k - 1;
        prev.update(
            b,
            with_common_args(
                with_effect_args(prev[b], unnamed(propagate_effect(prev, pres[b], eff_ends, b))),
                propagate_common(prev, pres[b], com_ends, b),
            ),
        )
    }
}

/// Every node a value list refers to is below `n`.
pub open spec fn refs_below(vs: Seq<ValueModel>, n: int) -> bool {
    forall|j: int| 0 <= j < vs.len() && (#[trigger] vs[j]) is Node ==> (vs[j]->Node_0 as int) < n
}

/// Every node the arguments of every terminator refer to is below `n`.
pub open spec fn args_below(terms: Seq<TermModel>, n: int) -> bool {
    forall|p: int| 0 <= p < terms.len() ==> {
        &&& refs_below(term_common_args(#[trigger] terms[p]), n)
        &&& refs_below(arg_values(term_effect_args(terms[p])), n)
    }
}

} // verus!

verus! {

pub proof fn lemma_append_new_add(req: Seq<ValueModel>, a: Seq<ValueModel>, b: Seq<ValueModel>)
    ensures
        append_new(req, a + b) == append_new(append_new(req, a), b),
    decreases b.len(),
{
    if b.len() == 0 {
        assert(a + b =~= a);
    } else {
        lemma_append_new_add(req, a, b.drop_last());
        assert((a + b).drop_last() =~= a + b.drop_last());
        assert((a + b).last() == b.last());
    }
}

/// Every value `append_new` yields comes from `req` or from `more`.
pub proof fn lemma_append_new_contains(req: Seq<ValueModel>, more: Seq<ValueModel>, v: ValueModel)
    ensures
        append_new(req, more).contains(v) ==> (req.contains(v) || more.contains(v)),
    decreases more.len(),
{
    if more.len() > 0 {
        lemma_append_new_contains(req, more.drop_last(), v);
        let r = append_new(req, more.drop_last());
        lemma_push_contains(r, more.last(), v);
        lemma_drop_last_push(more);
        lemma_push_contains(more.drop_last(), more.last(), v);
    }
}

pub proof fn lemma_gather_common_push(terms: Seq<TermModel>, ps: Seq<u32>, p: u32)
    ensures
        gather_common(terms, ps.push(p)) == gather_common(terms, ps) + term_common_args(terms[p as int]),
        gather_effect(terms, ps.push(p)) == gather_effect(terms, ps) + arg_values(term_effect_args(terms[p as int])),
{
    assert(ps.push(p).drop_last() =~= ps);
}

} // verus!

verus! {

/// `refs_below` for a list whose values all come from two lists that
/// satisfy it.
pub proof fn lemma_refs_below_from(s: Seq<ValueModel>, t: Seq<ValueModel>, u: Seq<ValueModel>, n: int)
    requires
        forall|v: ValueModel| #[trigger] s.contains(v) ==> (t.contains(v) || u.contains(v)),
        refs_below(t, n),
        refs_below(u, n),
    ensures
        refs_below(s, n),
{
    assert forall|j: int| 0 <= j < s.len() && (#[trigger] s[j]) is Node implies (s[j]->Node_0 as int) < n by {
        let v = s[j];
        assert(s.contains(v));
        if t.contains(v) {
            let k = choose|k: int| 0 <= k < t.len() && t[k] == v;
        } else {
            let k = choose|k: int| 0 <= k < u.len() && u[k] == v;
        }
    }
}

pub proof fn lemma_refs_below_add(a: Seq<ValueModel>, b: Seq<ValueModel>, n: int)
    requires
        refs_below(a, n),
        refs_below(b, n),
    ensures
        refs_below(a + b, n),
{
    assert forall|v: ValueModel| #[trigger] (a + b).contains(v) implies (a.contains(v) || b.contains(v)) by {
        lemma_add_contains(a, b, v);
    }
    lemma_refs_below_from(a + b, a, b, n);
}

pub proof fn lemma_gather_below(terms: Seq<TermModel>, ps: Seq<u32>, n: int)
    requires
        args_below(terms, n),
        forall|q: int| 0 <= q < ps.len() ==> (#[trigger] ps[q] as int) < terms.len(),
    ensures
        refs_below(gather_common(terms, ps), n),
        refs_below(gather_effect(terms, ps), n),
    decreases ps.len(),
{
    if ps.len() > 0 {
        lemma_gather_below(terms, ps.drop_last(), n);
        let p = ps.last() as int;
        assert(ps[ps.len() - 1] == ps.last());
        assert(refs_below(term_common_args(terms[p]), n));
        lemma_refs_below_add(gather_common(terms, ps.drop_last()), term_common_args(terms[p]), n);
        lemma_refs_below_add(gather_effect(terms, ps.drop_last()), arg_values(term_effect_args(terms[p])), n);
    }
}

/// Every value `keep_live` yields comes from `req`.
pub proof fn lemma_keep_live_contains(req: Seq<ValueModel>, own: Seq<ValueModel>, ends: Seq<usize>, b: int, v: ValueModel)
    ensures
        keep_live(req, own, ends, b).contains(v) ==> req.contains(v),
    decreases req.len(),
{
    if req.len() > 0 {
        lemma_keep_live_contains(req.drop_last(), own, ends, b, v);
        lemma_push_contains(keep_live(req.drop_last(), own, ends, b), req.last(), v);
        lemma_drop_last_push(req);
        lemma_push_contains(req.drop_last(), req.last(), v);
    }
}

pub proof fn lemma_propagated_below(own: Seq<ValueModel>, inh: Seq<ValueModel>, ends: Seq<usize>, b: int, n: int)
    requires
        refs_below(own, n),
        refs_below(inh, n),
    ensures
        refs_below(propagated(own, inh, ends, b), n),
        refs_below(arg_values(unnamed(propagated(own, inh, ends, b))), n),
{
    let r = propagated(own, inh, ends, b);
    assert forall|v: ValueModel| #[trigger] r.contains(v) implies (own.contains(v) || inh.contains(v)) by {
        lemma_keep_live_contains(append_new(own, inh), own, ends, b, v);
        lemma_append_new_contains(own, inh, v);
    }
    lemma_refs_below_from(r, own, inh, n);
    assert(arg_values(unnamed(r)) =~= r);
}

} // verus!

verus! {

// ---------------------------------------------------------------------------
// Remapping global node ids to local indices
// ---------------------------------------------------------------------------

/// `v` with its node id looked up in the table `m`.
pub open spec fn remap_value(v: ValueModel, m: Seq<usize>) -> ValueModel {
    match v {
        ValueModel::Node(n) => ValueModel::Node(m[n as int] as u32),
        _ => v,
    }
}

pub open spec fn remap_values(vs: Seq<ValueModel>, m: Seq<usize>) -> Seq<ValueModel> {
    vs.map_values(|v: ValueModel| remap_value(v, m))
}

pub open spec fn remap_args(args: Seq<EffectArgModel>, m: Seq<usize>) -> Seq<EffectArgModel> {
    args.map_values(|a: EffectArgModel| (a.0, remap_value(a.1, m)))
}

/// Node `n` with every operand looked up in the table `m`.
pub open spec fn remap_node_model(n: NodeModel, m: Seq<usize>) -> NodeModel {
    match n {
        NodeModel::Load { data_type, effect_state, addr, signed } => NodeModel::Load {
            data_type,
            effect_state: remap_value(effect_state, m),
            addr: remap_value(addr, m),
            signed,
        },
        NodeModel::Store { data_type, effect_state, addr, value } => NodeModel::Store {
            data_type,
            effect_state: remap_value(effect_state, m),
            addr: remap_value(addr, m),
            value: remap_value(value, m),
        },
        NodeModel::AtomicCAS { data_type, effect_state, addr, old, new } => NodeModel::AtomicCAS {
            data_type,
            effect_state: remap_value(effect_state, m),
            addr: remap_value(addr, m),
            old: remap_value(old, m),
            new: remap_value(new, m),
        },
        NodeModel::AtomicRMW { data_type, effect_state, addr, value, operator } =>
            NodeModel::AtomicRMW {
            data_type,
            effect_state: remap_value(effect_state, m),
            addr: remap_value(addr, m),
            value: remap_value(value, m),
            operator,
        },
        NodeModel::GEP(t, base, indices) => NodeModel::GEP(
            t,
            remap_value(base, m),
            remap_values(indices, m),
        ),
        NodeModel::Select(c, t, f) => NodeModel::Select(
            remap_value(c, m),
            remap_value(t, m),
            remap_value(f, m),
        ),
        NodeModel::Icmp(cond, a, b) => NodeModel::Icmp(cond, remap_value(a, m), remap_value(b, m)),
        NodeModel::Compute(op, ops) => NodeModel::Compute(op, remap_values(ops, m)),
        NodeModel::Proj(v, k) => NodeModel::Proj(remap_value(v, m), k),
        NodeModel::TokenMerge(vs) => NodeModel::TokenMerge(remap_values(vs, m)),
        NodeModel::Call { target, effect_args, args } => NodeModel::Call {
            target: remap_value(target, m),
            effect_args: remap_args(effect_args, m),
            args: remap_values(args, m),
        },
        _ => n,
    }
}

/// Terminator `t` with every argument looked up in the table `m`.
pub open spec fn remap_term_model(t: TermModel, m: Seq<usize>) -> TermModel {
    match t {
        TermModel::Jump { effect_args, common_args, target } => TermModel::Jump {
            effect_args: remap_args(effect_args, m),
            common_args: remap_values(common_args, m),
            target,
        },
        TermModel::Branch { effect_args, common_args, cond, then_target, else_target } =>
            TermModel::Branch {
            effect_args: remap_args(effect_args, m),
            common_args: remap_values(common_args, m),
            cond: remap_value(cond, m),
            then_target,
            else_target,
        },
        TermModel::Switch { effect_args, common_args, case, targets } => TermModel::Switch {
            effect_args: remap_args(effect_args, m),
            common_args: remap_values(common_args, m),
            case: remap_value(case, m),
            targets,
        },
        TermModel::Return { effect_args, common_args } => TermModel::Return {
            effect_args: remap_args(effect_args, m),
            common_args: remap_values(common_args, m),
        },
    }
}

/// The type a node's value is taken to have when it arrives as a parameter.
pub open spec fn infer_type_model(n: NodeModel) -> RawTypeModel {
    match n {
        NodeModel::Const(_, t) => t,
        NodeModel::Load { data_type, .. } => data_type,
        NodeModel::Store { data_type, .. } => data_type,
        NodeModel::AtomicCAS { data_type, .. } => data_type,
        NodeModel::AtomicRMW { data_type, .. } => data_type,
        NodeModel::GEP(t, _, _) => t,
        NodeModel::Icmp(..) => RawTypeModel::Scalar(1),
        NodeModel::Select(..) => RawTypeModel::Scalar(1),
        NodeModel::Compute(..) => RawTypeModel::Scalar(32),
        _ => RawTypeModel::Token,
    }
}

/// Where a node claimed by a continuation goes.
#[derive(Clone, Copy, PartialEq, Eq, Structural)]
pub enum Slot {
    /// A value parameter.
    Param,
    /// An effect parameter.
    Effect,
    /// A body node (claimed, but numbered later).
    Body,
}

/// The slot a block's own node takes.
pub open spec fn slot_of(n: NodeModel) -> Slot {
    match n {
        NodeModel::Param(_) => Slot::Param,
        NodeModel::EffectParam(_) => Slot::Effect,
        _ => Slot::Body,
    }
}

/// The ids of `ids` that are not among `local`, in order.
pub open spec fn outside(ids: Seq<u32>, local: Seq<u32>) -> Seq<u32>
    decreases ids.len(),
{
    if ids.len() == 0 {
        seq![]
    } else {
        let r = outside(ids.drop_last(), local);
        if local.contains(ids.last()) {
            r
        } else {
            r.push(ids.last())
        }
    }
}

pub open spec fn tagged(ids: Seq<u32>, s: Slot) -> Seq<(Slot, u32)> {
    ids.map_values(|id: u32| (s, id))
}

/// Claims made by the inputs of the first `k` nodes block `blk` lists:
/// ordinary inputs from other blocks become parameters, effect inputs
/// from other blocks become effect parameters.
pub open spec fn input_claims_upto(nodes: Seq<NodeModel>, blk: BlockModel, k: int) -> Seq<(Slot, u32)>
    decreases k,
{
    if k <= 0 {
        seq![]
    } else {
        let n = nodes[blk.node_ids[k - 1] as int];
        input_claims_upto(nodes, blk, k - 1) + tagged(
            outside(inputs_of(n, false), blk.node_ids),
            Slot::Param,
        ) + tagged(outside(inputs_of(n, true), blk.node_ids), Slot::Effect)
    }
}

/// The slots a block's own nodes claim, in order.
pub open spec fn own_claims(nodes: Seq<NodeModel>, ids: Seq<u32>) -> Seq<(Slot, u32)> {
    ids.map_values(|id: u32| (slot_of(nodes[id as int]), id))
}

/// Every claim on a node, in the order the block is scanned: node inputs,
/// then terminator arguments, then the selector, then the block's own nodes.
pub open spec fn slot_claims(nodes: Seq<NodeModel>, blk: BlockModel) -> Seq<(Slot, u32)> {
    input_claims_upto(nodes, blk, blk.node_ids.len() as int) + tagged(
        outside(node_refs(term_common_args(blk.terminator)), blk.node_ids),
        Slot::Param,
    ) + tagged(
        outside(node_refs(arg_values(term_effect_args(blk.terminator))), blk.node_ids),
        Slot::Effect,
    ) + tagged(outside(node_refs(selector_values(blk.terminator)), blk.node_ids), Slot::Param)
        + own_claims(nodes, blk.node_ids)
}

/// The value a terminator chooses its target by: a branch's condition, a
/// switch's case; none for a jump or a return.
pub open spec fn selector_values(t: TermModel) -> Seq<ValueModel> {
    match t {
        TermModel::Branch { cond, .. } => seq![cond],
        TermModel::Switch { case, .. } => seq![case],
        _ => seq![],
    }
}

pub open spec fn claim_ids(q: Seq<(Slot, u32)>) -> Seq<u32> {
    q.map_values(|c: (Slot, u32)| c.1)
}

/// The ids that `q` claims in slot `s` first, in order of first claim.
pub open spec fn first_in_slot(q: Seq<(Slot, u32)>, s: Slot) -> Seq<u32>
    decreases q.len(),
{
    if q.len() == 0 {
        seq![]
    } else {
        let r = first_in_slot(q.drop_last(), s);
        if !claim_ids(q.drop_last()).contains(q.last().1) && q.last().0 == s {
            r.push(q.last().1)
        } else {
            r
        }
    }
}

/// The value parameters of the continuation for block `blk`.
pub open spec fn param_ids(nodes: Seq<NodeModel>, blk: BlockModel) -> Seq<u32> {
    first_in_slot(slot_claims(nodes, blk), Slot::Param)
}

/// The effect parameters of the continuation for block `blk`.
pub open spec fn effect_ids(nodes: Seq<NodeModel>, blk: BlockModel) -> Seq<u32> {
    first_in_slot(slot_claims(nodes, blk), Slot::Effect)
}

/// The nodes of `ids` that are not block parameters, in order.
pub open spec fn body_ids(nodes: Seq<NodeModel>, ids: Seq<u32>) -> Seq<u32>
    decreases ids.len(),
{
    if ids.len() == 0 {
        seq![]
    } else {
        let r = body_ids(nodes, ids.drop_last());
        if is_param_node(nodes[ids.last() as int]) {
            r
        } else {
            r.push(ids.last())
        }
    }
}

/// The last position `<= k` of `x` in `s`, or -1.
pub open spec fn last_pos(s: Seq<u32>, k: int, x: u32) -> int
    decreases k + 1,
{
    if k < 0 {
        -1
    } else if s[k] == x {
        k
    } else {
        last_pos(s, k - 1, x)
    }
}

/// The local index of node `id` while the `k`-th body node is being
/// numbered: its latest body position so far, else its effect parameter
/// slot, else its value parameter slot, else `usize::MAX`.
pub open spec fn local_index(p: Seq<u32>, e: Seq<u32>, body: Seq<u32>, k: int, id: u32) -> int {
    let jb = last_pos(body, k, id);
    let je = last_pos(e, e.len() - 1, id);
    let jp = last_pos(p, p.len() - 1, id);
    if jb >= 0 {
        p.len() + e.len() + jb
    } else if je >= 0 {
        p.len() + je
    } else if jp >= 0 {
        jp
    } else {
        usize::MAX as int
    }
}

/// The table of local indices of all `num_nodes` pool nodes at body step `k`.
pub open spec fn local_table(num_nodes: int, p: Seq<u32>, e: Seq<u32>, body: Seq<u32>, k: int) -> Seq<usize> {
    Seq::new(num_nodes as nat, |id: int| local_index(p, e, body, k, id as u32) as usize)
}

/// The continuation of block `blk`: its foreign inputs and parameters as
/// parameters, its other nodes as the body, every id renumbered locally.
pub open spec fn remap_block(nodes: Seq<NodeModel>, blk: BlockModel) -> ContModel {
    let p = param_ids(nodes, blk);
    let e = effect_ids(nodes, blk);
    let body = body_ids(nodes, blk.node_ids);
    let n = nodes.len() as int;
    ContModel {
        effects: Seq::new(e.len(), |i: int| Seq::<char>::empty()),
        params: p.map_values(|id: u32| infer_type_model(nodes[id as int])),
        nodes: Seq::new(
            body.len(),
            |k: int| remap_node_model(nodes[body[k] as int], local_table(n, p, e, body, k)),
        ),
        terminator: remap_term_model(blk.terminator, local_table(n, p, e, body, body.len() - 1)),
    }
}

} // verus!

verus! {

/// Every node a terminator refers to (arguments, condition, case) is below `n`.
pub open spec fn term_refs_below(t: TermModel, n: int) -> bool {
    &&& refs_below(term_common_args(t), n)
    &&& refs_below(arg_values(term_effect_args(t)), n)
    &&& match t {
        TermModel::Branch { cond, .. } => refs_below(seq![cond], n),
        TermModel::Switch { case, .. } => refs_below(seq![case], n),
        _ => true,
    }
}

/// Every node a node refers to is below `n`.
pub open spec fn node_refs_below(nd: NodeModel, n: int) -> bool {
    refs_below(effect_operands(nd), n) && refs_below(common_operands(nd), n)
}

pub proof fn lemma_refs_below_split(a: Seq<ValueModel>, b: Seq<ValueModel>, n: int)
    requires
        refs_below(a + b, n),
    ensures
        refs_below(a, n),
        refs_below(b, n),
{
    assert forall|j: int| 0 <= j < a.len() && (#[trigger] a[j]) is Node implies (a[j]->Node_0 as int) < n by {
        assert((a + b)[j] == a[j]);
    }
    assert forall|j: int| 0 <= j < b.len() && (#[trigger] b[j]) is Node implies (b[j]->Node_0 as int) < n by {
        assert((a + b)[a.len() + j] == b[j]);
    }
}

} // verus!

verus! {

/// The number of entries of a lookup table, as an integer.
pub open spec fn table_size(m: Seq<usize>) -> int {
    m.len() as int
}

} // verus!

verus! {

pub proof fn lemma_outside_push(ids: Seq<u32>, x: u32, local: Seq<u32>)
    ensures
        outside(ids.push(x), local) == if local.contains(x) {
            outside(ids, local)
        } else {
            outside(ids, local).push(x)
        },
{
    assert(ids.push(x).drop_last() =~= ids);
}

pub proof fn lemma_tagged_push(ids: Seq<u32>, x: u32, s: Slot)
    ensures
        tagged(ids.push(x), s) == tagged(ids, s).push((s, x)),
{
    assert(tagged(ids.push(x), s) =~= tagged(ids, s).push((s, x)));
}

pub proof fn lemma_first_in_slot_push(q: Seq<(Slot, u32)>, c: (Slot, u32), s: Slot)
    ensures
        first_in_slot(q.push(c), s) == if !claim_ids(q).contains(c.1) && c.0 == s {
            first_in_slot(q, s).push(c.1)
        } else {
            first_in_slot(q, s)
        },
        claim_ids(q.push(c)) == claim_ids(q).push(c.1),
{
    assert(q.push(c).drop_last() =~= q);
    assert(claim_ids(q.push(c)) =~= claim_ids(q).push(c.1));
}

pub proof fn lemma_node_refs_push(vs: Seq<ValueModel>, v: ValueModel)
    ensures
        node_refs(vs.push(v)) == match v {
            ValueModel::Node(n) => node_refs(vs).push(n),
            _ => node_refs(vs),
        },
{
    assert(vs.push(v).drop_last() =~= vs);
}

/// The body ids of a prefix are a prefix of the body ids.
pub proof fn lemma_body_ids_prefix(nodes: Seq<NodeModel>, ids: Seq<u32>, i: int)
    requires
        0 <= i <= ids.len(),
    ensures
        body_ids(nodes, ids.take(i)).len() <= body_ids(nodes, ids).len(),
        body_ids(nodes, ids.take(i)) == body_ids(nodes, ids).take(body_ids(nodes, ids.take(i)).len() as int),
    decreases ids.len(),
{
    if i == ids.len() {
        assert(ids.take(i) =~= ids);
        assert(body_ids(nodes, ids).take(body_ids(nodes, ids).len() as int) =~= body_ids(nodes, ids));
    } else {
        lemma_body_ids_prefix(nodes, ids.drop_last(), i);
        assert(ids.drop_last().take(i) =~= ids.take(i));
        let a = body_ids(nodes, ids.take(i));
        let d = body_ids(nodes, ids.drop_last());
        assert(body_ids(nodes, ids).take(a.len() as int) =~= d.take(a.len() as int));
    }
}

/// A duplicate-free sequence of ids below `n` has at most `n` elements.
pub proof fn lemma_distinct_below_len(s: Seq<u32>, n: int)
    requires
        s.no_duplicates(),
        0 <= n,
        forall|j: int| 0 <= j < s.len() ==> (#[trigger] s[j] as int) < n,
    ensures
        s.len() <= n,
{
    let t = s.map_values(|x: u32| x as int);
    assert(t.no_duplicates()) by {
        assert forall|i: int, j: int| 0 <= i < t.len() && 0 <= j < t.len() && i != j implies t[i] != t[j] by {
            assert(s[i] != s[j]);
        }
    }
    t.unique_seq_to_set();
    vstd::set_lib::lemma_int_range(0, n);
    assert(t.to_set().subset_of(vstd::set_lib::set_int_range(0, n))) by {
        assert forall|x: int| t.to_set().contains(x) implies vstd::set_lib::set_int_range(0, n).contains(x) by {
            assert(t.contains(x));
            let j = choose|j: int| 0 <= j < t.len() && t[j] == x;
            assert(s[j] as int == x);
        }
    }
    vstd::set_lib::lemma_len_subset(t.to_set(), vstd::set_lib::set_int_range(0, n));
}

} // verus!

verus! {

/// Node references of values that `refs_below` bounds are below the bound.
pub proof fn lemma_node_refs_below(vs: Seq<ValueModel>, n: int)
    requires
        refs_below(vs, n),
    ensures
        forall|j: int| 0 <= j < node_refs(vs).len() ==> (#[trigger] node_refs(vs)[j] as int) < n,
    decreases vs.len(),
{
    if vs.len() > 0 {
        assert(refs_below(vs.drop_last(), n)) by {
            assert forall|j: int| 0 <= j < vs.drop_last().len() && (#[trigger] vs.drop_last()[j]) is Node implies (vs.drop_last()[j]->Node_0 as int) < n by {
                assert(vs[j] == vs.drop_last()[j]);
            }
        }
        lemma_node_refs_below(vs.drop_last(), n);
        assert(vs[vs.len() - 1] == vs.last());
        let r = node_refs(vs.drop_last());
        match vs.last() {
            ValueModel::Node(m) => {
                assert((m as int) < n);
                assert forall|j: int| 0 <= j < node_refs(vs).len() implies (#[trigger] node_refs(vs)[j] as int) < n by {
                    if j < r.len() {
                        assert(node_refs(vs)[j] == r[j]);
                    }
                }
            },
            _ => {
                assert(node_refs(vs) == r);
            },
        }
    }
}

/// The inputs of a node whose references are bounded are bounded.
pub proof fn lemma_inputs_below(nd: NodeModel, n: int, e: bool)
    requires
        node_refs_below(nd, n),
    ensures
        forall|j: int| 0 <= j < inputs_of(nd, e).len() ==> (#[trigger] inputs_of(nd, e)[j] as int) < n,
{
    let refs = if e { node_refs(effect_operands(nd)) } else { node_refs(common_operands(nd)) };
    lemma_node_refs_below(effect_operands(nd), n);
    lemma_node_refs_below(common_operands(nd), n);
    assert forall|j: int| 0 <= j < inputs_of(nd, e).len() implies (#[trigger] inputs_of(nd, e)[j] as int) < n by {
        let x = inputs_of(nd, e)[j];
        assert(dedup_seq(refs).contains(x));
        lemma_dedup_contains(refs, x);
        let k = choose|k: int| 0 <= k < refs.len() && refs[k] == x;
    }
}

} // verus!

verus! {

// ---------------------------------------------------------------------------
// The whole conversion
// ---------------------------------------------------------------------------

/// Every target of every terminator is a block of `bbs`.
pub open spec fn targets_in_range(bbs: Seq<BlockModel>) -> bool {
    forall|b: int, j: int|
        0 <= b < bbs.len() && 0 <= j < successors(bbs[b].terminator).len() ==> (
        #[trigger] successors(bbs[b].terminator)[j] as int) < bbs.len()
}

/// The graphs the conversion accepts: block and node ids fit in 32 bits,
/// every node id a block mentions (listed, as an operand of a listed node,
/// in its terminator) is in the pool, every jump target is a block, and the
/// pool together with any one block fits the address space.
pub open spec fn graph_wf(g: GraphModel) -> bool {
    let n = g.nodes.len() as int;
    &&& g.bbs.len() <= id_space()
    &&& n <= id_space()
    &&& forall|b: int| 0 <= b < g.bbs.len() ==> n + (#[trigger] g.bbs[b]).node_ids.len() <= usize::MAX
    &&& listed_below(g.bbs, n)
    &&& forall|b: int, j: int| 0 <= b < g.bbs.len() && 0 <= j < g.bbs[b].node_ids.len() ==> node_refs_below(
        g.nodes[#[trigger] g.bbs[b].node_ids[j] as int],
        n,
    )
    &&& forall|b: int| 0 <= b < g.bbs.len() ==> term_refs_below((#[trigger] g.bbs[b]).terminator, n)
    &&& targets_in_range(g.bbs)
}

/// The terminators after the first pass.
pub open spec fn pass1_terms(g: GraphModel) -> Seq<TermModel> {
    Seq::new(g.bbs.len(), |p: int| pass1_terminator(g.bbs, g.nodes, p))
}

/// The predecessor list of every block.
pub open spec fn pred_lists(g: GraphModel) -> Seq<Seq<u32>> {
    Seq::new(g.bbs.len(), |t: int| preds(g.bbs, t))
}

/// For every node, the last block that uses it from another block.
pub open spec fn last_uses(g: GraphModel, effect: bool) -> Seq<usize> {
    Seq::new(g.nodes.len(), |n: int| block_slot(last_use(g.bbs, g.nodes, n as u32, effect)))
}

/// The terminators after both passes.
pub open spec fn final_terms(g: GraphModel) -> Seq<TermModel> {
    pass2_upto(pass1_terms(g), pred_lists(g), last_uses(g, true), last_uses(g, false), g.bbs.len() as int)
}

/// Block `b` with its terminator after both passes.
pub open spec fn final_block(g: GraphModel, b: int) -> BlockModel {
    BlockModel { node_ids: g.bbs[b].node_ids, terminator: final_terms(g)[b] }
}

/// The flat-continuation graph of `g`: one continuation per block, in
/// order; name, static data and externals carried over.
pub open spec fn flat_cont_model(g: GraphModel) -> FlatGraphModel {
    FlatGraphModel {
        name: g.name,
        static_data: g.static_data,
        externals: g.externals,
        continuations: Seq::new(g.bbs.len(), |b: int| remap_block(g.nodes, final_block(g, b))),
    }
}

} // verus!

verus! {

// ---------------------------------------------------------------------------
// Lemmas: what the passes keep in range
// ---------------------------------------------------------------------------

/// Every id of `s` is below `n`.
pub open spec fn all_below(s: Seq<u32>, n: int) -> bool {
    forall|x: u32| #[trigger] s.contains(x) ==> (x as int) < n
}

pub proof fn lemma_visible_among_sub(ids: Seq<u32>, vis: Seq<u32>, x: u32)
    ensures
        visible_among(ids, vis).contains(x) ==> ids.contains(x),
    decreases ids.len(),
{
    if ids.len() > 0 {
        lemma_visible_among_sub(ids.drop_last(), vis, x);
        lemma_push_contains(visible_among(ids.drop_last(), vis), ids.last(), x);
        lemma_drop_last_push(ids);
        lemma_push_contains(ids.drop_last(), ids.last(), x);
    }
}

pub proof fn lemma_not_from_sub(bbs: Seq<BlockModel>, ids: Seq<u32>, b: int, x: u32)
    ensures
        not_from(bbs, ids, b).contains(x) ==> ids.contains(x),
    decreases ids.len(),
{
    if ids.len() > 0 {
        lemma_not_from_sub(bbs, ids.drop_last(), b, x);
        lemma_push_contains(not_from(bbs, ids.drop_last(), b), ids.last(), x);
        lemma_drop_last_push(ids);
        lemma_push_contains(ids.drop_last(), ids.last(), x);
    }
}

pub proof fn lemma_foreign_below(bbs: Seq<BlockModel>, nodes: Seq<NodeModel>, b: int, e: bool, k: int, n: int)
    requires
        inputs_below(bbs, nodes, n),
        0 <= b < bbs.len(),
        k <= bbs[b].node_ids.len(),
    ensures
        all_below(foreign_inputs_upto(bbs, nodes, b, e, k), n),
    decreases k,
{
    if k > 0 {
        lemma_foreign_below(bbs, nodes, b, e, k - 1, n);
        let ins = inputs_of(nodes[bbs[b].node_ids[k - 1] as int], e);
        let nf = not_from(bbs, ins, b);
        assert forall|x: u32| #[trigger] foreign_inputs_upto(bbs, nodes, b, e, k).contains(x) implies (x as int) < n by {
            lemma_add_contains(foreign_inputs_upto(bbs, nodes, b, e, k - 1), nf, x);
            lemma_not_from_sub(bbs, ins, b, x);
            if ins.contains(x) {
                let j = choose|j: int| 0 <= j < ins.len() && ins[j] == x;
                assert(inputs_of(nodes[bbs[b].node_ids[k - 1] as int], e)[j] == x);
            }
        }
    }
}

pub proof fn lemma_requests_below(bbs: Seq<BlockModel>, nodes: Seq<NodeModel>, p: int, e: bool, k: int, n: int)
    requires
        inputs_below(bbs, nodes, n),
        k <= bbs.len(),
    ensures
        all_below(requests_upto(bbs, nodes, p, e, k), n),
    decreases k,
{
    if k > 0 {
        lemma_requests_below(bbs, nodes, p, e, k - 1, n);
        lemma_foreign_below(bbs, nodes, k - 1, e, bbs[k - 1].node_ids.len() as int, n);
        assert forall|x: u32| #[trigger] requests_upto(bbs, nodes, p, e, k).contains(x) implies (x as int) < n by {
            lemma_add_contains(requests_upto(bbs, nodes, p, e, k - 1), requests(bbs, nodes, p, k - 1, e), x);
            lemma_visible_among_sub(foreign_inputs(bbs, nodes, k - 1, e), visible(bbs, p), x);
        }
    }
}

/// The ids below `n` a block carries are below `n`.
pub proof fn lemma_carried_below(bbs: Seq<BlockModel>, nodes: Seq<NodeModel>, p: int, e: bool, n: int)
    requires
        0 <= n <= id_space(),
    ensures
        all_below(crate::carry::carried_upto(bbs, nodes, p, e, n), n),
    decreases n,
{
    if n > 0 {
        lemma_carried_below(bbs, nodes, p, e, n - 1);
        let prev = crate::carry::carried_upto(bbs, nodes, p, e, n - 1);
        let last: Seq<u32> = if crate::carry::carries(bbs, nodes, p, (n - 1) as u32, e) { seq![(n - 1) as u32] } else { seq![] };
        assert forall|x: u32| #[trigger] crate::carry::carried_upto(bbs, nodes, p, e, n).contains(x) implies (x as int) < n by {
            lemma_add_contains(prev, last, x);
        }
    }
}

/// Everything the first pass has a block pass on is a node of the pool.
pub proof fn lemma_pass1_requests_below(bbs: Seq<BlockModel>, nodes: Seq<NodeModel>, p: int, e: bool, n: int)
    requires
        inputs_below(bbs, nodes, n),
        n == nodes.len(),
        n <= id_space(),
    ensures
        all_below(pass1_requests(bbs, nodes, p, e), n),
{
    lemma_requests_below(bbs, nodes, p, e, bbs.len() as int, n);
    lemma_carried_below(bbs, nodes, p, e, n);
    assert forall|x: u32| #[trigger] pass1_requests(bbs, nodes, p, e).contains(x) implies (x as int) < n by {
        lemma_add_contains(requests_upto(bbs, nodes, p, e, bbs.len() as int), crate::carry::carried_upto(bbs, nodes, p, e, n), x);
    }
}

/// A value `add_effect_refs` passes was passed before or is a requested node.
pub proof fn lemma_add_effect_refs_values(own: Seq<EffectArgModel>, ids: Seq<u32>, v: ValueModel)
    ensures
        arg_values(add_effect_refs(own, ids)).contains(v) ==> (arg_values(own).contains(v) || (v is Node
            && ids.contains(v->Node_0))),
    decreases ids.len(),
{
    if ids.len() > 0 {
        lemma_add_effect_refs_values(own, ids.drop_last(), v);
        let a = add_effect_refs(own, ids.drop_last());
        if !arg_values(a).contains(ValueModel::Node(ids.last())) {
            assert(arg_values(a.push((seq![], ValueModel::Node(ids.last())))) =~= arg_values(a).push(ValueModel::Node(ids.last())));
            lemma_push_contains(arg_values(a), ValueModel::Node(ids.last()), v);
        }
        lemma_drop_last_push(ids);
        if v is Node {
            lemma_push_contains(ids.drop_last(), ids.last(), v->Node_0);
        }
    }
}

pub proof fn lemma_add_common_refs_values(own: Seq<ValueModel>, ids: Seq<u32>, v: ValueModel)
    ensures
        add_common_refs(own, ids).contains(v) ==> (own.contains(v) || (v is Node && ids.contains(v->Node_0))),
    decreases ids.len(),
{
    if ids.len() > 0 {
        lemma_add_common_refs_values(own, ids.drop_last(), v);
        let a = add_common_refs(own, ids.drop_last());
        if !a.contains(ValueModel::Node(ids.last())) {
            lemma_push_contains(a, ValueModel::Node(ids.last()), v);
        }
        lemma_drop_last_push(ids);
        if v is Node {
            lemma_push_contains(ids.drop_last(), ids.last(), v->Node_0);
        }
    }
}

/// A list of values bounded through `contains`.
pub proof fn lemma_refs_below_contains(vs: Seq<ValueModel>, n: int)
    requires
        forall|v: ValueModel| #[trigger] vs.contains(v) && v is Node ==> (v->Node_0 as int) < n,
    ensures
        refs_below(vs, n),
{
    assert forall|j: int| 0 <= j < vs.len() && (#[trigger] vs[j]) is Node implies (vs[j]->Node_0 as int) < n by {
        assert(vs.contains(vs[j]));
    }
}

/// Every node the first pass has a terminator pass on is in the pool.
pub proof fn lemma_pass1_args_below(g: GraphModel)
    requires
        graph_wf(g),
    ensures
        args_below(pass1_terms(g), g.nodes.len() as int),
        forall|p: int| 0 <= p < g.bbs.len() ==> same_shape(#[trigger] pass1_terms(g)[p], g.bbs[p].terminator),
{
    let n = g.nodes.len() as int;
    lemma_graph_inputs_below(g);
    assert forall|p: int| 0 <= p < pass1_terms(g).len() implies {
        &&& refs_below(term_common_args(#[trigger] pass1_terms(g)[p]), n)
        &&& refs_below(arg_values(term_effect_args(pass1_terms(g)[p])), n)
    } by {
        let t = g.bbs[p].terminator;
        let re = pass1_requests(g.bbs, g.nodes, p, true);
        let rc = pass1_requests(g.bbs, g.nodes, p, false);
        lemma_pass1_requests_below(g.bbs, g.nodes, p, true, n);
        lemma_pass1_requests_below(g.bbs, g.nodes, p, false, n);
        let e1 = add_effect_refs(term_effect_args(t), re);
        let c1 = add_common_refs(term_common_args(t), rc);
        lemma_with_args_accessors(t, e1, c1);
        lemma_with_args_accessors(with_effect_args(t, e1), e1, c1);
        assert(term_refs_below(t, n));
        assert forall|v: ValueModel| #[trigger] c1.contains(v) && v is Node implies (v->Node_0 as int) < n by {
            lemma_add_common_refs_values(term_common_args(t), rc, v);
            if term_common_args(t).contains(v) {
                let j = choose|j: int| 0 <= j < term_common_args(t).len() && term_common_args(t)[j] == v;
            }
        }
        lemma_refs_below_contains(c1, n);
        assert forall|v: ValueModel| #[trigger] arg_values(e1).contains(v) && v is Node implies (v->Node_0 as int) < n by {
            lemma_add_effect_refs_values(term_effect_args(t), re, v);
            if arg_values(term_effect_args(t)).contains(v) {
                let j = choose|j: int| 0 <= j < arg_values(term_effect_args(t)).len() && arg_values(term_effect_args(t))[j] == v;
            }
        }
        lemma_refs_below_contains(arg_values(e1), n);
    }
    assert forall|p: int| 0 <= p < g.bbs.len() implies same_shape(#[trigger] pass1_terms(g)[p], g.bbs[p].terminator) by {
        let t = g.bbs[p].terminator;
        let e1 = add_effect_refs(term_effect_args(t), pass1_requests(g.bbs, g.nodes, p, true));
        let c1 = add_common_refs(term_common_args(t), pass1_requests(g.bbs, g.nodes, p, false));
        lemma_with_args_accessors(t, e1, c1);
        lemma_with_args_accessors(with_effect_args(t, e1), e1, c1);
        lemma_same_shape_trans(with_common_args(with_effect_args(t, e1), c1), with_effect_args(t, e1), t);
    }
}

/// Every input of every listed node is in the pool.
pub proof fn lemma_graph_inputs_below(g: GraphModel)
    requires
        graph_wf(g),
    ensures
        inputs_below(g.bbs, g.nodes, g.nodes.len() as int),
{
    assert forall|b: int, i: int, e: bool, j: int|
        0 <= b < g.bbs.len() && 0 <= i < g.bbs[b].node_ids.len() && 0 <= j < inputs_of(
            g.nodes[g.bbs[b].node_ids[i] as int],
            e,
        ).len() implies (#[trigger] inputs_of(g.nodes[g.bbs[b].node_ids[i] as int], e)[j] as int) < g.nodes.len() by {
        lemma_inputs_below(g.nodes[g.bbs[b].node_ids[i] as int], g.nodes.len() as int, e);
    }
}

pub proof fn lemma_same_shape_trans(a: TermModel, b: TermModel, c: TermModel)
    requires
        same_shape(a, b),
        same_shape(b, c),
    ensures
        same_shape(a, c),
{
}

/// The second pass changes only arguments.
pub proof fn lemma_pass2_shape(terms: Seq<TermModel>, pres: Seq<Seq<u32>>, ee: Seq<usize>, ce: Seq<usize>, k: int)
    requires
        0 <= k <= terms.len(),
    ensures
        pass2_upto(terms, pres, ee, ce, k).len() == terms.len(),
        forall|p: int| 0 <= p < terms.len() ==> same_shape(#[trigger] pass2_upto(terms, pres, ee, ce, k)[p], terms[p]),
    decreases k,
{
    if k > 0 {
        lemma_pass2_shape(terms, pres, ee, ce, k - 1);
        let prev = pass2_upto(terms, pres, ee, ce, k - 1);
        let b = k - 1;
        let e1 = unnamed(propagate_effect(prev, pres[b], ee, b));
        let c1 = propagate_common(prev, pres[b], ce, b);
        lemma_with_args_accessors(prev[b], e1, c1);
        lemma_with_args_accessors(with_effect_args(prev[b], e1), e1, c1);
        lemma_same_shape_trans(with_common_args(with_effect_args(prev[b], e1), c1), with_effect_args(prev[b], e1), prev[b]);
        lemma_same_shape_trans(with_common_args(with_effect_args(prev[b], e1), c1), prev[b], terms[b]);
    }
}

} // verus!
