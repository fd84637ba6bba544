//! Computing which nodes each block must carry to blocks further on.
use vstd::prelude::*;
use crate::basicblock::{
    blocks_model, cont_ids_model, node_ids_model, nodes_model, values_model, BasicBlock,
    ContId as BbCid, Node as BBNode, NodeId as BbNid, Value as BbValue,
};
use crate::bb2flatcont::{
    arg_values_of, get_inputs, is_home_table, is_visible_table, selector_of, successor_ids,
    term_com_slice, term_eff_slice,
};
use crate::carry::{asks_own, asks_table, asks_within, carries, carries_within, passed};
use crate::model::{node_refs, successors, BlockModel, NodeModel};
use crate::semantics::{
    foreign_inputs_upto, home_block, id_space, inputs_below, inputs_of, listed_below, refs_below,
    selector_values, visible,
};

verus! {

/// Marks in `r` every id of `ids` that block `t` does not define.
fn mark_ids(r: &mut Vec<bool>, ids: &[BbNid], homes: &[usize], t: usize)
    requires
        old(r)@.len() == homes@.len(),
        homes@.len() <= id_space(),
        forall|i: int| 0 <= i < ids@.len() ==> (#[trigger] ids@[i].0 as int) < homes@.len(),
    ensures
        final(r)@.len() == old(r)@.len(),
        forall|x: int| 0 <= x < final(r)@.len() ==> #[trigger] final(r)@[x] == (old(r)@[x] || (node_ids_model(ids@).contains(
            x as u32,
        ) && homes@[x] != t)),
{
    let ghost r0 = r@;
    let ghost im = node_ids_model(ids@);
    let mut i: usize = 0;
    while i < ids.len()
        invariant
            i <= ids.len(),
            r@.len() == r0.len(),
            r0.len() == homes@.len(),
            homes@.len() <= id_space(),
            im == node_ids_model(ids@),
            forall|j: int| 0 <= j < ids@.len() ==> (#[trigger] ids@[j].0 as int) < homes@.len(),
            forall|x: int| 0 <= x < r@.len() ==> #[trigger] r@[x] == (r0[x] || (im.take(i as int).contains(x as u32)
                && homes@[x] != t)),
        decreases ids.len() - i,
    {
        let y = ids[i].0 as usize;
        proof {
            assert(im[i as int] == ids@[i as int].0);
            assert(im.take(i + 1) =~= im.take(i as int).push(im[i as int]));
        }
        if homes[y] != t {
            r.set(y, true);
        }
        proof {
            assert forall|x: int| 0 <= x < r@.len() implies #[trigger] r@[x] == (r0[x] || (im.take(i + 1).contains(x as u32)
                && homes@[x] != t)) by {
                crate::semantics::lemma_push_contains(im.take(i as int), im[i as int], x as u32);
                if x == y as int {
                    assert(im[i as int] == x as u32);
                } else {
                    assert(im[i as int] != x as u32);
                }
            }
        }
        i = i + 1;
    }
    proof {
        assert(im.take(ids@.len() as int) =~= im);
    }
}

/// Marks in `r` every node `vals` refers to that block `t` does not define.
fn mark_refs(r: &mut Vec<bool>, vals: &[BbValue], homes: &[usize], t: usize)
    requires
        old(r)@.len() == homes@.len(),
        homes@.len() <= id_space(),
        refs_below(values_model(vals@), homes@.len() as int),
    ensures
        final(r)@.len() == old(r)@.len(),
        forall|x: int| 0 <= x < final(r)@.len() ==> #[trigger] final(r)@[x] == (old(r)@[x] || (node_refs(
            values_model(vals@),
        ).contains(x as u32) && homes@[x] != t)),
{
    let ghost r0 = r@;
    let ghost vm = values_model(vals@);
    let mut i: usize = 0;
    while i < vals.len()
        invariant
            i <= vals.len(),
            r@.len() == r0.len(),
            r0.len() == homes@.len(),
            homes@.len() <= id_space(),
            vm == values_model(vals@),
            refs_below(vm, homes@.len() as int),
            forall|x: int| 0 <= x < r@.len() ==> #[trigger] r@[x] == (r0[x] || (node_refs(vm.take(i as int)).contains(
                x as u32,
            ) && homes@[x] != t)),
        decreases vals.len() - i,
    {
        proof {
            assert(vm[i as int] == vals@[i as int]@);
            assert(vm.take(i + 1) =~= vm.take(i as int).push(vm[i as int]));
            crate::semantics::lemma_node_refs_push(vm.take(i as int), vm[i as int]);
        }
        match &vals[i] {
            BbValue::Node(y) => {
                let yi = y.0 as usize;
                proof {
                    assert(vm[i as int] is Node);
                }
                if homes[yi] != t {
                    r.set(yi, true);
                }
                proof {
                    assert forall|x: int| 0 <= x < r@.len() implies #[trigger] r@[x] == (r0[x] || (node_refs(
                        vm.take(i + 1),
                    ).contains(x as u32) && homes@[x] != t)) by {
                        crate::semantics::lemma_push_contains(node_refs(vm.take(i as int)), y.0, x as u32);
                        if x == yi as int {
                            assert(y.0 == x as u32);
                        } else {
                            assert(y.0 != x as u32);
                        }
                    }
                }
            },
            _ => {},
        }
        i = i + 1;
    }
    proof {
        assert(vm.take(vals@.len() as int) =~= vm);
    }
}

/// `homes@[x] != t` says that block `t` does not define node `x`.
proof fn lemma_home_table(bm: Seq<BlockModel>, homes: Seq<usize>, t: int, x: int)
    requires
        is_home_table(bm, homes),
        0 <= x < homes.len(),
        0 <= t < bm.len(),
        bm.len() <= usize::MAX,
    ensures
        (homes[x] != t) == (home_block(bm, x as u32) != t),
{
    crate::bb2flatcont::lemma_home_upto_range(bm, x as u32, bm.len() as int);
}

/// For every node, whether block `t` needs it on its own account.
pub fn own_asks(bbs: &[BasicBlock], nodes: &[BBNode], homes: &[usize], t: usize, effect: bool) -> (r: Vec<bool>)
    requires
        t < bbs.len(),
        nodes.len() <= id_space(),
        listed_below(blocks_model(bbs@), nodes.len() as int),
        inputs_below(blocks_model(bbs@), nodes_model(nodes@), nodes.len() as int),
        crate::semantics::term_refs_below(bbs@[t as int].terminator@, nodes.len() as int),
        homes@.len() == nodes.len(),
        is_home_table(blocks_model(bbs@), homes@),
    ensures
        r@.len() == nodes.len(),
        forall|x: int| 0 <= x < nodes.len() ==> #[trigger] r@[x] == asks_own(
            blocks_model(bbs@),
            nodes_model(nodes@),
            t as int,
            x as u32,
            effect,
        ),
{
    let ghost bm = blocks_model(bbs@);
    let ghost nm = nodes_model(nodes@);
    let n = nodes.len();
    let mut r = crate::bb2flatcont::filled_bool(n, false);
    let ids = bbs[t].node_ids.as_slice();
    let ghost im = bm[t as int].node_ids;
    proof {
        assert(im == node_ids_model(ids@));
    }
    let mut k: usize = 0;
    while k < ids.len()
        invariant
            k <= ids.len(),
            t < bbs.len(),
            bm == blocks_model(bbs@),
            nm == nodes_model(nodes@),
            n == nodes.len(),
            n <= id_space(),
            im == bm[t as int].node_ids,
            im == node_ids_model(ids@),
            listed_below(bm, n as int),
            inputs_below(bm, nm, n as int),
            homes@.len() == n,
            is_home_table(bm, homes@),
            r@.len() == n,
            forall|x: int| 0 <= x < n ==> #[trigger] r@[x] == foreign_inputs_upto(bm, nm, t as int, effect, k as int).contains(
                x as u32,
            ),
        decreases ids.len() - k,
    {
        let nid = ids[k];
        proof {
            assert(im[k as int] == nid.0);
            assert((nid.0 as int) < n);
            assert(nodes@[nid.0 as int]@ == nm[nid.0 as int]);
        }
        let (effs, coms) = get_inputs(&nodes[nid.0 as usize]);
        let ghost nd = nm[nid.0 as int];
        let ins = if effect { effs } else { coms };
        proof {
            assert(node_ids_model(ins@) == inputs_of(nd, effect));
            assert forall|i: int| 0 <= i < ins@.len() implies (#[trigger] ins@[i].0 as int) < homes@.len() by {
                assert(node_ids_model(ins@)[i] == ins@[i].0);
                assert(inputs_of(nm[bm[t as int].node_ids[k as int] as int], effect)[i] == ins@[i].0);
            }
        }
        mark_ids(&mut r, ins.as_slice(), homes, t);
        proof {
            assert forall|x: int| 0 <= x < n implies #[trigger] r@[x] == foreign_inputs_upto(bm, nm, t as int, effect, k + 1).contains(
                x as u32,
            ) by {
                crate::carry::lemma_foreign_step(bm, nm, t as int, effect, k as int, x as u32);
                lemma_home_table(bm, homes@, t as int, x);
            }
        }
        k = k + 1;
    }
    let ghost fi = r@;
    let ghost tm = bm[t as int].terminator;
    proof {
        assert(bbs@[t as int].terminator@ == tm);
    }
    let vals = if effect {
        arg_values_of(term_eff_slice(&bbs[t].terminator))
    } else {
        crate::basicblock::clone_values(term_com_slice(&bbs[t].terminator))
    };
    proof {
        assert(values_model(vals@) == passed(tm, effect));
    }
    mark_refs(&mut r, vals.as_slice(), homes, t);
    let ghost fv = r@;
    let sel = selector_of(&bbs[t].terminator);
    proof {
        assert(refs_below(selector_values(tm), n as int)) by {
            match tm {
                crate::model::TermModel::Branch { cond, .. } => {},
                crate::model::TermModel::Switch { case, .. } => {},
                _ => {},
            }
        }
    }
    if !effect {
        mark_refs(&mut r, sel.as_slice(), homes, t);
    }
    proof {
        assert forall|x: int| 0 <= x < n implies #[trigger] r@[x] == asks_own(bm, nm, t as int, x as u32, effect) by {
            lemma_home_table(bm, homes@, t as int, x);
            crate::carry::lemma_foreign_home(bm, nm, t as int, effect, im.len() as int, x as u32);
            assert(fi[x] == crate::semantics::foreign_inputs(bm, nm, t as int, effect).contains(x as u32));
        }
    }
    r
}

/// Whether `row` (visibility of `x` at the end of a block) holds and some
/// block in `succ` is marked for `x` in `prev`.
fn feeds(succ: &[BbCid], vis: bool, prev: &Vec<Vec<bool>>, x: usize) -> (r: bool)
    requires
        forall|t: int| 0 <= t < prev@.len() ==> x < (#[trigger] prev@[t])@.len(),
    ensures
        r == (vis && exists|j: int|
            0 <= j < succ@.len() && (succ@[j].0 as int) < prev@.len() && #[trigger] prev@[succ@[j].0 as int]@[x as int]),
{
    if !vis {
        return false;
    }
    let mut j: usize = 0;
    while j < succ.len()
        invariant
            j <= succ.len(),
            vis,
            forall|t: int| 0 <= t < prev@.len() ==> x < (#[trigger] prev@[t])@.len(),
            forall|i: int| 0 <= i < j ==> !((succ@[i].0 as int) < prev@.len() && #[trigger] prev@[succ@[i].0 as int]@[x as int]),
        decreases succ.len() - j,
    {
        let s = succ[j].0 as usize;
        if s < prev.len() && prev[s][x] {
            proof {
                assert(s as int == succ@[j as int].0 as int);
                assert(prev@[s as int]@[x as int]);
                assert((succ@[j as int].0 as int) < prev@.len() && prev@[succ@[j as int].0 as int]@[x as int]);
            }
            return true;
        }
        j = j + 1;
    }
    false
}

/// A table marking, for every block and node, whether the block needs the
/// node, following needs back over `k` blocks.
pub open spec fn is_asks_table(bm: Seq<BlockModel>, nm: Seq<NodeModel>, effect: bool, k: nat, tbl: Seq<Vec<bool>>) -> bool {
    &&& tbl.len() == bm.len()
    &&& forall|t: int| 0 <= t < bm.len() ==> (#[trigger] tbl[t])@.len() == nm.len()
    &&& forall|t: int, x: int|
        0 <= t < bm.len() && 0 <= x < nm.len() ==> #[trigger] tbl[t]@[x] == asks_within(bm, nm, t, x as u32, effect, k)
}

/// `feeds` on a table of needs decides `carries_within`.
proof fn lemma_feeds_table(
    bm: Seq<BlockModel>,
    nm: Seq<NodeModel>,
    effect: bool,
    k: nat,
    tbl: Seq<Vec<bool>>,
    succ: Seq<BbCid>,
    p: int,
    x: int,
)
    requires
        is_asks_table(bm, nm, effect, k, tbl),
        0 <= p < bm.len(),
        0 <= x < nm.len(),
        cont_ids_model(succ) == successors(bm[p].terminator),
    ensures
        (exists|j: int|
            0 <= j < succ.len() && (succ[j].0 as int) < tbl.len() && #[trigger] tbl[succ[j].0 as int]@[x]) == (exists|j: int|
            0 <= j < successors(bm[p].terminator).len() && (successors(bm[p].terminator)[j] as int)
                < asks_table(bm, nm, x as u32, effect, k).len() && #[trigger] asks_table(bm, nm, x as u32, effect, k)[successors(
                bm[p].terminator,
            )[j] as int]),
{
    crate::carry::lemma_table_len(bm, nm, x as u32, effect, k);
    let sq = successors(bm[p].terminator);
    let a = asks_table(bm, nm, x as u32, effect, k);
    if exists|j: int| 0 <= j < succ.len() && (succ[j].0 as int) < tbl.len() && #[trigger] tbl[succ[j].0 as int]@[x] {
        let j = choose|j: int| 0 <= j < succ.len() && (succ[j].0 as int) < tbl.len() && #[trigger] tbl[succ[j].0 as int]@[x];
        assert(sq[j] == succ[j].0);
        assert(a[sq[j] as int]);
    }
    if exists|j: int| 0 <= j < sq.len() && (sq[j] as int) < a.len() && #[trigger] a[sq[j] as int] {
        let j = choose|j: int| 0 <= j < sq.len() && (sq[j] as int) < a.len() && #[trigger] a[sq[j] as int];
        assert(sq[j] == succ[j].0);
        assert(tbl[succ[j].0 as int]@[x]);
    }
}

/// For every block and node, whether the block needs the node on its own
/// account.
fn own_table(bbs: &[BasicBlock], nodes: &[BBNode], homes: &[usize], effect: bool) -> (r: Vec<Vec<bool>>)
    requires
        nodes.len() <= id_space(),
        listed_below(blocks_model(bbs@), nodes.len() as int),
        inputs_below(blocks_model(bbs@), nodes_model(nodes@), nodes.len() as int),
        forall|t: int| 0 <= t < bbs.len() ==> crate::semantics::term_refs_below(#[trigger] bbs@[t].terminator@, nodes.len() as int),
        homes@.len() == nodes.len(),
        is_home_table(blocks_model(bbs@), homes@),
    ensures
        is_asks_table(blocks_model(bbs@), nodes_model(nodes@), effect, 0, r@),
{
    let ghost bm = blocks_model(bbs@);
    let ghost nm = nodes_model(nodes@);
    let mut r: Vec<Vec<bool>> = Vec::new();
    let mut t: usize = 0;
    while t < bbs.len()
        invariant
            t <= bbs.len(),
            bm == blocks_model(bbs@),
            nm == nodes_model(nodes@),
            nodes.len() <= id_space(),
            listed_below(bm, nodes.len() as int),
            inputs_below(bm, nm, nodes.len() as int),
            forall|u: int| 0 <= u < bbs.len() ==> crate::semantics::term_refs_below(#[trigger] bbs@[u].terminator@, nodes.len() as int),
            homes@.len() == nodes.len(),
            is_home_table(bm, homes@),
            r@.len() == t,
            forall|u: int| 0 <= u < t ==> (#[trigger] r@[u])@.len() == nm.len(),
            forall|u: int, x: int| 0 <= u < t && 0 <= x < nm.len() ==> #[trigger] r@[u]@[x] == asks_own(bm, nm, u, x as u32, effect),
        decreases bbs.len() - t,
    {
        let row = own_asks(bbs, nodes, homes, t, effect);
        r.push(row);
        t = t + 1;
    }
    proof {
        assert forall|u: int, x: int| 0 <= u < bm.len() && 0 <= x < nm.len() implies #[trigger] r@[u]@[x] == asks_within(bm, nm, u, x as u32, effect, 0) by {
            crate::carry::lemma_asks_unfold(bm, nm, u, x as u32, effect, 0);
        }
    }
    r
}

/// One more step of following needs back.
fn asks_next(
    bbs: &[BasicBlock],
    vis: &Vec<Vec<bool>>,
    own: &Vec<Vec<bool>>,
    prev: &Vec<Vec<bool>>,
    homes: &[usize],
    n: usize,
    Ghost(nm): Ghost<Seq<NodeModel>>,
    Ghost(effect): Ghost<bool>,
    Ghost(k): Ghost<nat>,
) -> (r: Vec<Vec<bool>>)
    requires
        n == nm.len(),
        bbs.len() <= id_space(),
        is_asks_table(blocks_model(bbs@), nm, effect, 0, own@),
        is_asks_table(blocks_model(bbs@), nm, effect, k, prev@),
        is_vis_table(blocks_model(bbs@), vis@, n as int),
        homes@.len() == n,
        is_home_table(blocks_model(bbs@), homes@),
    ensures
        is_asks_table(blocks_model(bbs@), nm, effect, k + 1, r@),
{
    let ghost bm = blocks_model(bbs@);
    let mut r: Vec<Vec<bool>> = Vec::new();
    let mut t: usize = 0;
    while t < bbs.len()
        invariant
            t <= bbs.len(),
            bm == blocks_model(bbs@),
            n == nm.len(),
            bbs.len() <= id_space(),
            is_asks_table(bm, nm, effect, 0, own@),
            is_asks_table(bm, nm, effect, k, prev@),
            is_vis_table(bm, vis@, n as int),
            homes@.len() == n,
            is_home_table(bm, homes@),
            r@.len() == t,
            forall|u: int| 0 <= u < t ==> (#[trigger] r@[u])@.len() == n,
            forall|u: int, x: int| 0 <= u < t && 0 <= x < n ==> #[trigger] r@[u]@[x] == asks_within(bm, nm, u, x as u32, effect, k + 1),
        decreases bbs.len() - t,
    {
        let succ = successor_ids(&bbs[t].terminator);
        proof {
            assert(bbs@[t as int].terminator@ == bm[t as int].terminator);
        }
        let mut row: Vec<bool> = Vec::new();
        let mut x: usize = 0;
        while x < n
            invariant
                x <= n,
                t < bbs.len(),
                bm == blocks_model(bbs@),
                n == nm.len(),
                bbs.len() <= id_space(),
                is_asks_table(bm, nm, effect, 0, own@),
                is_asks_table(bm, nm, effect, k, prev@),
                is_vis_table(bm, vis@, n as int),
                homes@.len() == n,
                is_home_table(bm, homes@),
                cont_ids_model(succ@) == successors(bm[t as int].terminator),
                row@.len() == x,
                forall|y: int| 0 <= y < x ==> #[trigger] row@[y] == asks_within(bm, nm, t as int, y as u32, effect, k + 1),
            decreases n - x,
        {
            let f = feeds(succ.as_slice(), vis[t][x], prev, x);
            let b = own[t][x] || (homes[x] != t && f);
            proof {
                crate::carry::lemma_asks_unfold(bm, nm, t as int, x as u32, effect, k);
                lemma_feeds_table(bm, nm, effect, k, prev@, succ@, t as int, x as int);
                lemma_home_table(bm, homes@, t as int, x as int);
                assert(own@[t as int]@[x as int] == asks_within(bm, nm, t as int, x as u32, effect, 0));
                crate::carry::lemma_asks_unfold(bm, nm, t as int, x as u32, effect, 0);
            }
            row.push(b);
            x = x + 1;
        }
        r.push(row);
        t = t + 1;
    }
    r
}

/// A table marking, for every block and node, whether the node is visible
/// at the end of the block.
pub open spec fn is_vis_table(bm: Seq<BlockModel>, vis: Seq<Vec<bool>>, n: int) -> bool {
    &&& vis.len() == bm.len()
    &&& forall|t: int| 0 <= t < bm.len() ==> (#[trigger] vis[t])@.len() == n
    &&& forall|t: int, x: int| 0 <= t < bm.len() && 0 <= x < n ==> #[trigger] vis[t]@[x] == visible(bm, t).contains(x as u32)
}

/// Marks, for every block, the nodes visible at its end.
fn vis_table(bbs: &[BasicBlock], visible_sets: &[Vec<BbNid>], n: usize) -> (r: Vec<Vec<bool>>)
    requires
        n <= id_space(),
        is_visible_table(blocks_model(bbs@), visible_sets@),
        forall|t: int, i: int| 0 <= t < visible_sets@.len() && 0 <= i < visible_sets@[t]@.len() ==> (#[trigger] visible_sets@[t]@[i].0 as int) < n,
    ensures
        is_vis_table(blocks_model(bbs@), r@, n as int),
{
    let ghost bm = blocks_model(bbs@);
    let mut r: Vec<Vec<bool>> = Vec::new();
    let mut t: usize = 0;
    while t < visible_sets.len()
        invariant
            t <= visible_sets.len(),
            bm == blocks_model(bbs@),
            n <= id_space(),
            is_visible_table(bm, visible_sets@),
            forall|u: int, i: int| 0 <= u < visible_sets@.len() && 0 <= i < visible_sets@[u]@.len() ==> (#[trigger] visible_sets@[u]@[i].0 as int) < n,
            r@.len() == t,
            forall|u: int| 0 <= u < t ==> (#[trigger] r@[u])@.len() == n,
            forall|u: int, x: int| 0 <= u < t && 0 <= x < n ==> #[trigger] r@[u]@[x] == visible(bm, u).contains(x as u32),
        decreases visible_sets.len() - t,
    {
        let mut row = crate::bb2flatcont::filled_bool(n, false);
        let homes_none = crate::bb2flatcont::filled_usize(n, 0);
        let vs = visible_sets[t].as_slice();
        proof {
            assert forall|i: int| 0 <= i < vs@.len() implies (#[trigger] vs@[i].0 as int) < homes_none@.len() by {
                assert((visible_sets@[t as int]@[i].0 as int) < n);
            }
        }
        mark_ids(&mut row, vs, homes_none.as_slice(), usize::MAX);
        r.push(row);
        t = t + 1;
    }
    r
}

/// For every block and node, whether the block must carry the node on to
/// its successors.
pub fn carry_table(
    bbs: &[BasicBlock],
    nodes: &[BBNode],
    visible_sets: &[Vec<BbNid>],
    homes: &[usize],
    effect: bool,
) -> (r: Vec<Vec<bool>>)
    requires
        bbs.len() <= id_space(),
        nodes.len() <= id_space(),
        listed_below(blocks_model(bbs@), nodes.len() as int),
        inputs_below(blocks_model(bbs@), nodes_model(nodes@), nodes.len() as int),
        forall|t: int| 0 <= t < bbs.len() ==> crate::semantics::term_refs_below(#[trigger] bbs@[t].terminator@, nodes.len() as int),
        is_visible_table(blocks_model(bbs@), visible_sets@),
        forall|t: int, i: int| 0 <= t < visible_sets@.len() && 0 <= i < visible_sets@[t]@.len() ==> (#[trigger] visible_sets@[t]@[i].0 as int) < nodes.len(),
        homes@.len() == nodes.len(),
        is_home_table(blocks_model(bbs@), homes@),
    ensures
        r@.len() == bbs.len(),
        forall|p: int| 0 <= p < bbs.len() ==> (#[trigger] r@[p])@.len() == nodes.len(),
        forall|p: int, x: int| 0 <= p < bbs.len() && 0 <= x < nodes.len() ==> #[trigger] r@[p]@[x] == carries(
            blocks_model(bbs@),
            nodes_model(nodes@),
            p,
            x as u32,
            effect,
        ),
{
    let ghost bm = blocks_model(bbs@);
    let ghost nm = nodes_model(nodes@);
    let n = nodes.len();
    let vis = vis_table(bbs, visible_sets, n);
    let own = own_table(bbs, nodes, homes, effect);
    let mut tbl = own_table(bbs, nodes, homes, effect);
    let mut k: usize = 0;
    while k < bbs.len()
        invariant
            k <= bbs.len(),
            bm == blocks_model(bbs@),
            nm == nodes_model(nodes@),
            n == nodes.len(),
            bbs.len() <= id_space(),
            is_asks_table(bm, nm, effect, 0, own@),
            is_asks_table(bm, nm, effect, k as nat, tbl@),
            is_vis_table(bm, vis@, n as int),
            homes@.len() == n,
            is_home_table(bm, homes@),
        decreases bbs.len() - k,
    {
        tbl = asks_next(bbs, &vis, &own, &tbl, homes, n, Ghost(nm), Ghost(effect), Ghost(k as nat));
        k = k + 1;
    }
    let mut r: Vec<Vec<bool>> = Vec::new();
    let mut p: usize = 0;
    while p < bbs.len()
        invariant
            p <= bbs.len(),
            bm == blocks_model(bbs@),
            nm == nodes_model(nodes@),
            n == nodes.len(),
            is_asks_table(bm, nm, effect, bm.len() as nat, tbl@),
            is_vis_table(bm, vis@, n as int),
            r@.len() == p,
            forall|u: int| 0 <= u < p ==> (#[trigger] r@[u])@.len() == n,
            forall|u: int, x: int| 0 <= u < p && 0 <= x < n ==> #[trigger] r@[u]@[x] == carries(bm, nm, u, x as u32, effect),
        decreases bbs.len() - p,
    {
        let succ = successor_ids(&bbs[p].terminator);
        proof {
            assert(bbs@[p as int].terminator@ == bm[p as int].terminator);
        }
        let mut row: Vec<bool> = Vec::new();
        let mut x: usize = 0;
        while x < n
            invariant
                x <= n,
                p < bbs.len(),
                bm == blocks_model(bbs@),
                n == nm.len(),
                is_asks_table(bm, nm, effect, bm.len() as nat, tbl@),
                is_vis_table(bm, vis@, n as int),
                cont_ids_model(succ@) == successors(bm[p as int].terminator),
                row@.len() == x,
                forall|y: int| 0 <= y < x ==> #[trigger] row@[y] == carries(bm, nm, p as int, y as u32, effect),
            decreases n - x,
        {
            let f = feeds(succ.as_slice(), vis[p][x], &tbl, x);
            proof {
                lemma_feeds_table(bm, nm, effect, bm.len() as nat, tbl@, succ@, p as int, x as int);
            }
            row.push(f);
            x = x + 1;
        }
        r.push(row);
        p = p + 1;
    }
    r
}

} // verus!
