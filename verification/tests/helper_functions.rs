use flat_cont::basicblock::{
    values_equal, BasicBlock, BasicBlockGraph, ContId as BbCid, GepIndices, Node as BbNode,
    NodeId as BbNid, Operands, Terminator as BbTerm, Value as BbValue,
};
use flat_cont::bb2flatcont::{
    cid, com_args_mut, compute_pres, dedup, eff_args_mut, effect_name, fcid, fid, get_inputs,
    infer_type, push_com, push_eff, remap_node, remap_term, set_com, set_eff, successor_ids,
    term_com_slice, term_eff_slice,
};
use flat_cont::common::{raw_type_eq, AtomicRMWCode, ICond, Opcode, RawType, SyncScope};
use flat_cont::flatcont::{Node as FcNode, NodeId as FcNid, Terminator as FcTerm, Value as FcValue};

fn bv(x: u32) -> BbValue {
    BbValue::Node(BbNid(x))
}

fn fv(x: u32) -> FcValue {
    FcValue::Node(FcNid(x))
}

fn raw(v: &[BbNid]) -> Vec<u32> {
    v.iter().map(|n| n.0).collect()
}

fn jump(effs: Vec<(String, BbValue)>, coms: Vec<BbValue>) -> BbTerm {
    BbTerm::Jump { effect_args: effs, common_args: coms, target: BbCid(0) }
}

#[test]
fn test_id_constructors() {
    assert_eq!(fid(7), FcNid(7));
    assert_eq!(cid(3), BbCid(3));
    assert_eq!(fcid(9).0, 9);
}

#[test]
fn test_dedup_keeps_first_occurrences() {
    let mut v = vec![BbNid(3), BbNid(1), BbNid(3), BbNid(2), BbNid(1)];
    dedup(&mut v);
    assert_eq!(raw(&v), vec![3, 1, 2]);

    let mut empty: Vec<BbNid> = vec![];
    dedup(&mut empty);
    assert!(empty.is_empty());

    let mut unique = vec![BbNid(5), BbNid(6)];
    dedup(&mut unique);
    assert_eq!(raw(&unique), vec![5, 6]);
}

#[test]
fn test_law_dedup() {
    let mut v = vec![BbNid(4), BbNid(4), BbNid(4)];
    dedup(&mut v);
    assert_eq!(raw(&v), vec![4]);
    let mut w = v.clone();
    dedup(&mut w);
    assert_eq!(raw(&w), raw(&v));
}

#[test]
fn test_get_inputs_load_and_store() {
    let load = BbNode::Load { data_type: RawType::Scalar(8), effect_state: bv(1), addr: bv(2), signed: true };
    let (e, c) = get_inputs(&load);
    assert_eq!(raw(&e), vec![1]);
    assert_eq!(raw(&c), vec![2]);

    let store = BbNode::Store { data_type: RawType::Scalar(8), effect_state: bv(1), addr: bv(2), value: bv(2) };
    let (e, c) = get_inputs(&store);
    assert_eq!(raw(&e), vec![1]);
    assert_eq!(raw(&c), vec![2]);

    let cas = BbNode::AtomicCAS {
        data_type: RawType::Scalar(32),
        effect_state: bv(0),
        addr: bv(1),
        old: bv(2),
        new: bv(3),
    };
    let (e, c) = get_inputs(&cas);
    assert_eq!(raw(&e), vec![0]);
    assert_eq!(raw(&c), vec![1, 2, 3]);

    let rmw = BbNode::AtomicRMW {
        data_type: RawType::Scalar(32),
        effect_state: bv(0),
        addr: bv(1),
        value: BbValue::Const(1, RawType::Scalar(32)),
        operator: AtomicRMWCode::Add,
    };
    let (e, c) = get_inputs(&rmw);
    assert_eq!(raw(&e), vec![0]);
    assert_eq!(raw(&c), vec![1]);
}

#[test]
fn test_get_inputs_call_merge_and_pure_nodes() {
    let call = BbNode::Call {
        target: bv(9),
        effect_args: vec![("a".to_string(), bv(1)), ("b".to_string(), bv(1))],
        args: vec![bv(2), BbValue::Param(0), bv(2)],
    };
    let (e, c) = get_inputs(&call);
    assert_eq!(raw(&e), vec![1]);
    assert_eq!(raw(&c), vec![9, 2]);

    let merge = BbNode::TokenMerge(vec![bv(1), bv(3), bv(1)]);
    let (e, c) = get_inputs(&merge);
    assert_eq!(raw(&e), vec![1, 3]);
    assert!(c.is_empty());

    let gep = BbNode::GEP(RawType::Ptr, bv(0), GepIndices::from_vec(vec![bv(1), bv(0)]));
    let (e, c) = get_inputs(&gep);
    assert!(e.is_empty());
    assert_eq!(raw(&c), vec![0, 1]);

    let sel = BbNode::Select(bv(4), bv(5), bv(4));
    assert_eq!(raw(&get_inputs(&sel).1), vec![4, 5]);
    let cmp = BbNode::Icmp(ICond::Lt, bv(6), BbValue::Effect(0));
    assert_eq!(raw(&get_inputs(&cmp).1), vec![6]);
    let ops = BbNode::Compute(Opcode::Xor, Operands::from_vec(vec![bv(7), bv(8), bv(7)]));
    assert_eq!(raw(&get_inputs(&ops).1), vec![7, 8]);
    let proj = BbNode::Proj(bv(2), 0);
    assert_eq!(raw(&get_inputs(&proj).1), vec![2]);

    for leaf in [BbNode::Const(0, RawType::Token), BbNode::Param(1), BbNode::EffectParam(0), BbNode::Alloc(RawType::Ptr)] {
        let (e, c) = get_inputs(&leaf);
        assert!(e.is_empty() && c.is_empty());
    }
}

#[test]
fn test_successor_ids() {
    let t = BbTerm::Branch {
        effect_args: vec![],
        common_args: vec![],
        cond: bv(0),
        then_target: BbCid(4),
        else_target: BbCid(2),
    };
    assert_eq!(successor_ids(&t), vec![BbCid(4), BbCid(2)]);
    let s = BbTerm::Switch { effect_args: vec![], common_args: vec![], case: bv(0), targets: vec![BbCid(1), BbCid(1)] };
    assert_eq!(successor_ids(&s), vec![BbCid(1), BbCid(1)]);
    assert_eq!(successor_ids(&jump(vec![], vec![])), vec![BbCid(0)]);
    let r = BbTerm::Return { effect_args: vec![], common_args: vec![] };
    assert!(successor_ids(&r).is_empty());
}

#[test]
fn test_law_predecessors() {
    // B0 branches to B1 on both edges; B1 jumps to B2; B2 jumps back to B1.
    let bbs = vec![
        BasicBlock {
            node_ids: vec![],
            terminator: BbTerm::Branch {
                effect_args: vec![],
                common_args: vec![],
                cond: BbValue::Const(1, RawType::Scalar(1)),
                then_target: BbCid(1),
                else_target: BbCid(1),
            },
        },
        BasicBlock { node_ids: vec![], terminator: BbTerm::Jump { effect_args: vec![], common_args: vec![], target: BbCid(2) } },
        BasicBlock { node_ids: vec![], terminator: BbTerm::Jump { effect_args: vec![], common_args: vec![], target: BbCid(1) } },
    ];
    let pres = compute_pres(&bbs);
    assert!(pres[0].is_empty());
    assert_eq!(pres[1], vec![BbCid(0), BbCid(0), BbCid(2)]);
    assert_eq!(pres[2], vec![BbCid(1)]);
}

#[test]
fn test_infer_type() {
    assert_eq!(infer_type(&BbNode::Const(3, RawType::Scalar(16))), RawType::Scalar(16));
    let load = BbNode::Load { data_type: RawType::Ptr, effect_state: bv(0), addr: bv(1), signed: false };
    assert_eq!(infer_type(&load), RawType::Ptr);
    let gep = BbNode::GEP(RawType::Array(4, Box::new(RawType::Scalar(8))), bv(0), GepIndices::from_vec(vec![]));
    assert_eq!(infer_type(&gep), RawType::Array(4, Box::new(RawType::Scalar(8))));
    assert_eq!(infer_type(&BbNode::Icmp(ICond::Eq, bv(0), bv(1))), RawType::Scalar(1));
    assert_eq!(infer_type(&BbNode::Select(bv(0), bv(1), bv(2))), RawType::Scalar(1));
    assert_eq!(infer_type(&BbNode::Compute(Opcode::Add, Operands::from_vec(vec![]))), RawType::Scalar(32));
    assert_eq!(infer_type(&BbNode::Param(0)), RawType::Token);
    assert_eq!(infer_type(&BbNode::Proj(bv(0), 1)), RawType::Token);
    assert_eq!(infer_type(&BbNode::Alloc(RawType::Ptr)), RawType::Token);
}

#[test]
fn test_effect_name_is_empty() {
    assert_eq!(effect_name(&BbNode::EffectParam(3)), "");
}

#[test]
fn test_terminator_argument_access() {
    let mut t = BbTerm::Return { effect_args: vec![("m".to_string(), bv(1))], common_args: vec![bv(2)] };
    assert_eq!(term_eff_slice(&t).len(), 1);
    assert_eq!(term_com_slice(&t), &[bv(2)]);
    eff_args_mut(&mut t).push(("n".to_string(), bv(3)));
    com_args_mut(&mut t).clear();
    assert_eq!(
        t,
        BbTerm::Return {
            effect_args: vec![("m".to_string(), bv(1)), ("n".to_string(), bv(3))],
            common_args: vec![],
        }
    );
}

#[test]
fn test_push_eff_and_push_com_skip_duplicates() {
    let mut t = jump(vec![("m".to_string(), bv(1))], vec![bv(2)]);
    push_eff(&mut t, BbNid(1));
    push_eff(&mut t, BbNid(4));
    push_com(&mut t, BbNid(2));
    push_com(&mut t, BbNid(5));
    assert_eq!(
        t,
        jump(
            vec![("m".to_string(), bv(1)), (String::new(), bv(4))],
            vec![bv(2), bv(5)],
        )
    );
}

#[test]
fn test_set_eff_and_set_com_replace() {
    let mut t = jump(vec![("m".to_string(), bv(1))], vec![bv(2)]);
    set_eff(&mut t, &[bv(7), bv(8)]);
    set_com(&mut t, vec![BbValue::Const(3, RawType::Scalar(8))]);
    assert_eq!(
        t,
        jump(
            vec![(String::new(), bv(7)), (String::new(), bv(8))],
            vec![BbValue::Const(3, RawType::Scalar(8))],
        )
    );
}

#[test]
fn test_remap_node_looks_up_operands() {
    let table = [5usize, 9, 7];
    let n = BbNode::Compute(Opcode::Sub, Operands::from_vec(vec![bv(0), BbValue::Param(1), bv(2)]));
    match remap_node(&n, &table) {
        FcNode::Compute(Opcode::Sub, ops) => {
            assert_eq!(ops.as_slice(), &[fv(5), FcValue::Param(1), fv(7)]);
        }
        other => panic!("unexpected node {:?}", other),
    }
    let call = BbNode::Call { target: bv(1), effect_args: vec![("x".to_string(), bv(0))], args: vec![bv(2)] };
    assert_eq!(
        remap_node(&call, &table),
        FcNode::Call { target: fv(9), effect_args: vec![("x".to_string(), fv(5))], args: vec![fv(7)] }
    );
    assert_eq!(remap_node(&BbNode::ContRef(BbCid(4)), &table), FcNode::ContRef(flat_cont::flatcont::ContId(4)));
}

#[test]
fn test_remap_term_looks_up_arguments() {
    let table = [2usize, 0, 1];
    let t = BbTerm::Branch {
        effect_args: vec![("e".to_string(), bv(1))],
        common_args: vec![bv(2), BbValue::Const(0, RawType::Token)],
        cond: bv(0),
        then_target: BbCid(3),
        else_target: BbCid(5),
    };
    assert_eq!(
        remap_term(&t, &table),
        FcTerm::Branch {
            effect_args: vec![("e".to_string(), fv(0))],
            common_args: vec![fv(1), FcValue::Const(0, RawType::Token)],
            cond: fv(2),
            then_target: flat_cont::flatcont::ContId(3),
            else_target: flat_cont::flatcont::ContId(5),
        }
    );
}

#[test]
fn test_graph_builders() {
    let mut g = BasicBlockGraph { name: None, static_data: vec![], externals: vec![], nodes: vec![], bbs: vec![] };
    let b0 = g.add_bb();
    let b1 = g.add_bb();
    assert_eq!((b0, b1), (BbCid(0), BbCid(1)));
    let n0 = g.add_node(BbNode::Param(0));
    let n1 = g.add_node(BbNode::Const(1, RawType::Scalar(32)));
    assert_eq!((n0, n1), (BbNid(0), BbNid(1)));
    g.add_to_block(b1, n1);
    g.add_to_block(b1, n0);
    g.set_term(b0, jump(vec![], vec![bv(0)]));
    assert_eq!(g.nodes.len(), 2);
    assert!(g.bbs[0].node_ids.is_empty());
    assert_eq!(g.bbs[1].node_ids, vec![BbNid(1), BbNid(0)]);
    assert_eq!(g.bbs[0].terminator, jump(vec![], vec![bv(0)]));
    assert_eq!(g.bbs[1].terminator, BbTerm::Return { effect_args: vec![], common_args: vec![] });
}

#[test]
fn test_inline_vectors_round_trip() {
    let ops = Operands::from_vec(vec![bv(3), BbValue::Effect(2)]);
    assert_eq!(ops.as_slice(), &[bv(3), BbValue::Effect(2)]);
    assert_eq!(ops.clone().as_slice(), ops.as_slice());
    let idx = GepIndices::from_vec(vec![bv(1), bv(2), bv(3), bv(4)]);
    assert_eq!(idx.as_slice(), &[bv(1), bv(2), bv(3), bv(4)]);
    let fops = flat_cont::flatcont::Operands::from_vec(vec![fv(1)]);
    assert_eq!(fops.as_slice(), &[fv(1)]);
    let fidx = flat_cont::flatcont::GepIndices::from_vec(vec![fv(0), fv(1)]);
    assert_eq!(fidx.as_slice(), &[fv(0), fv(1)]);
}

#[test]
fn test_values_and_types() {
    assert!(values_equal(&bv(1), &bv(1)));
    assert!(!values_equal(&bv(1), &bv(2)));
    assert!(values_equal(&BbValue::Const(4, RawType::Ptr), &BbValue::Const(4, RawType::Ptr)));
    assert!(!values_equal(&BbValue::Param(0), &BbValue::Effect(0)));
    assert_eq!(bv(6).as_node(), BbNid(6));
    assert!(raw_type_eq(
        &RawType::Struct(vec![RawType::Scalar(8), RawType::Vector { elem_bits: 16 }]),
        &RawType::Struct(vec![RawType::Scalar(8), RawType::Vector { elem_bits: 16 }]),
    ));
    assert!(!raw_type_eq(&RawType::Scalar(8), &RawType::Scalar(16)));
    assert_eq!(SyncScope::default(), SyncScope::System);
}

fn small_graph() -> BasicBlockGraph {
    BasicBlockGraph {
        name: None,
        static_data: vec![],
        externals: vec![],
        nodes: vec![BbNode::Param(0), BbNode::Compute(Opcode::Add, Operands::from_vec(vec![bv(0), bv(0)]))],
        bbs: vec![
            BasicBlock { node_ids: vec![BbNid(0), BbNid(1)], terminator: jump(vec![], vec![bv(1)]) },
        ],
    }
}

#[test]
fn test_graph_is_valid_accepts_well_formed() {
    assert!(flat_cont::validity::graph_is_valid(&small_graph()));
    let empty = BasicBlockGraph { name: None, static_data: vec![], externals: vec![], nodes: vec![], bbs: vec![] };
    assert!(flat_cont::validity::graph_is_valid(&empty));
}

#[test]
fn test_graph_is_valid_rejects_missing_node() {
    let mut g = small_graph();
    g.bbs[0].node_ids.push(BbNid(2));
    assert!(!flat_cont::validity::graph_is_valid(&g));

    let mut g = small_graph();
    g.nodes[1] = BbNode::Proj(bv(5), 0);
    assert!(!flat_cont::validity::graph_is_valid(&g));

    let mut g = small_graph();
    g.bbs[0].terminator = jump(vec![("e".to_string(), bv(9))], vec![]);
    assert!(!flat_cont::validity::graph_is_valid(&g));

    let mut g = small_graph();
    g.bbs[0].terminator = BbTerm::Branch {
        effect_args: vec![],
        common_args: vec![],
        cond: bv(3),
        then_target: BbCid(0),
        else_target: BbCid(0),
    };
    assert!(!flat_cont::validity::graph_is_valid(&g));
}

#[test]
fn test_graph_is_valid_rejects_missing_target() {
    let mut g = small_graph();
    g.bbs[0].terminator = BbTerm::Jump { effect_args: vec![], common_args: vec![], target: BbCid(1) };
    assert!(!flat_cont::validity::graph_is_valid(&g));
    g.bbs[0].terminator = BbTerm::Switch { effect_args: vec![], common_args: vec![], case: bv(0), targets: vec![BbCid(0), BbCid(7)] };
    assert!(!flat_cont::validity::graph_is_valid(&g));
}
