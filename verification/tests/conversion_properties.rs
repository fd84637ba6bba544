use flat_cont::basicblock::{
    BasicBlock, BasicBlockGraph, ContId as BbCid, Node as BbNode, NodeId as BbNid,
    Operands as BbOperands, Terminator as BbTerm, Value as BbValue,
};
use flat_cont::bb2flatcont::bb_to_flat_cont;
use flat_cont::common::{ExternDecl, ICond, Opcode, RawType, StaticData, Visibility};
use flat_cont::flatcont::{
    FlatContinuation, Node as FcNode, NodeId as FcNid, Terminator as FcTerm, Value as FcValue,
};

fn bv(x: u32) -> BbValue {
    BbValue::Node(BbNid(x))
}

fn fv(x: u32) -> FcValue {
    FcValue::Node(FcNid(x))
}

fn ids(v: &[u32]) -> Vec<BbNid> {
    v.iter().map(|x| BbNid(*x)).collect()
}

// B0: x = Param, mem = EffectParam, one = 1, c = (x == one); branch c ? B1 : B2
// B1: five = 5, y = x + five; jump B3
// B2: z = x * one; jump B3
// B3: l = Load(mem, x), m = Proj(l, 1); return (mem: m), x
fn diamond(effect_name: &str) -> BasicBlockGraph {
    BasicBlockGraph {
        name: Some("diamond".to_string()),
        static_data: vec![StaticData {
            name: "table".to_string(),
            visibility: Visibility::Public,
            is_read_only: true,
            alignment: 4,
            bytes: vec![1, 2, 3],
        }],
        externals: vec![ExternDecl {
            name: "putc".to_string(),
            param: vec![RawType::Scalar(8)],
            ret: RawType::Token,
        }],
        nodes: vec![
            BbNode::Param(0),
            BbNode::EffectParam(0),
            BbNode::Const(1, RawType::Scalar(32)),
            BbNode::Icmp(ICond::Eq, bv(0), bv(2)),
            BbNode::Const(5, RawType::Scalar(32)),
            BbNode::Compute(Opcode::Add, BbOperands::from_vec(vec![bv(0), bv(4)])),
            BbNode::Compute(Opcode::Mul, BbOperands::from_vec(vec![bv(0), bv(2)])),
            BbNode::Load {
                data_type: RawType::Scalar(32),
                effect_state: bv(1),
                addr: bv(0),
                signed: false,
            },
            BbNode::Proj(bv(7), 1),
        ],
        bbs: vec![
            BasicBlock {
                node_ids: ids(&[0, 1, 2, 3]),
                terminator: BbTerm::Branch {
                    effect_args: vec![],
                    common_args: vec![],
                    cond: bv(3),
                    then_target: BbCid(1),
                    else_target: BbCid(2),
                },
            },
            BasicBlock {
                node_ids: ids(&[4, 5]),
                terminator: BbTerm::Jump { effect_args: vec![], common_args: vec![], target: BbCid(3) },
            },
            BasicBlock {
                node_ids: ids(&[6]),
                terminator: BbTerm::Jump { effect_args: vec![], common_args: vec![], target: BbCid(3) },
            },
            BasicBlock {
                node_ids: ids(&[7, 8]),
                terminator: BbTerm::Return {
                    effect_args: vec![(effect_name.to_string(), bv(8))],
                    common_args: vec![bv(0)],
                },
            },
        ],
    }
}

/// Node ids an FC node refers to.
fn fc_node_refs(n: &FcNode) -> Vec<u32> {
    let mut vals: Vec<&FcValue> = Vec::new();
    match n {
        FcNode::Load { effect_state, addr, .. } => {
            vals.push(effect_state);
            vals.push(addr);
        }
        FcNode::Store { effect_state, addr, value, .. } => {
            vals.push(effect_state);
            vals.push(addr);
            vals.push(value);
        }
        FcNode::AtomicCAS { effect_state, addr, old, new, .. } => {
            vals.push(effect_state);
            vals.push(addr);
            vals.push(old);
            vals.push(new);
        }
        FcNode::AtomicRMW { effect_state, addr, value, .. } => {
            vals.push(effect_state);
            vals.push(addr);
            vals.push(value);
        }
        FcNode::GEP(_, base, indices) => {
            vals.push(base);
            vals.extend(indices.as_slice().iter());
        }
        FcNode::Select(c, t, f) => {
            vals.push(c);
            vals.push(t);
            vals.push(f);
        }
        FcNode::Icmp(_, a, b) => {
            vals.push(a);
            vals.push(b);
        }
        FcNode::Compute(_, ops) => vals.extend(ops.as_slice().iter()),
        FcNode::Proj(v, _) => vals.push(v),
        FcNode::TokenMerge(vs) => vals.extend(vs.iter()),
        FcNode::Call { target, effect_args, args } => {
            vals.push(target);
            vals.extend(effect_args.iter().map(|a| &a.1));
            vals.extend(args.iter());
        }
        _ => {}
    }
    vals.iter()
        .filter_map(|v| match v {
            FcValue::Node(n) => Some(n.0),
            _ => None,
        })
        .collect()
}

/// Node ids an FC terminator refers to.
fn fc_term_refs(t: &FcTerm) -> Vec<u32> {
    let (effs, coms, sel) = match t {
        FcTerm::Jump { effect_args, common_args, .. } => (effect_args, common_args, None),
        FcTerm::Branch { effect_args, common_args, cond, .. } => (effect_args, common_args, Some(cond)),
        FcTerm::Switch { effect_args, common_args, case, .. } => (effect_args, common_args, Some(case)),
        FcTerm::Return { effect_args, common_args } => (effect_args, common_args, None),
    };
    let mut out = Vec::new();
    for v in effs.iter().map(|a| &a.1).chain(coms.iter()).chain(sel.into_iter()) {
        if let FcValue::Node(n) = v {
            out.push(n.0);
        }
    }
    out
}

fn assert_self_contained(c: &FlatContinuation) {
    let base = c.params.len() + c.effects.len();
    for (k, n) in c.nodes.iter().enumerate() {
        for r in fc_node_refs(n) {
            assert!((r as usize) < base + k, "node {} refers to {}", k, r);
        }
    }
    for r in fc_term_refs(&c.terminator) {
        assert!((r as usize) < base + c.nodes.len(), "terminator refers to {}", r);
    }
}

fn term_effect_names(t: &FcTerm) -> Vec<String> {
    let effs = match t {
        FcTerm::Jump { effect_args, .. } => effect_args,
        FcTerm::Branch { effect_args, .. } => effect_args,
        FcTerm::Switch { effect_args, .. } => effect_args,
        FcTerm::Return { effect_args, .. } => effect_args,
    };
    effs.iter().map(|a| a.0.clone()).collect()
}

#[test]
fn test_diamond_exact_output() {
    let r = bb_to_flat_cont(&diamond("mem"));
    assert_eq!(r.continuations.len(), 4);

    let c0 = &r.continuations[0];
    assert_eq!(c0.params, vec![RawType::Token]);
    assert_eq!(c0.effects, vec![String::new()]);
    assert_eq!(
        c0.nodes,
        vec![FcNode::Const(1, RawType::Scalar(32)), FcNode::Icmp(ICond::Eq, fv(0), fv(2))]
    );
    assert_eq!(
        c0.terminator,
        FcTerm::Branch {
            effect_args: vec![(String::new(), fv(1))],
            common_args: vec![fv(0), fv(2)],
            cond: fv(3),
            then_target: flat_cont::flatcont::ContId(1),
            else_target: flat_cont::flatcont::ContId(2),
        }
    );

    let c1 = &r.continuations[1];
    assert_eq!(c1.params, vec![RawType::Token, RawType::Scalar(32)]);
    assert_eq!(c1.effects.len(), 1);
    assert_eq!(c1.nodes.len(), 2);
    assert_eq!(c1.nodes[0], FcNode::Const(5, RawType::Scalar(32)));
    assert!(matches!(&c1.nodes[1], FcNode::Compute(Opcode::Add, ops)
        if ops.as_slice() == [fv(0), fv(3)].as_slice()));
    assert_eq!(
        c1.terminator,
        FcTerm::Jump {
            effect_args: vec![(String::new(), fv(2))],
            common_args: vec![fv(0), fv(1)],
            target: flat_cont::flatcont::ContId(3),
        }
    );

    let c2 = &r.continuations[2];
    assert_eq!(c2.params, vec![RawType::Token, RawType::Scalar(32)]);
    assert_eq!(c2.effects.len(), 1);
    assert!(matches!(&c2.nodes[0], FcNode::Compute(Opcode::Mul, ops)
        if ops.as_slice() == [fv(0), fv(1)].as_slice()));
    assert_eq!(
        c2.terminator,
        FcTerm::Jump {
            effect_args: vec![(String::new(), fv(2))],
            common_args: vec![fv(0)],
            target: flat_cont::flatcont::ContId(3),
        }
    );

    let c3 = &r.continuations[3];
    assert_eq!(c3.params, vec![RawType::Token]);
    assert_eq!(c3.effects.len(), 1);
    assert_eq!(
        c3.nodes,
        vec![
            FcNode::Load { data_type: RawType::Scalar(32), effect_state: fv(1), addr: fv(0), signed: false },
            FcNode::Proj(fv(2), 1),
        ]
    );
    assert_eq!(
        c3.terminator,
        FcTerm::Return { effect_args: vec![(String::new(), fv(3))], common_args: vec![fv(0)] }
    );
}

#[test]
fn test_law_one_continuation_per_block() {
    let g = diamond("mem");
    let r = bb_to_flat_cont(&g);
    assert_eq!(r.continuations.len(), g.bbs.len());
    assert_eq!(r.name, g.name);
    assert_eq!(r.static_data, g.static_data);
    assert_eq!(r.externals, g.externals);
}

#[test]
fn test_law_control_flow_kept() {
    let r = bb_to_flat_cont(&diamond("mem"));
    assert!(matches!(&r.continuations[0].terminator,
        FcTerm::Branch { then_target, else_target, .. } if then_target.0 == 1 && else_target.0 == 2));
    assert!(matches!(&r.continuations[1].terminator, FcTerm::Jump { target, .. } if target.0 == 3));
    assert!(matches!(&r.continuations[2].terminator, FcTerm::Jump { target, .. } if target.0 == 3));
    assert!(matches!(&r.continuations[3].terminator, FcTerm::Return { .. }));
}

#[test]
fn test_law_body_has_no_params() {
    let r = bb_to_flat_cont(&diamond("mem"));
    for c in &r.continuations {
        for n in &c.nodes {
            assert!(!matches!(n, FcNode::Param(_) | FcNode::EffectParam(_)));
        }
    }
    // Block 0 lists a parameter, an effect parameter and two other nodes.
    assert_eq!(r.continuations[0].params.len(), 1);
    assert_eq!(r.continuations[0].effects.len(), 1);
    assert_eq!(r.continuations[0].nodes.len(), 2);
}

#[test]
fn test_law_effects_unnamed() {
    let r = bb_to_flat_cont(&diamond("mem"));
    for c in &r.continuations {
        assert!(c.effects.iter().all(|e| e.is_empty()));
        assert!(term_effect_names(&c.terminator).iter().all(|e| e.is_empty()));
    }
    assert_eq!(term_effect_names(&r.continuations[3].terminator), vec![String::new()]);
}

#[test]
fn test_law_effect_names_do_not_matter() {
    let a = bb_to_flat_cont(&diamond("mem"));
    let b = bb_to_flat_cont(&diamond("heap"));
    assert_eq!(a, b);
}

#[test]
fn test_law_continuations_self_contained() {
    let r = bb_to_flat_cont(&diamond("mem"));
    for c in &r.continuations {
        assert_self_contained(c);
    }
}

#[test]
fn test_law_foreign_uses_are_passed() {
    // Block 3 loads from x through mem; both predecessors pass x as an
    // ordinary argument (local 0) and mem as an effect argument (local 2).
    let r = bb_to_flat_cont(&diamond("mem"));
    for b in [1usize, 2] {
        match &r.continuations[b].terminator {
            FcTerm::Jump { effect_args, common_args, .. } => {
                assert!(common_args.contains(&fv(0)));
                assert!(effect_args.iter().any(|a| a.1 == fv(2)));
            }
            t => panic!("unexpected terminator {:?}", t),
        }
    }
}

#[test]
fn test_law_second_pass_arguments() {
    // The constant `one` (node 2) is used by block 2 only: block 1 still
    // passes it (a later block uses it), block 2 and block 3 do not.
    let r = bb_to_flat_cont(&diamond("mem"));
    match &r.continuations[1].terminator {
        FcTerm::Jump { common_args, .. } => assert_eq!(common_args, &vec![fv(0), fv(1)]),
        t => panic!("unexpected terminator {:?}", t),
    }
    match &r.continuations[2].terminator {
        FcTerm::Jump { common_args, .. } => assert_eq!(common_args, &vec![fv(0)]),
        t => panic!("unexpected terminator {:?}", t),
    }
    // Block 3 inherits x and mem but no later block uses them: only its
    // own arguments remain.
    match &r.continuations[3].terminator {
        FcTerm::Return { effect_args, common_args } => {
            assert_eq!(effect_args.len(), 1);
            assert_eq!(common_args.len(), 1);
        }
        t => panic!("unexpected terminator {:?}", t),
    }
}

#[test]
fn test_law_own_arguments_kept() {
    let r = bb_to_flat_cont(&diamond("mem"));
    // Block 3 returns x (a parameter, local 0) and the Proj (body node 1,
    // local 3).
    assert_eq!(
        r.continuations[3].terminator,
        FcTerm::Return { effect_args: vec![(String::new(), fv(3))], common_args: vec![fv(0)] }
    );
}

// B0: s = Param, k = 7; switch s [B1, B2, B1]
// B1, B2: return k
fn switch_graph() -> BasicBlockGraph {
    BasicBlockGraph {
        name: None,
        static_data: vec![],
        externals: vec![],
        nodes: vec![BbNode::Param(0), BbNode::Const(7, RawType::Scalar(16))],
        bbs: vec![
            BasicBlock {
                node_ids: ids(&[0, 1]),
                terminator: BbTerm::Switch {
                    effect_args: vec![],
                    common_args: vec![],
                    case: bv(0),
                    targets: vec![BbCid(1), BbCid(2), BbCid(1)],
                },
            },
            BasicBlock {
                node_ids: vec![],
                terminator: BbTerm::Return { effect_args: vec![], common_args: vec![bv(1)] },
            },
            BasicBlock {
                node_ids: vec![],
                terminator: BbTerm::Return { effect_args: vec![], common_args: vec![bv(1)] },
            },
        ],
    }
}

#[test]
fn test_switch_conversion() {
    let r = bb_to_flat_cont(&switch_graph());
    assert_eq!(r.continuations.len(), 3);
    let c0 = &r.continuations[0];
    assert_eq!(c0.params, vec![RawType::Token]);
    assert_eq!(c0.nodes, vec![FcNode::Const(7, RawType::Scalar(16))]);
    match &c0.terminator {
        FcTerm::Switch { case, targets, common_args, .. } => {
            assert_eq!(case, &fv(0));
            assert_eq!(targets.iter().map(|t| t.0).collect::<Vec<_>>(), vec![1, 2, 1]);
            // Both successors pass the constant on, so block 0 hands it
            // to them.
            assert_eq!(common_args, &vec![fv(1)]);
        }
        t => panic!("unexpected terminator {:?}", t),
    }
    // Each return passes the foreign constant, which becomes its parameter.
    for b in [1usize, 2] {
        let c = &r.continuations[b];
        assert_eq!(c.params, vec![RawType::Scalar(16)]);
        assert!(c.nodes.is_empty());
        assert_eq!(c.terminator, FcTerm::Return { effect_args: vec![], common_args: vec![fv(0)] });
        assert_self_contained(c);
    }
}

#[test]
fn test_empty_graph() {
    let g = BasicBlockGraph { name: None, static_data: vec![], externals: vec![], nodes: vec![], bbs: vec![] };
    let r = bb_to_flat_cont(&g);
    assert!(r.continuations.is_empty());
    assert_eq!(r.name, None);
}

// B0: mem = EffectParam, f = ContRef(1); jump B1
// B1: t = TokenMerge(mem, mem), c = Call f(effects: t, args: f); return c
fn call_graph(effect_name: &str) -> BasicBlockGraph {
    BasicBlockGraph {
        name: None,
        static_data: vec![],
        externals: vec![],
        nodes: vec![
            BbNode::EffectParam(0),
            BbNode::ContRef(BbCid(1)),
            BbNode::TokenMerge(vec![bv(0), bv(0)]),
            BbNode::Call { target: bv(1), effect_args: vec![(effect_name.to_string(), bv(2))], args: vec![bv(1)] },
        ],
        bbs: vec![
            BasicBlock {
                node_ids: ids(&[0, 1]),
                terminator: BbTerm::Jump { effect_args: vec![], common_args: vec![], target: BbCid(1) },
            },
            BasicBlock {
                node_ids: ids(&[2, 3]),
                terminator: BbTerm::Return { effect_args: vec![], common_args: vec![bv(3)] },
            },
        ],
    }
}

#[test]
fn test_call_and_token_merge_inputs() {
    let r = bb_to_flat_cont(&call_graph("io"));
    let c0 = &r.continuations[0];
    assert_eq!(c0.effects.len(), 1);
    assert_eq!(c0.nodes, vec![FcNode::ContRef(flat_cont::flatcont::ContId(1))]);
    // Block 1 reads mem as an effect input and f as an ordinary one.
    match &c0.terminator {
        FcTerm::Jump { effect_args, common_args, .. } => {
            assert_eq!(effect_args, &vec![(String::new(), fv(0))]);
            assert_eq!(common_args, &vec![fv(1)]);
        }
        t => panic!("unexpected terminator {:?}", t),
    }
    let c1 = &r.continuations[1];
    assert_eq!(c1.params, vec![RawType::Token]);
    assert_eq!(c1.effects.len(), 1);
    assert_eq!(c1.nodes.len(), 2);
    assert_eq!(c1.nodes[0], FcNode::TokenMerge(vec![fv(1), fv(1)]));
    assert_eq!(
        c1.nodes[1],
        FcNode::Call { target: fv(0), effect_args: vec![("io".to_string(), fv(2))], args: vec![fv(0)] }
    );
    assert_self_contained(c1);
}

/// The graph with every effect-argument name in call nodes dropped.
fn erase_call_names(mut g: flat_cont::flatcont::FlatContGraph) -> flat_cont::flatcont::FlatContGraph {
    for c in g.continuations.iter_mut() {
        for n in c.nodes.iter_mut() {
            if let FcNode::Call { effect_args, .. } = n {
                for a in effect_args.iter_mut() {
                    a.0 = String::new();
                }
            }
        }
    }
    g
}

#[test]
fn test_law_names_do_not_matter() {
    // Call-node effect names reach the output as they are and change
    // nothing else.
    let a = bb_to_flat_cont(&call_graph("io"));
    let b = bb_to_flat_cont(&call_graph("heap"));
    assert_ne!(a, b);
    assert_eq!(erase_call_names(a), erase_call_names(b));
}

#[test]
fn test_gep_and_select_remap() {
    // One block: p = Param, i = 2, g = GEP(p, [i, i]), s = Select(g, p, i); return s
    let g = BasicBlockGraph {
        name: None,
        static_data: vec![],
        externals: vec![],
        nodes: vec![
            BbNode::Param(0),
            BbNode::Const(2, RawType::Scalar(64)),
            BbNode::GEP(
                RawType::Ptr,
                bv(0),
                flat_cont::basicblock::GepIndices::from_vec(vec![bv(1), bv(1)]),
            ),
            BbNode::Select(bv(2), bv(0), bv(1)),
        ],
        bbs: vec![BasicBlock {
            node_ids: ids(&[0, 1, 2, 3]),
            terminator: BbTerm::Return { effect_args: vec![], common_args: vec![bv(3)] },
        }],
    };
    let r = bb_to_flat_cont(&g);
    let c = &r.continuations[0];
    assert_eq!(c.params, vec![RawType::Token]);
    assert_eq!(c.nodes.len(), 3);
    assert!(matches!(&c.nodes[1], FcNode::GEP(RawType::Ptr, base, idx)
        if *base == fv(0) && idx.as_slice() == [fv(1), fv(1)].as_slice()));
    assert_eq!(c.nodes[2], FcNode::Select(fv(2), fv(0), fv(1)));
    assert_eq!(c.terminator, FcTerm::Return { effect_args: vec![], common_args: vec![fv(3)] });
    assert_self_contained(c);
}

// B0: x = Param; jump B1
// B1: one = 1, y = x + one, c = y < x; branch c ? B1 : B2   (B1 is its own predecessor)
// B2: return y
fn loop_graph() -> BasicBlockGraph {
    BasicBlockGraph {
        name: Some("loop".to_string()),
        static_data: vec![],
        externals: vec![],
        nodes: vec![
            BbNode::Param(0),
            BbNode::Const(1, RawType::Scalar(32)),
            BbNode::Compute(Opcode::Add, BbOperands::from_vec(vec![bv(0), bv(1)])),
            BbNode::Icmp(ICond::Lt, bv(2), bv(0)),
        ],
        bbs: vec![
            BasicBlock {
                node_ids: ids(&[0]),
                terminator: BbTerm::Jump { effect_args: vec![], common_args: vec![], target: BbCid(1) },
            },
            BasicBlock {
                node_ids: ids(&[1, 2, 3]),
                terminator: BbTerm::Branch {
                    effect_args: vec![],
                    common_args: vec![],
                    cond: bv(3),
                    then_target: BbCid(1),
                    else_target: BbCid(2),
                },
            },
            BasicBlock {
                node_ids: vec![],
                terminator: BbTerm::Return { effect_args: vec![], common_args: vec![bv(2)] },
            },
        ],
    }
}

#[test]
fn test_loop_conversion() {
    let r = bb_to_flat_cont(&loop_graph());
    assert_eq!(r.continuations.len(), 3);
    let c0 = &r.continuations[0];
    assert_eq!(c0.params, vec![RawType::Token]);
    assert!(c0.nodes.is_empty());
    assert_eq!(
        c0.terminator,
        FcTerm::Jump { effect_args: vec![], common_args: vec![fv(0)], target: flat_cont::flatcont::ContId(1) }
    );
    let c1 = &r.continuations[1];
    assert_eq!(c1.params, vec![RawType::Token]);
    assert_eq!(c1.nodes.len(), 3);
    assert_eq!(c1.nodes[0], FcNode::Const(1, RawType::Scalar(32)));
    assert!(matches!(&c1.nodes[1], FcNode::Compute(Opcode::Add, ops)
        if ops.as_slice() == [fv(0), fv(1)].as_slice()));
    assert_eq!(c1.nodes[2], FcNode::Icmp(ICond::Lt, fv(2), fv(0)));
    // The loop back edge asks the block itself to pass x on, and the exit
    // block returns y, so y is handed on too.
    assert_eq!(
        c1.terminator,
        FcTerm::Branch {
            effect_args: vec![],
            common_args: vec![fv(0), fv(2)],
            cond: fv(3),
            then_target: flat_cont::flatcont::ContId(1),
            else_target: flat_cont::flatcont::ContId(2),
        }
    );
    let c2 = &r.continuations[2];
    assert_eq!(c2.params, vec![RawType::Scalar(32)]);
    assert_eq!(c2.terminator, FcTerm::Return { effect_args: vec![], common_args: vec![fv(0)] });
    for c in &r.continuations {
        assert_self_contained(c);
    }
}

// B0: x = Param, c = (x == x); jump B1
// B1: branch c ? B2 : B2, passing `c` on when `pass_c`
// B2: return
fn foreign_selector(pass_c: bool) -> BasicBlockGraph {
    BasicBlockGraph {
        name: None,
        static_data: vec![],
        externals: vec![],
        nodes: vec![BbNode::Param(0), BbNode::Icmp(ICond::Eq, bv(0), bv(0))],
        bbs: vec![
            BasicBlock {
                node_ids: ids(&[0, 1]),
                terminator: BbTerm::Jump { effect_args: vec![], common_args: vec![], target: BbCid(1) },
            },
            BasicBlock {
                node_ids: vec![],
                terminator: BbTerm::Branch {
                    effect_args: vec![],
                    common_args: if pass_c { vec![bv(1)] } else { vec![] },
                    cond: bv(1),
                    then_target: BbCid(2),
                    else_target: BbCid(2),
                },
            },
            BasicBlock {
                node_ids: vec![],
                terminator: BbTerm::Return { effect_args: vec![], common_args: vec![] },
            },
        ],
    }
}

#[test]
fn test_selector_passed_on_is_a_parameter() {
    let r = bb_to_flat_cont(&foreign_selector(true));
    let c0 = &r.continuations[0];
    assert!(matches!(&c0.terminator, FcTerm::Jump { common_args, .. } if common_args == &vec![fv(1)]));
    let c1 = &r.continuations[1];
    assert_eq!(c1.params, vec![RawType::Scalar(1)]);
    assert!(matches!(&c1.terminator, FcTerm::Branch { cond, common_args, .. }
        if *cond == fv(0) && common_args == &vec![fv(0)]));
    assert_self_contained(c1);
}

#[test]
fn test_selector_from_another_block_is_imported() {
    // A branch on a node of another block that the block neither reads nor
    // passes on still makes that node a parameter, and the predecessor
    // hands it over.
    let r = bb_to_flat_cont(&foreign_selector(false));
    let c0 = &r.continuations[0];
    assert_eq!(
        c0.terminator,
        FcTerm::Jump { effect_args: vec![], common_args: vec![fv(1)], target: flat_cont::flatcont::ContId(1) }
    );
    let c1 = &r.continuations[1];
    assert_eq!(c1.params, vec![RawType::Scalar(1)]);
    assert!(c1.nodes.is_empty());
    assert_eq!(
        c1.terminator,
        FcTerm::Branch {
            effect_args: vec![],
            common_args: vec![],
            cond: fv(0),
            then_target: flat_cont::flatcont::ContId(2),
            else_target: flat_cont::flatcont::ContId(2),
        }
    );
    for c in &r.continuations {
        assert_self_contained(c);
    }
}

// B0: x = 7; jump B1
// B1: jump B2
// B2: y = x + x; return y
fn two_hop_graph() -> BasicBlockGraph {
    BasicBlockGraph {
        name: None,
        static_data: vec![],
        externals: vec![],
        nodes: vec![
            BbNode::Const(7, RawType::Scalar(32)),
            BbNode::Compute(Opcode::Add, BbOperands::from_vec(vec![bv(0), bv(0)])),
        ],
        bbs: vec![
            BasicBlock {
                node_ids: ids(&[0]),
                terminator: BbTerm::Jump { effect_args: vec![], common_args: vec![], target: BbCid(1) },
            },
            BasicBlock {
                node_ids: vec![],
                terminator: BbTerm::Jump { effect_args: vec![], common_args: vec![], target: BbCid(2) },
            },
            BasicBlock {
                node_ids: ids(&[1]),
                terminator: BbTerm::Return { effect_args: vec![], common_args: vec![bv(1)] },
            },
        ],
    }
}

#[test]
fn test_value_two_blocks_down_is_handed_through() {
    let r = bb_to_flat_cont(&two_hop_graph());
    let c = &r.continuations;
    assert_eq!(
        c[0].terminator,
        FcTerm::Jump { effect_args: vec![], common_args: vec![fv(0)], target: flat_cont::flatcont::ContId(1) }
    );
    assert_eq!(c[1].params.len(), 1);
    assert_eq!(
        c[1].terminator,
        FcTerm::Jump { effect_args: vec![], common_args: vec![fv(0)], target: flat_cont::flatcont::ContId(2) }
    );
    assert_eq!(c[2].params.len(), 1);
    assert!(matches!(&c[2].nodes[..], [FcNode::Compute(Opcode::Add, ops)]
        if ops.as_slice() == [fv(0), fv(0)].as_slice()));
    assert_eq!(c[2].terminator, FcTerm::Return { effect_args: vec![], common_args: vec![fv(1)] });
    for k in c {
        assert_self_contained(k);
    }
}

#[test]
fn test_law_parameters_supplied() {
    // Every parameter a continuation takes from another block is handed
    // over by each jump into it.
    // Diamond: block 3 takes x (ordinary) and mem (effect); blocks 1 and 2
    // pass both; block 0 passes x and mem to blocks 1 and 2.
    let r = bb_to_flat_cont(&diamond("mem"));
    match &r.continuations[0].terminator {
        FcTerm::Branch { effect_args, common_args, .. } => {
            assert!(common_args.contains(&fv(0)));
            assert!(effect_args.iter().any(|a| a.1 == fv(1)));
        }
        t => panic!("unexpected terminator {:?}", t),
    }
    for b in [1usize, 2] {
        match &r.continuations[b].terminator {
            FcTerm::Jump { effect_args, common_args, .. } => {
                assert!(common_args.contains(&fv(0)));
                assert!(effect_args.iter().any(|a| a.1 == fv(2)));
            }
            t => panic!("unexpected terminator {:?}", t),
        }
    }
    // Loop: block 2 returns y from block 1, which hands y over.
    let l = bb_to_flat_cont(&loop_graph());
    assert_eq!(l.continuations[2].params.len(), 1);
    assert!(matches!(&l.continuations[1].terminator, FcTerm::Branch { common_args, .. }
        if common_args.contains(&fv(2))));
    // Switch: both returns take k, and block 0 hands it to each.
    let s = bb_to_flat_cont(&switch_graph());
    assert!(matches!(&s.continuations[0].terminator, FcTerm::Switch { common_args, .. }
        if common_args == &vec![fv(1)]));
}

// B0: c = true, x = 7; branch c ? B1 : B2
// B1: jump B3
// B2: y = x + x; return y
// B3: jump B1   (B1 has predecessors B0 and B3)
fn join_graph() -> BasicBlockGraph {
    BasicBlockGraph {
        name: None,
        static_data: vec![],
        externals: vec![],
        nodes: vec![
            BbNode::Const(1, RawType::Scalar(1)),
            BbNode::Const(7, RawType::Scalar(32)),
            BbNode::Compute(Opcode::Add, BbOperands::from_vec(vec![bv(1), bv(1)])),
        ],
        bbs: vec![
            BasicBlock {
                node_ids: ids(&[0, 1]),
                terminator: BbTerm::Branch {
                    effect_args: vec![],
                    common_args: vec![],
                    cond: bv(0),
                    then_target: BbCid(1),
                    else_target: BbCid(2),
                },
            },
            BasicBlock {
                node_ids: vec![],
                terminator: BbTerm::Jump { effect_args: vec![], common_args: vec![], target: BbCid(3) },
            },
            BasicBlock {
                node_ids: ids(&[2]),
                terminator: BbTerm::Return { effect_args: vec![], common_args: vec![bv(2)] },
            },
            BasicBlock {
                node_ids: vec![],
                terminator: BbTerm::Jump { effect_args: vec![], common_args: vec![], target: BbCid(1) },
            },
        ],
    }
}

#[test]
fn test_join_keeps_what_any_predecessor_passes() {
    // Block 0 passes x (block 2 reads it); block 3 does not. Block 1 still
    // inherits x from block 0, since block 2 comes after it and uses x.
    let r = bb_to_flat_cont(&join_graph());
    let c = &r.continuations;
    assert_eq!(
        c[0].terminator,
        FcTerm::Branch {
            effect_args: vec![],
            common_args: vec![fv(1)],
            cond: fv(0),
            then_target: flat_cont::flatcont::ContId(1),
            else_target: flat_cont::flatcont::ContId(2),
        }
    );
    assert_eq!(c[1].params, vec![RawType::Scalar(32)]);
    assert_eq!(
        c[1].terminator,
        FcTerm::Jump { effect_args: vec![], common_args: vec![fv(0)], target: flat_cont::flatcont::ContId(3) }
    );
    // Block 3 comes after the last use of x: it inherits nothing.
    assert_eq!(
        c[3].terminator,
        FcTerm::Jump { effect_args: vec![], common_args: vec![], target: flat_cont::flatcont::ContId(1) }
    );
}
