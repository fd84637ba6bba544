//! The basic-block IR: a global pool of nodes and a list of blocks that
//! refer to them by id.
use vstd::prelude::*;
use smallvec::SmallVec;
use crate::common::{
    raw_type_eq, AtomicRMWCode, DataId, ExternDecl, ExternId, ICond, Opcode, RawType, StaticData,
};
use crate::model::{
    BlockModel, EffectArgModel, GraphModel, NodeModel, TermModel, ValueModel,
};

verus! {

#[derive(Debug, Clone, Copy, PartialEq, Eq, Structural, Hash)]
pub struct NodeId(pub u32);

#[derive(Debug, Clone, Copy, PartialEq, Eq, Structural, Hash)]
pub struct ContId(pub u32);

/// SSA value in the basic-block IR.
///
/// `Node` refers to a node in the global pool (`BasicBlockGraph::nodes`).
/// `Param` / `Effect` refer to basic-block parameter slots.
/// `Const` is a compile-time immediate.
#[derive(Debug, PartialEq, Eq, Hash)]
pub enum Value {
    /// Reference to a node in the global pool.
    Node(NodeId),
    /// Compile-time constant.
    Const(u64, RawType),
    /// Value parameter (slot index within a basic block).
    Param(usize),
    /// Effect parameter (slot index within a basic block).
    Effect(usize),
}

impl View for Value {
    type V = ValueModel;

    open spec fn view(&self) -> ValueModel {
        match *self {
            Value::Node(n) => ValueModel::Node(n.0),
            Value::Const(c, t) => ValueModel::Const(c, t@),
            Value::Param(i) => ValueModel::Param(i),
            Value::Effect(i) => ValueModel::Effect(i),
        }
    }
}

impl Clone for Value {
    fn clone(&self) -> (r: Self)
        ensures
            r@ == self@,
    {
        match self {
            Value::Node(n) => Value::Node(*n),
            Value::Const(c, t) => Value::Const(*c, t.clone()),
            Value::Param(i) => Value::Param(*i),
            Value::Effect(i) => Value::Effect(*i),
        }
    }
}

impl Value {
    /// The node this value refers to; only defined for `Value::Node`.
    pub fn as_node(&self) -> (r: NodeId)
        requires
            self is Node,
        ensures
            *self == Value::Node(r),
    {
        match self {
            Value::Node(n) => *n,
            _ => { proof { assert(false); } NodeId(0) },
        }
    }
}

/// Structural equality of two values, decided on their models.
pub fn values_equal(a: &Value, b: &Value) -> (r: bool)
    ensures
        r == (a@ == b@),
{
    match (a, b) {
        (Value::Node(x), Value::Node(y)) => x.0 == y.0,
        (Value::Const(c, s), Value::Const(d, t)) => *c == *d && raw_type_eq(s, t),
        (Value::Param(i), Value::Param(j)) => *i == *j,
        (Value::Effect(i), Value::Effect(j)) => *i == *j,
        _ => false,
    }
}

/// Models of a list of values.
pub open spec fn values_model(v: Seq<Value>) -> Seq<ValueModel> {
    v.map_values(|x: Value| x@)
}

/// Models of a list of named effect arguments.
pub open spec fn effect_args_model(v: Seq<(String, Value)>) -> Seq<EffectArgModel> {
    v.map_values(|a: (String, Value)| (a.0@, a.1@))
}

/// Models of a list of nodes.
pub open spec fn nodes_model(v: Seq<Node>) -> Seq<NodeModel> {
    v.map_values(|n: Node| n@)
}

/// Models of a list of blocks.
pub open spec fn blocks_model(v: Seq<BasicBlock>) -> Seq<BlockModel> {
    v.map_values(|b: BasicBlock| b@)
}

/// The ids of a list of node ids, as integers.
pub open spec fn node_ids_model(v: Seq<NodeId>) -> Seq<u32> {
    v.map_values(|n: NodeId| n.0)
}

/// Copies a list of values.
pub fn clone_values(v: &[Value]) -> (r: Vec<Value>)
    ensures
        values_model(r@) == values_model(v@),
{
    let mut out: Vec<Value> = Vec::new();
    let mut i: usize = 0;
    while i < v.len()
        invariant
            i <= v.len(),
            out@.len() == i,
            forall|j: int| 0 <= j < i ==> out@[j]@ == v@[j]@,
        decreases v.len() - i,
    {
        let x = v[i].clone();
        out.push(x);
        i = i + 1;
    }
    assert(values_model(out@) =~= values_model(v@));
    out
}

/// Copies a list of named effect arguments.
pub fn clone_effect_args(v: &[(String, Value)]) -> (r: Vec<(String, Value)>)
    ensures
        effect_args_model(r@) == effect_args_model(v@),
{
    let mut out: Vec<(String, Value)> = Vec::new();
    let mut i: usize = 0;
    while i < v.len()
        invariant
            i <= v.len(),
            out@.len() == i,
            forall|j: int| 0 <= j < i ==> out@[j].0@ == v@[j].0@ && out@[j].1@ == v@[j].1@,
        decreases v.len() - i,
    {
        let x = (v[i].0.clone(), v[i].1.clone());
        out.push(x);
        i = i + 1;
    }
    assert(effect_args_model(out@) =~= effect_args_model(v@));
    out
}

/// The index operands of a `GEP` node; up to three are kept inline.
#[verifier::external_body]
#[derive(Debug, PartialEq, Eq, Hash)]
pub struct GepIndices {
    inner: SmallVec<[Value; 3]>,
}

/// The values a `GepIndices` holds, in order.
pub uninterp spec fn gep_index_items(v: GepIndices) -> Seq<Value>;

/// Builds the inline vector from `v` through `SmallVec::from_vec`, which
/// keeps the elements of `v` in order.
#[verifier::external_body]
fn gep_indices_from_vec(v: Vec<Value>) -> (r: GepIndices)
    ensures
        gep_index_items(r) == v@,
{
    GepIndices { inner: SmallVec::from_vec(v) }
}

/// Reads the elements through `SmallVec::as_slice`, which returns them all
/// in order.
#[verifier::external_body]
fn gep_indices_as_slice(v: &GepIndices) -> (r: &[Value])
    ensures
        r@ == gep_index_items(*v),
{
    v.inner.as_slice()
}

impl GepIndices {
    pub fn from_vec(v: Vec<Value>) -> (r: GepIndices)
        ensures
            gep_index_items(r) == v@,
    {
        gep_indices_from_vec(v)
    }

    pub fn as_slice(&self) -> (r: &[Value])
        ensures
            r@ == gep_index_items(*self),
    {
        gep_indices_as_slice(self)
    }
}

impl Clone for GepIndices {
    fn clone(&self) -> (r: Self)
        ensures
            values_model(gep_index_items(r)) == values_model(gep_index_items(*self)),
    {
        GepIndices::from_vec(clone_values(self.as_slice()))
    }
}

/// The operands of a `Compute` node; up to four are kept inline.
#[verifier::external_body]
#[derive(Debug, PartialEq, Eq, Hash)]
pub struct Operands {
    inner: SmallVec<[Value; 4]>,
}

/// The values an `Operands` holds, in order.
pub uninterp spec fn operand_items(v: Operands) -> Seq<Value>;

/// Builds the inline vector from `v` through `SmallVec::from_vec`, which
/// keeps the elements of `v` in order.
#[verifier::external_body]
fn operands_from_vec(v: Vec<Value>) -> (r: Operands)
    ensures
        operand_items(r) == v@,
{
    Operands { inner: SmallVec::from_vec(v) }
}

/// Reads the elements through `SmallVec::as_slice`, which returns them all
/// in order.
#[verifier::external_body]
fn operands_as_slice(v: &Operands) -> (r: &[Value])
    ensures
        r@ == operand_items(*v),
{
    v.inner.as_slice()
}

impl Operands {
    pub fn from_vec(v: Vec<Value>) -> (r: Operands)
        ensures
            operand_items(r) == v@,
    {
        operands_from_vec(v)
    }

    pub fn as_slice(&self) -> (r: &[Value])
        ensures
            r@ == operand_items(*self),
    {
        operands_as_slice(self)
    }
}

impl Clone for Operands {
    fn clone(&self) -> (r: Self)
        ensures
            values_model(operand_items(r)) == values_model(operand_items(*self)),
    {
        Operands::from_vec(clone_values(self.as_slice()))
    }
}

/// A graph of basic blocks over a shared pool of nodes.
#[derive(Debug)]
pub struct BasicBlockGraph {
    pub name: Option<String>,
    pub static_data: Vec<StaticData>,
    pub externals: Vec<ExternDecl>,
    pub nodes: Vec<Node>,
    pub bbs: Vec<BasicBlock>,
}

/// The model of an optional name.
pub open spec fn name_model(n: Option<String>) -> Option<Seq<char>> {
    match n {
        Some(s) => Some(s@),
        None => None,
    }
}

impl View for BasicBlockGraph {
    type V = GraphModel;

    open spec fn view(&self) -> GraphModel {
        GraphModel {
            name: name_model(self.name),
            static_data: self.static_data@.map_values(|d: StaticData| d@),
            externals: self.externals@.map_values(|d: ExternDecl| d@),
            nodes: self.nodes@.map_values(|n: Node| n@),
            bbs: self.bbs@.map_values(|b: BasicBlock| b@),
        }
    }
}

/// The block every new block starts as: empty, returning nothing.
pub open spec fn empty_block_model() -> BlockModel {
    BlockModel {
        node_ids: seq![],
        terminator: TermModel::Return { effect_args: seq![], common_args: seq![] },
    }
}

impl BasicBlockGraph {
    /// Appends an empty block that returns nothing; its id is the number
    /// of blocks before the call.
    pub fn add_bb(&mut self) -> (r: ContId)
        ensures
            r.0 == #[verifier::truncate] (old(self).bbs.len() as u32),
            final(self)@ == (GraphModel { bbs: old(self)@.bbs.push(empty_block_model()), ..old(self)@ }),
    {
        let id = ContId(#[verifier::truncate] (self.bbs.len() as u32));
        let bb = BasicBlock {
            node_ids: Vec::new(),
            terminator: Terminator::Return { effect_args: Vec::new(), common_args: Vec::new() },
        };
        proof {
            assert(bb@.node_ids =~= seq![]);
            assert(effect_args_model(Seq::<(String, Value)>::empty()) =~= seq![]);
            assert(values_model(Seq::<Value>::empty()) =~= seq![]);
        }
        self.bbs.push(bb);
        proof {
            assert(self@.bbs =~= old(self)@.bbs.push(empty_block_model()));
            assert(self@.nodes =~= old(self)@.nodes);
            assert(self@.static_data =~= old(self)@.static_data);
            assert(self@.externals =~= old(self)@.externals);
        }
        id
    }
}

impl BasicBlockGraph {
    /// Appends `node` to the pool; its id is the pool size before the call.
    pub fn add_node(&mut self, node: Node) -> (r: NodeId)
        ensures
            r.0 == #[verifier::truncate] (old(self).nodes.len() as u32),
            final(self)@ == (GraphModel { nodes: old(self)@.nodes.push(node@), ..old(self)@ }),
    {
        let id = NodeId(#[verifier::truncate] (self.nodes.len() as u32));
        self.nodes.push(node);
        proof {
            assert(self@.nodes =~= old(self)@.nodes.push(node@));
            assert(self@.bbs =~= old(self)@.bbs);
            assert(self@.static_data =~= old(self)@.static_data);
            assert(self@.externals =~= old(self)@.externals);
        }
        id
    }

    /// Appends `nid` to the nodes that block `bb` evaluates.
    pub fn add_to_block(&mut self, bb: ContId, nid: NodeId)
        requires
            (bb.0 as int) < old(self).bbs.len(),
        ensures
            final(self)@ == (GraphModel {
                bbs: old(self)@.bbs.update(
                    bb.0 as int,
                    BlockModel {
                        node_ids: old(self)@.bbs[bb.0 as int].node_ids.push(nid.0),
                        ..old(self)@.bbs[bb.0 as int]
                    },
                ),
                ..old(self)@
            }),
    {
        let i = bb.0 as usize;
        self.bbs[i].node_ids.push(nid);
        proof {
            assert(self@.bbs[i as int].node_ids =~= old(self)@.bbs[i as int].node_ids.push(nid.0));
            assert(self@.bbs =~= old(self)@.bbs.update(
                i as int,
                BlockModel {
                    node_ids: old(self)@.bbs[i as int].node_ids.push(nid.0),
                    ..old(self)@.bbs[i as int]
                },
            ));
            assert(self@.nodes =~= old(self)@.nodes);
            assert(self@.static_data =~= old(self)@.static_data);
            assert(self@.externals =~= old(self)@.externals);
        }
    }

    /// Replaces the terminator of block `bb`.
    pub fn set_term(&mut self, bb: ContId, term: Terminator)
        requires
            (bb.0 as int) < old(self).bbs.len(),
        ensures
            final(self)@ == (GraphModel {
                bbs: old(self)@.bbs.update(
                    bb.0 as int,
                    BlockModel { terminator: term@, ..old(self)@.bbs[bb.0 as int] },
                ),
                ..old(self)@
            }),
    {
        let i = bb.0 as usize;
        let ghost t = term@;
        self.bbs[i].terminator = term;
        proof {
            assert(self@.bbs =~= old(self)@.bbs.update(
                i as int,
                BlockModel { terminator: t, ..old(self)@.bbs[i as int] },
            ));
            assert(self@.nodes =~= old(self)@.nodes);
            assert(self@.static_data =~= old(self)@.static_data);
            assert(self@.externals =~= old(self)@.externals);
        }
    }
}

/// A basic block: the pool nodes it evaluates, in order, and how it ends.
#[derive(Debug)]
pub struct BasicBlock {
    pub node_ids: Vec<NodeId>,
    pub terminator: Terminator,
}

impl View for BasicBlock {
    type V = BlockModel;

    open spec fn view(&self) -> BlockModel {
        BlockModel { node_ids: node_ids_model(self.node_ids@), terminator: self.terminator@ }
    }
}

/// Copies a list of node ids.
pub fn clone_node_ids(v: &Vec<NodeId>) -> (r: Vec<NodeId>)
    ensures
        r@ == v@,
{
    let mut out: Vec<NodeId> = Vec::new();
    let mut i: usize = 0;
    while i < v.len()
        invariant
            i <= v.len(),
            out@ == v@.take(i as int),
        decreases v.len() - i,
    {
        out.push(v[i]);
        i = i + 1;
        assert(out@ =~= v@.take(i as int));
    }
    assert(v@.take(v.len() as int) =~= v@);
    out
}

impl Clone for BasicBlock {
    fn clone(&self) -> (r: Self)
        ensures
            r@ == self@,
            r.node_ids@ == self.node_ids@,
    {
        BasicBlock { node_ids: clone_node_ids(&self.node_ids), terminator: self.terminator.clone() }
    }
}

#[derive(Debug, PartialEq, Eq, Hash)]
pub enum Terminator {
    Jump { effect_args: Vec<(String, Value)>, common_args: Vec<Value>, target: ContId },
    Branch {
        effect_args: Vec<(String, Value)>,
        common_args: Vec<Value>,
        cond: Value,
        then_target: ContId,
        else_target: ContId,
    },
    Switch {
        effect_args: Vec<(String, Value)>,
        common_args: Vec<Value>,
        case: Value,
        targets: Vec<ContId>,
    },
    Return { effect_args: Vec<(String, Value)>, common_args: Vec<Value> },
}

/// The ids of a list of block ids, as integers.
pub open spec fn cont_ids_model(v: Seq<ContId>) -> Seq<u32> {
    v.map_values(|c: ContId| c.0)
}

impl View for Terminator {
    type V = TermModel;

    open spec fn view(&self) -> TermModel {
        match *self {
            Terminator::Jump { effect_args, common_args, target } => TermModel::Jump {
                effect_args: effect_args_model(effect_args@),
                common_args: values_model(common_args@),
                target: target.0,
            },
            Terminator::Branch { effect_args, common_args, cond, then_target, else_target } =>
                TermModel::Branch {
                effect_args: effect_args_model(effect_args@),
                common_args: values_model(common_args@),
                cond: cond@,
                then_target: then_target.0,
                else_target: else_target.0,
            },
            Terminator::Switch { effect_args, common_args, case, targets } => TermModel::Switch {
                effect_args: effect_args_model(effect_args@),
                common_args: values_model(common_args@),
                case: case@,
                targets: cont_ids_model(targets@),
            },
            Terminator::Return { effect_args, common_args } => TermModel::Return {
                effect_args: effect_args_model(effect_args@),
                common_args: values_model(common_args@),
            },
        }
    }
}

/// Copies a list of block ids.
pub fn clone_cont_ids(v: &Vec<ContId>) -> (r: Vec<ContId>)
    ensures
        r@ == v@,
{
    let mut out: Vec<ContId> = Vec::new();
    let mut i: usize = 0;
    while i < v.len()
        invariant
            i <= v.len(),
            out@ == v@.take(i as int),
        decreases v.len() - i,
    {
        out.push(v[i]);
        i = i + 1;
        assert(out@ =~= v@.take(i as int));
    }
    assert(v@.take(v.len() as int) =~= v@);
    out
}

impl Clone for Terminator {
    fn clone(&self) -> (r: Self)
        ensures
            r@ == self@,
    {
        match self {
            Terminator::Jump { effect_args, common_args, target } => Terminator::Jump {
                effect_args: clone_effect_args(effect_args.as_slice()),
                common_args: clone_values(common_args.as_slice()),
                target: *target,
            },
            Terminator::Branch { effect_args, common_args, cond, then_target, else_target } =>
                Terminator::Branch {
                effect_args: clone_effect_args(effect_args.as_slice()),
                common_args: clone_values(common_args.as_slice()),
                cond: cond.clone(),
                then_target: *then_target,
                else_target: *else_target,
            },
            Terminator::Switch { effect_args, common_args, case, targets } => Terminator::Switch {
                effect_args: clone_effect_args(effect_args.as_slice()),
                common_args: clone_values(common_args.as_slice()),
                case: case.clone(),
                targets: clone_cont_ids(targets),
            },
            Terminator::Return { effect_args, common_args } => Terminator::Return {
                effect_args: clone_effect_args(effect_args.as_slice()),
                common_args: clone_values(common_args.as_slice()),
            },
        }
    }
}

#[derive(Debug, PartialEq, Eq, Hash)]
pub enum Node {
    Const(u64, RawType),
    DataRef(DataId),
    ExternRef(ExternId),
    ContRef(ContId),
    Param(usize),
    EffectParam(usize),
    Load { data_type: RawType, effect_state: Value, addr: Value, signed: bool },
    Store { data_type: RawType, effect_state: Value, addr: Value, value: Value },
    AtomicCAS { data_type: RawType, effect_state: Value, addr: Value, old: Value, new: Value },
    AtomicRMW {
        data_type: RawType,
        effect_state: Value,
        addr: Value,
        value: Value,
        operator: AtomicRMWCode,
    },
    GEP(RawType, Value, GepIndices),
    Select(Value, Value, Value),
    Icmp(ICond, Value, Value),
    Compute(Opcode, Operands),
    Proj(Value, u8),
    TokenMerge(Vec<Value>),
    Alloc(RawType),
    Call { target: Value, effect_args: Vec<(String, Value)>, args: Vec<Value> },
}

impl View for Node {
    type V = NodeModel;

    open spec fn view(&self) -> NodeModel {
        match *self {
            Node::Const(c, t) => NodeModel::Const(c, t@),
            Node::DataRef(d) => NodeModel::DataRef(d),
            Node::ExternRef(e) => NodeModel::ExternRef(e),
            Node::ContRef(c) => NodeModel::ContRef(c.0),
            Node::Param(i) => NodeModel::Param(i),
            Node::EffectParam(i) => NodeModel::EffectParam(i),
            Node::Load { data_type, effect_state, addr, signed } => NodeModel::Load {
                data_type: data_type@,
                effect_state: effect_state@,
                addr: addr@,
                signed,
            },
            Node::Store { data_type, effect_state, addr, value } => NodeModel::Store {
                data_type: data_type@,
                effect_state: effect_state@,
                addr: addr@,
                value: value@,
            },
            Node::AtomicCAS { data_type, effect_state, addr, old, new } => NodeModel::AtomicCAS {
                data_type: data_type@,
                effect_state: effect_state@,
                addr: addr@,
                old: old@,
                new: new@,
            },
            Node::AtomicRMW { data_type, effect_state, addr, value, operator } =>
                NodeModel::AtomicRMW {
                data_type: data_type@,
                effect_state: effect_state@,
                addr: addr@,
                value: value@,
                operator,
            },
            Node::GEP(t, base, indices) => NodeModel::GEP(
                t@,
                base@,
                values_model(gep_index_items(indices)),
            ),
            Node::Select(c, t, f) => NodeModel::Select(c@, t@, f@),
            Node::Icmp(cond, a, b) => NodeModel::Icmp(cond, a@, b@),
            Node::Compute(op, ops) => NodeModel::Compute(op, values_model(operand_items(ops))),
            Node::Proj(v, k) => NodeModel::Proj(v@, k),
            Node::TokenMerge(vs) => NodeModel::TokenMerge(values_model(vs@)),
            Node::Alloc(t) => NodeModel::Alloc(t@),
            Node::Call { target, effect_args, args } => NodeModel::Call {
                target: target@,
                effect_args: effect_args_model(effect_args@),
                args: values_model(args@),
            },
        }
    }
}

} // verus!
