//! Mathematical models shared by the two IRs.
//!
//! Both the basic-block IR and the flat-continuation IR have nodes, values
//! and terminators of the same shape; their views land in the types below,
//! with node and continuation ids as plain `u32`s and vectors as sequences.
use vstd::prelude::*;
use crate::common::{
    AtomicRMWCode, DataId, ExternDeclModel, ExternId, ICond, Opcode, RawTypeModel, StaticDataModel,
};

verus! {

/// An SSA operand.
pub enum ValueModel {
    Node(u32),
    Const(u64, RawTypeModel),
    Param(usize),
    Effect(usize),
}

/// A named effect argument.
pub type EffectArgModel = (Seq<char>, ValueModel);

pub enum NodeModel {
    Const(u64, RawTypeModel),
    DataRef(DataId),
    ExternRef(ExternId),
    ContRef(u32),
    Param(usize),
    EffectParam(usize),
    Load { data_type: RawTypeModel, effect_state: ValueModel, addr: ValueModel, signed: bool },
    Store { data_type: RawTypeModel, effect_state: ValueModel, addr: ValueModel, value: ValueModel },
    AtomicCAS {
        data_type: RawTypeModel,
        effect_state: ValueModel,
        addr: ValueModel,
        old: ValueModel,
        new: ValueModel,
    },
    AtomicRMW {
        data_type: RawTypeModel,
        effect_state: ValueModel,
        addr: ValueModel,
        value: ValueModel,
        operator: AtomicRMWCode,
    },
    GEP(RawTypeModel, ValueModel, Seq<ValueModel>),
    Select(ValueModel, ValueModel, ValueModel),
    Icmp(ICond, ValueModel, ValueModel),
    Compute(Opcode, Seq<ValueModel>),
    Proj(ValueModel, u8),
    TokenMerge(Seq<ValueModel>),
    Alloc(RawTypeModel),
    Call { target: ValueModel, effect_args: Seq<EffectArgModel>, args: Seq<ValueModel> },
}

pub enum TermModel {
    Jump { effect_args: Seq<EffectArgModel>, common_args: Seq<ValueModel>, target: u32 },
    Branch {
        effect_args: Seq<EffectArgModel>,
        common_args: Seq<ValueModel>,
        cond: ValueModel,
        then_target: u32,
        else_target: u32,
    },
    Switch {
        effect_args: Seq<EffectArgModel>,
        common_args: Seq<ValueModel>,
        case: ValueModel,
        targets: Seq<u32>,
    },
    Return { effect_args: Seq<EffectArgModel>, common_args: Seq<ValueModel> },
}

pub struct BlockModel {
    pub node_ids: Seq<u32>,
    pub terminator: TermModel,
}

pub struct GraphModel {
    pub name: Option<Seq<char>>,
    pub static_data: Seq<StaticDataModel>,
    pub externals: Seq<ExternDeclModel>,
    pub nodes: Seq<NodeModel>,
    pub bbs: Seq<BlockModel>,
}

pub struct ContModel {
    pub effects: Seq<Seq<char>>,
    pub params: Seq<RawTypeModel>,
    pub nodes: Seq<NodeModel>,
    pub terminator: TermModel,
}

pub struct FlatGraphModel {
    pub name: Option<Seq<char>>,
    pub static_data: Seq<StaticDataModel>,
    pub externals: Seq<ExternDeclModel>,
    pub continuations: Seq<ContModel>,
}

/// The effect arguments a terminator passes on.
pub open spec fn term_effect_args(t: TermModel) -> Seq<EffectArgModel> {
    match t {
        TermModel::Jump { effect_args, .. } => effect_args,
        TermModel::Branch { effect_args, .. } => effect_args,
        TermModel::Switch { effect_args, .. } => effect_args,
        TermModel::Return { effect_args, .. } => effect_args,
    }
}

/// The ordinary arguments a terminator passes on.
pub open spec fn term_common_args(t: TermModel) -> Seq<ValueModel> {
    match t {
        TermModel::Jump { common_args, .. } => common_args,
        TermModel::Branch { common_args, .. } => common_args,
        TermModel::Switch { common_args, .. } => common_args,
        TermModel::Return { common_args, .. } => common_args,
    }
}

/// The values of a list of effect arguments, names dropped.
pub open spec fn arg_values(args: Seq<EffectArgModel>) -> Seq<ValueModel> {
    args.map_values(|a: EffectArgModel| a.1)
}

/// `t` with its effect arguments replaced.
pub open spec fn with_effect_args(t: TermModel, e: Seq<EffectArgModel>) -> TermModel {
    match t {
        TermModel::Jump { common_args, target, .. } => TermModel::Jump {
            effect_args: e,
            common_args,
            target,
        },
        TermModel::Branch { common_args, cond, then_target, else_target, .. } => TermModel::Branch {
            effect_args: e,
            common_args,
            cond,
            then_target,
            else_target,
        },
        TermModel::Switch { common_args, case, targets, .. } => TermModel::Switch {
            effect_args: e,
            common_args,
            case,
            targets,
        },
        TermModel::Return { common_args, .. } => TermModel::Return { effect_args: e, common_args },
    }
}

/// `t` with its ordinary arguments replaced.
pub open spec fn with_common_args(t: TermModel, c: Seq<ValueModel>) -> TermModel {
    match t {
        TermModel::Jump { effect_args, target, .. } => TermModel::Jump {
            effect_args,
            common_args: c,
            target,
        },
        TermModel::Branch { effect_args, cond, then_target, else_target, .. } => TermModel::Branch {
            effect_args,
            common_args: c,
            cond,
            then_target,
            else_target,
        },
        TermModel::Switch { effect_args, case, targets, .. } => TermModel::Switch {
            effect_args,
            common_args: c,
            case,
            targets,
        },
        TermModel::Return { effect_args, .. } => TermModel::Return { effect_args, common_args: c },
    }
}

/// The blocks control may pass to, in the order the terminator lists them.
pub open spec fn successors(t: TermModel) -> Seq<u32> {
    match t {
        TermModel::Jump { target, .. } => seq![target],
        TermModel::Branch { then_target, else_target, .. } => seq![then_target, else_target],
        TermModel::Switch { targets, .. } => targets,
        TermModel::Return { .. } => seq![],
    }
}

/// Two terminators of the same kind, with the same condition and targets.
pub open spec fn same_shape(a: TermModel, b: TermModel) -> bool {
    match (a, b) {
        (TermModel::Jump { target: x, .. }, TermModel::Jump { target: y, .. }) => x == y,
        (
            TermModel::Branch { cond: c1, then_target: t1, else_target: e1, .. },
            TermModel::Branch { cond: c2, then_target: t2, else_target: e2, .. },
        ) => c1 == c2 && t1 == t2 && e1 == e2,
        (
            TermModel::Switch { case: c1, targets: t1, .. },
            TermModel::Switch { case: c2, targets: t2, .. },
        ) => c1 == c2 && t1 == t2,
        (TermModel::Return { .. }, TermModel::Return { .. }) => true,
        _ => false,
    }
}

/// Two terminators of the same kind (both jumps, both branches, ...).
pub open spec fn same_kind(a: TermModel, b: TermModel) -> bool {
    &&& (a is Jump <==> b is Jump)
    &&& (a is Branch <==> b is Branch)
    &&& (a is Switch <==> b is Switch)
    &&& (a is Return <==> b is Return)
}

/// The node ids among a list of values, in order.
pub open spec fn node_refs(vs: Seq<ValueModel>) -> Seq<u32>
    decreases vs.len(),
{
    if vs.len() == 0 {
        seq![]
    } else {
        let r = node_refs(vs.drop_last());
        match vs.last() {
            ValueModel::Node(n) => r.push(n),
            _ => r,
        }
    }
}

} // verus!
