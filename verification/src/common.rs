//! Types shared by the basic-block IR and the flat-continuation IR.
use vstd::prelude::*;

verus! {

#[derive(Debug, Clone, Copy, PartialEq, Eq, Structural, Hash)]
pub struct DataId(pub u32);

#[derive(Debug, Clone, Copy, PartialEq, Eq, Structural, Hash)]
pub struct ExternId(pub u32);

/// A machine-level type.
#[derive(Debug, PartialEq, Eq, Hash)]
pub enum RawType {
    Token,
    Ptr,
    Scalar(u16),
    Vector { elem_bits: u16 },
    Array(u32, Box<RawType>),
    Struct(Vec<RawType>),
}

/// Mathematical model of a `RawType`: the same tree, with sequences in
/// place of vectors.
pub enum RawTypeModel {
    Token,
    Ptr,
    Scalar(u16),
    Vector { elem_bits: u16 },
    Array(u32, Box<RawTypeModel>),
    Struct(Seq<RawTypeModel>),
}

pub open spec fn raw_type_model(t: RawType) -> RawTypeModel
    decreases t,
{
    match t {
        RawType::Token => RawTypeModel::Token,
        RawType::Ptr => RawTypeModel::Ptr,
        RawType::Scalar(b) => RawTypeModel::Scalar(b),
        RawType::Vector { elem_bits } => RawTypeModel::Vector { elem_bits },
        RawType::Array(n, inner) => RawTypeModel::Array(n, Box::new(raw_type_model(*inner))),
        RawType::Struct(fields) => RawTypeModel::Struct(
            Seq::new(
                fields@.len(),
                |i: int|
                    if 0 <= i < fields@.len() {
                        proof {
                            vstd::std_specs::vec::axiom_vec_index_decreases(fields, i);
                        }
                        raw_type_model(fields@[i])
                    } else {
                        RawTypeModel::Token
                    },
            ),
        ),
    }
}

impl View for RawType {
    type V = RawTypeModel;

    open spec fn view(&self) -> RawTypeModel {
        raw_type_model(*self)
    }
}

/// Models of a sequence of types.
pub open spec fn raw_types_model(s: Seq<RawType>) -> Seq<RawTypeModel> {
    s.map_values(|t: RawType| t@)
}

impl Clone for RawType {
    fn clone(&self) -> (r: Self)
        ensures
            r@ == self@,
        decreases self,
    {
        match self {
            RawType::Token => RawType::Token,
            RawType::Ptr => RawType::Ptr,
            RawType::Scalar(b) => RawType::Scalar(*b),
            RawType::Vector { elem_bits } => RawType::Vector { elem_bits: *elem_bits },
            RawType::Array(n, inner) => RawType::Array(*n, Box::new((**inner).clone())),
            RawType::Struct(fields) => {
                let mut out: Vec<RawType> = Vec::new();
                let mut i: usize = 0;
                while i < fields.len()
                    invariant
                        i <= fields.len(),
                        out@.len() == i,
                        *self == RawType::Struct(*fields),
                        forall|j: int| 0 <= j < i ==> out@[j]@ == fields@[j]@,
                    decreases fields.len() - i,
                {
                    proof {
                        vstd::std_specs::vec::axiom_vec_index_decreases(*fields, i as int);
                        assert(decreases_to!(*self => (*self)->Struct_0));
                    }
                    let f = fields[i].clone();
                    out.push(f);
                    i = i + 1;
                }
                let r = RawType::Struct(out);
                assert(r@ == self@) by {
                    if let RawTypeModel::Struct(a) = r@ {
                        if let RawTypeModel::Struct(b) = self@ {
                            assert(a =~= b);
                        }
                    }
                }
                r
            },
        }
    }
}

/// Structural equality of two types, decided on their models.
pub fn raw_type_eq(a: &RawType, b: &RawType) -> (r: bool)
    ensures
        r == (a@ == b@),
    decreases a,
{
    match (a, b) {
        (RawType::Token, RawType::Token) => true,
        (RawType::Ptr, RawType::Ptr) => true,
        (RawType::Scalar(x), RawType::Scalar(y)) => *x == *y,
        (RawType::Vector { elem_bits: x }, RawType::Vector { elem_bits: y }) => *x == *y,
        (RawType::Array(n, x), RawType::Array(m, y)) => {
            if *n != *m {
                return false;
            }
            let r = raw_type_eq(&**x, &**y);
            proof {
                if a@ == b@ {
                    assert(x@ == y@);
                }
            }
            r
        },
        (RawType::Struct(xs), RawType::Struct(ys)) => {
            if xs.len() != ys.len() {
                proof {
                    if a@ == b@ {
                        let ma = a@->Struct_0;
                        assert(ma.len() == xs@.len());
                    }
                }
                return false;
            }
            let mut i: usize = 0;
            while i < xs.len()
                invariant
                    i <= xs.len(),
                    xs.len() == ys.len(),
                    *a == RawType::Struct(*xs),
                    *b == RawType::Struct(*ys),
                    forall|j: int| 0 <= j < i ==> xs@[j]@ == ys@[j]@,
                decreases xs.len() - i,
            {
                proof {
                    vstd::std_specs::vec::axiom_vec_index_decreases(*xs, i as int);
                    assert(decreases_to!(*a => (*a)->Struct_0));
                }
                if !raw_type_eq(&xs[i], &ys[i]) {
                    proof {
                        if a@ == b@ {
                            let ma = a@->Struct_0;
                            let mb = b@->Struct_0;
                            assert(ma[i as int] == mb[i as int]);
                        }
                    }
                    return false;
                }
                i = i + 1;
            }
            proof {
                let ma = a@->Struct_0;
                let mb = b@->Struct_0;
                assert(ma =~= mb);
            }
            true
        },
        _ => false,
    }
}

#[derive(Debug, Clone, Copy, PartialEq, Eq, Structural, Hash)]
pub enum Visibility {
    Private,
    Public,
}

/// A blob of static data.
#[derive(Debug, PartialEq, Eq, Hash)]
pub struct StaticData {
    pub name: String,
    pub visibility: Visibility,
    pub is_read_only: bool,
    pub alignment: u8,
    pub bytes: Vec<u8>,
}

pub struct StaticDataModel {
    pub name: Seq<char>,
    pub visibility: Visibility,
    pub is_read_only: bool,
    pub alignment: u8,
    pub bytes: Seq<u8>,
}

impl View for StaticData {
    type V = StaticDataModel;

    open spec fn view(&self) -> StaticDataModel {
        StaticDataModel {
            name: self.name@,
            visibility: self.visibility,
            is_read_only: self.is_read_only,
            alignment: self.alignment,
            bytes: self.bytes@,
        }
    }
}

impl Clone for StaticData {
    fn clone(&self) -> (r: Self)
        ensures
            r@ == self@,
    {
        StaticData {
            name: self.name.clone(),
            visibility: self.visibility,
            is_read_only: self.is_read_only,
            alignment: self.alignment,
            bytes: clone_bytes(&self.bytes),
        }
    }
}

/// Copies a byte vector.
pub fn clone_bytes(v: &Vec<u8>) -> (r: Vec<u8>)
    ensures
        r@ == v@,
{
    let mut out: Vec<u8> = Vec::new();
    let mut i: usize = 0;
    while i < v.len()
        invariant
            i <= v.len(),
            out@ == v@.take(i as int),
        decreases v.len() - i,
    {
        out.push(v[i]);
        i = i + 1;
        assert(out@ =~= v@.take(i as int));
    }
    assert(v@.take(v.len() as int) =~= v@);
    out
}

/// Copies a vector of types.
pub fn clone_raw_types(v: &Vec<RawType>) -> (r: Vec<RawType>)
    ensures
        raw_types_model(r@) == raw_types_model(v@),
{
    let mut out: Vec<RawType> = Vec::new();
    let mut i: usize = 0;
    while i < v.len()
        invariant
            i <= v.len(),
            out@.len() == i,
            forall|j: int| 0 <= j < i ==> out@[j]@ == v@[j]@,
        decreases v.len() - i,
    {
        let t = v[i].clone();
        out.push(t);
        i = i + 1;
    }
    assert(raw_types_model(out@) =~= raw_types_model(v@));
    out
}

/// An external function declaration.
#[derive(Debug, PartialEq, Eq, Hash)]
pub struct ExternDecl {
    pub name: String,
    pub param: Vec<RawType>,
    pub ret: RawType,
}

pub struct ExternDeclModel {
    pub name: Seq<char>,
    pub param: Seq<RawTypeModel>,
    pub ret: RawTypeModel,
}

impl View for ExternDecl {
    type V = ExternDeclModel;

    open spec fn view(&self) -> ExternDeclModel {
        ExternDeclModel {
            name: self.name@,
            param: raw_types_model(self.param@),
            ret: self.ret@,
        }
    }
}

impl Clone for ExternDecl {
    fn clone(&self) -> (r: Self)
        ensures
            r@ == self@,
    {
        ExternDecl {
            name: self.name.clone(),
            param: clone_raw_types(&self.param),
            ret: self.ret.clone(),
        }
    }
}

/// Memory ordering of an atomic access.
#[derive(Debug, Clone, Copy, PartialEq, Eq, Structural, Hash)]
pub enum AtomicOrdering {
    Relaxed,
    Release,
    Acquire,
    AcqRel,
    SeqCst,
}

/// Synchronisation scope of an atomic access; `System` when none is given.
#[derive(Debug, Clone, Copy, PartialEq, Eq, Structural, Hash)]
pub enum SyncScope {
    Group,
    Cluster,
    Device,
    System,
}

impl Default for SyncScope {
    fn default() -> (r: Self)
        ensures
            r == SyncScope::System,
    {
        SyncScope::System
    }
}

#[derive(Debug, Clone, Copy, PartialEq, Eq, Structural, Hash)]
pub enum AtomicRMWCode {
    Swap,
    Add,
    Sub,
    And,
    Nand,
    Or,
    Xor,
    Max,
    Min,
    MaxSign,
    MinSign,
    Fadd,
    Fsub,
    Fmax,
    Fmin,
}

#[derive(Debug, Clone, Copy, PartialEq, Eq, Structural, Hash)]
pub enum Opcode {
    Add,
    Sub,
    Mul,
    Div,
    DivSign,
    Rem,
    RemSign,
    ShiftLeft,
    ShiftRight,
    ShiftRightSign,
    And,
    Or,
    Xor,
}

#[derive(Debug, Clone, Copy, PartialEq, Eq, Structural, Hash)]
pub enum ICond {
    Eq,
    Ne,
    Gt,
    Ge,
    Lt,
    Le,
    GtSign,
    GeSign,
    LtSign,
    LeSign,
}

} // verus!
