//! Element types and dimensions.
use vstd::prelude::*;

verus! {

/// The type of the elements of a tensor, as a run-time tag.
#[derive(Clone, Copy, Debug, PartialEq, Eq, Structural)]
pub enum DatumType {
    Bool,
    U8,
    U16,
    I8,
    I16,
    I32,
    I64,
    F32,
    F64,
}

/// One dimension of a resolved shape: a size, or the symbol of the streaming
/// axis, whose size is unbounded.
#[derive(Clone, Copy, Debug, PartialEq, Eq, Structural)]
pub enum Dim {
    Val(usize),
    Stream,
}

impl Dim {
    pub fn is_stream(&self) -> (b: bool)
        ensures
            b == (*self is Stream),
    {
        match self {
            Dim::Stream => true,
            Dim::Val(_) => false,
        }
    }
}

/// A Rust type that stands for one `DatumType`.
pub trait Datum {
    spec fn spec_datum_type() -> DatumType;

    fn datum_type() -> (dt: DatumType)
        ensures
            dt == Self::spec_datum_type(),
    ;
}

/// A 32-bit float, held by its bits.
#[derive(Clone, Copy, Debug, PartialEq, Eq, Structural)]
pub struct Float32 {
    pub bits: u32,
}

/// A 64-bit float, held by its bits.
#[derive(Clone, Copy, Debug, PartialEq, Eq, Structural)]
pub struct Float64 {
    pub bits: u64,
}

impl Datum for bool {
    open spec fn spec_datum_type() -> DatumType {
        DatumType::Bool
    }

    fn datum_type() -> (dt: DatumType) {
        DatumType::Bool
    }
}

impl Datum for u8 {
    open spec fn spec_datum_type() -> DatumType {
        DatumType::U8
    }

    fn datum_type() -> (dt: DatumType) {
        DatumType::U8
    }
}

impl Datum for u16 {
    open spec fn spec_datum_type() -> DatumType {
        DatumType::U16
    }

    fn datum_type() -> (dt: DatumType) {
        DatumType::U16
    }
}

impl Datum for i8 {
    open spec fn spec_datum_type() -> DatumType {
        DatumType::I8
    }

    fn datum_type() -> (dt: DatumType) {
        DatumType::I8
    }
}

impl Datum for i16 {
    open spec fn spec_datum_type() -> DatumType {
        DatumType::I16
    }

    fn datum_type() -> (dt: DatumType) {
        DatumType::I16
    }
}

impl Datum for i32 {
    open spec fn spec_datum_type() -> DatumType {
        DatumType::I32
    }

    fn datum_type() -> (dt: DatumType) {
        DatumType::I32
    }
}

impl Datum for i64 {
    open spec fn spec_datum_type() -> DatumType {
        DatumType::I64
    }

    fn datum_type() -> (dt: DatumType) {
        DatumType::I64
    }
}

impl Datum for Float32 {
    open spec fn spec_datum_type() -> DatumType {
        DatumType::F32
    }

    fn datum_type() -> (dt: DatumType) {
        DatumType::F32
    }
}

impl Datum for Float64 {
    open spec fn spec_datum_type() -> DatumType {
        DatumType::F64
    }

    fn datum_type() -> (dt: DatumType) {
        DatumType::F64
    }
}

} // verus!
