//! The data model: decoded point records, schema declarations, and the
//! error taxonomy of the reader and of the fusion engine.

use vstd::prelude::*;

verus! {

/// One decoded point. The position and normal components hold IEEE-754
/// binary32 bit patterns; the color channels are raw bytes.
#[derive(Clone, Copy, Debug, PartialEq, Eq, Structural)]
pub struct PointRecord {
    pub x: u32,
    pub y: u32,
    pub z: u32,
    pub nx: u32,
    pub ny: u32,
    pub nz: u32,
    pub red: u8,
    pub green: u8,
    pub blue: u8,
}

/// The record every decode starts from: all components zero
/// (0 is also the bit pattern of 0.0).
pub open spec fn zero_record() -> PointRecord {
    PointRecord { x: 0, y: 0, z: 0, nx: 0, ny: 0, nz: 0, red: 0, green: 0, blue: 0 }
}

/// The nine vertex fields this reader knows how to fill.
#[derive(Clone, Copy, Debug, PartialEq, Eq, Structural)]
pub enum VertexField {
    X,
    Y,
    Z,
    Nx,
    Ny,
    Nz,
    Red,
    Green,
    Blue,
}

/// A single decoded property value: a binary32 bit pattern or a byte.
#[derive(Clone, Copy, Debug, PartialEq, Eq, Structural)]
pub enum PropValue {
    Float(u32),
    UChar(u8),
}

/// The record with field `f` set to `v`, other fields unchanged; an
/// ill-typed combination leaves the record as it was.
pub open spec fn record_with(r: PointRecord, f: VertexField, v: PropValue) -> PointRecord {
    match (f, v) {
        (VertexField::X, PropValue::Float(b)) => PointRecord { x: b, ..r },
        (VertexField::Y, PropValue::Float(b)) => PointRecord { y: b, ..r },
        (VertexField::Z, PropValue::Float(b)) => PointRecord { z: b, ..r },
        (VertexField::Nx, PropValue::Float(b)) => PointRecord { nx: b, ..r },
        (VertexField::Ny, PropValue::Float(b)) => PointRecord { ny: b, ..r },
        (VertexField::Nz, PropValue::Float(b)) => PointRecord { nz: b, ..r },
        (VertexField::Red, PropValue::UChar(b)) => PointRecord { red: b, ..r },
        (VertexField::Green, PropValue::UChar(b)) => PointRecord { green: b, ..r },
        (VertexField::Blue, PropValue::UChar(b)) => PointRecord { blue: b, ..r },
        _ => r,
    }
}

/// Whether a value of this shape may be stored under this field.
pub open spec fn field_accepts(f: VertexField, v: PropValue) -> bool {
    match (f, v) {
        (VertexField::X, PropValue::Float(_)) => true,
        (VertexField::Y, PropValue::Float(_)) => true,
        (VertexField::Z, PropValue::Float(_)) => true,
        (VertexField::Nx, PropValue::Float(_)) => true,
        (VertexField::Ny, PropValue::Float(_)) => true,
        (VertexField::Nz, PropValue::Float(_)) => true,
        (VertexField::Red, PropValue::UChar(_)) => true,
        (VertexField::Green, PropValue::UChar(_)) => true,
        (VertexField::Blue, PropValue::UChar(_)) => true,
        _ => false,
    }
}

impl PointRecord {
    /// A fresh record with every component zero.
    pub fn new() -> (r: PointRecord)
        ensures
            r == zero_record(),
    {
        PointRecord { x: 0, y: 0, z: 0, nx: 0, ny: 0, nz: 0, red: 0, green: 0, blue: 0 }
    }

    /// Store one decoded property value under its field. Returns false, and
    /// changes nothing, when the value's type does not fit the field.
    pub fn set_property(&mut self, f: VertexField, v: PropValue) -> (ok: bool)
        ensures
            *final(self) == record_with(*old(self), f, v),
            ok == field_accepts(f, v),
    {
        match (f, v) {
            (VertexField::X, PropValue::Float(b)) => { self.x = b; true }
            (VertexField::Y, PropValue::Float(b)) => { self.y = b; true }
            (VertexField::Z, PropValue::Float(b)) => { self.z = b; true }
            (VertexField::Nx, PropValue::Float(b)) => { self.nx = b; true }
            (VertexField::Ny, PropValue::Float(b)) => { self.ny = b; true }
            (VertexField::Nz, PropValue::Float(b)) => { self.nz = b; true }
            (VertexField::Red, PropValue::UChar(b)) => { self.red = b; true }
            (VertexField::Green, PropValue::UChar(b)) => { self.green = b; true }
            (VertexField::Blue, PropValue::UChar(b)) => { self.blue = b; true }
            _ => false,
        }
    }
}

/// The scalar property types a header may declare.
#[derive(Clone, Copy, Debug, PartialEq, Eq, Structural)]
pub enum PropType {
    Int8,
    UInt8,
    Int16,
    UInt16,
    Int32,
    UInt32,
    Float32,
    Float64,
}

/// The payload encodings a header may declare.
#[derive(Clone, Copy, Debug, PartialEq, Eq, Structural)]
pub enum Encoding {
    Ascii,
    BinaryLittleEndian,
    BinaryBigEndian,
}

/// Why a load failed. Every failure is terminal: no partial point list is
/// ever returned.
#[derive(Clone, Copy, Debug, PartialEq, Eq, Structural)]
pub enum ReadError {
    /// A header line matches no recognized declaration.
    MalformedHeader,
    /// The payload declares an element other than `vertex`.
    UnsupportedElement,
    /// A vertex property's name and type fall outside the fixed schema.
    UnexpectedProperty,
    /// The payload is truncated or a value in it does not decode.
    MalformedPayload,
}

/// An optional per-vertex attribute of a mesh.
#[derive(Clone, Copy, Debug, PartialEq, Eq, Structural)]
pub enum MeshAttribute {
    Normal,
    Tangent,
    Uv,
    Color,
}

/// Why a fusion failed.
#[derive(Clone, Copy, Debug, PartialEq, Eq, Structural)]
pub enum FusionError {
    /// An instance lacks an attribute that the options request.
    MissingAttribute(MeshAttribute),
    /// The mesh and transform lists have different lengths.
    LengthMismatch,
}

} // verus!
