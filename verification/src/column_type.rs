//! Column types of the target store, the widths of its decimals and their
//! null sentinels.

use vstd::prelude::*;

verus! {

/// The type of a target column.
#[derive(Clone, Copy, Debug, PartialEq, Eq, Structural)]
pub enum ColumnTypeTag {
    Boolean,
    Byte,
    Short,
    Char,
    Int,
    Long,
    Date,
    Timestamp,
    Float,
    Double,
    String,
    Symbol,
    Long256,
    GeoByte,
    GeoShort,
    GeoInt,
    GeoLong,
    Binary,
    Uuid,
    Long128,
    IPv4,
    Varchar,
    Array,
    Decimal8,
    Decimal16,
    Decimal32,
    Decimal64,
    Decimal128,
    Decimal256,
}

/// The number of bytes a value of a decimal column takes, `None` for any other
/// column type.
pub open spec fn decimal_size(tag: ColumnTypeTag) -> Option<nat> {
    match tag {
        ColumnTypeTag::Decimal8 => Some(1nat),
        ColumnTypeTag::Decimal16 => Some(2nat),
        ColumnTypeTag::Decimal32 => Some(4nat),
        ColumnTypeTag::Decimal64 => Some(8nat),
        ColumnTypeTag::Decimal128 => Some(16nat),
        ColumnTypeTag::Decimal256 => Some(32nat),
        _ => None,
    }
}

/// The six widths a target decimal can have.
pub open spec fn valid_width(n: nat) -> bool {
    n == 1 || n == 2 || n == 4 || n == 8 || n == 16 || n == 32
}

/// The null of a decimal of one byte.
pub const DECIMAL8_NULL: [u8; 1] = [0x80];

/// The null of a decimal of two bytes.
pub const DECIMAL16_NULL: [u8; 2] = [0x00, 0x80];

/// The null of a decimal of four bytes.
pub const DECIMAL32_NULL: [u8; 4] = [0x00, 0x00, 0x00, 0x80];

/// The null of a decimal of eight bytes.
pub const DECIMAL64_NULL: [u8; 8] = [0x00, 0x00, 0x00, 0x00, 0x00, 0x00, 0x00, 0x80];

/// The null of a decimal of sixteen bytes: the most significant word comes
/// first.
pub const DECIMAL128_NULL: [u8; 16] = [
    0x00, 0x00, 0x00, 0x00, 0x00, 0x00, 0x00, 0x80,
    0x00, 0x00, 0x00, 0x00, 0x00, 0x00, 0x00, 0x00,
];

/// The null of a decimal of thirty-two bytes: the most significant word
/// comes first.
pub const DECIMAL256_NULL: [u8; 32] = [
    0x00, 0x00, 0x00, 0x00, 0x00, 0x00, 0x00, 0x80,
    0x00, 0x00, 0x00, 0x00, 0x00, 0x00, 0x00, 0x00,
    0x00, 0x00, 0x00, 0x00, 0x00, 0x00, 0x00, 0x00,
    0x00, 0x00, 0x00, 0x00, 0x00, 0x00, 0x00, 0x00,
];

/// The null sentinel of width `n`: the least signed value of that width in
/// the target layout, whose most significant byte is the eighth byte for the
/// multi-word widths and the last byte otherwise.
pub open spec fn null_bytes(n: nat) -> Seq<u8> {
    Seq::new(n, |i: int| if (n <= 8 && i == n - 1) || (n > 8 && i == 7) { 0x80u8 } else { 0x00u8 })
}

impl ColumnTypeTag {
    /// The width in bytes of a decimal column type.
    pub fn decimal_size(self) -> (size: Option<usize>)
        ensures
            size is Some <==> decimal_size(self) is Some,
            size is Some ==> size->0 as nat == decimal_size(self)->0,
    {
        match self {
            ColumnTypeTag::Decimal8 => Some(1),
            ColumnTypeTag::Decimal16 => Some(2),
            ColumnTypeTag::Decimal32 => Some(4),
            ColumnTypeTag::Decimal64 => Some(8),
            ColumnTypeTag::Decimal128 => Some(16),
            ColumnTypeTag::Decimal256 => Some(32),
            _ => None,
        }
    }
}

} // verus!
