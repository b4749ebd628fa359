//! Errors of a column-chunk decode.

use vstd::prelude::*;

use crate::column_type::ColumnTypeTag;

verus! {

/// Why a request cannot be served.
#[derive(Clone, Copy, Debug, PartialEq, Eq, Structural)]
pub enum Unsupported {
    /// The target column type is not a decimal.
    TargetType { target: ColumnTypeTag },
    /// A fixed source width outside `1..=32`.
    SourceLength { src_len: usize, target: ColumnTypeTag },
    /// A value of length zero.
    EmptyValue { target_size: usize },
    /// A value wider than the target whose leading bytes are not all sign bytes.
    NotSignExtended { src_len: usize, target_size: usize },
    /// A value wider than the target whose retained bytes would change sign.
    TruncatesDigits { src_len: usize, target_size: usize },
}

/// Why the bytes of a page are malformed.
#[derive(Clone, Copy, Debug, PartialEq, Eq, Structural)]
pub enum Layout {
    /// A fixed dictionary was asked for with value size zero.
    DictValueSize,
    /// The dictionary buffer does not hold exactly the declared number of values.
    DictPageSize { value_size: usize },
    /// The dictionary buffer ends before the declared number of values.
    DictTruncated,
    /// A dictionary index beyond the dictionary.
    DictIndexOutOfRange,
    /// The index stream of a dictionary-encoded page cannot be parsed.
    RleStream,
    /// The definition levels of a page cannot be parsed.
    DefLevels,
    /// A row beyond the rows of the page was asked for.
    RowOutOfPage,
    /// The page holds fewer values than its non-null rows need.
    ValuesExhausted,
}

/// The error of a decode.
#[derive(Clone, Copy, Debug, PartialEq, Eq, Structural)]
pub enum ParquetError {
    Unsupported(Unsupported),
    Layout(Layout),
    /// The column buffer cannot grow by the bytes asked for.
    Capacity,
}

/// The result of a decode.
pub type ParquetResult<T> = Result<T, ParquetError>;

} // verus!
