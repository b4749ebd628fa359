//! The byte converter: one big-endian two's-complement value of 1 to 32 bytes
//! into the target layout of a decimal column.

use vstd::prelude::*;

use crate::column_type::valid_width;
use crate::error::{ParquetError, ParquetResult, Unsupported};

verus! {

/// Whether the big-endian value `src` is negative: the high bit of its first
/// byte.
pub open spec fn is_negative(src: Seq<u8>) -> bool {
    src.len() > 0 && src[0] >= 0x80
}

/// The byte that extends `src` on the left without changing its value.
pub open spec fn sign_byte(src: Seq<u8>) -> u8 {
    if is_negative(src) {
        0xFFu8
    } else {
        0x00u8
    }
}

/// Whether `src` can be stored in `n` bytes: it is not empty, and where it is
/// longer than `n`, the bytes to drop are all sign bytes and the first byte
/// kept has the sign of the whole.
pub open spec fn fits(src: Seq<u8>, n: nat) -> bool {
    &&& src.len() > 0
    &&& src.len() > n ==> {
        &&& forall|i: int| 0 <= i < src.len() - n ==> src[i] == sign_byte(src)
        &&& (src[src.len() - n] >= 0x80) == is_negative(src)
    }
}

/// `src` brought to `n` big-endian bytes: sign bytes in front where it is
/// shorter, its last `n` bytes where it is longer.
pub open spec fn resized(src: Seq<u8>, n: nat) -> Seq<u8> {
    Seq::new(
        n,
        |p: int|
            if p + src.len() < n {
                sign_byte(src)
            } else {
                src[p + src.len() - n]
            },
    )
}

/// The big-endian position whose byte the target holds at position `i`.
/// Up to eight bytes the target is the source reversed. Wider targets are
/// made of eight-byte words: the words keep the order of the source, the
/// bytes of each word are reversed.
pub open spec fn source_index(n: nat, i: int) -> int {
    if n <= 8 {
        n - 1 - i
    } else {
        (i / 8) * 8 + 7 - i % 8
    }
}

/// The target layout of a big-endian value that already has the target's
/// width.
pub open spec fn target_layout(be: Seq<u8>) -> Seq<u8> {
    Seq::new(be.len(), |i: int| be[source_index(be.len(), i)])
}

/// The `n` bytes that the target stores for `src`.
pub open spec fn converted(src: Seq<u8>, n: nat) -> Seq<u8> {
    target_layout(resized(src, n))
}

/// The error of a value that does not fit `n` bytes.
pub open spec fn conversion_error(src: Seq<u8>, n: nat) -> ParquetError {
    if src.len() == 0 {
        ParquetError::Unsupported(Unsupported::EmptyValue { target_size: n as usize })
    } else if exists|i: int| 0 <= i < src.len() - n && src[i] != sign_byte(src) {
        ParquetError::Unsupported(
            Unsupported::NotSignExtended { src_len: src.len() as usize, target_size: n as usize },
        )
    } else {
        ParquetError::Unsupported(
            Unsupported::TruncatesDigits { src_len: src.len() as usize, target_size: n as usize },
        )
    }
}

/// Appends to `dest` the `N` bytes that stand for `src` in the target layout,
/// or fails and leaves `dest` as it was.
pub fn convert_decimal<const N: usize>(src: &[u8], dest: &mut Vec<u8>) -> (r: ParquetResult<()>)
    requires
        valid_width(N as nat),
    ensures
        r is Ok <==> fits(src@, N as nat),
        r is Ok ==> final(dest)@ == old(dest)@ + converted(src@, N as nat),
        r is Err ==> final(dest)@ == old(dest)@ && r == Err::<(), ParquetError>(
            conversion_error(src@, N as nat),
        ),
{
    let src_len: usize = src.len();
    if src_len == 0 {
        return Err(ParquetError::Unsupported(Unsupported::EmptyValue { target_size: N }));
    }
    let negative: bool = src[0] >= 0x80;
    let sign: u8 = if negative { 0xFF } else { 0x00 };
    let mut start: usize = 0;
    if src_len > N {
        let trunc: usize = src_len - N;
        let mut i: usize = 0;
        while i < trunc
            invariant
                i <= trunc,
                trunc == src_len - N,
                src_len == src@.len(),
                sign == sign_byte(src@),
                forall|j: int| 0 <= j < i ==> src@[j] == sign,
            decreases trunc - i,
        {
            if src[i] != sign {
                return Err(
                    ParquetError::Unsupported(
                        Unsupported::NotSignExtended { src_len, target_size: N },
                    ),
                );
            }
            i += 1;
        }
        if (src[trunc] >= 0x80) != negative {
            return Err(
                ParquetError::Unsupported(Unsupported::TruncatesDigits { src_len, target_size: N }),
            );
        }
        start = trunc;
    }
    let pad: usize = N - (src_len - start);
    let ghost base = dest@;
    let ghost want = converted(src@, N as nat);
    let mut i: usize = 0;
    while i < N
        invariant
            i <= N,
            valid_width(N as nat),
            src_len == src@.len(),
            src_len > 0,
            start <= src_len,
            src_len - start <= N,
            start > 0 ==> src_len - start == N,
            start == 0 ==> src_len <= N,
            pad == N - (src_len - start),
            sign == sign_byte(src@),
            want == converted(src@, N as nat),
            dest@ == base + want.subrange(0, i as int),
        decreases N - i,
    {
        let p: usize = if N <= 8 {
            N - 1 - i
        } else {
            (i / 8) * 8 + 7 - i % 8
        };
        let b: u8 = if p < pad {
            sign
        } else {
            src[start + p - pad]
        };
        dest.push(b);
        i += 1;
        assert(dest@ == base + want.subrange(0, i as int)) by {
            assert(want.subrange(0, i as int) == want.subrange(0, i - 1).push(want[i - 1]));
        }
    }
    assert(want.subrange(0, N as int) == want);
    Ok(())
}

} // verus!
