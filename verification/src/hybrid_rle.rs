//! The hybrid of run-length and bit-packed runs in which a page holds small
//! numbers: the indices into a dictionary and the definition levels.
//!
//! Each run begins with a header, a varint. Where the lowest bit of the
//! header is set, the run is bit-packed: the rest of the header counts groups
//! of eight numbers, packed from the lowest bit of each byte up. Where it is
//! clear, the run repeats one number, held in as many bytes as the bit width
//! needs, and the rest of the header says how often. Writers are known to cut
//! the last group of a bit-packed run short: such a run holds the numbers
//! that lie in the buffer in full.

use vstd::prelude::*;

use crate::value::le_unsigned;

verus! {

/// 2 to the power `k`.
pub open spec fn pow2(k: nat) -> nat
    decreases k,
{
    if k == 0 {
        1
    } else {
        2 * pow2((k - 1) as nat)
    }
}

/// A varint: its value and the number of its bytes.
pub struct Varint {
    pub value: nat,
    pub used: nat,
}

/// The varint at `pos`: seven bits a byte, the lowest first, the high bit of
/// a byte saying that another follows. `None` where the buffer ends within it
/// or it goes on beyond five bytes, `depth` of which lie before `pos`.
pub open spec fn varint(buf: Seq<u8>, pos: int, depth: nat) -> Option<Varint>
    decreases 5 - depth,
{
    if depth >= 5 || pos < 0 || pos >= buf.len() {
        None
    } else if buf[pos] < 128 {
        Some(Varint { value: buf[pos] as nat, used: 1 })
    } else {
        match varint(buf, pos + 1, depth + 1) {
            None => None,
            Some(rest) => Some(
                Varint { value: (buf[pos] - 128) as nat + 128 * rest.value, used: rest.used + 1 },
            ),
        }
    }
}

/// Bit `i` of the buffer, counted from the lowest bit of the first byte.
pub open spec fn bit_at(buf: Seq<u8>, i: int) -> nat {
    ((buf[i / 8] as nat) / pow2((i % 8) as nat)) % 2
}

/// The number that the `width` bits from bit `first` on hold, the lowest bit
/// first.
pub open spec fn packed_value(buf: Seq<u8>, first: int, width: nat) -> nat
    decreases width,
{
    if width == 0 {
        0
    } else {
        packed_value(buf, first, (width - 1) as nat) + bit_at(buf, first + width - 1) * pow2(
            (width - 1) as nat,
        )
    }
}

/// The first `n` numbers of a bit-packed run whose bytes begin at `body`.
pub open spec fn packed_values(buf: Seq<u8>, body: int, width: nat, n: nat) -> Seq<u32> {
    Seq::new(n, |j: int| packed_value(buf, body * 8 + j * width, width) as u32)
}

/// The number of bytes that hold the number of a repeated run.
pub open spec fn run_value_bytes(width: nat) -> nat {
    (width + 7) / 8
}

/// `n` times the number `v`.
pub open spec fn repeated(v: u32, n: nat) -> Seq<u32> {
    Seq::new(n, |j: int| v)
}

/// The smaller of two numbers.
pub open spec fn at_most(a: nat, b: nat) -> nat {
    if a <= b {
        a
    } else {
        b
    }
}

/// A run: whether it is bit-packed, where its bytes begin, how many they are,
/// and how many numbers it holds.
pub struct Run {
    pub packed: bool,
    pub body: int,
    pub bytes: nat,
    pub count: nat,
}

/// The run whose header is at `pos`. A bit-packed run that the buffer cuts
/// short ends with the buffer and holds the numbers that lie in it in full.
/// `None` where the header cannot be read or the buffer ends before the
/// number of a repeated run.
pub open spec fn run_at(buf: Seq<u8>, pos: int, width: nat) -> Option<Run> {
    match varint(buf, pos, 0) {
        None => None,
        Some(head) => {
            let body = pos + head.used;
            let left = (buf.len() - body) as nat;
            if head.value % 2 == 1 {
                let groups = head.value / 2;
                let bytes = at_most(groups * width, left);
                Some(
                    Run {
                        packed: true,
                        body,
                        bytes,
                        count: at_most(groups * 8, (bytes * 8) / width),
                    },
                )
            } else if run_value_bytes(width) > left {
                None
            } else {
                Some(
                    Run {
                        packed: false,
                        body,
                        bytes: run_value_bytes(width),
                        count: head.value / 2,
                    },
                )
            }
        },
    }
}

/// The first `n` numbers of a run.
pub open spec fn run_values(buf: Seq<u8>, run: Run, width: nat, n: nat) -> Seq<u32> {
    if run.packed {
        packed_values(buf, run.body, width, n)
    } else {
        repeated(le_unsigned(buf.subrange(run.body, run.body + run.bytes)) as u32, n)
    }
}

/// The numbers of the runs from `pos` on, `limit` of them at most. The runs
/// end with the buffer. `None` where a run cannot be read. A run ends behind
/// its header and within the buffer, so that the next run lies further on.
pub open spec fn hybrid_runs(buf: Seq<u8>, pos: int, width: nat, limit: nat) -> Option<Seq<u32>>
    decreases buf.len() - pos,
{
    if limit == 0 || pos < 0 || pos >= buf.len() {
        Some(Seq::empty())
    } else {
        match run_at(buf, pos, width) {
            None => None,
            Some(run) => {
                let n = at_most(run.count, limit);
                if run.body + run.bytes <= pos || run.body + run.bytes > buf.len() {
                    None
                } else {
                    match hybrid_runs(buf, run.body + run.bytes, width, (limit - n) as nat) {
                        None => None,
                        Some(rest) => Some(run_values(buf, run, width, n) + rest),
                    }
                }
            },
        }
    }
}

/// A varint takes one to five bytes, none beyond the buffer.
proof fn lemma_varint_used(buf: Seq<u8>, pos: int, depth: nat)
    ensures
        varint(buf, pos, depth) is Some ==> {
            &&& 1 <= varint(buf, pos, depth)->0.used <= 5 - depth
            &&& pos + varint(buf, pos, depth)->0.used <= buf.len()
        },
    decreases 5 - depth,
{
    if depth >= 5 || pos < 0 || pos >= buf.len() {
    } else if buf[pos] < 128 {
    } else {
        lemma_varint_used(buf, pos + 1, depth + 1);
    }
}

/// Reads the varint at `pos`.
fn read_varint(buf: &[u8], pos: usize) -> (r: Option<(u64, usize)>)
    requires
        pos < buf@.len(),
    ensures
        match r {
            None => varint(buf@, pos as int, 0) is None,
            Some((value, used)) => {
                &&& varint(buf@, pos as int, 0) == Some(
                    Varint { value: value as nat, used: used as nat },
                )
                &&& 1 <= used <= 5
                &&& pos + used <= buf@.len()
                &&& value < 0x8_0000_0000
            },
        },
{
    let size: usize = buf.len();
    let mut acc: u64 = 0;
    let mut weight: u64 = 1;
    let mut i: usize = 0;
    proof {
        lemma_varint_used(buf@, pos as int, 0);
    }
    while i < 5 && i < size - pos
        invariant
            i <= 5,
            pos < size,
            size == buf@.len(),
            i <= size - pos,
            i == 0 ==> weight == 1,
            i == 1 ==> weight == 128,
            i == 2 ==> weight == 16384,
            i == 3 ==> weight == 2097152,
            i == 4 ==> weight == 268435456,
            i < 5 ==> acc < weight,
            varint(buf@, pos as int, 0) == match varint(buf@, pos + i, i as nat) {
                None => None::<Varint>,
                Some(rest) => Some(
                    Varint {
                        value: (acc + weight * rest.value) as nat,
                        used: (rest.used + i) as nat,
                    },
                ),
            },
        decreases 5 - i,
    {
        let b: u8 = buf[pos + i];
        if b < 128 {
            let value: u64 = acc + weight * b as u64;
            return Some((value, i + 1));
        }
        proof {
            let inner = varint(buf@, pos + i + 1, (i + 1) as nat);
            if inner is Some {
                let v = inner->0.value;
                assert(acc + weight * ((b - 128) + 128 * v) == (acc + weight * (b - 128)) + (weight
                    * 128) * v) by (nonlinear_arith);
            }
        }
        acc = acc + weight * (b - 128) as u64;
        if i < 4 {
            weight = weight * 128;
        }
        i += 1;
    }
    None
}

/// The powers of two that the decoder meets.
pub proof fn lemma_pow2_values()
    ensures
        pow2(0) == 1,
        pow2(1) == 2,
        pow2(2) == 4,
        pow2(3) == 8,
        pow2(4) == 16,
        pow2(5) == 32,
        pow2(6) == 64,
        pow2(7) == 128,
        pow2(8) == 256,
        pow2(16) == 0x1_0000,
        pow2(32) == 0x1_0000_0000,
{
    reveal_with_fuel(pow2, 34);
}

/// A greater exponent gives no smaller power.
proof fn lemma_pow2_grows(a: nat, b: nat)
    requires
        a <= b,
    ensures
        pow2(a) <= pow2(b),
        pow2(a) >= 1,
    decreases b,
{
    if a < b {
        lemma_pow2_grows(a, (b - 1) as nat);
    } else if a > 0 {
        lemma_pow2_grows((a - 1) as nat, (a - 1) as nat);
    }
}

/// Appends to `out` the first `n` numbers of the bit-packed run whose bytes
/// are the `bytes` bytes from `body` on.
fn unpack_run(buf: &[u8], body: usize, bytes: usize, width: u8, n: usize, out: &mut Vec<u32>)
    requires
        1 <= width <= 32,
        body + bytes <= buf@.len(),
        n * width <= bytes * 8,
    ensures
        final(out)@ == old(out)@ + packed_values(buf@, body as int, width as nat, n as nat),
{
    let ghost want = packed_values(buf@, body as int, width as nat, n as nat);
    let mut at: usize = body;
    let mut bit: u8 = 0;
    let mut bit_weight: u8 = 1;
    let mut j: usize = 0;
    proof {
        lemma_pow2_values();
        assert(j * width == 0) by (nonlinear_arith)
            requires
                j == 0,
        ;
    }
    while j < n
        invariant
            j <= n,
            1 <= width <= 32,
            body + bytes <= buf@.len(),
            n * width <= bytes * 8,
            bit < 8,
            bit_weight == pow2(bit as nat),
            at * 8 + bit == body * 8 + j * width,
            want == packed_values(buf@, body as int, width as nat, n as nat),
            out@ == old(out)@ + want.subrange(0, j as int),
        decreases n - j,
    {
        let mut value: u64 = 0;
        let mut weight: u64 = 1;
        let mut t: u8 = 0;
        let ghost first: int = body * 8 + j * width;
        proof {
            assert((j + 1) * width == j * width + width) by (nonlinear_arith);
            assert((j + 1) * width <= n * width) by (nonlinear_arith)
                requires
                    j < n,
            ;
        }
        while t < width
            invariant
                t <= width,
                1 <= width <= 32,
                j < n,
                body + bytes <= buf@.len(),
                j * width + width <= bytes * 8,
                bit < 8,
                bit_weight == pow2(bit as nat),
                first == body * 8 + j * width,
                at * 8 + bit == first + t,
                weight == pow2(t as nat),
                value == packed_value(buf@, first, t as nat),
                value < weight,
            decreases width - t,
        {
            proof {
                lemma_pow2_values();
                lemma_pow2_grows(t as nat + 1, 32);
                lemma_pow2_grows(bit as nat, 7);
            }
            let byte: u8 = buf[at];
            let b: u8 = (byte / bit_weight) % 2;
            assert(b as nat == bit_at(buf@, first + t));
            proof {
                assert(pow2(t as nat + 1) == 2 * pow2(t as nat));
                assert(weight * b <= weight && weight * b == b * weight) by (nonlinear_arith)
                    requires
                        b <= 1,
                ;
            }
            value = value + weight * b as u64;
            weight = weight * 2;
            if bit == 7 {
                bit = 0;
                bit_weight = 1;
                at = at + 1;
            } else {
                bit = bit + 1;
                bit_weight = bit_weight * 2;
            }
            t = t + 1;
        }
        proof {
            lemma_pow2_values();
            lemma_pow2_grows(width as nat, 32);
            assert(want[j as int] == value);
            assert(want.subrange(0, j + 1) == want.subrange(0, j as int).push(want[j as int]));
        }
        out.push(value as u32);
        j += 1;
    }
    assert(want.subrange(0, n as int) == want);
}

/// The number that the `bytes` bytes at `body` hold, little-endian.
fn read_run_value(buf: &[u8], body: usize, bytes: usize) -> (v: u32)
    requires
        bytes <= 4,
        body + bytes <= buf@.len(),
    ensures
        v == le_unsigned(buf@.subrange(body as int, body + bytes)),
{
    let ghost sub = buf@.subrange(body as int, body + bytes);
    let size: usize = buf.len();
    let mut v: u64 = 0;
    let mut i: usize = bytes;
    proof {
        assert(sub.skip(bytes as int).len() == 0);
    }
    while i > 0
        invariant
            i <= bytes,
            bytes <= 4,
            body + bytes <= size,
            size == buf@.len(),
            sub == buf@.subrange(body as int, body + bytes),
            v == le_unsigned(sub.skip(i as int)),
            bytes - i == 0 ==> v < 1,
            bytes - i == 1 ==> v < 256,
            bytes - i == 2 ==> v < 65536,
            bytes - i == 3 ==> v < 16777216,
            bytes - i == 4 ==> v < 4294967296,
        decreases i,
    {
        i -= 1;
        proof {
            assert(sub.skip(i as int).skip(1) == sub.skip(i + 1));
            assert(sub.skip(i as int)[0] == buf@[body + i]);
        }
        v = buf[body + i] as u64 + 256 * v;
    }
    assert(sub.skip(0) == sub);
    v as u32
}

/// Appends `n` times the number `v`.
pub(crate) fn repeat_into(out: &mut Vec<u32>, v: u32, n: usize)
    ensures
        final(out)@ == old(out)@ + repeated(v, n as nat),
{
    let mut j: usize = 0;
    while j < n
        invariant
            j <= n,
            out@ == old(out)@ + repeated(v, j as nat),
        decreases n - j,
    {
        out.push(v);
        j += 1;
        assert(repeated(v, j as nat) == repeated(v, (j - 1) as nat).push(v));
    }
}

/// Decodes the runs from byte `start` on, of numbers of `width` bits, `limit`
/// numbers at most.
pub(crate) fn decode_runs(buf: &[u8], start: usize, width: u8, limit: usize) -> (r: Option<
    Vec<u32>,
>)
    requires
        1 <= width <= 32,
    ensures
        r is Some <==> hybrid_runs(buf@, start as int, width as nat, limit as nat) is Some,
        r is Some ==> r->0@ == hybrid_runs(buf@, start as int, width as nat, limit as nat)->0,
{
    let size: usize = buf.len();
    let ghost all = hybrid_runs(buf@, start as int, width as nat, limit as nat);
    let mut out: Vec<u32> = Vec::new();
    let mut pos: usize = start;
    proof {
        let rest = hybrid_runs(buf@, start as int, width as nat, limit as nat);
        if rest is Some {
            assert(Seq::<u32>::empty() + rest->0 == rest->0);
        }
    }
    while out.len() < limit && pos < size
        invariant
            1 <= width <= 32,
            size == buf@.len(),
            out@.len() <= limit,
            all == hybrid_runs(buf@, start as int, width as nat, limit as nat),
            all == match hybrid_runs(buf@, pos as int, width as nat, (limit - out@.len()) as nat) {
                None => None::<Seq<u32>>,
                Some(rest) => Some(out@ + rest),
            },
        decreases size - pos,
    {
        let left: usize = limit - out.len();
        let (header, used): (u64, usize) = match read_varint(buf, pos) {
            None => {
                return None;
            },
            Some(h) => h,
        };
        let body: usize = pos + used;
        let packed: bool = header % 2 == 1;
        let room: usize = size - body;
        proof {
            assert((header / 2) * width <= 0x80_0000_0000) by (nonlinear_arith)
                requires
                    header < 0x8_0000_0000,
                    width <= 32,
            ;
        }
        let bytes: usize = if packed {
            let declared: u64 = (header / 2) * width as u64;
            if declared <= room as u64 {
                declared as usize
            } else {
                room
            }
        } else {
            let needed: usize = (width as usize + 7) / 8;
            if needed > room {
                return None;
            }
            needed
        };
        let count: u64 = if packed {
            let groups: u64 = (header / 2) * 8;
            let held: u128 = (bytes as u128 * 8) / width as u128;
            if groups as u128 <= held {
                groups
            } else {
                held as u64
            }
        } else {
            header / 2
        };
        let n: usize = if count <= left as u64 {
            count as usize
        } else {
            left
        };
        let ghost before = out@;
        let ghost run = run_at(buf@, pos as int, width as nat)->0;
        let ghost piece: Seq<u32> = run_values(buf@, run, width as nat, n as nat);
        proof {
            assert(run.packed == packed);
            assert(run.body == body);
            assert(run.bytes == bytes);
            assert(run.count == count);
        }
        if packed {
            proof {
                assert(n * width <= bytes * 8) by (nonlinear_arith)
                    requires
                        n <= (bytes * 8) / (width as int),
                        width > 0,
                ;
            }
            unpack_run(buf, body, bytes, width, n, &mut out);
        } else {
            let v: u32 = read_run_value(buf, body, bytes);
            repeat_into(&mut out, v, n);
        }
        proof {
            let next = hybrid_runs(buf@, body + bytes, width as nat, (left - n) as nat);
            if next is Some {
                assert(before + (piece + next->0) == (before + piece) + next->0);
            }
        }
        pos = body + bytes;
    }
    proof {
        let rest = hybrid_runs(buf@, pos as int, width as nat, (limit - out@.len()) as nat);
        assert(rest == Some(Seq::<u32>::empty()));
        assert(out@ + Seq::<u32>::empty() == out@);
    }
    Some(out)
}

} // verus!
