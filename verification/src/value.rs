//! The integers that source and target bytes stand for, and what the byte
//! converter keeps of them.

use vstd::prelude::*;

use crate::column_type::{null_bytes, valid_width};
use crate::convert::{converted, fits, is_negative, resized, sign_byte, source_index, target_layout};

verus! {

/// 256 to the power `k`.
pub open spec fn pow256(k: nat) -> nat
    decreases k,
{
    if k == 0 {
        1
    } else {
        256 * pow256((k - 1) as nat)
    }
}

/// The unsigned value of big-endian bytes.
pub open spec fn be_unsigned(b: Seq<u8>) -> nat
    decreases b.len(),
{
    if b.len() == 0 {
        0
    } else {
        be_unsigned(b.drop_last()) * 256 + b.last() as nat
    }
}

/// The two's-complement value of big-endian bytes.
pub open spec fn be_signed(b: Seq<u8>) -> int {
    if is_negative(b) {
        be_unsigned(b) - pow256(b.len())
    } else {
        be_unsigned(b) as int
    }
}

/// The unsigned value of little-endian bytes.
pub open spec fn le_unsigned(b: Seq<u8>) -> nat
    decreases b.len(),
{
    if b.len() == 0 {
        0
    } else {
        b[0] as nat + 256 * le_unsigned(b.skip(1))
    }
}

/// The unsigned value of bytes in the target layout: one little-endian word
/// up to eight bytes, and beyond that little-endian words of eight bytes, the
/// most significant word first.
pub open spec fn target_unsigned(t: Seq<u8>) -> nat
    decreases t.len(),
{
    if t.len() <= 8 {
        le_unsigned(t)
    } else {
        le_unsigned(t.subrange(0, 8)) * pow256((t.len() - 8) as nat) + target_unsigned(t.skip(8))
    }
}

/// Whether bytes in the target layout stand for a negative value: the high
/// bit of the most significant byte.
pub open spec fn target_negative(t: Seq<u8>) -> bool {
    t.len() > 0 && if t.len() <= 8 {
        t[t.len() - 1] >= 0x80
    } else {
        t[7] >= 0x80
    }
}

/// The two's-complement value of bytes in the target layout.
pub open spec fn target_signed(t: Seq<u8>) -> int {
    if target_negative(t) {
        target_unsigned(t) - pow256(t.len())
    } else {
        target_unsigned(t) as int
    }
}

/// Powers of 256 multiply as their exponents add.
proof fn lemma_pow256_add(a: nat, b: nat)
    ensures
        pow256(a + b) == pow256(a) * pow256(b),
        pow256(a) > 0,
    decreases a,
{
    if a == 0 {
        assert(pow256(0) == 1);
    } else {
        lemma_pow256_add((a - 1) as nat, b);
        assert(pow256(a + b) == 256 * pow256((a + b - 1) as nat));
        assert(pow256(a) == 256 * pow256((a - 1) as nat));
        assert(256 * (pow256((a - 1) as nat) * pow256(b)) == (256 * pow256((a - 1) as nat))
            * pow256(b)) by (nonlinear_arith);
    }
}

/// The value of bytes lies below the power of their width, and between the
/// bounds that their first byte sets.
proof fn lemma_be_unsigned_bound(b: Seq<u8>)
    ensures
        be_unsigned(b) < pow256(b.len()),
        b.len() > 0 ==> be_unsigned(b) < (b[0] as nat + 1) * pow256((b.len() - 1) as nat),
        b.len() > 0 ==> be_unsigned(b) >= (b[0] as nat) * pow256((b.len() - 1) as nat),
    decreases b.len(),
{
    if b.len() == 0 {
    } else if b.len() == 1 {
        assert(b.drop_last().len() == 0);
        assert(be_unsigned(b.drop_last()) == 0);
        assert(pow256(0) == 1);
        assert(pow256(1) == 256 * pow256(0));
        assert(b.last() == b[0]);
        assert(be_unsigned(b) == b[0] as nat);
        let f = b[0] as nat;
        assert((f + 1) * 1 == f + 1 && f * 1 == f) by (nonlinear_arith);
    } else {
        let h = b.drop_last();
        lemma_be_unsigned_bound(h);
        assert(h[0] == b[0]);
        let k = (b.len() - 1) as nat;
        assert(pow256(k) == 256 * pow256((k - 1) as nat));
        assert(pow256(b.len()) == 256 * pow256(k));
        let u = be_unsigned(h);
        let q = pow256((k - 1) as nat);
        let f = b[0] as nat;
        let l = b.last() as nat;
        assert(be_unsigned(b) == u * 256 + l);
        assert(u * 256 + l < (f + 1) * (256 * q)) by (nonlinear_arith)
            requires
                u < (f + 1) * q,
                l < 256,
        ;
        assert(u * 256 + l >= f * (256 * q)) by (nonlinear_arith)
            requires
                u >= f * q,
        ;
        assert((f + 1) * (256 * q) <= 256 * (256 * q)) by (nonlinear_arith)
            requires
                f < 256,
        ;
    }
}

/// Bytes behind bytes shift the value of the first.
proof fn lemma_be_unsigned_concat(a: Seq<u8>, b: Seq<u8>)
    ensures
        be_unsigned(a + b) == be_unsigned(a) * pow256(b.len()) + be_unsigned(b),
    decreases b.len(),
{
    if b.len() == 0 {
        assert(a + b == a);
        assert(pow256(0) == 1);
    } else {
        let bh = b.drop_last();
        lemma_be_unsigned_concat(a, bh);
        assert((a + b).drop_last() == a + bh);
        assert((a + b).last() == b.last());
        assert(pow256(b.len()) == 256 * pow256(bh.len()));
        let x = be_unsigned(a);
        let q = pow256(bh.len());
        assert((x * q + be_unsigned(bh)) * 256 == x * (256 * q) + be_unsigned(bh) * 256)
            by (nonlinear_arith);
    }
}

/// `k` copies of `byte`.
pub open spec fn filled(byte: u8, k: nat) -> Seq<u8> {
    Seq::new(k, |i: int| byte)
}

/// Zero bytes stand for zero, and bytes of `0xFF` for the greatest value of
/// their width.
proof fn lemma_filled_value(byte: u8, k: nat)
    ensures
        byte == 0x00 ==> be_unsigned(filled(byte, k)) == 0,
        byte == 0xFF ==> be_unsigned(filled(byte, k)) == pow256(k) - 1,
    decreases k,
{
    if k == 0 {
    } else {
        lemma_filled_value(byte, (k - 1) as nat);
        assert(filled(byte, k).drop_last() == filled(byte, (k - 1) as nat));
    }
}

/// Sign bytes in front of a value do not change it.
proof fn lemma_sign_extension(x: Seq<u8>, k: nat)
    requires
        x.len() > 0,
    ensures
        be_signed(filled(sign_byte(x), k) + x) == be_signed(x),
        is_negative(filled(sign_byte(x), k) + x) == is_negative(x),
{
    let pre = filled(sign_byte(x), k);
    let y = pre + x;
    lemma_be_unsigned_concat(pre, x);
    lemma_filled_value(sign_byte(x), k);
    lemma_pow256_add(k, x.len());
    if k > 0 {
        assert(y[0] == sign_byte(x));
    } else {
        assert(y[0] == x[0]);
    }
    if is_negative(x) {
        let q = pow256(x.len());
        let p = pow256(k);
        assert((p - 1) * q == p * q - q) by (nonlinear_arith);
    } else {
        assert(0 * pow256(x.len()) == 0);
    }
}

/// A value that fits keeps its integer when resized.
proof fn lemma_resized_value(src: Seq<u8>, n: nat)
    requires
        fits(src, n),
        n > 0,
    ensures
        be_signed(resized(src, n)) == be_signed(src),
        is_negative(resized(src, n)) == is_negative(src),
{
    let r = resized(src, n);
    if src.len() <= n {
        let k = (n - src.len()) as nat;
        assert(r == filled(sign_byte(src), k) + src);
        lemma_sign_extension(src, k);
    } else {
        let k = (src.len() - n) as nat;
        assert(r == src.subrange(k as int, src.len() as int));
        assert(r[0] == src[k as int]);
        assert(sign_byte(r) == sign_byte(src));
        assert(src == filled(sign_byte(r), k) + r);
        lemma_sign_extension(r, k);
    }
}

/// The little-endian value of reversed bytes is their big-endian value.
proof fn lemma_reversed_value(be: Seq<u8>, t: Seq<u8>)
    requires
        t.len() == be.len(),
        forall|i: int| 0 <= i < t.len() ==> t[i] == be[be.len() - 1 - i],
    ensures
        le_unsigned(t) == be_unsigned(be),
    decreases be.len(),
{
    if be.len() == 0 {
    } else {
        lemma_reversed_value(be.drop_last(), t.skip(1));
        assert(t[0] == be.last());
    }
}

/// The target layout holds the integer of the big-endian bytes it was made
/// from.
proof fn lemma_layout_unsigned(be: Seq<u8>)
    requires
        be.len() <= 8 || be.len() % 8 == 0,
    ensures
        target_unsigned(target_layout(be)) == be_unsigned(be),
    decreases be.len(),
{
    let t = target_layout(be);
    if be.len() <= 8 {
        lemma_reversed_value(be, t);
    } else {
        let head = be.subrange(0, 8);
        let tail = be.skip(8);
        assert(be == head + tail);
        lemma_be_unsigned_concat(head, tail);
        lemma_reversed_value(head, t.subrange(0, 8));
        assert(t.skip(8) == target_layout(tail)) by {
            assert forall|i: int| 0 <= i < tail.len() implies t.skip(8)[i] == target_layout(
                tail,
            )[i] by {
                assert(source_index(be.len(), i + 8) == source_index(tail.len(), i) + 8);
            }
        }
        lemma_layout_unsigned(tail);
    }
}

/// The integer is kept: a value that fits `n` bytes is stored as bytes that,
/// read in the target layout, stand for the integer that the source stands
/// for as big-endian two's complement.
pub proof fn lemma_conversion_keeps_value(src: Seq<u8>, n: nat)
    requires
        valid_width(n),
        fits(src, n),
    ensures
        target_signed(converted(src, n)) == be_signed(src),
{
    let r = resized(src, n);
    lemma_resized_value(src, n);
    lemma_layout_unsigned(r);
    let t = target_layout(r);
    assert(target_negative(t) == is_negative(r)) by {
        if n <= 8 {
            assert(t[n - 1] == r[source_index(n, n - 1)]);
        } else {
            assert(t[7] == r[source_index(n, 7)]);
        }
    }
}

/// Big-endian values of one width that stand for one integer are the same
/// bytes.
proof fn lemma_be_unsigned_injective(x: Seq<u8>, y: Seq<u8>)
    requires
        x.len() == y.len(),
        be_unsigned(x) == be_unsigned(y),
    ensures
        x == y,
    decreases x.len(),
{
    if x.len() == 0 {
        assert(x == y);
    } else {
        let a = be_unsigned(x.drop_last());
        let b = be_unsigned(y.drop_last());
        assert(a * 256 + x.last() as nat == b * 256 + y.last() as nat);
        assert(a == b && x.last() == y.last()) by (nonlinear_arith)
            requires
                a * 256 + x.last() as nat == b * 256 + y.last() as nat,
                x.last() < 256,
                y.last() < 256,
        ;
        lemma_be_unsigned_injective(x.drop_last(), y.drop_last());
        assert(x == x.drop_last().push(x.last()));
        assert(y == y.drop_last().push(y.last()));
    }
}

/// The stored bytes depend on the integer alone, not on the width it came
/// in: two sources that stand for one integer `v`, in whatever widths, are
/// stored as the same `n` bytes, and these stand for `v`.
pub proof fn lemma_conversion_ignores_source_width(a: Seq<u8>, b: Seq<u8>, n: nat)
    requires
        valid_width(n),
        fits(a, n),
        fits(b, n),
        be_signed(a) == be_signed(b),
    ensures
        converted(a, n) == converted(b, n),
        target_signed(converted(a, n)) == be_signed(a),
        target_signed(converted(b, n)) == be_signed(a),
{
    lemma_conversion_keeps_value(a, n);
    lemma_conversion_keeps_value(b, n);
    let ra = resized(a, n);
    let rb = resized(b, n);
    lemma_resized_value(a, n);
    lemma_resized_value(b, n);
    lemma_be_unsigned_bound(ra);
    lemma_be_unsigned_bound(rb);
    lemma_be_unsigned_injective(ra, rb);
}

/// Widening is sign extension: a source shorter than the target is stored as
/// the source with sign bytes in front of it, up to the target's width, would
/// be: in the target layout of those bytes.
pub proof fn lemma_widening_is_sign_extension(src: Seq<u8>, n: nat)
    requires
        0 < src.len() < n,
    ensures
        fits(src, n),
        (filled(sign_byte(src), (n - src.len()) as nat) + src).len() == n,
        converted(src, n) == converted(filled(sign_byte(src), (n - src.len()) as nat) + src, n),
        converted(src, n) == target_layout(filled(sign_byte(src), (n - src.len()) as nat) + src),
{
    let padded = filled(sign_byte(src), (n - src.len()) as nat) + src;
    assert(resized(src, n) == padded);
    assert(resized(padded, n) == padded);
}

/// A source of the target's width is stored as it is, in the target layout.
pub proof fn lemma_same_width_is_layout(src: Seq<u8>)
    requires
        src.len() > 0,
    ensures
        converted(src, src.len()) == target_layout(src),
        fits(src, src.len()),
{
    assert(resized(src, src.len()) == src);
}

/// Narrowing drops sign bytes only: a source longer than the target fits
/// exactly when each byte in front of its last `n` is the sign byte and the
/// first of its last `n` bytes has the sign bit of the whole. What is stored
/// then is the layout of those `n` bytes.
pub proof fn lemma_narrowing_drops_sign_bytes(src: Seq<u8>, n: nat)
    requires
        0 < n < src.len(),
    ensures
        fits(src, n) <==> (forall|i: int| 0 <= i < src.len() - n ==> src[i] == sign_byte(src)) && (
        src[src.len() - n] >= 0x80) == (src[0] >= 0x80),
        converted(src, n) == target_layout(src.subrange(src.len() - n, src.len() as int)),
{
    assert(resized(src, n) == src.subrange(src.len() - n, src.len() as int));
}

/// Whether the integer `v` lies in the range of `n` bytes of two's
/// complement.
pub open spec fn in_range(v: int, n: nat) -> bool {
    n > 0 && -128 * pow256((n - 1) as nat) <= v < 128 * pow256((n - 1) as nat)
}

/// Bytes that are not all zero stand for a number above zero, and bytes that
/// are not all `0xFF` for a number below the greatest of their width.
proof fn lemma_mixed_bytes(b: Seq<u8>)
    ensures
        (exists|i: int| 0 <= i < b.len() && b[i] != 0x00) ==> be_unsigned(b) >= 1,
        (exists|i: int| 0 <= i < b.len() && b[i] != 0xFF) ==> be_unsigned(b) + 2 <= pow256(b.len()),
    decreases b.len(),
{
    if b.len() > 0 {
        let h = b.drop_last();
        lemma_mixed_bytes(h);
        lemma_be_unsigned_bound(h);
        assert(pow256(b.len()) == 256 * pow256(h.len()));
        if exists|i: int| 0 <= i < b.len() && b[i] != 0x00 {
            let i = choose|i: int| 0 <= i < b.len() && b[i] != 0x00;
            if i < h.len() {
                assert(h[i] != 0x00);
            }
        }
        if exists|i: int| 0 <= i < b.len() && b[i] != 0xFF {
            let i = choose|i: int| 0 <= i < b.len() && b[i] != 0xFF;
            if i < h.len() {
                assert(h[i] != 0xFF);
            }
        }
    }
}

/// The integer of `n` bytes lies in the range of `n` bytes.
proof fn lemma_width_range(b: Seq<u8>)
    requires
        b.len() > 0,
    ensures
        in_range(be_signed(b), b.len()),
{
    lemma_be_unsigned_bound(b);
    let q = pow256((b.len() - 1) as nat);
    let f = b[0] as nat;
    assert(pow256(b.len()) == 256 * q);
    if f < 128 {
        assert((f + 1) * q <= 128 * q) by (nonlinear_arith)
            requires
                f + 1 <= 128,
        ;
        assert(f * q >= 0) by (nonlinear_arith);
        assert(128 * q >= 0) by (nonlinear_arith);
    } else {
        assert(f * q >= 128 * q) by (nonlinear_arith)
            requires
                f >= 128,
        ;
    }
}

/// A value fits `n` bytes exactly when its integer lies in the range of `n`
/// bytes.
pub proof fn lemma_fits_is_in_range(src: Seq<u8>, n: nat)
    requires
        src.len() > 0,
        n > 0,
    ensures
        fits(src, n) <==> in_range(be_signed(src), n),
{
    if fits(src, n) {
        lemma_resized_value(src, n);
        lemma_width_range(resized(src, n));
    } else {
        let k = (src.len() - n) as nat;
        let head = src.subrange(0, k as int);
        let tail = src.subrange(k as int, src.len() as int);
        assert(src == head + tail);
        lemma_be_unsigned_concat(head, tail);
        lemma_be_unsigned_bound(head);
        lemma_be_unsigned_bound(tail);
        lemma_mixed_bytes(head);
        lemma_pow256_add(k, n);
        lemma_pow256_add(n, 0);
        let sign = sign_byte(src);
        let h = be_unsigned(head);
        let t = be_unsigned(tail);
        let pn = pow256(n);
        let pk = pow256(k);
        let q = pow256((n - 1) as nat);
        assert(pn == 256 * q);
        assert(head[0] == src[0]);
        assert(tail[0] == src[k as int]);
        if exists|i: int| 0 <= i < k && src[i] != sign {
            let i = choose|i: int| 0 <= i < k && src[i] != sign;
            assert(head[i] != sign);
            if is_negative(src) {
                assert(h * pn + t - pk * pn < -128 * q) by (nonlinear_arith)
                    requires
                        h + 2 <= pk,
                        t < pn,
                        pn == 256 * q,
                        q > 0,
                ;
            } else {
                assert(h * pn + t >= 128 * q) by (nonlinear_arith)
                    requires
                        h >= 1,
                        pn == 256 * q,
                        q > 0,
                ;
            }
        } else {
            assert(head == filled(sign, k));
            lemma_filled_value(sign, k);
            let f = tail[0] as nat;
            if is_negative(src) {
                assert((f + 1) * q <= 128 * q) by (nonlinear_arith)
                    requires
                        f + 1 <= 128,
                ;
                assert((pk - 1) * pn + t - pk * pn < -128 * q) by (nonlinear_arith)
                    requires
                        t < 128 * q,
                        pn == 256 * q,
                ;
            } else {
                assert(f * q >= 128 * q) by (nonlinear_arith)
                    requires
                        f >= 128,
                ;
                assert(0 * pn + t >= 128 * q) by (nonlinear_arith)
                    requires
                        t >= 128 * q,
                ;
            }
        }
    }
}

/// The integer is kept wherever it can be: a source whose integer lies in
/// the range of `n` bytes is stored, and as bytes that stand for that
/// integer. A source whose integer lies outside cannot be stored.
pub proof fn lemma_conversion_keeps_what_fits(src: Seq<u8>, n: nat)
    requires
        valid_width(n),
        src.len() > 0,
    ensures
        in_range(be_signed(src), n) ==> fits(src, n) && target_signed(converted(src, n))
            == be_signed(src),
        !in_range(be_signed(src), n) ==> !fits(src, n),
{
    lemma_fits_is_in_range(src, n);
    if fits(src, n) {
        lemma_conversion_keeps_value(src, n);
    }
}

/// The null sentinel stands for the least integer of its width: no value
/// lies below it.
pub proof fn lemma_null_is_least(n: nat)
    requires
        valid_width(n),
    ensures
        target_signed(null_bytes(n)) == -128 * pow256((n - 1) as nat),
        forall|v: int| in_range(v, n) ==> target_signed(null_bytes(n)) <= v,
{
    let head = seq![0x80u8];
    let tail = filled(0x00, (n - 1) as nat);
    let be = head + tail;
    assert(null_bytes(n) =~= target_layout(be)) by {
        assert forall|i: int| 0 <= i < n implies null_bytes(n)[i] == target_layout(be)[i] by {
            let p = source_index(n, i);
            if p > 0 {
                assert(be[p] == tail[p - 1]);
            }
        }
    }
    lemma_layout_unsigned(be);
    lemma_be_unsigned_concat(head, tail);
    lemma_filled_value(0x00, (n - 1) as nat);
    assert(be_unsigned(head) == 128) by {
        assert(head.drop_last().len() == 0);
        assert(be_unsigned(head.drop_last()) == 0);
    }
    assert(pow256(n) == 256 * pow256((n - 1) as nat));
}

} // verus!
