//! Mathematical model of bit streams: how numbers and bytes are spelled as
//! sequences of bits, and the facts about those spellings that the bit
//! writer and reader rely on.
use vstd::arithmetic::div_mod::*;
use vstd::arithmetic::power2::*;
use vstd::bits::*;
use vstd::prelude::*;

verus! {

/// Bit `i` of the natural number `v` (bit 0 is the least significant one).
pub open spec fn bit_of(v: nat, i: nat) -> bool {
    (v / pow2(i)) % 2 == 1
}

/// The `size` lowest bits of `v`, least significant first.
pub open spec fn nat_bits(v: nat, size: nat) -> Seq<bool> {
    Seq::new(size, |i: int| bit_of(v, i as nat))
}

/// The bits of a byte sequence as they appear in a packed stream: bytes in
/// order, each byte least significant bit first.
pub open spec fn bytes_bits(s: Seq<u8>) -> Seq<bool> {
    Seq::new(8 * s.len(), |i: int| bit_of(s[i / 8] as nat, (i % 8) as nat))
}

/// The value of a bit sequence read least significant bit first.
pub open spec fn le_value(s: Seq<bool>) -> nat
    decreases s.len(),
{
    if s.len() == 0 {
        0
    } else {
        le_value(s.drop_last()) + if s.last() {
            pow2((s.len() - 1) as nat)
        } else {
            0
        }
    }
}

/// The value of a bit sequence read most significant bit first.
pub open spec fn be_value(s: Seq<bool>) -> nat
    decreases s.len(),
{
    if s.len() == 0 {
        0
    } else {
        2 * be_value(s.drop_last()) + if s.last() {
            1nat
        } else {
            0
        }
    }
}

/// The bits of a byte, most significant first.
pub open spec fn byte_bits_msb_first(b: u8) -> Seq<bool> {
    Seq::new(8, |i: int| bit_of(b as nat, (7 - i) as nat))
}

/// `n` zero bits.
pub open spec fn zeros(n: nat) -> Seq<bool> {
    Seq::new(n, |i: int| false)
}

/// Bit `i` of a `usize`, computed with shifts, is bit `i` of its value.
pub proof fn lemma_bit_usize(v: usize, i: usize)
    requires
        i < usize::BITS,
    ensures
        ((v >> i) & 1 == 1) == bit_of(v as nat, i as nat),
{
    lemma_usize_shr_is_div(v, i);
    let q = v >> i;
    assert((q & 1 == 1) == (q % 2 == 1)) by (bit_vector);
}

/// Bit `i` of a byte, computed with shifts, is bit `i` of its value.
pub proof fn lemma_bit_u8(v: u8, i: u8)
    requires
        i < 8,
    ensures
        ((v >> i) & 1 == 1) == bit_of(v as nat, i as nat),
{
    lemma_u8_shr_is_div(v, i);
    let q = v >> i;
    assert((q & 1 == 1) == (q % 2 == 1)) by (bit_vector);
}

/// Appending a byte appends its eight bits.
pub proof fn lemma_bytes_bits_push(s: Seq<u8>, b: u8)
    ensures
        bytes_bits(s.push(b)) =~= bytes_bits(s) + nat_bits(b as nat, 8),
{
    let l = bytes_bits(s.push(b));
    let r = bytes_bits(s) + nat_bits(b as nat, 8);
    assert(l.len() == r.len());
    assert forall|i: int| 0 <= i < l.len() implies l[i] == r[i] by {
        if i < 8 * s.len() {
            assert(i / 8 < s.len());
        } else {
            assert(i / 8 == s.len());
            assert(i % 8 == i - 8 * s.len());
        }
    }
}

/// A non-empty byte sequence starts with the eight bits of its first byte.
pub proof fn lemma_bytes_bits_first(s: Seq<u8>)
    requires
        s.len() > 0,
    ensures
        bytes_bits(s) =~= nat_bits(s[0] as nat, 8) + bytes_bits(s.drop_first()),
{
    let l = bytes_bits(s);
    let r = nat_bits(s[0] as nat, 8) + bytes_bits(s.drop_first());
    assert(l.len() == r.len());
    assert forall|i: int| 0 <= i < l.len() implies l[i] == r[i] by {
        if i < 8 {
            assert(i / 8 == 0);
            assert(i % 8 == i);
        } else {
            let j = i - 8;
            assert(i / 8 == j / 8 + 1);
            assert(i % 8 == j % 8);
        }
    }
}

/// The bits of the concatenation of two byte sequences.
pub proof fn lemma_bytes_bits_add(s: Seq<u8>, t: Seq<u8>)
    ensures
        bytes_bits(s + t) =~= bytes_bits(s) + bytes_bits(t),
    decreases t.len(),
{
    if t.len() == 0 {
        assert(s + t =~= s);
    } else {
        let t0 = t.drop_last();
        lemma_bytes_bits_add(s, t0);
        assert(s + t =~= (s + t0).push(t.last()));
        assert(t =~= t0.push(t.last()));
        lemma_bytes_bits_push(s + t0, t.last());
        lemma_bytes_bits_push(t0, t.last());
    }
}

/// Adding `b * 2^n` to a number below `2^n` sets bit `n` to `b` and keeps the
/// bits below.
pub proof fn lemma_nat_bits_push(x: nat, n: nat, b: bool)
    requires
        x < pow2(n),
    ensures
        nat_bits(x + if b { pow2(n) } else { 0 }, n + 1) =~= nat_bits(x, n).push(b),
        x + (if b { pow2(n) } else { 0 }) < pow2(n + 1),
{
    let y = x + if b { pow2(n) } else { 0nat };
    lemma_pow2_unfold(n + 1);
    assert forall|i: nat| i < n implies bit_of(y, i) == bit_of(x, i) by {
        lemma_pow2_pos(i);
        lemma_pow2_adds(i, (n - i) as nat);
        let k = pow2((n - i) as nat);
        lemma_pow2_unfold((n - i) as nat);
        let c: nat = if b { k } else { 0 };
        assert(pow2(n) == pow2(i) * k);
        assert(y == x + pow2(i) * c) by (nonlinear_arith)
            requires
                y == x + (if b { pow2(n) } else { 0nat }),
                pow2(n) == pow2(i) * k,
                c == (if b { k } else { 0 }),
        ;
        lemma_div_plus_multiple(x as int, c as int, pow2(i) as int);
        assert(c % 2 == 0);
        assert((x / pow2(i) + c) % 2 == (x / pow2(i)) % 2) by {
            lemma_add_mod_noop((x / pow2(i)) as int, c as int, 2);
        }
    }
    assert(bit_of(y, n) == b) by {
        lemma_pow2_pos(n);
        let c: nat = if b { 1 } else { 0 };
        assert(y == x + pow2(n) * c) by (nonlinear_arith)
            requires
                y == x + (if b { pow2(n) } else { 0nat }),
                c == (if b { 1nat } else { 0 }),
        ;
        lemma_div_plus_multiple(x as int, c as int, pow2(n) as int);
        lemma_basic_div(x as int, pow2(n) as int);
    }
}

/// Dividing by `pow2(i) * m` and adding a multiple of the divisor.
proof fn lemma_div_plus_multiple(x: int, c: int, d: int)
    requires
        0 <= x,
        0 <= c,
        0 < d,
    ensures
        (x + d * c) / d == x / d + c,
{
    lemma_fundamental_div_mod(x, d);
    lemma_mod_bound(x, d);
    assert(x + d * c == d * (x / d + c) + x % d) by (nonlinear_arith)
        requires
            x == d * (x / d) + x % d,
    ;
    lemma_div_quotient_unique(x + d * c, d, x / d + c, x % d);
}

/// If `a == d * q + r` with `0 <= r < d` then `q` is the quotient.
proof fn lemma_div_quotient_unique(a: int, d: int, q: int, r: int)
    requires
        0 < d,
        0 <= r < d,
        a == d * q + r,
    ensures
        a / d == q,
        a % d == r,
{
    assert(a == q * d + r) by (nonlinear_arith)
        requires
            a == d * q + r,
    ;
    lemma_fundamental_div_mod_converse(a, d, q, r);
}

/// Dropping the lowest bit of a number shifts its bits down by one.
pub proof fn lemma_nat_bits_shift(x: nat, n: nat)
    requires
        n > 0,
    ensures
        nat_bits(x / 2, (n - 1) as nat) =~= nat_bits(x, n).drop_first(),
        bit_of(x, 0) == (x % 2 == 1),
{
    assert forall|i: nat| i < n - 1 implies #[trigger] bit_of(x / 2, i) == bit_of(x, i + 1) by {
        lemma_pow2_pos(i);
        lemma_pow2_unfold(i + 1);
        lemma_div_denominator(x as int, 2, pow2(i) as int);
    }
    assert(pow2(0) == 1) by {
        lemma2_to64();
    }
}

/// The value of the lowest `k` bits of `v` is `v` modulo `2^k`.
pub proof fn lemma_le_value_nat_bits(v: nat, k: nat)
    ensures
        le_value(nat_bits(v, k)) == v % pow2(k),
    decreases k,
{
    lemma_pow2_pos(k);
    if k == 0 {
        assert(pow2(0) == 1) by {
            lemma2_to64();
        }
    } else {
        let k1 = (k - 1) as nat;
        lemma_le_value_nat_bits(v, k1);
        assert(nat_bits(v, k).drop_last() =~= nat_bits(v, k1));
        lemma_pow2_pos(k1);
        lemma_pow2_unfold(k);
        lemma_mod_breakdown(v as int, pow2(k1) as int, 2);
        lemma_mod_bound((v / pow2(k1)) as int, 2);
    }
}

/// A number below `2^k` is the value of its lowest `k` bits.
pub proof fn lemma_le_value_roundtrip(v: nat, k: nat)
    requires
        v < pow2(k),
    ensures
        le_value(nat_bits(v, k)) == v,
{
    lemma_le_value_nat_bits(v, k);
    lemma_small_mod(v, pow2(k));
}

/// The value of `k` bits is below `2^k`.
pub proof fn lemma_le_value_bound(s: Seq<bool>)
    ensures
        le_value(s) < pow2(s.len()),
    decreases s.len(),
{
    if s.len() == 0 {
        assert(pow2(0) == 1) by {
            lemma2_to64();
        }
    } else {
        lemma_le_value_bound(s.drop_last());
        lemma_pow2_unfold(s.len());
    }
}

/// Reading the bits of a byte most significant first gives the byte back.
pub proof fn lemma_be_value_byte(b: u8)
    ensures
        be_value(byte_bits_msb_first(b)) == b,
{
    let s = byte_bits_msb_first(b);
    reveal_with_fuel(be_value, 9);
    lemma2_to64();
    assert(s[0] == bit_of(b as nat, 7));
    assert forall|i: u8| i < 8 implies bit_of(b as nat, i as nat) == ((b >> i) & 1 == 1) by {
        lemma_bit_u8(b, i);
    }
    let b0 = (b >> 0u8) & 1 == 1;
    let b1 = (b >> 1u8) & 1 == 1;
    let b2 = (b >> 2u8) & 1 == 1;
    let b3 = (b >> 3u8) & 1 == 1;
    let b4 = (b >> 4u8) & 1 == 1;
    let b5 = (b >> 5u8) & 1 == 1;
    let b6 = (b >> 6u8) & 1 == 1;
    let b7 = (b >> 7u8) & 1 == 1;
    assert(s =~= seq![b7, b6, b5, b4, b3, b2, b1, b0]);
    assert(s.drop_last() =~= seq![b7, b6, b5, b4, b3, b2, b1]);
    assert(s.drop_last().drop_last() =~= seq![b7, b6, b5, b4, b3, b2]);
    assert(s.drop_last().drop_last().drop_last() =~= seq![b7, b6, b5, b4, b3]);
    assert(s.drop_last().drop_last().drop_last().drop_last() =~= seq![b7, b6, b5, b4]);
    assert(s.drop_last().drop_last().drop_last().drop_last().drop_last() =~= seq![b7, b6, b5]);
    assert(s.drop_last().drop_last().drop_last().drop_last().drop_last().drop_last() =~= seq![
        b7,
        b6,
    ]);
    assert(s.drop_last().drop_last().drop_last().drop_last().drop_last().drop_last().drop_last()
        =~= seq![b7]);
    assert(b == 128 * (if b7 { 1u8 } else { 0 }) + 64 * (if b6 { 1u8 } else { 0 }) + 32 * (if b5 {
        1u8
    } else {
        0
    }) + 16 * (if b4 { 1u8 } else { 0 }) + 8 * (if b3 { 1u8 } else { 0 }) + 4 * (if b2 {
        1u8
    } else {
        0
    }) + 2 * (if b1 { 1u8 } else { 0 }) + (if b0 { 1u8 } else { 0 })) by (bit_vector)
        requires
            b0 == ((b >> 0u8) & 1 == 1),
            b1 == ((b >> 1u8) & 1 == 1),
            b2 == ((b >> 2u8) & 1 == 1),
            b3 == ((b >> 3u8) & 1 == 1),
            b4 == ((b >> 4u8) & 1 == 1),
            b5 == ((b >> 5u8) & 1 == 1),
            b6 == ((b >> 6u8) & 1 == 1),
            b7 == ((b >> 7u8) & 1 == 1),
    ;
}

} // verus!
