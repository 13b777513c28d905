//! Packed bit streams: a writer that packs bits into bytes, least significant
//! bit of each byte first, and a reader that unpacks them in the same order.
use crate::bitseq::{
    be_value, bit_of, byte_bits_msb_first, bytes_bits, le_value, lemma_bit_u8, lemma_bit_usize,
    lemma_le_value_bound,
    lemma_be_value_byte, lemma_bytes_bits_first, lemma_bytes_bits_push, lemma_le_value_roundtrip,
    lemma_nat_bits_push, lemma_nat_bits_shift, nat_bits, zeros,
};
use super::{
    grid_blocks, lemma_block_start_fits, lemma_flat_index, NaiveCompressionSettings,
};
use crate::prelude::{
    lemma_map_of_entries_dom, map_of_entries, DomainBlockLocation, Mappings, RangeBlockLocation,
    Rotation, Transformation,
};
use vstd::arithmetic::mul::*;
use vstd::arithmetic::div_mod::*;
use vstd::arithmetic::power2::*;
use vstd::bits::*;
use vstd::prelude::*;

verus! {

/// What can go wrong while reading a bit stream.
#[derive(Clone, Copy, Debug, PartialEq, Eq, Structural)]
pub enum StreamError {
    /// The stream ended before the requested bits.
    UnexpectedEof,
}

/// Packs bits into bytes. Complete bytes go to `buf`; the bits of the byte
/// being filled wait in the `n` low bits of `x`.
pub struct BinBufWriter {
    x: u64,
    n: usize,
    buf: Vec<u8>,
    size_written: usize,
}

/// Unpacks the bits of a byte sequence. The bits of the current byte that
/// are still unread wait in the `n` low bits of `x`; the bytes from `pos` on
/// are not started yet.
pub struct BinBufReader {
    x: u8,
    n: usize,
    buf: Vec<u8>,
    pos: usize,
}

/// The bits that `write_rotation` spells for a rotation.
pub open spec fn rotation_bits(r: Rotation) -> Seq<bool> {
    seq![
        r == Rotation::Quarter || r == Rotation::ThreeQuarter,
        r == Rotation::ThreeQuarter || r == Rotation::Half,
    ]
}

/// The rotation that `read_rotation` decodes from two bits.
pub open spec fn rotation_of_bits(b1: bool, b2: bool) -> Rotation {
    if !b1 && !b2 {
        Rotation::Zero
    } else if b1 && !b2 {
        Rotation::Quarter
    } else if !b1 && b2 {
        Rotation::Half
    } else {
        Rotation::ThreeQuarter
    }
}

/// The bits that `write_float` spells for a 32-bit pattern: its four
/// little-endian bytes, each most significant bit first.
pub open spec fn float_bits(bits: u32) -> Seq<bool> {
    byte_bits_msb_first((bits % 256) as u8) + byte_bits_msb_first(((bits / 256) % 256) as u8)
        + byte_bits_msb_first(((bits / 65536) % 256) as u8) + byte_bits_msb_first(
        ((bits / 16777216) % 256) as u8,
    )
}

/// The 32-bit pattern that `read_float` rebuilds from 32 bits.
pub open spec fn float_of_bits(s: Seq<bool>) -> u32 {
    (be_value(s.subrange(0, 8)) + 256 * be_value(s.subrange(8, 16)) + 65536 * be_value(
        s.subrange(16, 24),
    ) + 16777216 * be_value(s.subrange(24, 32))) as u32
}

/// The number of zero bits that `close` adds to complete the last byte.
pub open spec fn padding(n: nat) -> nat {
    if n % 8 == 0 {
        0
    } else {
        (8 - n % 8) as nat
    }
}

impl BinBufWriter {
    /// The writer's state is consistent: fewer than eight bits wait, and
    /// nothing above them is set.
    pub closed spec fn wf(&self) -> bool {
        &&& self.n < 8
        &&& self.x < pow2(self.n as nat)
    }

    /// Every bit written so far, in order.
    pub closed spec fn bits(&self) -> Seq<bool> {
        bytes_bits(self.buf@) + nat_bits(self.x as nat, self.n as nat)
    }

    /// The complete bytes handed out so far.
    pub closed spec fn bytes(&self) -> Seq<u8> {
        self.buf@
    }

    /// The number of bits that wait for their byte to be completed.
    pub closed spec fn pending(&self) -> nat {
        self.n as nat
    }

    /// The number of bits added with `add_bit` and the functions built on it.
    pub closed spec fn written(&self) -> nat {
        self.size_written as nat
    }

    /// The bits written so far are the bits of the complete bytes, followed
    /// by the fewer than eight bits that wait for their byte.
    pub proof fn lemma_layout(&self)
        requires
            self.wf(),
        ensures
            self.pending() < 8,
            self.bits().len() == 8 * self.bytes().len() + self.pending(),
            self.bits().subrange(0, 8 * self.bytes().len() as int) == bytes_bits(self.bytes()),
    {
        assert(self.bits().subrange(0, 8 * self.bytes().len() as int) =~= bytes_bits(
            self.bytes(),
        ));
    }

    /// A writer with nothing written.
    pub fn new() -> (w: Self)
        ensures
            w.wf(),
            w.bits() == Seq::<bool>::empty(),
            w.bytes() == Seq::<u8>::empty(),
            w.pending() == 0,
            w.written() == 0,
    {
        let w = BinBufWriter { buf: Vec::new(), n: 0, x: 0, size_written: 0 };
        proof {
            lemma2_to64();
            assert(w.bits() =~= Seq::<bool>::empty());
        }
        w
    }

    /// The number of bits added so far.
    pub fn size_written(&self) -> (r: usize)
        ensures
            r == self.written(),
    {
        self.size_written
    }

    /// Appends one bit; a completed byte goes out.
    pub fn add_bit(&mut self, bit: bool)
        requires
            old(self).wf(),
            old(self).written() < usize::MAX,
        ensures
            final(self).wf(),
            final(self).bits() == old(self).bits().push(bit),
            final(self).written() == old(self).written() + 1,
            final(self).bytes().len() * 8 + final(self).pending() == old(self).bytes().len() * 8
                + old(self).pending() + 1,
            old(self).bytes().is_prefix_of(final(self).bytes()),
    {
        let ghost x0 = self.x as nat;
        let ghost n0 = self.n as nat;
        let ghost add: nat = if bit {
            pow2(n0)
        } else {
            0
        };
        proof {
            lemma_nat_bits_push(x0, n0, bit);
            lemma_pow2_strictly_increases(n0 + 1, 9);
            lemma2_to64();
            lemma_u64_shl_is_mul(1, self.n as u64);
            assert(x0 + add < 256);
        }
        let sh: u64 = self.n as u64;
        let b: u64 = if bit {
            1u64 << sh
        } else {
            0
        };
        self.x = self.x + b;
        self.n = self.n + 1;
        assert(self.x == x0 + add);
        if self.n >= 8 {
            let ghost byte = self.x;
            self.buf.push((self.x % 256) as u8);
            self.x = self.x >> 8;
            self.n = self.n - 8;
            proof {
                lemma_u64_shr_is_div(byte, 8);
                lemma_bytes_bits_push(old(self).buf@, byte as u8);
            }
        }
        self.size_written = self.size_written + 1;
        assert(old(self).bytes().is_prefix_of(self.bytes()));
    }

    /// Appends bits in order.
    pub fn add_bits(&mut self, bits: &[bool])
        requires
            old(self).wf(),
            old(self).written() + bits@.len() <= usize::MAX,
        ensures
            final(self).wf(),
            final(self).bits() == old(self).bits() + bits@,
            final(self).written() == old(self).written() + bits@.len(),
            old(self).bytes().is_prefix_of(final(self).bytes()),
    {
        let mut k: usize = 0;
        while k < bits.len()
            invariant
                self.wf(),
                k <= bits@.len(),
                self.bits() == old(self).bits() + bits@.subrange(0, k as int),
                self.written() == old(self).written() + k,
                old(self).written() + bits@.len() <= usize::MAX,
                old(self).bytes().is_prefix_of(self.bytes()),
            decreases bits@.len() - k,
        {
            self.add_bit(bits[k]);
            assert(bits@.subrange(0, k + 1) =~= bits@.subrange(0, k as int).push(bits@[k as int]));
            k = k + 1;
        }
        assert(bits@.subrange(0, k as int) =~= bits@);
    }

    /// Appends the eight bits of a byte, most significant first.
    pub fn write_byte(&mut self, byte: u8)
        requires
            old(self).wf(),
            old(self).written() + 8 <= usize::MAX,
        ensures
            final(self).wf(),
            final(self).bits() == old(self).bits() + byte_bits_msb_first(byte),
            final(self).written() == old(self).written() + 8,
            old(self).bytes().is_prefix_of(final(self).bytes()),
    {
        let mut k: u8 = 0;
        while k < 8
            invariant
                self.wf(),
                k <= 8,
                self.bits() == old(self).bits() + byte_bits_msb_first(byte).subrange(0, k as int),
                self.written() == old(self).written() + k,
                old(self).written() + 8 <= usize::MAX,
                old(self).bytes().is_prefix_of(self.bytes()),
            decreases 8 - k,
        {
            let i: u8 = 7 - k;
            proof {
                lemma_bit_u8(byte, i);
            }
            self.add_bit((byte >> i) & 1 == 1);
            assert(byte_bits_msb_first(byte).subrange(0, k + 1) =~= byte_bits_msb_first(
                byte,
            ).subrange(0, k as int).push(byte_bits_msb_first(byte)[k as int]));
            k = k + 1;
        }
        assert(byte_bits_msb_first(byte).subrange(0, 8) =~= byte_bits_msb_first(byte));
    }

    /// Completes the last byte with zero bits and hands it out.
    pub fn close(&mut self)
        requires
            old(self).wf(),
        ensures
            final(self).wf(),
            final(self).pending() == 0,
            final(self).bits() == old(self).bits() + zeros(padding(old(self).bits().len())),
            final(self).bits() == bytes_bits(final(self).bytes()),
            final(self).written() == old(self).written(),
            old(self).bytes().is_prefix_of(final(self).bytes()),
    {
        let ghost n0 = self.n as nat;
        let ghost x0 = self.x as nat;
        proof {
            assert((8 * self.buf@.len() + n0) % 8 == n0) by {
                lemma_mod_multiples_vanish(self.buf@.len() as int, n0 as int, 8);
                lemma_small_mod(n0, 8);
            }
        }
        if self.n > 0 {
            let byte: u8 = (self.x % 256) as u8;
            proof {
                lemma_pow2_strictly_increases(n0, 8);
                lemma2_to64();
                assert(byte as nat == x0);
                assert forall|i: int| n0 <= i < 8 implies !#[trigger] bit_of(x0, i as nat) by {
                    if n0 < i {
                        lemma_pow2_strictly_increases(n0, i as nat);
                    }
                    lemma_basic_div(x0 as int, pow2(i as nat) as int);
                }
                lemma_bytes_bits_push(self.buf@, byte);
                assert(nat_bits(x0, 8) =~= nat_bits(x0, n0) + zeros((8 - n0) as nat));
            }
            self.buf.push(byte);
            self.x = 0;
            self.n = 0;
        }
        proof {
            lemma2_to64();
            assert(nat_bits(0, 0) =~= Seq::<bool>::empty());
            assert(zeros(0) =~= Seq::<bool>::empty());
            assert(self.bits() =~= bytes_bits(self.buf@));
        }
        assert(old(self).bytes().is_prefix_of(self.bytes()));
    }

    /// Appends the `size` lowest bits of `n`, least significant first.
    pub fn write_int(&mut self, n: usize, size: usize)
        requires
            old(self).wf(),
            old(self).written() + size <= usize::MAX,
            size < usize::BITS,
            n + 1 < pow2(size as nat),
        ensures
            final(self).wf(),
            final(self).bits() == old(self).bits() + nat_bits(n as nat, size as nat),
            final(self).written() == old(self).written() + size,
            old(self).bytes().is_prefix_of(final(self).bytes()),
    {
        let mut i: usize = 0;
        while i < size
            invariant
                self.wf(),
                i <= size < usize::BITS,
                self.bits() == old(self).bits() + nat_bits(n as nat, i as nat),
                self.written() == old(self).written() + i,
                old(self).written() + size <= usize::MAX,
                old(self).bytes().is_prefix_of(self.bytes()),
            decreases size - i,
        {
            proof {
                lemma_bit_usize(n, i);
            }
            self.add_bit((n >> i) & 1 == 1);
            assert(nat_bits(n as nat, (i + 1) as nat) =~= nat_bits(n as nat, i as nat).push(
                bit_of(n as nat, i as nat),
            ));
            i = i + 1;
        }
    }

    /// Appends the four little-endian bytes of a 32-bit float pattern
    /// (`f32::to_bits`), each byte most significant bit first.
    pub fn write_float(&mut self, x: u32)
        requires
            old(self).wf(),
            old(self).written() + 32 <= usize::MAX,
        ensures
            final(self).wf(),
            final(self).bits() == old(self).bits() + float_bits(x),
            final(self).written() == old(self).written() + 32,
            old(self).bytes().is_prefix_of(final(self).bytes()),
    {
        self.write_byte((x % 256) as u8);
        self.write_byte(((x / 256) % 256) as u8);
        self.write_byte(((x / 65536) % 256) as u8);
        self.write_byte(((x / 16777216) % 256) as u8);
        assert(self.bits() =~= old(self).bits() + float_bits(x));
    }

    /// Appends the two bits that code a rotation.
    pub fn write_rotation(&mut self, r: Rotation)
        requires
            old(self).wf(),
            old(self).written() + 2 <= usize::MAX,
        ensures
            final(self).wf(),
            final(self).bits() == old(self).bits() + rotation_bits(r),
            final(self).written() == old(self).written() + 2,
            old(self).bytes().is_prefix_of(final(self).bytes()),
    {
        self.add_bit((r == Rotation::Quarter) || (r == Rotation::ThreeQuarter));
        self.add_bit((r == Rotation::ThreeQuarter) || (r == Rotation::Half));
        assert(self.bits() =~= old(self).bits() + rotation_bits(r));
    }

    /// Completes the last byte and gives back every byte written.
    pub fn finish(self) -> (bytes: Vec<u8>)
        requires
            self.wf(),
        ensures
            bytes_bits(bytes@) == self.bits() + zeros(padding(self.bits().len())),
            self.bytes().is_prefix_of(bytes@),
    {
        let mut w = self;
        w.close();
        w.buf
    }
}

impl BinBufReader {
    /// The reader's state is consistent: at most eight bits wait, nothing
    /// above them is set, and the next byte lies within the input.
    pub closed spec fn wf(&self) -> bool {
        &&& self.n <= 8
        &&& self.x < pow2(self.n as nat)
        &&& self.pos <= self.buf@.len()
    }

    /// The bits not read yet, in order.
    pub closed spec fn remaining(&self) -> Seq<bool> {
        nat_bits(self.x as nat, self.n as nat) + bytes_bits(
            self.buf@.subrange(self.pos as int, self.buf@.len() as int),
        )
    }

    /// A reader over the bits of `r`.
    pub fn new(r: Vec<u8>) -> (rd: Self)
        ensures
            rd.wf(),
            rd.remaining() == bytes_bits(r@),
    {
        let rd = BinBufReader { x: 0, n: 0, buf: r, pos: 0 };
        proof {
            lemma2_to64();
            assert(rd.buf@.subrange(0, rd.buf@.len() as int) =~= rd.buf@);
            assert(nat_bits(0, 0) + bytes_bits(rd.buf@) =~= bytes_bits(rd.buf@));
        }
        rd
    }

    /// Reads the next bit; fails, consuming nothing, at the end of the input.
    pub fn read_bit(&mut self) -> (res: Result<bool, StreamError>)
        requires
            old(self).wf(),
        ensures
            final(self).wf(),
            res is Err <==> old(self).remaining().len() == 0,
            res matches Ok(b) ==> b == old(self).remaining()[0] && final(self).remaining()
                == old(self).remaining().drop_first(),
            res matches Err(e) ==> e == StreamError::UnexpectedEof && final(self).remaining()
                == old(self).remaining(),
    {
        if self.n == 0 {
            proof {
                assert(nat_bits(self.x as nat, 0) =~= Seq::<bool>::empty());
                assert(self.remaining() =~= bytes_bits(
                    self.buf@.subrange(self.pos as int, self.buf@.len() as int),
                ));
            }
            if self.pos >= self.buf.len() {
                assert(self.remaining().len() == 0);
                return Err(StreamError::UnexpectedEof);
            }
            let ghost rest = self.buf@.subrange(self.pos as int, self.buf@.len() as int);
            proof {
                lemma_bytes_bits_first(rest);
                assert(rest.drop_first() =~= self.buf@.subrange(
                    self.pos + 1,
                    self.buf@.len() as int,
                ));
                lemma2_to64();
            }
            self.x = self.buf[self.pos];
            self.pos = self.pos + 1;
            self.n = 8;
        }
        let ghost x0 = self.x as nat;
        let ghost n0 = self.n as nat;
        proof {
            lemma_nat_bits_shift(x0, n0);
            assert(pow2(0) == 1) by {
                lemma2_to64();
            }
            lemma_pow2_unfold(n0);
            let xv = self.x;
            assert((xv & 1 == 1) == (xv % 2 == 1)) by (bit_vector);
            assert(xv >> 1 == xv / 2) by (bit_vector);
        }
        let res = (self.x & 1) == 1;
        self.x = self.x >> 1;
        self.n = self.n - 1;
        proof {
            assert(self.remaining() =~= old(self).remaining().drop_first());
        }
        Ok(res)
    }

    /// Reads eight bits, the first one as the most significant.
    pub fn read_byte(&mut self) -> (res: Result<u8, StreamError>)
        requires
            old(self).wf(),
        ensures
            final(self).wf(),
            res is Ok <==> old(self).remaining().len() >= 8,
            res matches Ok(v) ==> v == be_value(old(self).remaining().subrange(0, 8))
                && final(self).remaining() == old(self).remaining().subrange(
                8,
                old(self).remaining().len() as int,
            ),
            res matches Err(e) ==> e == StreamError::UnexpectedEof && final(self).remaining()
                == Seq::<bool>::empty(),
    {
        let ghost r0 = old(self).remaining();
        let mut x: u8 = 0;
        let mut k: usize = 0;
        proof {
            lemma2_to64();
        }
        while k < 8
            invariant
                self.wf(),
                k <= 8,
                k <= r0.len(),
                r0 == old(self).remaining(),
                self.remaining() == r0.subrange(k as int, r0.len() as int),
                x == be_value(r0.subrange(0, k as int)),
                x < pow2(k as nat),
            decreases 8 - k,
        {
            let ghost before = self.remaining();
            let b = self.read_bit();
            match b {
                Ok(bit) => {
                    proof {
                        assert(r0.subrange(0, k + 1).drop_last() =~= r0.subrange(0, k as int));
                        lemma_pow2_unfold((k + 1) as nat);
                        lemma_pow2_strictly_increases(k as nat, 8);
                        lemma2_to64();
                        assert(self.remaining() =~= r0.subrange(k + 1, r0.len() as int));
                    }
                    x = x * 2 + if bit {
                        1
                    } else {
                        0
                    };
                },
                Err(e) => {
                    proof {
                        assert(r0.subrange(k as int, r0.len() as int).len() == 0);
                        assert(r0.len() == k);
                    }
                    return Err(e);
                },
            }
            k = k + 1;
        }
        Ok(x)
    }

    /// Reads `size` bits, the first one as the least significant.
    pub fn read_int(&mut self, size: usize) -> (res: Result<usize, StreamError>)
        requires
            old(self).wf(),
            size <= usize::BITS,
        ensures
            final(self).wf(),
            res is Ok <==> old(self).remaining().len() >= size,
            res matches Ok(v) ==> v == le_value(old(self).remaining().subrange(0, size as int))
                && final(self).remaining() == old(self).remaining().subrange(
                size as int,
                old(self).remaining().len() as int,
            ),
            res matches Err(e) ==> e == StreamError::UnexpectedEof && final(self).remaining()
                == Seq::<bool>::empty(),
    {
        let ghost r0 = old(self).remaining();
        let mut x: usize = 0;
        let mut i: usize = 0;
        proof {
            lemma2_to64();
        }
        while i < size
            invariant
                self.wf(),
                i <= size <= usize::BITS,
                i <= r0.len(),
                r0 == old(self).remaining(),
                self.remaining() == r0.subrange(i as int, r0.len() as int),
                x == le_value(r0.subrange(0, i as int)),
                x < pow2(i as nat),
            decreases size - i,
        {
            let b = self.read_bit();
            match b {
                Ok(bit) => {
                    proof {
                        assert(r0.subrange(0, i + 1).drop_last() =~= r0.subrange(0, i as int));
                        lemma_pow2_unfold((i + 1) as nat);
                        lemma_usize_pow2_no_overflow(i as nat);
                        lemma_usize_shl_is_mul(1, i);
                        if i + 1 < usize::BITS {
                            lemma_usize_pow2_no_overflow((i + 1) as nat);
                        } else {
                            assert(pow2(usize::BITS as nat) == usize::MAX + 1) by {
                                lemma2_to64();
                                lemma2_to64_rest();
                            }
                        }
                        assert(self.remaining() =~= r0.subrange(i + 1, r0.len() as int));
                    }
                    let add: usize = if bit {
                        1usize << i
                    } else {
                        0
                    };
                    x = x + add;
                },
                Err(e) => {
                    proof {
                        assert(r0.subrange(i as int, r0.len() as int).len() == 0);
                        assert(r0.len() == i);
                    }
                    return Err(e);
                },
            }
            i = i + 1;
        }
        Ok(x)
    }

    /// Reads a 32-bit float pattern stored as four little-endian bytes
    /// (the argument of `f32::from_bits`).
    pub fn read_float(&mut self) -> (res: Result<u32, StreamError>)
        requires
            old(self).wf(),
        ensures
            final(self).wf(),
            res is Ok <==> old(self).remaining().len() >= 32,
            res matches Ok(v) ==> v == float_of_bits(old(self).remaining().subrange(0, 32))
                && final(self).remaining() == old(self).remaining().subrange(
                32,
                old(self).remaining().len() as int,
            ),
            res matches Err(e) ==> e == StreamError::UnexpectedEof && final(self).remaining()
                == Seq::<bool>::empty(),
    {
        let ghost r0 = old(self).remaining();
        let b0 = self.read_byte()?;
        let ghost r1 = self.remaining();
        let b1 = self.read_byte()?;
        let ghost r2 = self.remaining();
        let b2 = self.read_byte()?;
        let ghost r3 = self.remaining();
        let b3 = self.read_byte()?;
        proof {
            assert(r0.subrange(0, 32).subrange(0, 8) =~= r0.subrange(0, 8));
            assert(r0.subrange(0, 32).subrange(8, 16) =~= r1.subrange(0, 8));
            assert(r0.subrange(0, 32).subrange(16, 24) =~= r2.subrange(0, 8));
            assert(r0.subrange(0, 32).subrange(24, 32) =~= r3.subrange(0, 8));
            assert(self.remaining() =~= r0.subrange(32, r0.len() as int));
        }
        Ok((b0 as u32) + 256 * (b1 as u32) + 65536 * (b2 as u32) + 16777216 * (b3 as u32))
    }

    /// Reads the two bits that code a rotation.
    pub fn read_rotation(&mut self) -> (res: Result<Rotation, StreamError>)
        requires
            old(self).wf(),
        ensures
            final(self).wf(),
            res is Ok <==> old(self).remaining().len() >= 2,
            res matches Ok(r) ==> r == rotation_of_bits(
                old(self).remaining()[0],
                old(self).remaining()[1],
            ) && final(self).remaining() == old(self).remaining().subrange(
                2,
                old(self).remaining().len() as int,
            ),
            res matches Err(e) ==> e == StreamError::UnexpectedEof && final(self).remaining()
                == Seq::<bool>::empty(),
    {
        let ghost r0 = old(self).remaining();
        let b1 = self.read_bit()?;
        let b2 = match self.read_bit() {
            Ok(b) => b,
            Err(e) => {
                return Err(e);
            },
        };
        proof {
            assert(self.remaining() =~= r0.subrange(2, r0.len() as int));
        }
        Ok(
            match (b1, b2) {
                (false, false) => Rotation::Zero,
                (true, false) => Rotation::Quarter,
                (false, true) => Rotation::Half,
                (true, true) => Rotation::ThreeQuarter,
            },
        )
    }
}

/// An integer below `2^size` written with `write_int(n, size)` is read back by
/// `read_int(size)`, and the bits after it are left for the next read.
pub proof fn law_int_roundtrip(n: nat, size: nat, rest: Seq<bool>)
    requires
        n < pow2(size),
    ensures
        le_value((nat_bits(n, size) + rest).subrange(0, size as int)) == n,
        (nat_bits(n, size) + rest).subrange(size as int, size + rest.len() as int) == rest,
{
    let s = nat_bits(n, size) + rest;
    assert(s.subrange(0, size as int) =~= nat_bits(n, size));
    assert(s.subrange(size as int, size + rest.len() as int) =~= rest);
    lemma_le_value_roundtrip(n, size);
}

/// A byte written with `write_byte` is read back by `read_byte`, and the bits
/// after it are left for the next read.
pub proof fn law_byte_roundtrip(b: u8, rest: Seq<bool>)
    ensures
        be_value((byte_bits_msb_first(b) + rest).subrange(0, 8)) == b,
        (byte_bits_msb_first(b) + rest).subrange(8, 8 + rest.len() as int) == rest,
{
    let s = byte_bits_msb_first(b) + rest;
    assert(s.subrange(0, 8) =~= byte_bits_msb_first(b));
    assert(s.subrange(8, 8 + rest.len() as int) =~= rest);
    lemma_be_value_byte(b);
}

/// A float pattern written with `write_float` is read back, bit for bit, by
/// `read_float`, and the bits after it are left for the next read.
pub proof fn law_float_roundtrip(x: u32, rest: Seq<bool>)
    ensures
        float_of_bits((float_bits(x) + rest).subrange(0, 32)) == x,
        (float_bits(x) + rest).subrange(32, 32 + rest.len() as int) == rest,
{
    let b0 = (x % 256) as u8;
    let b1 = ((x / 256) % 256) as u8;
    let b2 = ((x / 65536) % 256) as u8;
    let b3 = ((x / 16777216) % 256) as u8;
    let s = (float_bits(x) + rest).subrange(0, 32);
    assert(s.subrange(0, 8) =~= byte_bits_msb_first(b0));
    assert(s.subrange(8, 16) =~= byte_bits_msb_first(b1));
    assert(s.subrange(16, 24) =~= byte_bits_msb_first(b2));
    assert(s.subrange(24, 32) =~= byte_bits_msb_first(b3));
    lemma_be_value_byte(b0);
    lemma_be_value_byte(b1);
    lemma_be_value_byte(b2);
    lemma_be_value_byte(b3);
    assert((x % 256) + 256 * ((x / 256) % 256) + 65536 * ((x / 65536) % 256) + 16777216 * ((x
        / 16777216) % 256) == x) by (bit_vector);
    assert((float_bits(x) + rest).subrange(32, 32 + rest.len() as int) =~= rest);
}

/// A rotation written with `write_rotation` is read back by `read_rotation`,
/// and the bits after it are left for the next read.
pub proof fn law_rotation_roundtrip(r: Rotation, rest: Seq<bool>)
    ensures
        rotation_of_bits((rotation_bits(r) + rest)[0], (rotation_bits(r) + rest)[1]) == r,
        (rotation_bits(r) + rest).subrange(2, 2 + rest.len() as int) == rest,
{
    assert((rotation_bits(r) + rest).subrange(2, 2 + rest.len() as int) =~= rest);
}

/// A reader over the bytes of a finished writer sees every bit that was
/// written, in order, followed only by the zero bits that completed the last
/// byte; the stream has as many bytes as the bits need and no more.
pub proof fn law_stream_roundtrip(written: Seq<bool>, bytes: Seq<u8>)
    requires
        bytes_bits(bytes) == written + zeros(padding(written.len())),
    ensures
        bytes_bits(bytes).subrange(0, written.len() as int) == written,
        bytes.len() == (written.len() + 7) / 8,
{
    assert(bytes_bits(bytes).subrange(0, written.len() as int) =~= written);
    assert(bytes_bits(bytes).len() == 8 * bytes.len());
    assert((written + zeros(padding(written.len()))).len() == written.len() + padding(
        written.len(),
    ));
    assert(8 * bytes.len() == written.len() + padding(written.len()));
}

/// The number of binary digits of `q`: one more than its base-2 logarithm
/// when `q > 0`.
pub open spec fn bit_length(q: nat) -> nat
    decreases q,
{
    if q == 0 {
        0
    } else {
        1 + bit_length(q / 2)
    }
}

/// A number below `2^k` has at most `k` binary digits.
proof fn lemma_bit_length_bound(q: nat, k: nat)
    requires
        q < pow2(k),
    ensures
        bit_length(q) <= k,
    decreases q,
{
    if q > 0 {
        assert(k > 0) by {
            if k == 0 {
                lemma2_to64();
            }
        }
        lemma_pow2_unfold(k);
        lemma_bit_length_bound(q / 2, (k - 1) as nat);
    }
}

/// The greatest row at which a range block of `m` starts.
pub open spec fn is_max_row(m: Map<RangeBlockLocation, Transformation>, v: usize) -> bool {
    &&& exists|k: RangeBlockLocation| m.dom().contains(k) && k.pos.0 == v
    &&& forall|k: RangeBlockLocation| m.dom().contains(k) ==> k.pos.0 <= v
}

/// The greatest column at which a range block of `m` starts.
pub open spec fn is_max_col(m: Map<RangeBlockLocation, Transformation>, v: usize) -> bool {
    &&& exists|k: RangeBlockLocation| m.dom().contains(k) && k.pos.1 == v
    &&& forall|k: RangeBlockLocation| m.dom().contains(k) ==> k.pos.1 <= v
}

/// The greatest row at which a range block of `m` starts.
pub open spec fn max_row(m: Map<RangeBlockLocation, Transformation>) -> usize {
    choose|v: usize| is_max_row(m, v)
}

/// The greatest column at which a range block of `m` starts.
pub open spec fn max_col(m: Map<RangeBlockLocation, Transformation>) -> usize {
    choose|v: usize| is_max_col(m, v)
}

/// The image height that `save_mappings` stores: one block below the last
/// block row.
pub open spec fn naive_height(m: Map<RangeBlockLocation, Transformation>, s: NaiveCompressionSettings) -> nat {
    (s.range_block_size + max_row(m)) as nat
}

/// The image width that `save_mappings` stores: one block beyond the last
/// block column.
pub open spec fn naive_width(m: Map<RangeBlockLocation, Transformation>, s: NaiveCompressionSettings) -> nat {
    (s.range_block_size + max_col(m)) as nat
}

/// The number of bits that `save_mappings` uses for each domain block
/// coordinate: the binary digits of the larger side.
pub open spec fn naive_coord_bits(
    m: Map<RangeBlockLocation, Transformation>,
    s: NaiveCompressionSettings,
) -> nat {
    let h = naive_height(m, s);
    let w = naive_width(m, s);
    bit_length(
        if h >= w {
            h
        } else {
            w
        },
    )
}

/// The range blocks whose transformations `save_mappings` stores, row by row.
pub open spec fn naive_blocks(
    m: Map<RangeBlockLocation, Transformation>,
    s: NaiveCompressionSettings,
) -> Seq<RangeBlockLocation> {
    grid_blocks(
        naive_height(m, s) / (s.range_block_size as nat),
        naive_width(m, s) / (s.range_block_size as nat),
        s.range_block_size,
    )
}

/// The bits that store one transformation on the fixed grid: the domain
/// block position in steps, on `cb` bits each, the flip bit, the rotation,
/// then contrast and brightness.
pub open spec fn naive_transformation_bits(
    t: Transformation,
    s: NaiveCompressionSettings,
    cb: nat,
) -> Seq<bool> {
    nat_bits((t.0.pos.0 / s.domain_block_stepy) as nat, cb) + nat_bits(
        (t.0.pos.1 / s.domain_block_stepx) as nat,
        cb,
    ) + seq![t.0.flipped] + rotation_bits(t.0.rotation) + float_bits(t.1) + float_bits(t.2)
}

/// The bits that store the transformations of the given blocks, in order.
pub open spec fn naive_transformations_bits(
    m: Map<RangeBlockLocation, Transformation>,
    s: NaiveCompressionSettings,
    cb: nat,
    blocks: Seq<RangeBlockLocation>,
) -> Seq<bool>
    decreases blocks.len(),
{
    if blocks.len() == 0 {
        Seq::empty()
    } else {
        naive_transformations_bits(m, s, cb, blocks.drop_last()) + naive_transformation_bits(
            m[blocks.last()],
            s,
            cb,
        )
    }
}

/// The bits that `save_mappings` writes before completing the last byte: the
/// settings, the coordinate width, the grid size, then the transformation of
/// each grid block row by row.
pub open spec fn naive_file_bits(
    m: Map<RangeBlockLocation, Transformation>,
    s: NaiveCompressionSettings,
) -> Seq<bool> {
    let rbs = s.range_block_size as nat;
    let cb = naive_coord_bits(m, s);
    nat_bits(rbs, 32) + nat_bits(s.domain_block_size as nat, 32) + nat_bits(
        s.domain_block_stepx as nat,
        32,
    ) + nat_bits(s.domain_block_stepy as nat, 32) + nat_bits(cb, 15) + nat_bits(
        naive_height(m, s) / rbs,
        32,
    ) + nat_bits(naive_width(m, s) / rbs, 32) + naive_transformations_bits(
        m,
        s,
        cb,
        naive_blocks(m, s),
    )
}

/// What `save_mappings` needs to store its input: at least one range block,
/// non-zero sizes and steps, settings and sizes that fit their fields, a
/// transformation for every block of the grid, and domain block positions
/// that fit the coordinate width.
pub open spec fn naive_saveable(
    m: Map<RangeBlockLocation, Transformation>,
    s: NaiveCompressionSettings,
) -> bool {
    let rbs = s.range_block_size as nat;
    let cb = naive_coord_bits(m, s);
    let blocks = naive_blocks(m, s);
    &&& exists|k: RangeBlockLocation| m.dom().contains(k)
    &&& rbs > 0
    &&& s.domain_block_stepx > 0
    &&& s.domain_block_stepy > 0
    &&& naive_height(m, s) <= usize::MAX
    &&& naive_width(m, s) <= usize::MAX
    &&& 32 < usize::BITS
    &&& rbs + 1 < 0x1_0000_0000
    &&& s.domain_block_size + 1 < 0x1_0000_0000
    &&& s.domain_block_stepx + 1 < 0x1_0000_0000
    &&& s.domain_block_stepy + 1 < 0x1_0000_0000
    &&& cb < usize::BITS
    &&& naive_height(m, s) / rbs + 1 < 0x1_0000_0000
    &&& naive_width(m, s) / rbs + 1 < 0x1_0000_0000
    &&& forall|k: int|
        0 <= k < blocks.len() ==> {
            &&& m.dom().contains(#[trigger] blocks[k])
            &&& m[blocks[k]].0.pos.0 / s.domain_block_stepy + 1 < pow2(cb)
            &&& m[blocks[k]].0.pos.1 / s.domain_block_stepx + 1 < pow2(cb)
        }
}

/// The number of bits of one stored transformation on the fixed grid.
pub open spec fn naive_record_len(cb: nat) -> nat {
    2 * cb + 67
}

/// The transformation that `load_mappings` decodes from the bits that store
/// it: the position is taken as stored, in steps, not multiplied back.
pub open spec fn decoded_naive_transformation(bits: Seq<bool>, dbs: usize, cb: nat) -> Transformation {
    let c = cb as int;
    (
        DomainBlockLocation {
            size: (dbs, dbs),
            flipped: bits[2 * c],
            rotation: rotation_of_bits(bits[2 * c + 1], bits[2 * c + 2]),
            pos: (le_value(bits.subrange(0, c)) as usize, le_value(bits.subrange(c, 2 * c)) as usize),
        },
        float_of_bits(bits.subrange(2 * c + 3, 2 * c + 35)),
        float_of_bits(bits.subrange(2 * c + 35, 2 * c + 67)),
    )
}

/// The map that `load_mappings` decodes from `bits` for the given blocks,
/// each taking the next record, a later block replacing an earlier equal
/// one.
pub open spec fn decoded_naive_transformations(
    bits: Seq<bool>,
    blocks: Seq<RangeBlockLocation>,
    dbs: usize,
    cb: nat,
) -> Map<RangeBlockLocation, Transformation>
    decreases blocks.len(),
{
    if blocks.len() == 0 {
        Map::empty()
    } else {
        let k = blocks.len() - 1;
        let l = naive_record_len(cb);
        decoded_naive_transformations(bits, blocks.drop_last(), dbs, cb).insert(
            blocks.last(),
            decoded_naive_transformation(bits.subrange(l * k, l * k + l), dbs, cb),
        )
    }
}

/// The settings, grid size and coordinate width that head a stored file.
pub open spec fn naive_header(bits: Seq<bool>) -> (NaiveCompressionSettings, nat, nat) {
    (
        NaiveCompressionSettings {
            range_block_size: le_value(bits.subrange(0, 32)) as usize,
            domain_block_size: le_value(bits.subrange(32, 64)) as usize,
            domain_block_stepx: le_value(bits.subrange(64, 96)) as usize,
            domain_block_stepy: le_value(bits.subrange(96, 128)) as usize,
            coord_bits: le_value(bits.subrange(128, 143)) as usize,
        },
        le_value(bits.subrange(143, 175)),
        le_value(bits.subrange(175, 207)),
    )
}

/// The stored bits that `load_mappings` can read without dividing by zero
/// or shifting past the width of `usize`: a complete header names a
/// non-zero block size, and a coordinate width within `usize` when the grid
/// has a block.
pub open spec fn naive_loadable(bits: Seq<bool>) -> bool {
    let (s, hn, wn) = naive_header(bits);
    bits.len() >= 207 ==> {
        &&& s.range_block_size > 0
        &&& hn * wn > 0 ==> s.coord_bits <= usize::BITS
    }
}

/// What `load_mappings` makes of the bits of a stored file: the settings,
/// the image size (a whole number of blocks), and the transformation of each
/// grid block; or nothing when the bits run out.
pub open spec fn parse_naive_file(bits: Seq<bool>) -> Option<
    (NaiveCompressionSettings, (usize, usize), Map<RangeBlockLocation, Transformation>),
> {
    if bits.len() < 207 {
        None
    } else {
        let (s, hn, wn) = naive_header(bits);
        let rbs = s.range_block_size;
        let cb = s.coord_bits as nat;
        let blocks = grid_blocks(hn, wn, rbs);
        let rest = bits.subrange(207, bits.len() as int);
        if rest.len() < blocks.len() * naive_record_len(cb) {
            None
        } else {
            Some(
                (
                    s,
                    ((hn * rbs) as usize, (wn * rbs) as usize),
                    decoded_naive_transformations(rest, blocks, s.domain_block_size, cb),
                ),
            )
        }
    }
}

/// A maximum, when it exists, is the maximum.
proof fn lemma_max_corner_unique(m: Map<RangeBlockLocation, Transformation>, r: usize, c: usize)
    requires
        is_max_row(m, r),
        is_max_col(m, c),
    ensures
        max_row(m) == r,
        max_col(m) == c,
{
    let r2 = max_row(m);
    let c2 = max_col(m);
    let kr = choose|k: RangeBlockLocation| m.dom().contains(k) && k.pos.0 == r;
    let kr2 = choose|k: RangeBlockLocation| m.dom().contains(k) && k.pos.0 == r2;
    let kc = choose|k: RangeBlockLocation| m.dom().contains(k) && k.pos.1 == c;
    let kc2 = choose|k: RangeBlockLocation| m.dom().contains(k) && k.pos.1 == c2;
    assert(r2 >= r && r2 <= r);
    assert(c2 >= c && c2 <= c);
}

/// The greatest row and the greatest column at which the range blocks of
/// the entries start.
fn max_corner(entries: &Vec<(RangeBlockLocation, Transformation)>) -> (r: (usize, usize))
    requires
        entries@.len() > 0,
    ensures
        is_max_row(map_of_entries(entries@), r.0),
        is_max_col(map_of_entries(entries@), r.1),
{
    let ghost m = map_of_entries(entries@);
    let mut mr = entries[0].0.pos.0;
    let mut mc = entries[0].0.pos.1;
    let ghost mut ir: int = 0;
    let ghost mut ic: int = 0;
    let mut i: usize = 1;
    while i < entries.len()
        invariant
            1 <= i <= entries@.len(),
            0 <= ir < i,
            0 <= ic < i,
            entries@[ir].0.pos.0 == mr,
            entries@[ic].0.pos.1 == mc,
            forall|j: int| 0 <= j < i ==> entries@[j].0.pos.0 <= mr,
            forall|j: int| 0 <= j < i ==> entries@[j].0.pos.1 <= mc,
        decreases entries@.len() - i,
    {
        if entries[i].0.pos.0 > mr {
            mr = entries[i].0.pos.0;
            proof {
                ir = i as int;
            }
        }
        if entries[i].0.pos.1 > mc {
            mc = entries[i].0.pos.1;
            proof {
                ic = i as int;
            }
        }
        i = i + 1;
    }
    proof {
        lemma_map_of_entries_dom(entries@, entries@[ir].0);
        lemma_map_of_entries_dom(entries@, entries@[ic].0);
        assert forall|k: RangeBlockLocation| m.dom().contains(k) implies k.pos.0 <= mr && k.pos.1
            <= mc by {
            lemma_map_of_entries_dom(entries@, k);
        }
    }
    (mr, mc)
}

/// The number of binary digits of `q`.
fn bit_length_of(q: usize) -> (r: usize)
    ensures
        r == bit_length(q as nat),
{
    let mut x = q;
    let mut c: usize = 0;
    proof {
        lemma_usize_pow2_no_overflow((usize::BITS - 1) as nat);
        lemma_pow2_unfold(usize::BITS as nat);
        assert(pow2(usize::BITS as nat) == usize::MAX + 1) by {
            lemma2_to64();
            lemma2_to64_rest();
        }
        lemma_bit_length_bound(q as nat, usize::BITS as nat);
    }
    while x > 0
        invariant
            c + bit_length(x as nat) == bit_length(q as nat),
            bit_length(q as nat) <= usize::BITS,
        decreases x,
    {
        x = x / 2;
        c = c + 1;
    }
    c
}

/// The bits of `n` stored transformations number `n` records.
proof fn lemma_naive_transformations_bits_len(
    m: Map<RangeBlockLocation, Transformation>,
    s: NaiveCompressionSettings,
    cb: nat,
    blocks: Seq<RangeBlockLocation>,
)
    ensures
        naive_transformations_bits(m, s, cb, blocks).len() == blocks.len() * naive_record_len(cb),
    decreases blocks.len(),
{
    if blocks.len() > 0 {
        lemma_naive_transformations_bits_len(m, s, cb, blocks.drop_last());
        lemma_mul_is_distributive_add_other_way(
            naive_record_len(cb) as int,
            blocks.len() - 1,
            1,
        );
    }
}

/// Stores the settings, the coordinate width, the grid size, then the
/// transformation of each block of the grid row by row; gives back the
/// bytes and the number of bits written.
#[verifier::rlimit(50)]
pub fn save_mappings(m: &Mappings, s: NaiveCompressionSettings) -> (r: (Vec<u8>, usize))
    requires
        naive_saveable(m@, s),
        naive_file_bits(m@, s).len() <= usize::MAX,
    ensures
        bytes_bits(r.0@) == naive_file_bits(m@, s) + zeros(padding(naive_file_bits(m@, s).len())),
        r.1 == naive_file_bits(m@, s).len(),
{
    proof {
        use_type_invariant(m);
    }
    let ghost mv = m@;
    let ghost total = naive_file_bits(mv, s);
    let ghost blocks = naive_blocks(mv, s);
    let mut writer = BinBufWriter::new();
    let entries = m.entries();
    proof {
        let k = choose|k: RangeBlockLocation| mv.dom().contains(k);
        lemma_map_of_entries_dom(entries@, k);
    }
    let (mr, mc) = max_corner(&entries);
    proof {
        lemma_max_corner_unique(mv, mr, mc);
        lemma2_to64();
    }
    let rbs = s.range_block_size;
    let h = rbs + mr;
    let w = rbs + mc;
    writer.write_int(rbs, 32);
    writer.write_int(s.domain_block_size, 32);
    writer.write_int(s.domain_block_stepx, 32);
    writer.write_int(s.domain_block_stepy, 32);
    let q = if h >= w {
        h
    } else {
        w
    };
    let coord_bits = bit_length_of(q);
    let ghost cb = coord_bits as nat;
    proof {
        assert(cb == naive_coord_bits(mv, s));
        lemma_u64_pow2_no_overflow(cb);
        lemma2_to64_rest();
        lemma_bit_length_bound(q as nat, 64);
    }
    writer.write_int(coord_bits, 15);
    let hn = h / rbs;
    let wn = w / rbs;
    writer.write_int(hn, 32);
    writer.write_int(wn, 32);
    let ghost head = writer.bits();
    proof {
        lemma_naive_transformations_bits_len(mv, s, cb, blocks);
        assert(total == head + naive_transformations_bits(mv, s, cb, blocks));
        assert(blocks =~= grid_blocks(hn as nat, wn as nat, rbs));
    }
    let mut i: usize = 0;
    while i < hn
        invariant
            writer.wf(),
            m.wf(),
            mv == m@,
            naive_saveable(mv, s),
            rbs == s.range_block_size,
            rbs > 0,
            hn == h / rbs,
            wn == w / rbs,
            h == naive_height(mv, s),
            w == naive_width(mv, s),
            cb == coord_bits,
            cb == naive_coord_bits(mv, s),
            blocks == naive_blocks(mv, s),
            blocks == grid_blocks(hn as nat, wn as nat, rbs),
            total == head + naive_transformations_bits(mv, s, cb, blocks),
            total.len() <= usize::MAX,
            naive_transformations_bits(mv, s, cb, blocks).len() == blocks.len() * naive_record_len(
                cb,
            ),
            i <= hn,
            i * wn <= hn * wn,
            writer.bits() == head + naive_transformations_bits(
                mv,
                s,
                cb,
                blocks.subrange(0, i * wn),
            ),
            writer.written() == writer.bits().len(),
        decreases hn - i,
    {
        proof {
            lemma_block_start_fits(i as nat, h as nat, rbs as nat);
        }
        let mut j: usize = 0;
        while j < wn
            invariant
                writer.wf(),
                m.wf(),
                mv == m@,
                naive_saveable(mv, s),
                rbs == s.range_block_size,
                rbs > 0,
                hn == h / rbs,
                wn == w / rbs,
                h == naive_height(mv, s),
                w == naive_width(mv, s),
                cb == coord_bits,
                cb == naive_coord_bits(mv, s),
                blocks == naive_blocks(mv, s),
                blocks == grid_blocks(hn as nat, wn as nat, rbs),
                total == head + naive_transformations_bits(mv, s, cb, blocks),
                total.len() <= usize::MAX,
                naive_transformations_bits(mv, s, cb, blocks).len() == blocks.len()
                    * naive_record_len(cb),
                i < hn,
                j <= wn,
                i * rbs + rbs <= h,
                writer.bits() == head + naive_transformations_bits(
                    mv,
                    s,
                    cb,
                    blocks.subrange(0, i * wn + j),
                ),
                writer.written() == writer.bits().len(),
            decreases wn - j,
        {
            let ghost k = i * wn + j;
            proof {
                lemma_block_start_fits(j as nat, w as nat, rbs as nat);
                lemma_flat_index(i as int, j as int, wn as int);
                lemma_mul_inequality(i as int + 1, hn as int, wn as int);
                lemma_mul_is_distributive_add_other_way(wn as int, i as int, 1);
                lemma_naive_transformations_bits_len(mv, s, cb, blocks.subrange(0, k + 1));
                lemma_mul_inequality(k + 1, blocks.len() as int, naive_record_len(cb) as int);
                assert(blocks.subrange(0, k + 1).drop_last() =~= blocks.subrange(0, k));
            }
            let rb = RangeBlockLocation { pos: (i * rbs, j * rbs), size: (rbs, rbs) };
            assert(rb == blocks[k]);
            let t = *m.get(&rb).unwrap();
            proof {
                lemma2_to64();
                assert(naive_transformations_bits(mv, s, cb, blocks.subrange(0, k + 1))
                    == naive_transformations_bits(mv, s, cb, blocks.subrange(0, k))
                    + naive_transformation_bits(t, s, cb));
            }
            let ghost b0 = writer.bits();
            writer.write_int(t.0.pos.0 / s.domain_block_stepy, coord_bits);
            writer.write_int(t.0.pos.1 / s.domain_block_stepx, coord_bits);
            writer.add_bit(t.0.flipped);
            writer.write_rotation(t.0.rotation);
            writer.write_float(t.1);
            writer.write_float(t.2);
            assert(writer.bits() =~= b0 + naive_transformation_bits(t, s, cb));
            assert(writer.bits() =~= head + naive_transformations_bits(
                mv,
                s,
                cb,
                blocks.subrange(0, k + 1),
            ));
            j = j + 1;
        }
        proof {
            lemma_mul_is_distributive_add_other_way(wn as int, i as int, 1);
            lemma_mul_inequality(i as int + 1, hn as int, wn as int);
        }
        i = i + 1;
    }
    assert(blocks.subrange(0, i * wn) =~= blocks);
    let n = writer.size_written();
    (writer.finish(), n)
}

/// Reads the settings and the grid size that head a stored file.
fn read_naive_header(reader: &mut BinBufReader) -> (res: Result<
    (NaiveCompressionSettings, usize, usize),
    StreamError,
>)
    requires
        old(reader).wf(),
        32 <= usize::BITS,
    ensures
        final(reader).wf(),
        res is Ok <==> old(reader).remaining().len() >= 207,
        res matches Ok((s, hn, wn)) ==> (s, hn as nat, wn as nat) == naive_header(
            old(reader).remaining(),
        ) && final(reader).remaining() == old(reader).remaining().subrange(
            207,
            old(reader).remaining().len() as int,
        ),
{
    let ghost bits = reader.remaining();
    let mut s = NaiveCompressionSettings::default();
    s.range_block_size = reader.read_int(32)?;
    let ghost r1 = reader.remaining();
    s.domain_block_size = reader.read_int(32)?;
    let ghost r2 = reader.remaining();
    s.domain_block_stepx = reader.read_int(32)?;
    let ghost r3 = reader.remaining();
    s.domain_block_stepy = reader.read_int(32)?;
    let ghost r4 = reader.remaining();
    s.coord_bits = reader.read_int(15)?;
    let ghost r5 = reader.remaining();
    let hn = reader.read_int(32)?;
    let ghost r6 = reader.remaining();
    let wn = reader.read_int(32)?;
    proof {
        assert(r1 =~= bits.subrange(32, bits.len() as int));
        assert(r2 =~= bits.subrange(64, bits.len() as int));
        assert(r3 =~= bits.subrange(96, bits.len() as int));
        assert(r4 =~= bits.subrange(128, bits.len() as int));
        assert(r5 =~= bits.subrange(143, bits.len() as int));
        assert(r6 =~= bits.subrange(175, bits.len() as int));
        assert(reader.remaining() =~= bits.subrange(207, bits.len() as int));
        assert(r1.subrange(0, 32) =~= bits.subrange(32, 64));
        assert(r2.subrange(0, 32) =~= bits.subrange(64, 96));
        assert(r3.subrange(0, 32) =~= bits.subrange(96, 128));
        assert(r4.subrange(0, 15) =~= bits.subrange(128, 143));
        assert(r5.subrange(0, 32) =~= bits.subrange(143, 175));
        assert(r6.subrange(0, 32) =~= bits.subrange(175, 207));
    }
    Ok((s, hn, wn))
}

/// Whether `save_mappings` can store `m` with the settings `s`: the
/// mappings and settings meet what the format needs, and the stored bits
/// can be counted in a `usize`.
pub fn can_save(m: &Mappings, s: NaiveCompressionSettings) -> (r: bool)
    ensures
        r == (naive_saveable(m@, s) && naive_file_bits(m@, s).len() <= usize::MAX),
{
    proof {
        use_type_invariant(m);
    }
    let ghost mv = m@;
    let entries = m.entries();
    if entries.len() == 0 {
        proof {
            assert forall|k: RangeBlockLocation| !mv.dom().contains(k) by {
                lemma_map_of_entries_dom(entries@, k);
            }
        }
        return false;
    }
    proof {
        lemma_map_of_entries_dom(entries@, entries@[0].0);
    }
    let (mr, mc) = max_corner(&entries);
    proof {
        lemma_max_corner_unique(mv, mr, mc);
        lemma2_to64();
    }
    let rbs = s.range_block_size;
    if rbs == 0 || s.domain_block_stepx == 0 || s.domain_block_stepy == 0 || usize::BITS <= 32 {
        return false;
    }
    if rbs >= 0xFFFF_FFFF || s.domain_block_size >= 0xFFFF_FFFF || s.domain_block_stepx
        >= 0xFFFF_FFFF || s.domain_block_stepy >= 0xFFFF_FFFF {
        return false;
    }
    let h = match rbs.checked_add(mr) {
        Some(v) => v,
        None => {
            return false;
        },
    };
    let w = match rbs.checked_add(mc) {
        Some(v) => v,
        None => {
            return false;
        },
    };
    let q = if h >= w {
        h
    } else {
        w
    };
    let cb = bit_length_of(q);
    let ghost blocks = naive_blocks(mv, s);
    if cb >= 64 {
        return false;
    }
    let hn = h / rbs;
    let wn = w / rbs;
    if hn >= 0xFFFF_FFFF || wn >= 0xFFFF_FFFF {
        return false;
    }
    proof {
        lemma_naive_transformations_bits_len(mv, s, cb as nat, blocks);
        assert(blocks =~= grid_blocks(hn as nat, wn as nat, rbs));
        assert(naive_file_bits(mv, s).len() == 207 + (hn * wn) * naive_record_len(cb as nat));
    }
    let count = match hn.checked_mul(wn) {
        Some(v) => v,
        None => {
            proof {
                lemma_mul_nonnegative((hn * wn) as int, naive_record_len(cb as nat) as int);
                lemma_mul_inequality(1, naive_record_len(cb as nat) as int, (hn * wn) as int);
                lemma_mul_is_commutative((hn * wn) as int, naive_record_len(cb as nat) as int);
            }
            return false;
        },
    };
    let body = match count.checked_mul(2 * cb + 67) {
        Some(v) => v,
        None => {
            return false;
        },
    };
    if body > usize::MAX - 207 {
        return false;
    }
    proof {
        lemma_usize_pow2_no_overflow(cb as nat);
        lemma_usize_shl_is_mul(1, cb);
    }
    let limit: usize = 1usize << cb;
    let mut i: usize = 0;
    while i < hn
        invariant
            m.wf(),
            mv == m@,
            rbs == s.range_block_size,
            rbs > 0,
            s.domain_block_stepx > 0,
            s.domain_block_stepy > 0,
            hn == h / rbs,
            wn == w / rbs,
            h == naive_height(mv, s),
            w == naive_width(mv, s),
            cb == naive_coord_bits(mv, s),
            limit == pow2(cb as nat),
            limit > 0,
            blocks == naive_blocks(mv, s),
            blocks == grid_blocks(hn as nat, wn as nat, rbs),
            i <= hn,
            forall|k: int|
                0 <= k < i * wn ==> {
                    &&& mv.dom().contains(#[trigger] blocks[k])
                    &&& mv[blocks[k]].0.pos.0 / s.domain_block_stepy + 1 < pow2(cb as nat)
                    &&& mv[blocks[k]].0.pos.1 / s.domain_block_stepx + 1 < pow2(cb as nat)
                },
        decreases hn - i,
    {
        proof {
            lemma_block_start_fits(i as nat, h as nat, rbs as nat);
        }
        let mut j: usize = 0;
        while j < wn
            invariant
                m.wf(),
                mv == m@,
                rbs == s.range_block_size,
                rbs > 0,
                s.domain_block_stepx > 0,
                s.domain_block_stepy > 0,
                hn == h / rbs,
                wn == w / rbs,
                limit == pow2(cb as nat),
                limit > 0,
                cb == naive_coord_bits(mv, s),
                blocks == naive_blocks(mv, s),
                blocks == grid_blocks(hn as nat, wn as nat, rbs),
                i < hn,
                i * rbs + rbs <= h,
                j <= wn,
                forall|k: int|
                    0 <= k < i * wn + j ==> {
                        &&& mv.dom().contains(#[trigger] blocks[k])
                        &&& mv[blocks[k]].0.pos.0 / s.domain_block_stepy + 1 < pow2(cb as nat)
                        &&& mv[blocks[k]].0.pos.1 / s.domain_block_stepx + 1 < pow2(cb as nat)
                    },
            decreases wn - j,
        {
            proof {
                lemma_block_start_fits(j as nat, w as nat, rbs as nat);
                lemma_flat_index(i as int, j as int, wn as int);
                lemma_mul_inequality(i as int + 1, hn as int, wn as int);
                lemma_mul_is_distributive_add_other_way(wn as int, i as int, 1);
            }
            let rb = RangeBlockLocation { pos: (i * rbs, j * rbs), size: (rbs, rbs) };
            let ghost k = i * wn + j;
            assert(blocks[k] == rb);
            assert(0 <= k < blocks.len());
            match m.get(&rb) {
                None => {
                    assert(!mv.dom().contains(blocks[k]));
                    return false;
                },
                Some(t) => {
                    if t.0.pos.0 / s.domain_block_stepy >= limit - 1 || t.0.pos.1
                        / s.domain_block_stepx >= limit - 1 {
                        assert(mv[blocks[k]] == *t);
                        return false;
                    }
                },
            }
            j = j + 1;
        }
        proof {
            lemma_mul_is_distributive_add_other_way(wn as int, i as int, 1);
        }
        i = i + 1;
    }
    true
}

/// Whether `load_mappings` can read `file`: its header, when complete,
/// names a non-zero block size, and a coordinate width within `usize` when
/// the grid has a block.
pub fn naive_file_loadable(file: &Vec<u8>) -> (r: bool)
    requires
        usize::BITS == 64,
    ensures
        r == naive_loadable(bytes_bits(file@)),
{
    let copy = file.clone();
    assert(copy@ =~= file@);
    let mut reader = BinBufReader::new(copy);
    match read_naive_header(&mut reader) {
        Err(_) => true,
        Ok((s, hn, wn)) => {
            proof {
                let bits = bytes_bits(file@);
                assert(bits.len() >= 207);
                assert(naive_header(bits) == (s, hn as nat, wn as nat));
                if hn > 0 && wn > 0 {
                    vstd::arithmetic::mul::lemma_mul_strictly_positive(hn as int, wn as int);
                }
            }
            s.range_block_size > 0 && (hn == 0 || wn == 0 || s.coord_bits <= 64)
        },
    }
}

/// Reads one stored transformation on the fixed grid.
#[verifier::rlimit(100)]
#[verifier::spinoff_prover]
fn read_naive_transformation(reader: &mut BinBufReader, dbs: usize, coord_bits: usize) -> (res:
    Result<Transformation, StreamError>)
    requires
        old(reader).wf(),
        coord_bits <= usize::BITS,
    ensures
        final(reader).wf(),
        res is Ok <==> old(reader).remaining().len() >= naive_record_len(coord_bits as nat),
        res matches Ok(t) ==> t == decoded_naive_transformation(
            old(reader).remaining().subrange(0, naive_record_len(coord_bits as nat) as int),
            dbs,
            coord_bits as nat,
        ) && final(reader).remaining() == old(reader).remaining().subrange(
            naive_record_len(coord_bits as nat) as int,
            old(reader).remaining().len() as int,
        ),
{
    let ghost q0 = reader.remaining();
    let ghost cbi = coord_bits as int;
    let ghost chunk = q0.subrange(0, 2 * cbi + 67);
    let py = reader.read_int(coord_bits)?;
    let ghost q1 = reader.remaining();
    let px = reader.read_int(coord_bits)?;
    let ghost q2 = reader.remaining();
    let flipped = reader.read_bit()?;
    let ghost q3 = reader.remaining();
    let rotation = reader.read_rotation()?;
    let ghost q4 = reader.remaining();
    let c = reader.read_float()?;
    let ghost q5 = reader.remaining();
    let b = reader.read_float()?;
    proof {
        assert(q1 =~= q0.subrange(cbi, q0.len() as int));
        assert(q2 =~= q0.subrange(2 * cbi, q0.len() as int));
        assert(q3 =~= q0.subrange(2 * cbi + 1, q0.len() as int));
        assert(q4 =~= q0.subrange(2 * cbi + 3, q0.len() as int));
        assert(q5 =~= q0.subrange(2 * cbi + 35, q0.len() as int));
        assert(reader.remaining() =~= q0.subrange(2 * cbi + 67, q0.len() as int));
        assert(q0.subrange(0, cbi) =~= chunk.subrange(0, cbi));
        assert(q1.subrange(0, cbi) =~= chunk.subrange(cbi, 2 * cbi));
        assert(q2[0] == chunk[2 * cbi]);
        assert(q3[0] == chunk[2 * cbi + 1]);
        assert(q3[1] == chunk[2 * cbi + 2]);
        assert(q4.subrange(0, 32) =~= chunk.subrange(2 * cbi + 3, 2 * cbi + 35));
        assert(q5.subrange(0, 32) =~= chunk.subrange(2 * cbi + 35, 2 * cbi + 67));
    }
    Ok(
        (
            DomainBlockLocation { size: (dbs, dbs), flipped, rotation, pos: (py, px) },
            c,
            b,
        ),
    )
}

/// Reads back what `save_mappings` stored: the settings with the coordinate
/// width, the image size as a whole number of blocks, and the transformation
/// of each block of the grid. Domain block positions come back as stored,
/// in steps of the grid, not multiplied back by the steps.
#[verifier::rlimit(60)]
#[verifier::spinoff_prover]
pub fn load_mappings(file: Vec<u8>) -> (res: Result<
    (NaiveCompressionSettings, (usize, usize), Mappings),
    StreamError,
>)
    requires
        usize::BITS == 64,
        naive_loadable(bytes_bits(file@)),
    ensures
        match parse_naive_file(bytes_bits(file@)) {
            None => res is Err,
            Some((s, hw, m)) => res matches Ok((s2, hw2, m2)) && s2 == s && hw2 == hw && m2@ == m
                && m2.wf(),
        },
{
    let ghost fbits = bytes_bits(file@);
    let mut reader = BinBufReader::new(file);
    let ghost bits = reader.remaining();
    let (s, hn_read, wn_read) = read_naive_header(&mut reader)?;
    let ghost rest = reader.remaining();
    let rbs = s.range_block_size;
    proof {
        lemma_le_value_bound(bits.subrange(0, 32));
        lemma_le_value_bound(bits.subrange(143, 175));
        lemma_le_value_bound(bits.subrange(175, 207));
        lemma2_to64();
        lemma2_to64_rest();
        assert(hn_read * rbs < 0x1_0000_0000_0000_0000) by (nonlinear_arith)
            requires
                hn_read < 0x1_0000_0000,
                rbs < 0x1_0000_0000,
        ;
        assert(wn_read * rbs < 0x1_0000_0000_0000_0000) by (nonlinear_arith)
            requires
                wn_read < 0x1_0000_0000,
                rbs < 0x1_0000_0000,
        ;
    }
    let h = hn_read * rbs;
    let w = wn_read * rbs;
    proof {
        lemma_div_by_multiple(hn_read as int, rbs as int);
        lemma_div_by_multiple(wn_read as int, rbs as int);
    }
    let hn = h / rbs;
    let wn = w / rbs;
    let ghost cb = s.coord_bits as nat;
    let ghost l = naive_record_len(cb);
    let ghost blocks = grid_blocks(hn as nat, wn as nat, rbs);
    let ghost parsed = parse_naive_file(fbits);
    assert(parsed == (if rest.len() < blocks.len() * l {
        None
    } else {
        Some((s, (h, w), decoded_naive_transformations(rest, blocks, s.domain_block_size, cb)))
    }));
    let mut mappings = Mappings::new();
    proof {
        assert(rest.subrange(0, rest.len() as int) =~= rest);
        assert(blocks.subrange(0, 0) =~= Seq::<RangeBlockLocation>::empty());
        lemma_mul_basics(wn as int);
        lemma_mul_basics(l as int);
        assert(l * (0 * wn) == 0);
    }
    let mut i: usize = 0;
    while i < hn
        invariant
            reader.wf(),
            mappings.wf(),
            parsed == parse_naive_file(fbits),
            fbits == bytes_bits(file@),
            parsed == (if rest.len() < blocks.len() * l {
                None
            } else {
                Some(
                    (s, (h, w), decoded_naive_transformations(rest, blocks, s.domain_block_size, cb)),
                )
            }),
            rbs == s.range_block_size,
            rbs > 0,
            hn == h / rbs,
            wn == w / rbs,
            cb == s.coord_bits,
            l == naive_record_len(cb),
            hn * wn > 0 ==> cb <= usize::BITS,
            blocks == grid_blocks(hn as nat, wn as nat, rbs),
            i <= hn,
            i * wn <= hn * wn,
            l * (i * wn) <= rest.len(),
            reader.remaining() == rest.subrange(l * (i * wn), rest.len() as int),
            mappings@ == decoded_naive_transformations(
                rest,
                blocks.subrange(0, i * wn),
                s.domain_block_size,
                cb,
            ),
        decreases hn - i,
    {
        proof {
            lemma_block_start_fits(i as nat, h as nat, rbs as nat);
        }
        let mut j: usize = 0;
        while j < wn
            invariant
                reader.wf(),
                mappings.wf(),
                parsed == parse_naive_file(fbits),
                fbits == bytes_bits(file@),
                parsed == (if rest.len() < blocks.len() * l {
                    None
                } else {
                    Some(
                        (
                            s,
                            (h, w),
                            decoded_naive_transformations(rest, blocks, s.domain_block_size, cb),
                        ),
                    )
                }),
                rbs == s.range_block_size,
                rbs > 0,
                hn == h / rbs,
                wn == w / rbs,
                cb == s.coord_bits,
                l == naive_record_len(cb),
                hn * wn > 0 ==> cb <= usize::BITS,
                blocks == grid_blocks(hn as nat, wn as nat, rbs),
                i < hn,
                j <= wn,
                i * rbs + rbs <= h,
                l * (i * wn + j) <= rest.len(),
                reader.remaining() == rest.subrange(l * (i * wn + j), rest.len() as int),
                mappings@ == decoded_naive_transformations(
                    rest,
                    blocks.subrange(0, i * wn + j),
                    s.domain_block_size,
                    cb,
                ),
            decreases wn - j,
        {
            let ghost k = i * wn + j;
            proof {
                lemma_block_start_fits(j as nat, w as nat, rbs as nat);
                lemma_flat_index(i as int, j as int, wn as int);
                lemma_mul_inequality(i as int + 1, hn as int, wn as int);
                lemma_mul_is_distributive_add_other_way(wn as int, i as int, 1);
                lemma_mul_inequality(k + 1, blocks.len() as int, l as int);
                lemma_mul_is_distributive_add_other_way(l as int, k, 1);
                lemma_mul_is_commutative(l as int, k);
                lemma_mul_is_commutative(l as int, k + 1);
                lemma_mul_is_commutative(l as int, blocks.len() as int);
                assert(hn * wn > 0) by {
                    lemma_mul_strictly_positive(hn as int, wn as int);
                }
            }
            let ghost q0 = reader.remaining();
            let tr = match read_naive_transformation(&mut reader, s.domain_block_size, s.coord_bits) {
                Ok(t) => t,
                Err(e) => {
                    return Err(e);
                },
            };
            proof {
                assert(q0.subrange(0, l as int) =~= rest.subrange(l * k, l * k + l));
                assert(reader.remaining() =~= rest.subrange(l * (k + 1), rest.len() as int));
                assert(blocks.subrange(0, k + 1).drop_last() =~= blocks.subrange(0, k));
            }
            let rb = RangeBlockLocation { pos: (i * rbs, j * rbs), size: (rbs, rbs) };
            assert(rb == blocks[k]);
            mappings.insert(rb, tr);
            j = j + 1;
        }
        proof {
            lemma_mul_is_distributive_add_other_way(wn as int, i as int, 1);
            lemma_mul_inequality(i as int + 1, hn as int, wn as int);
        }
        i = i + 1;
    }
    assert(blocks.subrange(0, i * wn) =~= blocks);
    proof {
        lemma_mul_is_commutative(l as int, blocks.len() as int);
    }
    Ok((s, (h, w), mappings))
}

/// The transformation that `load_mappings` restores from the stored
/// transformation `t`: the domain block keeps its flip and rotation, takes
/// the stored domain block size, and its position comes back in steps of the
/// grid.
pub open spec fn stored_naive_transformation(t: Transformation, s: NaiveCompressionSettings) -> Transformation {
    (
        DomainBlockLocation {
            size: (s.domain_block_size, s.domain_block_size),
            flipped: t.0.flipped,
            rotation: t.0.rotation,
            pos: (t.0.pos.0 / s.domain_block_stepy, t.0.pos.1 / s.domain_block_stepx),
        },
        t.1,
        t.2,
    )
}

/// The map that `load_mappings` restores for the given blocks from the
/// transformations that `save_mappings` stored for them.
pub open spec fn restored_naive_transformations(
    m: Map<RangeBlockLocation, Transformation>,
    blocks: Seq<RangeBlockLocation>,
    s: NaiveCompressionSettings,
) -> Map<RangeBlockLocation, Transformation>
    decreases blocks.len(),
{
    if blocks.len() == 0 {
        Map::empty()
    } else {
        restored_naive_transformations(m, blocks.drop_last(), s).insert(
            blocks.last(),
            stored_naive_transformation(m[blocks.last()], s),
        )
    }
}

/// The stored transformations of a sequence of blocks decode to their
/// restored form, whatever bits follow them.
#[verifier::spinoff_prover]
#[verifier::rlimit(50)]
proof fn lemma_decode_stored_naive(
    m: Map<RangeBlockLocation, Transformation>,
    s: NaiveCompressionSettings,
    cb: nat,
    blocks: Seq<RangeBlockLocation>,
    extra: Seq<bool>,
)
    requires
        s.domain_block_stepx > 0,
        s.domain_block_stepy > 0,
        forall|k: int|
            0 <= k < blocks.len() ==> m[#[trigger] blocks[k]].0.pos.0 / s.domain_block_stepy + 1
                < pow2(cb) && m[blocks[k]].0.pos.1 / s.domain_block_stepx + 1 < pow2(cb),
    ensures
        decoded_naive_transformations(
            naive_transformations_bits(m, s, cb, blocks) + extra,
            blocks,
            s.domain_block_size,
            cb,
        ) == restored_naive_transformations(m, blocks, s),
    decreases blocks.len(),
{
    if blocks.len() > 0 {
        let k = blocks.len() - 1;
        let b0 = blocks.drop_last();
        let x = blocks.last();
        let t = m[x];
        let tb = naive_transformation_bits(t, s, cb);
        let l = naive_record_len(cb);
        assert(blocks[k] == x);
        lemma_naive_transformations_bits_len(m, s, cb, b0);
        lemma_mul_is_commutative(l as int, k as int);
        let bits = naive_transformations_bits(m, s, cb, blocks) + extra;
        assert(bits =~= naive_transformations_bits(m, s, cb, b0) + (tb + extra));
        assert forall|j: int| 0 <= j < b0.len() implies m[#[trigger] b0[j]].0.pos.0
            / s.domain_block_stepy + 1 < pow2(cb) && m[b0[j]].0.pos.1 / s.domain_block_stepx + 1
            < pow2(cb) by {
            assert(b0[j] == blocks[j]);
        }
        lemma_decode_stored_naive(m, s, cb, b0, tb + extra);
        let chunk = bits.subrange(l * k, l * k + l);
        assert(chunk =~= tb);
        let c = cb as int;
        let p0 = (t.0.pos.0 / s.domain_block_stepy) as nat;
        let p1 = (t.0.pos.1 / s.domain_block_stepx) as nat;
        assert(chunk.subrange(0, c) =~= nat_bits(p0, cb));
        assert(chunk.subrange(c, 2 * c) =~= nat_bits(p1, cb));
        lemma_le_value_roundtrip(p0, cb);
        lemma_le_value_roundtrip(p1, cb);
        law_rotation_roundtrip(t.0.rotation, float_bits(t.1) + float_bits(t.2));
        assert(chunk[2 * c + 1] == rotation_bits(t.0.rotation)[0]);
        assert(chunk[2 * c + 2] == rotation_bits(t.0.rotation)[1]);
        law_float_roundtrip(t.1, float_bits(t.2));
        law_float_roundtrip(t.2, Seq::empty());
        assert(chunk.subrange(2 * c + 3, 2 * c + 35) =~= (float_bits(t.1) + float_bits(
            t.2,
        )).subrange(0, 32));
        assert(chunk.subrange(2 * c + 35, 2 * c + 67) =~= (float_bits(t.2) + Seq::<
            bool,
        >::empty()).subrange(0, 32));
        assert(decoded_naive_transformation(chunk, s.domain_block_size, cb)
            == stored_naive_transformation(t, s));
    }
}

/// A file stored on the fixed grid is read back whole: `load_mappings` can
/// read the bytes that `save_mappings` writes and finds in them the same
/// settings with the coordinate width, the image size rounded down to whole
/// blocks, and for each grid block its transformation as the format
/// restores it, whatever zero bits complete the last byte.
pub proof fn law_naive_file_roundtrip(
    m: Map<RangeBlockLocation, Transformation>,
    s: NaiveCompressionSettings,
    pad: nat,
)
    requires
        naive_saveable(m, s),
    ensures
        naive_loadable(naive_file_bits(m, s) + zeros(pad)),
        parse_naive_file(naive_file_bits(m, s) + zeros(pad)) == Some(
            (
                NaiveCompressionSettings { coord_bits: naive_coord_bits(m, s) as usize, ..s },
                (
                    (naive_height(m, s) / (s.range_block_size as nat) * s.range_block_size) as usize,
                    (naive_width(m, s) / (s.range_block_size as nat) * s.range_block_size) as usize,
                ),
                restored_naive_transformations(m, naive_blocks(m, s), s),
            ),
        ),
{
    let rbs = s.range_block_size as nat;
    let cb = naive_coord_bits(m, s);
    let hn = naive_height(m, s) / rbs;
    let wn = naive_width(m, s) / rbs;
    let blocks = naive_blocks(m, s);
    let a1 = nat_bits(rbs, 32);
    let a2 = nat_bits(s.domain_block_size as nat, 32);
    let a3 = nat_bits(s.domain_block_stepx as nat, 32);
    let a4 = nat_bits(s.domain_block_stepy as nat, 32);
    let a5 = nat_bits(cb, 15);
    let a6 = nat_bits(hn, 32);
    let a7 = nat_bits(wn, 32);
    let tb = naive_transformations_bits(m, s, cb, blocks);
    let z = zeros(pad);
    let bits = naive_file_bits(m, s) + z;
    assert(bits =~= a1 + a2 + a3 + a4 + a5 + a6 + a7 + (tb + z));
    lemma2_to64();
    lemma2_to64_rest();
    assert(bits.subrange(0, 32) =~= a1);
    assert(bits.subrange(32, 64) =~= a2);
    assert(bits.subrange(64, 96) =~= a3);
    assert(bits.subrange(96, 128) =~= a4);
    assert(bits.subrange(128, 143) =~= a5);
    assert(bits.subrange(143, 175) =~= a6);
    assert(bits.subrange(175, 207) =~= a7);
    assert(bits.subrange(207, bits.len() as int) =~= tb + z);
    lemma_le_value_roundtrip(rbs, 32);
    lemma_le_value_roundtrip(s.domain_block_size as nat, 32);
    lemma_le_value_roundtrip(s.domain_block_stepx as nat, 32);
    lemma_le_value_roundtrip(s.domain_block_stepy as nat, 32);
    lemma_u64_pow2_no_overflow(cb);
    lemma_bit_length_bound(
        (if naive_height(m, s) >= naive_width(m, s) {
            naive_height(m, s)
        } else {
            naive_width(m, s)
        }),
        64,
    );
    lemma_le_value_roundtrip(cb, 15);
    lemma_le_value_roundtrip(hn, 32);
    lemma_le_value_roundtrip(wn, 32);
    lemma_naive_transformations_bits_len(m, s, cb, blocks);
    lemma_mul_is_commutative(blocks.len() as int, naive_record_len(cb) as int);
    lemma_decode_stored_naive(m, s, cb, blocks, z);
}

} // verus!
