use crate::error::BrotliError;
use vstd::arithmetic::power2::{lemma2_to64, lemma_pow2_strictly_increases, pow2};
use vstd::bits::{lemma_u64_shl_is_mul, lemma_u8_shr_is_div};
use vstd::prelude::*;

verus! {

/// Bit `k` of a byte, counted from the least significant one.
pub open spec fn bit_of_byte(byte: u8, k: nat) -> bool {
    (byte as nat / pow2(k)) % 2 == 1
}

/// The bits of a byte buffer in stream order: bytes in the order given,
/// and within each byte the least significant bit first.
pub open spec fn stream_bits(bytes: Seq<u8>) -> Seq<bool> {
    Seq::new(8 * bytes.len(), |i: int| bit_of_byte(bytes[i / 8], (i % 8) as nat))
}

/// The number that a run of bits spells when the first bit is the least
/// significant one: bit `i` of the run weighs `2^i`.
pub open spec fn bits_value(bits: Seq<bool>) -> nat
    decreases bits.len(),
{
    if bits.len() == 0 {
        0
    } else {
        bits_value(bits.drop_last()) + if bits.last() {
            pow2((bits.len() - 1) as nat)
        } else {
            0
        }
    }
}

/// The number that the `n` bits of `bits` from position `pos` on spell.
pub open spec fn field_value(bits: Seq<bool>, pos: nat, n: nat) -> nat
    recommends
        pos + n <= bits.len(),
{
    bits_value(bits.subrange(pos as int, (pos + n) as int))
}

/// The value of a run of bits is below two to the power of its length.
pub proof fn lemma_bits_value_bound(bits: Seq<bool>)
    ensures
        bits_value(bits) < pow2(bits.len()),
    decreases bits.len(),
{
    if bits.len() == 0 {
        lemma2_to64();
    } else {
        lemma_bits_value_bound(bits.drop_last());
        vstd::arithmetic::power2::lemma_pow2_unfold(bits.len());
    }
}

/// A cursor over the bits of a borrowed byte buffer.
pub struct BitReader<'a> {
    data: &'a [u8],
    pos: usize,
    length: usize,
}

impl<'a> BitReader<'a> {
    /// The buffer the cursor reads from.
    pub closed spec fn bytes(&self) -> Seq<u8> {
        self.data@
    }

    /// The number of bits already consumed.
    pub closed spec fn position(&self) -> nat {
        self.pos as nat
    }

    /// The cached bit length agrees with the buffer.
    pub closed spec fn length_cached(&self) -> bool {
        self.length == 8 * self.data@.len()
    }

    /// The buffer as a sequence of bits.
    pub open spec fn bits(&self) -> Seq<bool> {
        stream_bits(self.bytes())
    }

    /// The number of bits in the buffer.
    pub open spec fn total_bits(&self) -> nat {
        8 * self.bytes().len()
    }

    /// The position lies within the buffer, whose bit length fits a `usize`.
    pub open spec fn wf(&self) -> bool {
        &&& self.length_cached()
        &&& self.position() <= self.total_bits()
        &&& self.total_bits() <= usize::MAX
    }

    /// The `n` bits that start at the current position.
    pub open spec fn upcoming(&self, n: nat) -> Seq<bool>
        recommends
            self.position() + n <= self.total_bits(),
    {
        self.bits().subrange(self.position() as int, (self.position() + n) as int)
    }

    /// Starts a cursor at the first bit of `data`.
    pub fn new(data: &'a [u8]) -> (r: Self)
        requires
            8 * data@.len() <= usize::MAX,
        ensures
            r.wf(),
            r.bytes() == data@,
            r.position() == 0,
    {
        Self { data, pos: 0, length: data.len() * 8 }
    }

    /// The current bit offset.
    pub fn get_pos(&self) -> (p: usize)
        ensures
            p == self.position(),
    {
        self.pos
    }

    /// Returns the next `bits` bits as a number, first bit least significant,
    /// and leaves the cursor where it is.
    pub fn peek_bits(&mut self, bits: u8) -> (r: Result<u64, BrotliError>)
        requires
            old(self).wf(),
            bits <= 64,
        ensures
            *final(self) == *old(self),
            old(self).position() + bits <= old(self).total_bits() ==> r is Ok && r->Ok_0
                == bits_value(old(self).upcoming(bits as nat)),
            old(self).position() + bits > old(self).total_bits() ==> r == Err::<u64, BrotliError>(
                BrotliError::NotEnoughBits,
            ),
    {
        self.top_bits(bits, false)
    }

    /// Returns the next `bits` bits as a number, first bit least significant,
    /// and moves the cursor past them. When too few bits are left the cursor
    /// stays where it is.
    pub fn read_bits(&mut self, bits: u8) -> (r: Result<u64, BrotliError>)
        requires
            old(self).wf(),
            bits <= 64,
        ensures
            final(self).wf(),
            final(self).bytes() == old(self).bytes(),
            old(self).position() + bits <= old(self).total_bits() ==> {
                &&& r is Ok
                &&& r->Ok_0 == bits_value(old(self).upcoming(bits as nat))
                &&& final(self).position() == old(self).position() + bits
            },
            old(self).position() + bits > old(self).total_bits() ==> {
                &&& r == Err::<u64, BrotliError>(BrotliError::NotEnoughBits)
                &&& final(self).position() == old(self).position()
            },
    {
        self.top_bits(bits, true)
    }

    /// Moves the cursor forward by `increment` bits without reading them.
    pub fn increase_pos(&mut self, increment: usize) -> (r: Result<(), BrotliError>)
        requires
            old(self).wf(),
        ensures
            final(self).wf(),
            final(self).bytes() == old(self).bytes(),
            old(self).position() + increment <= old(self).total_bits() ==> {
                &&& r == Ok::<(), BrotliError>(())
                &&& final(self).position() == old(self).position() + increment
            },
            old(self).position() + increment > old(self).total_bits() ==> {
                &&& r == Err::<(), BrotliError>(BrotliError::IncreasePosError)
                &&& final(self).position() == old(self).position()
            },
    {
        if increment > self.length - self.pos {
            return Err(BrotliError::IncreasePosError);
        }
        self.pos += increment;
        Ok(())
    }

    /// Moves the cursor back by `decrement` bits.
    pub fn decrease_pos(&mut self, decrement: usize) -> (r: Result<(), BrotliError>)
        requires
            old(self).wf(),
        ensures
            final(self).wf(),
            final(self).bytes() == old(self).bytes(),
            decrement <= old(self).position() ==> {
                &&& r == Ok::<(), BrotliError>(())
                &&& final(self).position() == old(self).position() - decrement
            },
            decrement > old(self).position() ==> {
                &&& r == Err::<(), BrotliError>(BrotliError::DecreasePosError)
                &&& final(self).position() == old(self).position()
            },
    {
        if self.pos < decrement {
            return Err(BrotliError::DecreasePosError);
        }
        self.pos -= decrement;
        Ok(())
    }

    /// Assembles the next `bits` bits into a number and, when `pop` is set,
    /// consumes them.
    fn top_bits(&mut self, bits: u8, pop: bool) -> (r: Result<u64, BrotliError>)
        requires
            old(self).wf(),
            bits <= 64,
        ensures
            final(self).wf(),
            final(self).bytes() == old(self).bytes(),
            !pop ==> *final(self) == *old(self),
            old(self).position() + bits <= old(self).total_bits() ==> {
                &&& r is Ok
                &&& r->Ok_0 == bits_value(old(self).upcoming(bits as nat))
                &&& final(self).position() == old(self).position() + if pop {
                    bits as nat
                } else {
                    0
                }
            },
            old(self).position() + bits > old(self).total_bits() ==> {
                &&& r == Err::<u64, BrotliError>(BrotliError::NotEnoughBits)
                &&& final(self).position() == old(self).position()
            },
    {
        let start: usize = self.pos;
        if bits as usize > self.length - start {
            return Err(BrotliError::NotEnoughBits);
        }
        let end: usize = start + bits as usize;
        let ghost run = self.upcoming(bits as nat);

        let mut ret: u64 = 0;
        let mut i: usize = start;
        while i < end
            invariant
                start <= i <= end,
                end == start + bits,
                bits <= 64,
                end <= self.length,
                self.length == 8 * self.data@.len(),
                start == self.pos,
                *self == *old(self),
                run == self.upcoming(bits as nat),
                ret == bits_value(run.subrange(0, i - start)),
            decreases end - i,
        {
            let byte: u8 = self.data[i / 8];
            let bit_idx: u8 = (i % 8) as u8;
            let k: u64 = (i - start) as u64;
            let bit: u64 = (byte >> bit_idx) as u64 & 1;
            proof {
                let taken = run.subrange(0, i - start);
                let next = run.subrange(0, i - start + 1);
                assert(next.drop_last() =~= taken);
                assert(next.last() == bit_of_byte(byte, bit_idx as nat));
                lemma_bits_value_bound(taken);
                lemma_u8_shr_is_div(byte, bit_idx);
                let shifted: u8 = byte >> bit_idx;
                assert(shifted as u64 & 1 == shifted % 2) by (bit_vector);
                assert(bit == if next.last() { 1u64 } else { 0u64 });
                lemma2_to64();
                lemma_pow2_strictly_increases(k as nat, 64);
                assert(bit * pow2(k as nat) == if bit == 1 { pow2(k as nat) } else { 0 });
                lemma_u64_shl_is_mul(bit, k);
                lemma_u64_shl_is_mul(1u64, k);
                assert(ret | (bit << k) == ret + (bit << k)) by (bit_vector)
                    requires
                        k < 64,
                        ret < (1u64 << k),
                        bit == 0 || bit == 1,
                ;
            }
            ret |= bit << k;
            i += 1;
        }
        proof {
            assert(run.subrange(0, end - start) =~= run);
        }
        if pop {
            self.pos = end;
        }
        Ok(ret)
    }

    /// Whether every bit has been consumed.
    pub fn empty(&self) -> (r: bool)
        requires
            self.wf(),
        ensures
            r == (self.position() == self.total_bits()),
    {
        self.pos == self.length
    }

    /// The number of bits not yet consumed.
    pub fn remaining_bits(&self) -> (r: usize)
        requires
            self.wf(),
        ensures
            r == self.total_bits() - self.position(),
    {
        self.length - self.pos
    }
}

} // verus!
