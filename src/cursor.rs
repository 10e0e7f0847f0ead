//! A cursor over the bits of a byte buffer, most significant bit first.

use vstd::prelude::*;
use vstd::arithmetic::div_mod::lemma_fundamental_div_mod_converse;
use crate::template::two_pow;

verus! {

/// Bit `i` of the buffer, counting from the most significant bit of byte 0.
pub open spec fn bit_at(bytes: Seq<u8>, i: int) -> bool {
    (bytes[i / 8] >> ((7 - i % 8) as u8)) & 1u8 == 1u8
}

/// The buffer as a sequence of bits, most significant bit of each byte first.
pub open spec fn bits_of(bytes: Seq<u8>) -> Seq<bool> {
    Seq::new(bytes.len() * 8, |i: int| bit_at(bytes, i))
}

/// The unsigned number written by the `n` bits starting at `start`, most
/// significant first.
pub open spec fn bits_value(bits: Seq<bool>, start: int, n: nat) -> nat
    decreases n,
{
    if n == 0 {
        0
    } else {
        2 * bits_value(bits, start, (n - 1) as nat) + if bits[start + n - 1] {
            1nat
        } else {
            0nat
        }
    }
}

proof fn lemma_two_pow_32()
    ensures
        two_pow(32) == 0x1_0000_0000,
{
    reveal_with_fuel(two_pow, 33);
}

/// A read would run past the end of the buffer.
#[derive(Clone, Copy, Debug, PartialEq, Eq, Structural)]
pub struct EndOfInput;

/// A position in a byte buffer: a byte index and a bit index within it.
#[derive(Clone, Copy, Debug, PartialEq, Eq, Structural)]
pub struct BitCursor {
    pub byte_index: usize,
    pub bit_index: u8,
}

impl BitCursor {
    pub open spec fn well_formed(&self) -> bool {
        self.bit_index < 8
    }

    /// The number of bits before the cursor.
    pub open spec fn pos(&self) -> nat {
        (self.byte_index * 8 + self.bit_index) as nat
    }

    /// A cursor at the start of byte `byte_index`.
    pub fn at_byte(byte_index: usize) -> (r: Self)
        ensures
            r.well_formed(),
            r.byte_index == byte_index,
            r.bit_index == 0,
            r.pos() == byte_index * 8,
    {
        BitCursor { byte_index, bit_index: 0 }
    }

    fn read(&self, bytes: &[u8], n: u8) -> (r: Result<(u32, BitCursor), EndOfInput>)
        requires
            self.well_formed(),
            n <= 32,
        ensures
            match r {
                Ok((v, c)) => {
                    &&& self.pos() + n <= bits_of(bytes@).len()
                    &&& v as nat == bits_value(bits_of(bytes@), self.pos() as int, n as nat)
                    &&& (v as nat) < two_pow(n as nat)
                    &&& c.well_formed()
                    &&& c.pos() == self.pos() + n
                },
                Err(_) => self.pos() + n > bits_of(bytes@).len(),
            },
    {
        let ghost bits = bits_of(bytes@);
        let ghost start = self.pos() as int;
        if self.byte_index > bytes.len() || (self.byte_index == bytes.len() && self.bit_index > 0) {
            return Err(EndOfInput);
        }
        let mut byte: usize = self.byte_index;
        let mut bit: u8 = self.bit_index;
        let mut v: u32 = 0;
        let mut i: u8 = 0;
        proof {
            lemma_two_pow_32();
        }
        while i < n
            invariant
                bits == bits_of(bytes@),
                bits.len() == bytes@.len() * 8,
                start == self.pos(),
                i <= n <= 32,
                bit < 8,
                byte * 8 + bit == start + i,
                start + i <= bits.len(),
                v as nat == bits_value(bits, start, i as nat),
                v < two_pow(i as nat),
                two_pow(32) == 0x1_0000_0000,
            decreases n - i,
        {
            if byte >= bytes.len() {
                return Err(EndOfInput);
            }
            let ghost idx = start + i;
            proof {
                lemma_fundamental_div_mod_converse(idx, 8, byte as int, bit as int);
                assert(bits[idx] == bit_at(bytes@, idx));
            }
            let x = bytes[byte];
            let b: u8 = (x >> (7 - bit)) & 1u8;
            proof {
                assert((x >> (7 - bit) as u8) & 1u8 <= 1u8) by (bit_vector);
                crate::template::lemma_two_pow_monotone((i + 1) as nat, 32);
            }
            v = v * 2 + b as u32;
            if bit == 7 {
                bit = 0;
                byte = byte + 1;
            } else {
                bit = bit + 1;
            }
            i = i + 1;
        }
        Ok((v, BitCursor { byte_index: byte, bit_index: bit }))
    }

    /// The next `n` bits as a number, without moving the cursor.
    pub fn peek_bits(&self, bytes: &[u8], n: u8) -> (r: Result<u32, EndOfInput>)
        requires
            self.well_formed(),
            n <= 32,
        ensures
            match r {
                Ok(v) => {
                    &&& self.pos() + n <= bits_of(bytes@).len()
                    &&& v as nat == bits_value(bits_of(bytes@), self.pos() as int, n as nat)
                    &&& (v as nat) < two_pow(n as nat)
                },
                Err(_) => self.pos() + n > bits_of(bytes@).len(),
            },
    {
        match self.read(bytes, n) {
            Ok((v, _)) => Ok(v),
            Err(e) => Err(e),
        }
    }

    /// Takes the next `n` bits as a number and moves past them; on failure
    /// the cursor stays where it was.
    pub fn consume_bits(&mut self, bytes: &[u8], n: u8) -> (r: Result<u32, EndOfInput>)
        requires
            old(self).well_formed(),
            n <= 32,
        ensures
            final(self).well_formed(),
            match r {
                Ok(v) => {
                    &&& old(self).pos() + n <= bits_of(bytes@).len()
                    &&& v as nat == bits_value(bits_of(bytes@), old(self).pos() as int, n as nat)
                    &&& (v as nat) < two_pow(n as nat)
                    &&& final(self).pos() == old(self).pos() + n
                },
                Err(_) => {
                    &&& old(self).pos() + n > bits_of(bytes@).len()
                    &&& *final(self) == *old(self)
                },
            },
    {
        match self.read(bytes, n) {
            Ok((v, c)) => {
                *self = c;
                Ok(v)
            },
            Err(e) => Err(e),
        }
    }
}

} // verus!
