//! A compact bit string backed by bytes, with verified bit access.

use vstd::prelude::*;
use crate::rng::fill_random_bytes;

verus! {

/// The number of bytes needed for `len` bits.
pub open spec fn spec_num_bytes(len: int) -> int {
    len / 8 + if len % 8 == 0 {
        0int
    } else {
        1int
    }
}

/// Bit `k` (most significant first) of a byte.
pub open spec fn spec_bit(b: u8, k: int) -> bool {
    (b >> (7 - k) as u8) & 1 == 1
}

/// `len` bits stored most-significant-bit first in a byte vector.
#[derive(Debug)]
pub struct U8BitString {
    bytes: Vec<u8>,
    len: usize,
}

impl View for U8BitString {
    type V = Seq<bool>;

    closed spec fn view(&self) -> Seq<bool> {
        Seq::new(self.len as nat, |i: int| spec_bit(self.bytes@[i / 8], i % 8))
    }
}

/// `len` bits fit in `spec_num_bytes(len)` bytes.
proof fn lemma_bit_index(len: int, i: int)
    requires
        0 <= i < len,
    ensures
        0 <= i / 8 < spec_num_bytes(len),
        0 <= i % 8 < 8,
{
    vstd::arithmetic::div_mod::lemma_fundamental_div_mod(i, 8);
    vstd::arithmetic::div_mod::lemma_fundamental_div_mod(len, 8);
    assert(0 <= i % 8 < 8) by (nonlinear_arith)
        requires
            i == 8 * (i / 8) + i % 8,
            0 <= i,
    ;
    assert(i / 8 < spec_num_bytes(len)) by (nonlinear_arith)
        requires
            i == 8 * (i / 8) + i % 8,
            len == 8 * (len / 8) + len % 8,
            0 <= i % 8 < 8,
            0 <= len % 8 < 8,
            i < len,
            spec_num_bytes(len) == len / 8 + if len % 8 == 0 {
                0int
            } else {
                1int
            },
    ;
    assert(i / 8 >= 0) by (nonlinear_arith)
        requires
            i == 8 * (i / 8) + i % 8,
            0 <= i,
            0 <= i % 8 < 8,
    ;
}

impl U8BitString {
    /// The byte store covers exactly the bit length.
    pub closed spec fn wf(&self) -> bool {
        self.bytes@.len() == spec_num_bytes(self.len as int)
    }

    /// Builds a backing store of `n` copies of the given byte.
    fn filled(byte: u8, len: usize) -> (r: Vec<u8>)
        requires
            len < usize::MAX - 8,
        ensures
            r@.len() == spec_num_bytes(len as int),
            forall|j: int| 0 <= j < r@.len() ==> #[trigger] r@[j] == byte,
    {
        let n = len / 8 + if len % 8 == 0 {
            0
        } else {
            1
        };
        let mut bytes: Vec<u8> = Vec::new();
        let mut j: usize = 0;
        while j < n
            invariant
                j <= n,
                bytes@.len() == j,
                forall|m: int| 0 <= m < j ==> #[trigger] bytes@[m] == byte,
            decreases n - j,
        {
            bytes.push(byte);
            j = j + 1;
        }
        bytes
    }

    /// A string of `len` zero bits.
    pub fn zeros(len: usize) -> (r: Self)
        requires
            len < usize::MAX - 8,
        ensures
            r.wf(),
            r@.len() == len,
            forall|i: int| 0 <= i < len ==> !(#[trigger] r@[i]),
    {
        let bytes = Self::filled(0x00, len);
        let r = U8BitString { bytes, len };
        proof {
            assert forall|i: int| 0 <= i < len implies !(#[trigger] r@[i]) by {
                lemma_bit_index(len as int, i);
                assert(r.bytes@[i / 8] == 0);
                let s8: u8 = (7 - i % 8) as u8;
                assert(((0u8 >> s8) & 1) == 0) by (bit_vector);
                assert(!spec_bit(0, i % 8));
            }
        }
        r
    }

    /// A string of `len` one bits.
    pub fn ones(len: usize) -> (r: Self)
        requires
            len < usize::MAX - 8,
        ensures
            r.wf(),
            r@.len() == len,
            forall|i: int| 0 <= i < len ==> #[trigger] r@[i],
    {
        let bytes = Self::filled(0xFF, len);
        let r = U8BitString { bytes, len };
        proof {
            assert forall|i: int| 0 <= i < len implies #[trigger] r@[i] by {
                lemma_bit_index(len as int, i);
                assert(r.bytes@[i / 8] == 0xFF);
                let s8: u8 = (7 - i % 8) as u8;
                assert(((0xFFu8 >> s8) & 1) == 1) by (bit_vector)
                    requires
                        s8 < 8,
                ;
                assert(spec_bit(0xFF, i % 8));
            }
        }
        r
    }

    /// A string of `len` random bits.
    pub fn random(rng: &mut rand::rngs::ThreadRng, len: usize) -> (r: Self)
        requires
            len < usize::MAX - 8,
        ensures
            r.wf(),
            r@.len() == len,
    {
        let mut bytes = Self::filled(0x00, len);
        fill_random_bytes(rng, &mut bytes);
        U8BitString { bytes, len }
    }

    /// The number of bits.
    pub fn len(&self) -> (r: usize)
        ensures
            r == self@.len(),
    {
        self.len
    }

    /// The bit at `index`.
    pub fn get(&self, index: usize) -> (r: bool)
        requires
            self.wf(),
            index < self@.len(),
        ensures
            r == self@[index as int],
    {
        proof {
            lemma_bit_index(self.len as int, index as int);
        }
        let byte = self.bytes[index / 8];
        let sh = 7 - (index % 8) as u8;
        let r = byte & (1u8 << sh) == 1u8 << sh;
        proof {
            let k = index as int % 8;
            assert(sh == (7 - k) as u8);
            assert((byte & (1u8 << sh) == 1u8 << sh) == ((byte >> sh) & 1 == 1)) by (bit_vector)
                requires
                    sh < 8,
            ;
        }
        r
    }

    /// Writes the bit at `index`; all other bits keep their value.
    pub fn set(&mut self, index: usize, bit: bool)
        requires
            old(self).wf(),
            index < old(self)@.len(),
        ensures
            final(self).wf(),
            final(self)@ == old(self)@.update(index as int, bit),
    {
        proof {
            lemma_bit_index(self.len as int, index as int);
        }
        let bi = index / 8;
        let sh = 7 - (index % 8) as u8;
        let byte = self.bytes[bi];
        let cleared = byte & !(1u8 << sh);
        let newbyte = if bit {
            cleared | (1u8 << sh)
        } else {
            cleared
        };
        let ghost oldself = *self;
        let slot = &mut self.bytes[bi];
        *slot = newbyte;
        proof {
            let k = index as int % 8;
            assert(sh == (7 - k) as u8);
            assert((((newbyte >> sh) & 1) == 1) == bit) by (bit_vector)
                requires
                    sh < 8,
                    newbyte == if bit {
                        (byte & !(1u8 << sh)) | (1u8 << sh)
                    } else {
                        byte & !(1u8 << sh)
                    },
            ;
            assert(spec_bit(newbyte, k) == bit);
            assert forall|k2: int| 0 <= k2 < 8 && k2 != k implies spec_bit(newbyte, k2)
                == spec_bit(byte, k2) by {
                let shu: u8 = (7 - k2) as u8;
                assert(((newbyte >> shu) & 1) == ((byte >> shu) & 1)) by (bit_vector)
                    requires
                        shu < 8,
                        sh < 8,
                        shu != sh,
                        newbyte == if bit {
                            (byte & !(1u8 << sh)) | (1u8 << sh)
                        } else {
                            byte & !(1u8 << sh)
                        },
                ;
            }
            assert forall|i: int| 0 <= i < self@.len() implies self@[i] == old(self)@.update(
                index as int,
                bit,
            )[i] by {
                lemma_bit_index(self.len as int, i);
                if i / 8 == bi {
                    if i == index {
                    } else {
                        assert(i % 8 != index as int % 8) by (nonlinear_arith)
                            requires
                                i / 8 == index as int / 8,
                                i != index,
                                i == 8 * (i / 8) + i % 8,
                                index as int == 8 * (index as int / 8) + index as int % 8,
                        {
                            vstd::arithmetic::div_mod::lemma_fundamental_div_mod(i, 8);
                            vstd::arithmetic::div_mod::lemma_fundamental_div_mod(index as int, 8);
                        }
                    }
                } else {
                    assert(self.bytes@[i / 8] == oldself.bytes@[i / 8]);
                }
            }
            assert(self@ =~= old(self)@.update(index as int, bit));
        }
    }

    /// Inverts the bit at `index`; all other bits keep their value.
    pub fn flip(&mut self, index: usize)
        requires
            old(self).wf(),
            index < old(self)@.len(),
        ensures
            final(self).wf(),
            final(self)@ == old(self)@.update(index as int, !old(self)@[index as int]),
    {
        let b = self.get(index);
        self.set(index, !b);
    }

    /// The bits in order.
    pub fn iter(&self) -> (r: Vec<bool>)
        requires
            self.wf(),
        ensures
            r@ == self@,
    {
        let n = self.len;
        let mut out: Vec<bool> = Vec::new();
        let mut i: usize = 0;
        while i < n
            invariant
                i <= n,
                self.wf(),
                n == self@.len(),
                out@.len() == i,
                forall|j: int| 0 <= j < i ==> #[trigger] out@[j] == self@[j],
            decreases n - i,
        {
            let b = self.get(i);
            out.push(b);
            i = i + 1;
        }
        proof {
            assert(out@ =~= self@);
        }
        out
    }
}

impl Clone for U8BitString {
    /// A deep copy with the same bits.
    fn clone(&self) -> (r: Self)
        ensures
            r@ == self@,
            self.wf() ==> r.wf(),
    {
        let bytes = self.bytes.clone();
        proof {
            assert(bytes@ =~= self.bytes@);
        }
        let r = U8BitString { bytes, len: self.len };
        proof {
            assert(r@ =~= self@);
        }
        r
    }
}

} // verus!
