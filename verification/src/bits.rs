//! A fixed 128-bit bit-addressable array, used for the message bitmap.
//!
//! Bit 0 is the most significant bit of octet 0, following the ISO 8583
//! convention that the first bitmap bit announces the secondary segment.

use vstd::prelude::*;

verus! {

/// Bit `k` of one octet, counted from the most significant bit (`k` in 0..8).
pub open spec fn nth_bit(b: u8, k: int) -> bool {
    (b >> ((7 - k) as u8)) & 1 == 1
}

/// Bit `i` of a run of octets, most significant bit of octet 0 first.
pub open spec fn bit_at(s: Seq<u8>, i: int) -> bool {
    nth_bit(s[i / 8], i % 8)
}

/// `s` padded with zero octets up to 16.
pub open spec fn pad16(s: Seq<u8>) -> Seq<u8> {
    s + Seq::new((16 - s.len()) as nat, |j: int| 0u8)
}

/// The octet whose bits, most significant first, are `b0 .. b7`.
pub open spec fn octet_of_bits(
    b0: bool,
    b1: bool,
    b2: bool,
    b3: bool,
    b4: bool,
    b5: bool,
    b6: bool,
    b7: bool,
) -> u8 {
    ((if b0 {
        128u8
    } else {
        0u8
    }) + (if b1 {
        64u8
    } else {
        0u8
    }) + (if b2 {
        32u8
    } else {
        0u8
    }) + (if b3 {
        16u8
    } else {
        0u8
    }) + (if b4 {
        8u8
    } else {
        0u8
    }) + (if b5 {
        4u8
    } else {
        0u8
    }) + (if b6 {
        2u8
    } else {
        0u8
    }) + (if b7 {
        1u8
    } else {
        0u8
    })) as u8
}

/// Reading back the bits of an octet built from eight bits gives those bits.
pub proof fn lemma_octet_of_bits(
    b0: bool,
    b1: bool,
    b2: bool,
    b3: bool,
    b4: bool,
    b5: bool,
    b6: bool,
    b7: bool,
)
    ensures
        nth_bit(octet_of_bits(b0, b1, b2, b3, b4, b5, b6, b7), 0) == b0,
        nth_bit(octet_of_bits(b0, b1, b2, b3, b4, b5, b6, b7), 1) == b1,
        nth_bit(octet_of_bits(b0, b1, b2, b3, b4, b5, b6, b7), 2) == b2,
        nth_bit(octet_of_bits(b0, b1, b2, b3, b4, b5, b6, b7), 3) == b3,
        nth_bit(octet_of_bits(b0, b1, b2, b3, b4, b5, b6, b7), 4) == b4,
        nth_bit(octet_of_bits(b0, b1, b2, b3, b4, b5, b6, b7), 5) == b5,
        nth_bit(octet_of_bits(b0, b1, b2, b3, b4, b5, b6, b7), 6) == b6,
        nth_bit(octet_of_bits(b0, b1, b2, b3, b4, b5, b6, b7), 7) == b7,
{
    let a0: u8 = if b0 {
        1
    } else {
        0
    };
    let a1: u8 = if b1 {
        1
    } else {
        0
    };
    let a2: u8 = if b2 {
        1
    } else {
        0
    };
    let a3: u8 = if b3 {
        1
    } else {
        0
    };
    let a4: u8 = if b4 {
        1
    } else {
        0
    };
    let a5: u8 = if b5 {
        1
    } else {
        0
    };
    let a6: u8 = if b6 {
        1
    } else {
        0
    };
    let a7: u8 = if b7 {
        1
    } else {
        0
    };
    let x: u8 = (a0 * 128 + a1 * 64 + a2 * 32 + a3 * 16 + a4 * 8 + a5 * 4 + a6 * 2 + a7) as u8;
    assert(x == octet_of_bits(b0, b1, b2, b3, b4, b5, b6, b7));
    assert((a0 <= 1 && a1 <= 1 && a2 <= 1 && a3 <= 1 && a4 <= 1 && a5 <= 1 && a6 <= 1 && a7 <= 1
        && x == a0 * 128 + a1 * 64 + a2 * 32 + a3 * 16 + a4 * 8 + a5 * 4 + a6 * 2 + a7) ==> ((x
        >> 7u8) & 1 == a0 && (x >> 6u8) & 1 == a1 && (x >> 5u8) & 1 == a2 && (x >> 4u8) & 1 == a3
        && (x >> 3u8) & 1 == a4 && (x >> 2u8) & 1 == a5 && (x >> 1u8) & 1 == a6 && (x >> 0u8) & 1
        == a7)) by (bit_vector);
}

/// An octet equals the octet built from its own eight bits.
pub proof fn lemma_octet_from_own_bits(x: u8)
    ensures
        octet_of_bits(
            nth_bit(x, 0),
            nth_bit(x, 1),
            nth_bit(x, 2),
            nth_bit(x, 3),
            nth_bit(x, 4),
            nth_bit(x, 5),
            nth_bit(x, 6),
            nth_bit(x, 7),
        ) == x,
{
    assert(x == ((x >> 7u8) & 1) * 128 + ((x >> 6u8) & 1) * 64 + ((x >> 5u8) & 1) * 32 + ((x
        >> 4u8) & 1) * 16 + ((x >> 3u8) & 1) * 8 + ((x >> 2u8) & 1) * 4 + ((x >> 1u8) & 1) * 2 + ((
    x >> 0u8) & 1)) by (bit_vector);
    assert(((x >> 7u8) & 1 == 1) == nth_bit(x, 0));
    assert(((x >> 6u8) & 1 == 1) == nth_bit(x, 1));
    assert(((x >> 5u8) & 1 == 1) == nth_bit(x, 2));
    assert(((x >> 4u8) & 1 == 1) == nth_bit(x, 3));
    assert(((x >> 3u8) & 1 == 1) == nth_bit(x, 4));
    assert(((x >> 2u8) & 1 == 1) == nth_bit(x, 5));
    assert(((x >> 1u8) & 1 == 1) == nth_bit(x, 6));
    assert(((x >> 0u8) & 1 == 1) == nth_bit(x, 7));
    assert((x >> 7u8) & 1 <= 1 && (x >> 6u8) & 1 <= 1 && (x >> 5u8) & 1 <= 1 && (x >> 4u8) & 1 <= 1
        && (x >> 3u8) & 1 <= 1 && (x >> 2u8) & 1 <= 1 && (x >> 1u8) & 1 <= 1 && (x >> 0u8) & 1
        <= 1) by (bit_vector);
}

/// Fixed 128-bit bit array backed by 16 octets.
pub struct BitArray128 {
    octets: Vec<u8>,
}

impl View for BitArray128 {
    type V = Seq<u8>;

    closed spec fn view(&self) -> Seq<u8> {
        self.octets@
    }
}

impl BitArray128 {
    /// The backing store holds exactly 16 octets.
    pub closed spec fn wf(&self) -> bool {
        self.octets@.len() == 16
    }

    /// A well-formed array views as exactly 16 octets.
    pub proof fn lemma_wf_len(&self)
        requires
            self.wf(),
        ensures
            self@.len() == 16,
    {
    }

    /// A bit array with every bit clear.
    pub fn new() -> (r: BitArray128)
        ensures
            r.wf(),
            r@ == Seq::new(16, |j: int| 0u8),
    {
        let mut v: Vec<u8> = Vec::new();
        let mut i: usize = 0;
        while i < 16
            invariant
                i <= 16,
                v@ == Seq::new(i as nat, |j: int| 0u8),
            decreases 16 - i,
        {
            v.push(0u8);
            i = i + 1;
            proof {
                assert(v@ =~= Seq::new(i as nat, |j: int| 0u8));
            }
        }
        BitArray128 { octets: v }
    }

    /// A bit array holding the bits of the given octets, any remaining
    /// octets clear.
    pub fn from_bytes(bytes: &[u8], count: usize) -> (r: BitArray128)
        requires
            count <= 16,
            count <= bytes@.len(),
        ensures
            r.wf(),
            r@ == pad16(bytes@.take(count as int)),
    {
        let mut v: Vec<u8> = Vec::new();
        let mut i: usize = 0;
        while i < count
            invariant
                i <= count <= 16,
                count <= bytes@.len(),
                v@ == bytes@.take(i as int),
            decreases count - i,
        {
            v.push(*vstd::slice::slice_index_get(bytes, i));
            i = i + 1;
            proof {
                assert(v@ =~= bytes@.take(i as int));
            }
        }
        while i < 16
            invariant
                count <= i <= 16,
                v@.len() == i,
                v@.take(count as int) == bytes@.take(count as int),
                forall|j: int| count <= j < i ==> v@[j] == 0u8,
            decreases 16 - i,
        {
            v.push(0u8);
            i = i + 1;
            proof {
                assert(v@.take(count as int) =~= bytes@.take(count as int));
            }
        }
        proof {
            assert(v@ =~= pad16(bytes@.take(count as int)));
        }
        BitArray128 { octets: v }
    }

    /// Reads bit `i`.
    pub fn get_bit(&self, i: usize) -> (r: bool)
        requires
            self.wf(),
            i < 128,
        ensures
            r == bit_at(self@, i as int),
    {
        let byte = self.octets[i / 8];
        let sh: u8 = (7 - (i % 8)) as u8;
        ((byte >> sh) & 1) == 1
    }

    /// Sets bit `i` to `v`, leaving every other bit as it was.
    pub fn set_bit(&mut self, i: usize, v: bool)
        requires
            old(self).wf(),
            i < 128,
        ensures
            final(self).wf(),
            forall|j: int|
                0 <= j < 128 ==> bit_at(final(self)@, j) == (if j == i as int {
                    v
                } else {
                    bit_at(old(self)@, j)
                }),
    {
        let idx = i / 8;
        let sh: u8 = (7 - (i % 8)) as u8;
        let mask: u8 = 1u8 << sh;
        let b = self.octets[idx];
        let nb: u8 = if v {
            b | mask
        } else {
            b & !mask
        };
        self.octets[idx] = nb;
        proof {
            assert forall|j: int| 0 <= j < 128 implies bit_at(self@, j) == (if j == i as int {
                v
            } else {
                bit_at(old(self)@, j)
            }) by {
                let k = (7 - j % 8) as u8;
                if j / 8 == idx as int {
                    if v {
                        assert((sh < 8 && k < 8) ==> ((b | (1u8 << sh)) >> k) & 1 == (if k == sh {
                            1u8
                        } else {
                            (b >> k) & 1
                        })) by (bit_vector);
                    } else {
                        assert((sh < 8 && k < 8) ==> ((b & !(1u8 << sh)) >> k) & 1 == (if k == sh {
                            0u8
                        } else {
                            (b >> k) & 1
                        })) by (bit_vector);
                    }
                    assert(j == i as int <==> k == sh);
                } else {
                    assert(self@[j / 8] == old(self)@[j / 8]);
                }
            }
        }
    }

    /// The first `count` octets of the array.
    pub fn to_bytes(&self, count: usize) -> (r: Vec<u8>)
        requires
            self.wf(),
            count <= 16,
        ensures
            r@ == self@.take(count as int),
    {
        let mut v: Vec<u8> = Vec::new();
        let mut i: usize = 0;
        while i < count
            invariant
                i <= count <= 16,
                self.wf(),
                v@ == self@.take(i as int),
            decreases count - i,
        {
            v.push(self.octets[i]);
            i = i + 1;
            proof {
                assert(v@ =~= self@.take(i as int));
            }
        }
        v
    }

    /// One ASCII character per bit, `1` for a set bit and `0` for a clear
    /// one, 128 characters in all.
    pub fn bit_text(&self) -> (r: Vec<u8>)
        requires
            self.wf(),
        ensures
            r@.len() == 128,
            forall|i: int|
                0 <= i < 128 ==> r@[i] == (if bit_at(self@, i) {
                    49u8
                } else {
                    48u8
                }),
    {
        let mut v: Vec<u8> = Vec::new();
        let mut i: usize = 0;
        while i < 128
            invariant
                i <= 128,
                self.wf(),
                v@.len() == i,
                forall|j: int|
                    0 <= j < i ==> v@[j] == (if bit_at(self@, j) {
                        49u8
                    } else {
                        48u8
                    }),
            decreases 128 - i,
        {
            if self.get_bit(i) {
                v.push(49u8);
            } else {
                v.push(48u8);
            }
            i = i + 1;
        }
        v
    }
}

} // verus!
