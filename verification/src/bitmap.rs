//! A 256-bit presence set over byte values, used to record which bytes
//! occur in indexed file names and to reject queries cheaply.

use vstd::bytes::{spec_u64_from_le_bytes, spec_u64_to_le_bytes, u64_from_le_bytes,
    u64_to_le_bytes, lemma_auto_spec_u64_to_from_le_bytes};
use vstd::prelude::*;
use vstd::slice::slice_subrange;
use vstd::string::StringSliceAdditionalSpecFns;

use crate::FormatError;

verus! {

/// Number of bytes in the raw encoding of a bitmap: four 64-bit words.
pub const BITMAP_BYTES: usize = 32;

/// A fixed 256-bit set over byte values. Bit `b` records that byte value
/// `b` has been seen. Backed by four little-endian 64-bit words.
#[derive(Clone, Copy)]
pub struct CharBitmap {
    words: [u64; 4],
}

/// Which of the four words holds the bit for byte value `b`.
pub closed spec fn word_index(b: u8) -> int {
    (b >> 6) as int
}

/// Which bit of that word stands for byte value `b`.
pub closed spec fn bit_index(b: u8) -> u64 {
    (b & 0x3f) as u64
}

proof fn lemma_word_index_range(b: u8)
    ensures
        0 <= word_index(b) < 4,
        bit_index(b) < 64,
{
    assert((b >> 6) < 4 && (b & 0x3f) < 64) by (bit_vector);
}

/// Setting bit `i` of a word changes exactly that bit.
proof fn lemma_set_bit(w: u64, i: u64, j: u64)
    by (bit_vector)
    requires
        i < 64,
        j < 64,
    ensures
        ((w | (1u64 << i)) >> j) & 1 == 1 <==> (i == j || (w >> j) & 1 == 1),
{
}

/// A nonzero word has a set bit at or above position `j` when its shift
/// by `j` is still nonzero.
proof fn lemma_nonzero_has_bit(d: u64, j: u64)
    requires
        j <= 63,
        d >> j != 0,
    ensures
        exists|k: u64| k < 64 && (d >> k) & 1 == 1,
    decreases 64 - j,
{
    if (d >> j) & 1 == 1 {
        assert(j < 64 && (d >> j) & 1 == 1);
    } else {
        assert(((d >> j) & 1 != 1 && d >> j != 0 && j <= 63) ==> (j <= 62 && d >> (j + 1)
            != 0)) by (bit_vector);
        lemma_nonzero_has_bit(d, (j + 1) as u64);
    }
}

/// When `ow` is not a bitwise subset of `sw`, some bit position is set in
/// `ow` but clear in `sw`.
proof fn lemma_word_subset_witness(ow: u64, sw: u64)
    requires
        ow & sw != ow,
    ensures
        exists|k: u64| k < 64 && (ow >> k) & 1 == 1 && !((sw >> k) & 1 == 1),
{
    let d = ow & !sw;
    assert((ow & sw != ow) ==> (d >> 0 != 0)) by (bit_vector)
        requires
            d == ow & !sw,
    ;
    lemma_nonzero_has_bit(d, 0);
    let k = choose|k: u64| k < 64 && (d >> k) & 1 == 1;
    assert(((d >> k) & 1 == 1) ==> ((ow >> k) & 1 == 1 && !((sw >> k) & 1 == 1))) by (bit_vector)
        requires
            d == ow & !sw && k < 64u64,
    ;
    assert(k < 64 && (ow >> k) & 1 == 1 && !((sw >> k) & 1 == 1));
}

/// Extending a prefix of `s` by one element adds exactly that element to
/// what the prefix contains.
proof fn lemma_subrange_contains_step(s: Seq<u8>, i: int, b: u8)
    requires
        0 <= i < s.len(),
    ensures
        s.subrange(0, i + 1).contains(b) == (s.subrange(0, i).contains(b) || s[i] == b),
{
    let pre = s.subrange(0, i);
    let cur = s.subrange(0, i + 1);
    assert(cur =~= pre.push(s[i]));
    if cur.contains(b) {
        let k = choose|k: int| 0 <= k < cur.len() && cur[k] == b;
        if k < i {
            assert(pre[k] == b);
            assert(pre.contains(b));
        }
    }
    if pre.contains(b) {
        let k = choose|k: int| 0 <= k < pre.len() && pre[k] == b;
        assert(cur[k] == b);
        assert(cur.contains(b));
    }
    if s[i] == b {
        assert(cur[i] == b);
        assert(cur.contains(b));
    }
}

/// Two byte values with the same word and bit position are equal.
proof fn lemma_position_injective(a: u8, b: u8)
    by (bit_vector)
    requires
        a >> 6 == b >> 6,
        a & 0x3f == b & 0x3f,
    ensures
        a == b,
{
}

impl CharBitmap {
    /// Whether byte value `b` is in the set.
    pub closed spec fn spec_test(self, b: u8) -> bool {
        (self.words[word_index(b)] >> bit_index(b)) & 1 == 1
    }

    /// The raw 32-byte encoding: the four words, little-endian, in order.
    pub closed spec fn spec_ser(self) -> Seq<u8> {
        spec_u64_to_le_bytes(self.words[0]) + spec_u64_to_le_bytes(self.words[1])
            + spec_u64_to_le_bytes(self.words[2]) + spec_u64_to_le_bytes(self.words[3])
    }

    /// The empty set.
    pub fn new() -> (r: Self)
        ensures
            forall|b: u8| !r.spec_test(b),
    {
        let r = Self { words: [0u64, 0u64, 0u64, 0u64] };
        proof {
            assert forall|b: u8| !r.spec_test(b) by {
                lemma_word_index_range(b);
                let j = bit_index(b);
                assert((0u64 >> j) & 1 == 0) by (bit_vector);
            }
        }
        r
    }

    /// Adds byte value `byte` to the set; no other byte value is affected.
    pub fn set(&mut self, byte: u8)
        ensures
            forall|b: u8| final(self).spec_test(b) == (b == byte || old(self).spec_test(b)),
    {
        proof {
            lemma_word_index_range(byte);
        }
        let word_idx = (byte >> 6) as usize;
        let bit_pos = byte & 0x3F;
        self.words[word_idx] = self.words[word_idx] | (1u64 << bit_pos);
        proof {
            assert forall|b: u8|
                self.spec_test(b) == (b == byte || old(self).spec_test(b)) by {
                lemma_word_index_range(b);
                if word_index(b) == word_index(byte) {
                    lemma_set_bit(old(self).words[word_index(b)], bit_index(byte), bit_index(b));
                    if bit_index(b) == bit_index(byte) {
                        lemma_position_injective(b, byte);
                    }
                }
            }
        }
    }

    /// Whether byte value `byte` is in the set.
    pub fn test(&self, byte: u8) -> (r: bool)
        ensures
            r == self.spec_test(byte),
    {
        proof {
            lemma_word_index_range(byte);
        }
        let word_idx = (byte >> 6) as usize;
        let bit_pos = byte & 0x3F;
        (self.words[word_idx] >> bit_pos) & 1 == 1
    }

    /// Adds every byte of the UTF-8 encoding of `s` to the set.
    pub fn set_str(&mut self, s: &str)
        ensures
            forall|b: u8|
                final(self).spec_test(b) == (s.spec_bytes().contains(b) || old(
                    self,
                ).spec_test(b)),
    {
        let bytes = s.as_bytes();
        self.set_bytes(bytes);
    }

    /// Adds every byte of `bytes` to the set.
    pub fn set_bytes(&mut self, bytes: &[u8])
        ensures
            forall|b: u8|
                final(self).spec_test(b) == (bytes@.contains(b) || old(self).spec_test(b)),
    {
        let mut i: usize = 0;
        while i < bytes.len()
            invariant
                i <= bytes@.len(),
                forall|b: u8|
                    self.spec_test(b) == (bytes@.subrange(0, i as int).contains(b) || old(
                        self,
                    ).spec_test(b)),
            decreases bytes@.len() - i,
        {
            let ghost prev = *self;
            self.set(bytes[i]);
            i = i + 1;
            proof {
                assert forall|b: u8|
                    self.spec_test(b) == (bytes@.subrange(0, i as int).contains(b) || old(
                        self,
                    ).spec_test(b)) by {
                    lemma_subrange_contains_step(bytes@, i - 1, b);
                    assert(self.spec_test(b) == (b == bytes@[i - 1] || prev.spec_test(b)));
                }
            }
        }
        proof {
            assert(bytes@.subrange(0, bytes@.len() as int) =~= bytes@);
        }
    }

    /// Whether every byte of `pattern` is in the set.
    pub fn contains_pattern(&self, pattern: &[u8]) -> (r: bool)
        ensures
            r == forall|k: int| 0 <= k < pattern@.len() ==> self.spec_test(pattern@[k]),
    {
        let mut i: usize = 0;
        while i < pattern.len()
            invariant
                i <= pattern@.len(),
                forall|k: int| 0 <= k < i ==> self.spec_test(pattern@[k]),
            decreases pattern@.len() - i,
        {
            if !self.test(pattern[i]) {
                return false;
            }
            i = i + 1;
        }
        true
    }

    /// Whether byte value `c` is in the set, treating every non-ASCII
    /// value as absent. Used as the first-character pre-filter.
    pub fn get(&self, c: u8) -> (r: bool)
        ensures
            r == (c < 128 && self.spec_test(c)),
    {
        if c >= 128 {
            return false;
        }
        self.test(c)
    }

    /// Whether every byte value in `other` is also in `self`.
    pub fn contains_all(&self, other: &CharBitmap) -> (r: bool)
        ensures
            r == forall|b: u8| other.spec_test(b) ==> self.spec_test(b),
    {
        let mut i: usize = 0;
        while i < 4
            invariant
                i <= 4,
                forall|b: u8|
                    word_index(b) < i ==> (other.spec_test(b) ==> self.spec_test(b)),
            decreases 4 - i,
        {
            let sw = self.words[i];
            let ow = other.words[i];
            if (ow & sw) != ow {
                proof {
                    lemma_word_subset_witness(ow, sw);
                    let j = choose|j: u64|
                        j < 64 && (ow >> j) & 1 == 1 && !((sw >> j) & 1 == 1);
                    let iw = i as u64;
                    let b = ((iw * 64 + j) as u8);
                    assert(((iw * 64 + j) as u8) >> 6 == iw && ((iw * 64 + j) as u8) & 0x3f
                        == j) by (bit_vector)
                        requires
                            iw < 4 && j < 64,
                    ;
                    assert(word_index(b) == i && bit_index(b) == j);
                    assert(other.spec_test(b) && !self.spec_test(b));
                }
                return false;
            }
            proof {
                assert forall|b: u8|
                    word_index(b) < i + 1 implies (other.spec_test(b) ==> self.spec_test(
                    b,
                )) by {
                    if word_index(b) == i {
                        lemma_word_index_range(b);
                        let j = bit_index(b);
                        assert(((ow & sw == ow) && (ow >> j) & 1 == 1) ==> (sw >> j) & 1
                            == 1) by (bit_vector);
                    }
                }
            }
            i = i + 1;
        }
        proof {
            assert forall|b: u8| other.spec_test(b) implies self.spec_test(b) by {
                lemma_word_index_range(b);
            }
        }
        true
    }

    /// The intersection of the two sets.
    pub fn intersect(&self, rhs: &CharBitmap) -> (r: CharBitmap)
        ensures
            forall|b: u8| r.spec_test(b) == (self.spec_test(b) && rhs.spec_test(b)),
    {
        let words = [
            self.words[0] & rhs.words[0],
            self.words[1] & rhs.words[1],
            self.words[2] & rhs.words[2],
            self.words[3] & rhs.words[3],
        ];
        let r = CharBitmap { words };
        proof {
            assert forall|b: u8|
                r.spec_test(b) == (self.spec_test(b) && rhs.spec_test(b)) by {
                lemma_word_index_range(b);
                let x = self.words[word_index(b)];
                let y = rhs.words[word_index(b)];
                let j = bit_index(b);
                assert((((x & y) >> j) & 1 == 1) == ((x >> j) & 1 == 1 && (y >> j) & 1
                    == 1)) by (bit_vector)
                    requires
                        j < 64u64,
                ;
            }
        }
        r
    }

    /// The union of the two sets.
    pub fn union(&self, rhs: &CharBitmap) -> (r: CharBitmap)
        ensures
            forall|b: u8| r.spec_test(b) == (self.spec_test(b) || rhs.spec_test(b)),
    {
        let words = [
            self.words[0] | rhs.words[0],
            self.words[1] | rhs.words[1],
            self.words[2] | rhs.words[2],
            self.words[3] | rhs.words[3],
        ];
        let r = CharBitmap { words };
        proof {
            assert forall|b: u8|
                r.spec_test(b) == (self.spec_test(b) || rhs.spec_test(b)) by {
                lemma_word_index_range(b);
                let x = self.words[word_index(b)];
                let y = rhs.words[word_index(b)];
                let j = bit_index(b);
                assert((((x | y) >> j) & 1 == 1) == ((x >> j) & 1 == 1 || (y >> j) & 1
                    == 1)) by (bit_vector)
                    requires
                        j < 64u64,
                ;
            }
        }
        r
    }

    /// Adds every byte value of `rhs` to `self`.
    pub fn union_assign(&mut self, rhs: &CharBitmap)
        ensures
            forall|b: u8|
                final(self).spec_test(b) == (old(self).spec_test(b) || rhs.spec_test(b)),
    {
        let r = self.union(rhs);
        *self = r;
    }

    /// Appends the raw 32-byte encoding to `out`.
    pub fn write_to(&self, out: &mut Vec<u8>)
        ensures
            final(out)@ == old(out)@ + self.spec_ser(),
    {
        proof {
            lemma_auto_spec_u64_to_from_le_bytes();
            assert(out@ =~= out@ + self.spec_ser().subrange(0, 0));
        }
        let mut i: usize = 0;
        while i < 4
            invariant
                i <= 4,
                self.spec_ser().len() == 32,
                out@ == old(out)@ + self.spec_ser().subrange(0, 8 * i as int),
            decreases 4 - i,
        {
            let mut word_bytes = u64_to_le_bytes(self.words[i]);
            proof {
                lemma_auto_spec_u64_to_from_le_bytes();
            }
            out.append(&mut word_bytes);
            i = i + 1;
            proof {
                assert(out@ =~= old(out)@ + self.spec_ser().subrange(0, 8 * i as int));
            }
        }
        proof {
            assert(self.spec_ser().subrange(0, 32) =~= self.spec_ser());
        }
    }

    /// Reads a bitmap from its raw 32-byte encoding at position `pos` of
    /// `data`; fails when fewer than 32 bytes remain.
    pub fn read_from(data: &[u8], pos: usize) -> (r: Result<(Self, usize), FormatError>)
        ensures
            match r {
                Ok((bm, end)) => {
                    &&& pos + BITMAP_BYTES <= data@.len()
                    &&& end == pos + BITMAP_BYTES
                    &&& bm.spec_ser() == data@.subrange(pos as int, end as int)
                },
                Err(e) => e == FormatError::Truncated && pos + BITMAP_BYTES > data@.len(),
            },
    {
        if data.len() < BITMAP_BYTES || pos > data.len() - BITMAP_BYTES {
            return Err(FormatError::Truncated);
        }
        let n = data.len();
        let mut words = [0u64, 0u64, 0u64, 0u64];
        let mut i: usize = 0;
        while i < 4
            invariant
                i <= 4,
                n == data@.len(),
                pos + BITMAP_BYTES <= n,
                forall|k: int|
                    0 <= k < i ==> words@[k] == spec_u64_from_le_bytes(
                        data@.subrange(pos + 8 * k, pos + 8 * k + 8),
                    ),
            decreases 4 - i,
        {
            let start = pos + 8 * i;
            let word = u64_from_le_bytes(slice_subrange(data, start, start + 8));
            words[i] = word;
            i = i + 1;
        }
        let bm = CharBitmap { words };
        proof {
            lemma_auto_spec_u64_to_from_le_bytes();
            assert forall|k: int| 0 <= k < 4 implies spec_u64_to_le_bytes(bm.words[k])
                =~= data@.subrange(pos + 8 * k, pos + 8 * k + 8) by {
                assert(bm.words[k] == spec_u64_from_le_bytes(
                    data@.subrange(pos + 8 * k, pos + 8 * k + 8),
                ));
            }
            assert(bm.spec_ser() =~= data@.subrange(pos as int, (pos + BITMAP_BYTES) as int));
        }
        Ok((bm, pos + BITMAP_BYTES))
    }

    /// The raw encoding is always 32 bytes long.
    pub proof fn lemma_ser_len(self)
        ensures
            self.spec_ser().len() == BITMAP_BYTES,
    {
        lemma_auto_spec_u64_to_from_le_bytes();
    }

    /// Round trip: reading back a written encoding yields an equal bitmap.
    pub proof fn lemma_ser_injective(a: CharBitmap, b: CharBitmap)
        requires
            a.spec_ser() == b.spec_ser(),
        ensures
            a == b,
    {
        lemma_auto_spec_u64_to_from_le_bytes();
        assert forall|k: int| 0 <= k < 4 implies a.words[k] == b.words[k] by {
            assert(a.spec_ser().subrange(8 * k, 8 * k + 8) =~= spec_u64_to_le_bytes(
                a.words[k],
            ));
            assert(b.spec_ser().subrange(8 * k, 8 * k + 8) =~= spec_u64_to_le_bytes(
                b.words[k],
            ));
        }
        assert(a.words =~= b.words);
    }
}

} // verus!
