//! Fixed-size entry records: one compact descriptor per filesystem
//! object, with a logarithmically compressed size, a minute-granularity
//! compressed timestamp and a hash of the lower-cased file name.

use vstd::arithmetic::div_mod::{lemma_div_denominator, lemma_div_is_ordered,
    lemma_fundamental_div_mod, lemma_fundamental_div_mod_converse, lemma_div_multiples_vanish};
use vstd::arithmetic::power2::{pow2, lemma_pow2_adds, lemma_pow2_pos,
    lemma_pow2_strictly_increases, lemma2_to64, lemma2_to64_rest};
use vstd::bytes::{spec_u32_from_le_bytes, spec_u32_to_le_bytes, spec_u64_from_le_bytes,
    spec_u64_to_le_bytes, u32_from_le_bytes, u32_to_le_bytes, u64_from_le_bytes, u64_to_le_bytes,
    lemma_auto_spec_u32_to_from_le_bytes, lemma_auto_spec_u64_to_from_le_bytes};
use vstd::prelude::*;
use vstd::slice::slice_subrange;
use vstd::string::{StringExecFns, StringSliceAdditionalSpecFns};

use crate::ascii::lower_bytes;
use crate::FormatError;

verus! {

/// The fixed epoch of compressed dates: 2000-01-01T00:00:00Z, in seconds
/// since the Unix epoch.
pub const DATE_EPOCH: u64 = 946684800;

/// Flag bit: the entry describes a directory.
pub const FLAG_DIRECTORY: u8 = 0x01;

/// Flag bit: the object is hidden.
pub const FLAG_HIDDEN: u8 = 0x02;

/// Flag bit: the object belongs to the operating system.
pub const FLAG_SYSTEM: u8 = 0x04;

/// Flag bit: the object is read-only.
pub const FLAG_READONLY: u8 = 0x08;

/// Exclusive upper bound of well-formed compressed sizes: the stored
/// exponent (the high bits) never exceeds 63.
pub const SIZE_CODE_LIMIT: u32 = 16384;

/// Number of bytes in the raw encoding of one entry record.
pub const ENTRY_BYTES: usize = 21;

/// The position of the highest set bit: `floor(log2(n))`, and `0` for
/// `n < 2`.
pub open spec fn size_log(n: nat) -> nat
    decreases n,
{
    if n < 2 {
        0
    } else {
        1 + size_log((n / 2) as nat)
    }
}

/// The compressed form of a size: `0` for `0`; otherwise the exponent
/// `log = floor(log2(n))` in the high bits and, in the low byte, the
/// fraction beyond the implicit leading one, `floor(n * 256 / 2^log) - 256`.
pub open spec fn spec_compress_size(n: u64) -> u32 {
    if n == 0 {
        0
    } else {
        let log = size_log(n as nat);
        let m = (n * 256) / pow2(log) as int - 256;
        (log * 256 + m) as u32
    }
}

/// Reverses the size compression: `0` stands for `0`; otherwise the low
/// byte is the fraction beyond the implicit leading one at the stored
/// exponent. Lossy: only the top nine significant bits survive.
pub open spec fn spec_decompress_size(c: u32) -> u64 {
    if c == 0 {
        0
    } else {
        (((256 + c % 256) * pow2((c / 256) as nat)) / 256) as u64
    }
}

/// The compressed form of a timestamp (seconds since the Unix epoch):
/// whole minutes since `DATE_EPOCH`, truncated to 32 bits; times before
/// the epoch collapse to `0`.
pub open spec fn spec_compress_date(ts: u64) -> u32 {
    if ts < DATE_EPOCH {
        0
    } else {
        (((ts - DATE_EPOCH) / 60) % 0x1_0000_0000) as u32
    }
}

/// Reverses the date compression: the epoch plus the stored number of
/// whole minutes, in seconds since the Unix epoch.
pub open spec fn spec_decompress_date(c: u32) -> u64 {
    (DATE_EPOCH + c * 60) as u64
}

/// The FNV-1a hash of a byte string.
pub open spec fn spec_fnv(s: Seq<u8>) -> u64
    decreases s.len(),
{
    if s.len() == 0 {
        0xcbf29ce484222325u64
    } else {
        vstd::wrapping::u64_specs::wrapping_mul(
            spec_fnv(s.drop_last()) ^ (s.last() as u64),
            0x100000001b3u64,
        )
    }
}

/// `2^e`, for exponents that fit a 64-bit word.
fn pow2_u64(e: u32) -> (r: u64)
    requires
        e <= 63,
    ensures
        r == pow2(e as nat),
{
    proof {
        lemma2_to64();
    }
    let mut p: u64 = 1;
    let mut i: u32 = 0;
    while i < e
        invariant
            i <= e <= 63,
            p == pow2(i as nat),
        decreases e - i,
    {
        proof {
            lemma_pow2_strictly_increases(i as nat, 63);
            lemma_pow2_adds(i as nat, 1);
            lemma2_to64();
            lemma2_to64_rest();
        }
        p = p * 2;
        i = i + 1;
    }
    p
}

/// Powers of two are monotone in the exponent.
proof fn lemma_pow2_le(e1: nat, e2: nat)
    requires
        e1 <= e2,
    ensures
        pow2(e1) <= pow2(e2),
{
    if e1 < e2 {
        lemma_pow2_strictly_increases(e1, e2);
    }
}

/// A quotient is below `k` when the dividend is below `k` times the
/// divisor.
proof fn lemma_div_below(x: int, q: int, k: int)
    requires
        q > 0,
        0 <= x,
        x < k * q,
    ensures
        x / q < k,
{
    if x / q >= k {
        lemma_fundamental_div_mod(x, q);
        assert(q * (x / q) >= k * q) by (nonlinear_arith)
            requires
                x / q >= k,
                q > 0,
        ;
    }
}

/// For `n >= 1`, the exponent `size_log(n)` brackets `n` between two
/// neighbouring powers of two.
proof fn lemma_size_log_bounds(n: nat)
    requires
        n >= 1,
    ensures
        pow2(size_log(n)) <= n < pow2(size_log(n) + 1),
    decreases n,
{
    if n < 2 {
        lemma2_to64();
    } else {
        let h = (n / 2) as nat;
        lemma_size_log_bounds(h);
        lemma_pow2_adds(size_log(h), 1);
        lemma_pow2_adds(size_log(h) + 1, 1);
        lemma2_to64();
    }
}

/// For sizes that fit a 64-bit word the exponent never exceeds 63.
proof fn lemma_size_log_max(n: u64)
    requires
        n >= 1,
    ensures
        size_log(n as nat) <= 63,
{
    lemma_size_log_bounds(n as nat);
    if size_log(n as nat) > 63 {
        lemma_pow2_le(64, size_log(n as nat));
        lemma2_to64_rest();
    }
}

/// Compresses a size logarithmically into 32 bits: the exponent in the
/// high bits, the fraction beyond the implicit leading one in the low
/// byte. `0` encodes `0`; sizes `0` and `1` share the encoding `0`.
pub fn compress_size(size: u64) -> (r: u32)
    ensures
        r == spec_compress_size(size),
        r < SIZE_CODE_LIMIT,
{
    if size == 0 {
        return 0;
    }
    let mut v: u64 = size;
    let mut l: u32 = 0;
    proof {
        lemma2_to64();
        lemma_size_log_max(size);
    }
    while v >= 2
        invariant
            size >= 1,
            l <= 63,
            v == size as int / pow2(l as nat) as int,
            v >= 1,
            size_log(size as nat) == l + size_log(v as nat),
        decreases v,
    {
        proof {
            lemma2_to64();
            lemma_pow2_pos(l as nat);
            lemma_pow2_adds(l as nat, 1);
            lemma_div_denominator(size as int, pow2(l as nat) as int, 2);
            if l >= 63 {
                lemma_size_log_bounds(v as nat);
                lemma_size_log_max(size);
                assert(size_log(size as nat) >= l + 1);
            }
        }
        v = v / 2;
        l = l + 1;
    }
    proof {
        assert(size_log(size as nat) == l);
        lemma_size_log_bounds(size as nat);
        lemma_pow2_adds(l as nat, 1);
        lemma2_to64();
        lemma_pow2_pos(l as nat);
    }
    let wide: u64;
    if l >= 8 {
        let q = pow2_u64(l - 8);
        proof {
            let qs = pow2((l - 8) as nat) as int;
            let ps = pow2(l as nat) as int;
            lemma_pow2_pos((l - 8) as nat);
            lemma_pow2_adds((l - 8) as nat, 8);
            assert(ps == qs * 256);
            lemma_div_denominator((size as int) * 256, 256, qs);
            lemma_div_multiples_vanish(size as int, 256);
            assert((size as int) * 256 == 256 * (size as int)) by (nonlinear_arith);
            assert(qs * 256 == 256 * qs) by (nonlinear_arith);
        }
        wide = size / q;
    } else {
        let p = pow2_u64(l);
        proof {
            lemma_pow2_le((l + 1) as nat, 8);
            lemma2_to64();
        }
        wide = (size * 256) / p;
    }
    proof {
        let ps = pow2(l as nat) as int;
        assert(wide == (size as int) * 256 / ps);
        assert(ps * 256 <= (size as int) * 256 && (size as int) * 256 < 512 * ps) by (nonlinear_arith)
            requires
                ps <= (size as int),
                (size as int) < 2 * ps,
                ps > 0,
        ;
        lemma_div_is_ordered(ps * 256, (size as int) * 256, ps);
        lemma_div_multiples_vanish(256, ps);
        assert(ps * 256 == 256 * ps) by (nonlinear_arith);
        lemma_div_below((size as int) * 256, ps, 512);
    }
    let m = (wide as u32) - 256;
    l * 256 + m
}

/// Reverses the size compression; `0` decodes to `0`. The argument must
/// carry a well-formed exponent (at most 63 in the high bits), as every
/// value produced by `compress_size` does.
pub fn decompress_size(compressed: u32) -> (r: u64)
    requires
        compressed < SIZE_CODE_LIMIT,
    ensures
        r == spec_decompress_size(compressed),
{
    if compressed == 0 {
        return 0;
    }
    let log = compressed / 256;
    let m = compressed % 256;
    if log >= 8 {
        let p8 = pow2_u64(log - 8);
        proof {
            let qs = pow2((log - 8) as nat) as int;
            let ps = pow2(log as nat) as int;
            lemma_pow2_pos((log - 8) as nat);
            lemma_pow2_adds((log - 8) as nat, 8);
            lemma2_to64();
            assert(ps == qs * 256);
            lemma_pow2_le((log - 8) as nat, 55);
            lemma2_to64_rest();
            let p55 = pow2(55) as int;
            assert((256 + m as int) * qs <= 511 * p55) by (nonlinear_arith)
                requires
                    (m as int) <= 255,
                    0 < qs <= p55,
            ;
            assert((256 + m as int) * ps == 256 * ((256 + m as int) * qs)) by (nonlinear_arith)
                requires
                    ps == qs * 256,
            ;
            lemma_div_multiples_vanish((256 + m as int) * qs, 256);
        }
        (256 + m as u64) * p8
    } else {
        let p = pow2_u64(log);
        proof {
            lemma_pow2_pos(log as nat);
            lemma_pow2_le(log as nat, 7);
            lemma2_to64();
            assert((256 + m as int) * pow2(log as nat) <= 511 * 128) by (nonlinear_arith)
                requires
                    (m as int) <= 255,
                    0 < pow2(log as nat) <= 128,
            ;
        }
        ((256 + m as u64) * p) / 256
    }
}

/// Compresses a timestamp (seconds since the Unix epoch) to whole
/// minutes since `DATE_EPOCH`, truncated to 32 bits; times before the
/// epoch collapse to `0`.
pub fn compress_date(timestamp: u64) -> (r: u32)
    ensures
        r == spec_compress_date(timestamp),
{
    if timestamp < DATE_EPOCH {
        return 0;
    }
    #[verifier::truncate]
    let minutes = ((timestamp - DATE_EPOCH) / 60) as u32;
    proof {
        assert(((timestamp - DATE_EPOCH) / 60) as u32 == (((timestamp - DATE_EPOCH) / 60)
            % 0x1_0000_0000) as u32) by (bit_vector);
    }
    minutes
}

/// Reverses the date compression: the epoch plus the stored number of
/// whole minutes, in seconds since the Unix epoch.
pub fn decompress_date(compressed: u32) -> (r: u64)
    ensures
        r == spec_decompress_date(compressed),
{
    DATE_EPOCH + (compressed as u64) * 60
}

/// The FNV-1a hash of the UTF-8 bytes of a string.
pub fn fast_hash(s: &str) -> (r: u64)
    ensures
        r == spec_fnv(s.spec_bytes()),
{
    fast_hash_bytes(s.as_bytes())
}

/// The FNV-1a hash of a byte string.
pub fn fast_hash_bytes(s: &[u8]) -> (r: u64)
    ensures
        r == spec_fnv(s@),
{
    let mut hash: u64 = 0xcbf29ce484222325;
    let mut i: usize = 0;
    while i < s.len()
        invariant
            i <= s@.len(),
            hash == spec_fnv(s@.subrange(0, i as int)),
        decreases s@.len() - i,
    {
        hash = hash ^ (s[i] as u64);
        hash = hash.wrapping_mul(0x100000001b3);
        i = i + 1;
        proof {
            let cur = s@.subrange(0, i as int);
            assert(cur.drop_last() =~= s@.subrange(0, i - 1));
            assert(cur.last() == s@[i - 1]);
        }
    }
    proof {
        assert(s@.subrange(0, s@.len() as int) =~= s@);
    }
    hash
}

/// Compressing a size and reversing the compression loses at most one
/// part in 256 (under 0.5% relative error), and never rounds up; `0`
/// round-trips exactly. Size `1` is left out: it shares the encoding
/// `0` with size `0` and decodes to `0`.
pub proof fn lemma_size_round_trip(n: u64)
    requires
        n != 1,
    ensures
        spec_decompress_size(spec_compress_size(n)) <= n,
        256 * (n - spec_decompress_size(spec_compress_size(n))) <= n,
{
    if n == 0 {
        return ;
    }
    let log = size_log(n as nat);
    let p = pow2(log) as int;
    lemma_size_log_bounds(n as nat);
    lemma_size_log_max(n);
    lemma_pow2_pos(log);
    lemma_pow2_adds(log, 1);
    lemma2_to64();
    assert(log >= 1);
    let mm = (n * 256) / p;
    let m = mm - 256;
    assert(p * 256 <= (n as int) * 256 < (2 * p) * 256) by (nonlinear_arith)
        requires
            p <= (n as int) < 2 * p && p > 0,
    ;
    lemma_div_is_ordered(p * 256, (n as int) * 256, p);
    lemma_div_multiples_vanish(256, p);
    assert(p * 256 == 256 * p) by (nonlinear_arith);
    assert(mm < 512) by {
        if mm >= 512 {
            lemma_fundamental_div_mod((n as int) * 256, p);
            assert(mm * p >= 512 * p) by (nonlinear_arith)
                requires
                    mm >= 512 && p > 0,
            ;
            assert((2 * p) * 256 == 512 * p) by (nonlinear_arith);
        }
    }
    let c = spec_compress_size(n);
    assert(c == log * 256 + m);
    lemma_fundamental_div_mod_converse(c as int, 256, log as int, m);
    assert(c != 0);
    let val = ((256 + m) * p) / 256;
    assert((256 + m) * p == mm * p) by (nonlinear_arith)
        requires
            mm == 256 + m,
    ;
    if log >= 8 {
        let q = pow2((log - 8) as nat) as int;
        lemma_pow2_adds(8, (log - 8) as nat);
        lemma2_to64();
        lemma_pow2_pos((log - 8) as nat);
        assert(p == 256 * q);
        // mm == (n * 256) / (256 * q) == n / q
        lemma_div_denominator((n as int) * 256, 256, q);
        lemma_div_multiples_vanish(n as int, 256);
        assert((n as int) * 256 == 256 * (n as int)) by (nonlinear_arith);
        assert(mm == n as int / q);
        // d == (mm * 256 * q) / 256 == mm * q
        assert(mm * p == 256 * (mm * q)) by (nonlinear_arith)
            requires
                p == 256 * q,
        ;
        lemma_div_multiples_vanish(mm * q, 256);
        assert(val == mm * q);
        lemma_fundamental_div_mod(n as int, q);
        let s = (n as int) % q;
        assert(n as int == q * mm + s);
        assert(q * mm == mm * q) by (nonlinear_arith);
        assert(val <= n as int);
        assert(n as int - val == s);
        assert(256 * s <= 256 * (q - 1)) by (nonlinear_arith)
            requires
                s <= q - 1,
        ;
        assert(256 * (q - 1) == 256 * q - 256) by (nonlinear_arith);
        assert(256 * s <= p - 256);
    } else {
        let q8 = pow2((8 - log) as nat) as int;
        lemma_pow2_adds(log, (8 - log) as nat);
        lemma2_to64();
        lemma_pow2_pos((8 - log) as nat);
        assert(p * q8 == 256);
        // mm == (n * q8 * p) / p == n * q8, exactly
        assert((n as int) * 256 == p * ((n as int) * q8)) by (nonlinear_arith)
            requires
                p * q8 == 256,
        ;
        lemma_div_multiples_vanish((n as int) * q8, p);
        assert(mm == (n as int) * q8);
        // d == (mm * p) / 256 == n, exactly
        assert(mm * p == 256 * (n as int)) by (nonlinear_arith)
            requires
                mm == (n as int) * q8 && p * q8 == 256,
        ;
        lemma_div_multiples_vanish(n as int, 256);
        assert(val == n as int);
    }
    assert(0 <= val <= n as int);
    assert(spec_decompress_size(c) == val);
}

/// The character standing for one hex digit.
pub open spec fn hex_digit(d: nat) -> char {
    if d == 0 {
        '0'
    } else if d == 1 {
        '1'
    } else if d == 2 {
        '2'
    } else if d == 3 {
        '3'
    } else if d == 4 {
        '4'
    } else if d == 5 {
        '5'
    } else if d == 6 {
        '6'
    } else if d == 7 {
        '7'
    } else if d == 8 {
        '8'
    } else if d == 9 {
        '9'
    } else if d == 10 {
        'a'
    } else if d == 11 {
        'b'
    } else if d == 12 {
        'c'
    } else if d == 13 {
        'd'
    } else if d == 14 {
        'e'
    } else {
        'f'
    }
}

/// The minimal lower-case hexadecimal rendering of a number.
pub open spec fn spec_hex(h: nat) -> Seq<char>
    decreases h,
{
    if h < 16 {
        seq![hex_digit(h)]
    } else {
        spec_hex(h / 16).push(hex_digit(h % 16))
    }
}

/// The one-character string for hex digit `d`.
fn hex_digit_str(d: u64) -> (r: &'static str)
    requires
        d < 16,
    ensures
        r@ == seq![hex_digit(d as nat)],
{
    proof {
        reveal_strlit("0");
        reveal_strlit("1");
        reveal_strlit("2");
        reveal_strlit("3");
        reveal_strlit("4");
        reveal_strlit("5");
        reveal_strlit("6");
        reveal_strlit("7");
        reveal_strlit("8");
        reveal_strlit("9");
        reveal_strlit("a");
        reveal_strlit("b");
        reveal_strlit("c");
        reveal_strlit("d");
        reveal_strlit("e");
        reveal_strlit("f");
    }
    let r: &'static str = if d == 0 {
        "0"
    } else if d == 1 {
        "1"
    } else if d == 2 {
        "2"
    } else if d == 3 {
        "3"
    } else if d == 4 {
        "4"
    } else if d == 5 {
        "5"
    } else if d == 6 {
        "6"
    } else if d == 7 {
        "7"
    } else if d == 8 {
        "8"
    } else if d == 9 {
        "9"
    } else if d == 10 {
        "a"
    } else if d == 11 {
        "b"
    } else if d == 12 {
        "c"
    } else if d == 13 {
        "d"
    } else if d == 14 {
        "e"
    } else {
        "f"
    };
    proof {
        assert(r@ =~= seq![hex_digit(d as nat)]);
    }
    r
}

/// The minimal lower-case hexadecimal rendering of a number.
pub fn hex_u64(h: u64) -> (r: String)
    ensures
        r@ == spec_hex(h as nat),
    decreases h,
{
    if h < 16 {
        String::from_str(hex_digit_str(h))
    } else {
        let mut s = hex_u64(h / 16);
        s.append(hex_digit_str(h % 16));
        proof {
            assert(s@ =~= spec_hex(h as nat));
        }
        s
    }
}

/// One fixed-size record describing a filesystem object: a reference
/// into the path table, a hash of the lower-cased file name, attribute
/// flags, and the compressed size and modification time.
#[derive(Clone, Copy, Debug, PartialEq, Eq, Structural)]
pub struct FileEntry {
    pub path_id: u32,
    pub name_hash: u64,
    pub flags: u8,
    pub size: u32,
    pub date: u32,
}

impl FileEntry {
    /// Well-formed: the compressed size carries an exponent of at most
    /// 63, as every value of `compress_size` does, so decompression
    /// cannot overflow.
    pub open spec fn wf(self) -> bool {
        self.size < SIZE_CODE_LIMIT
    }

    /// The raw 21-byte encoding: each field little-endian, in order.
    pub open spec fn spec_ser(self) -> Seq<u8> {
        spec_u32_to_le_bytes(self.path_id) + spec_u64_to_le_bytes(self.name_hash) + seq![
            self.flags,
        ] + spec_u32_to_le_bytes(self.size) + spec_u32_to_le_bytes(self.date)
    }

    /// Builds a record from plain attributes: the file name (UTF-8
    /// bytes), exact size, directory flag and modification time in
    /// seconds since the Unix epoch. The name is lower-cased before it
    /// is hashed; size and time are stored compressed.
    pub fn new(path_id: u32, name: &[u8], size: u64, is_dir: bool, modified: u64) -> (r: Self)
        ensures
            r.path_id == path_id,
            r.name_hash == spec_fnv(lower_bytes(name@)),
            r.flags == if is_dir {
                FLAG_DIRECTORY
            } else {
                0u8
            },
            r.size == spec_compress_size(size),
            r.date == spec_compress_date(modified),
            r.wf(),
    {
        let lowered = crate::ascii::to_lower(name);
        let flags: u8 = if is_dir {
            FLAG_DIRECTORY
        } else {
            0
        };
        FileEntry {
            path_id,
            name_hash: fast_hash_bytes(lowered.as_slice()),
            flags,
            size: compress_size(size),
            date: compress_date(modified),
        }
    }

    /// Whether the record describes a directory.
    pub open spec fn spec_is_dir(self) -> bool {
        self.flags & FLAG_DIRECTORY == FLAG_DIRECTORY
    }

    /// Whether the record describes a directory.
    pub fn is_dir(&self) -> (r: bool)
        ensures
            r == self.spec_is_dir(),
    {
        self.flags & FLAG_DIRECTORY == FLAG_DIRECTORY
    }

    /// The approximate size the record stands for.
    pub fn decompress_size(&self) -> (r: u64)
        requires
            self.wf(),
        ensures
            r == spec_decompress_size(self.size),
    {
        decompress_size(self.size)
    }

    /// The modification time the record stands for, rounded down to the
    /// minute, in seconds since the Unix epoch.
    pub fn decompress_date(&self) -> (r: u64)
        ensures
            r == spec_decompress_date(self.date),
    {
        decompress_date(self.date)
    }

    /// Stores the identifier the path table assigned for this record's
    /// path; every other field is kept.
    pub fn set_path_id(&mut self, path_id: u32)
        ensures
            *final(self) == (FileEntry { path_id, ..*old(self) }),
    {
        self.path_id = path_id;
    }

    /// A printable stand-in for the name: the hex rendering of the name
    /// hash. The name itself is not recoverable from a record.
    pub fn get_name(&self) -> (r: String)
        ensures
            r@ == spec_hex(self.name_hash as nat),
    {
        hex_u64(self.name_hash)
    }

    /// Appends the raw 21-byte encoding to `out`.
    pub fn write_to(&self, out: &mut Vec<u8>)
        ensures
            final(out)@ == old(out)@ + self.spec_ser(),
    {
        let mut piece = u32_to_le_bytes(self.path_id);
        out.append(&mut piece);
        let mut piece = u64_to_le_bytes(self.name_hash);
        out.append(&mut piece);
        out.push(self.flags);
        let mut piece = u32_to_le_bytes(self.size);
        out.append(&mut piece);
        let mut piece = u32_to_le_bytes(self.date);
        out.append(&mut piece);
        proof {
            lemma_auto_spec_u32_to_from_le_bytes();
            lemma_auto_spec_u64_to_from_le_bytes();
            assert(out@ =~= old(out)@ + self.spec_ser());
        }
    }

    /// The value of the compressed-size field inside a raw encoding.
    pub open spec fn spec_size_field(data: Seq<u8>, pos: int) -> u32 {
        spec_u32_from_le_bytes(data.subrange(pos + 13, pos + 17))
    }

    /// Reads a record from its raw 21-byte encoding at position `pos` of
    /// `data`. Fails when fewer than 21 bytes remain, and when the
    /// stored compressed size carries an exponent over 63 (no value
    /// `compress_size` produces): such a record would not be safe to
    /// decompress.
    pub fn read_from(data: &[u8], pos: usize) -> (r: Result<(Self, usize), FormatError>)
        ensures
            match r {
                Ok((e, end)) => {
                    &&& pos + ENTRY_BYTES <= data@.len()
                    &&& Self::spec_size_field(data@, pos as int) < SIZE_CODE_LIMIT
                    &&& end == pos + ENTRY_BYTES
                    &&& e.wf()
                    &&& e.spec_ser() == data@.subrange(pos as int, end as int)
                },
                Err(e) => {
                    &&& e == FormatError::Truncated
                    &&& (pos + ENTRY_BYTES > data@.len() || Self::spec_size_field(
                        data@,
                        pos as int,
                    ) >= SIZE_CODE_LIMIT)
                },
            },
    {
        if data.len() < ENTRY_BYTES || pos > data.len() - ENTRY_BYTES {
            return Err(FormatError::Truncated);
        }
        let path_id = u32_from_le_bytes(slice_subrange(data, pos, pos + 4));
        let name_hash = u64_from_le_bytes(slice_subrange(data, pos + 4, pos + 12));
        let flags = data[pos + 12];
        let size = u32_from_le_bytes(slice_subrange(data, pos + 13, pos + 17));
        let date = u32_from_le_bytes(slice_subrange(data, pos + 17, pos + 21));
        if size >= SIZE_CODE_LIMIT {
            return Err(FormatError::Truncated);
        }
        let e = FileEntry { path_id, name_hash, flags, size, date };
        proof {
            lemma_auto_spec_u32_to_from_le_bytes();
            lemma_auto_spec_u64_to_from_le_bytes();
            assert(e.spec_ser() =~= data@.subrange(pos as int, (pos + ENTRY_BYTES) as int));
        }
        Ok((e, pos + ENTRY_BYTES))
    }

    /// Records with equal encodings are equal.
    pub proof fn lemma_ser_injective(a: FileEntry, b: FileEntry)
        requires
            a.spec_ser() == b.spec_ser(),
        ensures
            a == b,
    {
        lemma_auto_spec_u32_to_from_le_bytes();
        lemma_auto_spec_u64_to_from_le_bytes();
        assert(a.spec_ser().subrange(0, 4) =~= spec_u32_to_le_bytes(a.path_id));
        assert(b.spec_ser().subrange(0, 4) =~= spec_u32_to_le_bytes(b.path_id));
        assert(a.spec_ser().subrange(4, 12) =~= spec_u64_to_le_bytes(a.name_hash));
        assert(b.spec_ser().subrange(4, 12) =~= spec_u64_to_le_bytes(b.name_hash));
        assert(a.spec_ser()[12] == a.flags && b.spec_ser()[12] == b.flags);
        assert(a.spec_ser().subrange(13, 17) =~= spec_u32_to_le_bytes(a.size));
        assert(b.spec_ser().subrange(13, 17) =~= spec_u32_to_le_bytes(b.size));
        assert(a.spec_ser().subrange(17, 21) =~= spec_u32_to_le_bytes(a.date));
        assert(b.spec_ser().subrange(17, 21) =~= spec_u32_to_le_bytes(b.date));
    }
}

/// Compressing a time at or after the epoch and reversing the
/// compression rounds it down to the whole minute. Times before the
/// epoch collapse to the epoch itself; minute counts beyond the 32-bit
/// range are left out.
pub proof fn lemma_date_round_trip(t: u64)
    requires
        t >= DATE_EPOCH,
        (t - DATE_EPOCH) / 60 < 0x1_0000_0000,
    ensures
        spec_decompress_date(spec_compress_date(t)) == t - ((t - DATE_EPOCH) % 60),
{
    let e = (t - DATE_EPOCH) as int;
    lemma_fundamental_div_mod(e, 60);
}

} // verus!
