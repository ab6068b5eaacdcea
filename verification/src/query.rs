//! The query parser: splits a query into whitespace-separated tokens,
//! turns recognized `size:`, `date:`, `path:` and `regex:` tokens into
//! structured filters, and joins the rest back into the free search
//! text. Parsing is best-effort: a recognized prefix with an
//! unparseable body is dropped, never an error.

use vstd::prelude::*;
use vstd::slice::{slice_subrange, slice_to_vec};
use vstd::utf8::valid_utf8;

use crate::ascii::bytes_eq;

verus! {

/// One structured filter taken from the query.
#[derive(Debug, Clone)]
pub enum SearchFilter {
    Size(SizeFilter),
    Date(DateFilter),
    Path(Vec<u8>),
    Type(FileType),
}

/// A size constraint: exact, one-sided or a range, in bytes.
#[derive(Debug, Clone, Copy, PartialEq, Eq, Structural)]
pub enum SizeFilter {
    Exact(u64),
    Greater(u64),
    Less(u64),
    Range(u64, u64),
}

/// A date constraint, in integer epoch units.
#[derive(Debug, Clone, Copy, PartialEq, Eq, Structural)]
pub enum DateFilter {
    Before(i64),
    After(i64),
    Between(i64, i64),
}

/// A file-kind constraint.
#[derive(Debug, Clone)]
pub enum FileType {
    File,
    Directory,
    Extension(Vec<u8>),
}

/// A parsed query: the free text (tokens joined by single spaces), the
/// structured filters in token order, and the compiled pattern of the
/// last well-formed `regex:` token, if any.
pub struct SearchQuery {
    pub text: Vec<u8>,
    pub filters: Vec<SearchFilter>,
    pub regex: Option<regex::Regex>,
}

#[verifier::external_type_specification]
#[verifier::external_body]
pub struct ExRegex(regex::Regex);

/// Names what `regex::Regex::new` accepts: whether a pattern (given as
/// the UTF-8 bytes of its text) is a well-formed regular expression.
/// Compilation depends on the pattern text alone.
pub uninterp spec fn regex_compiles(pattern: Seq<u8>) -> bool;

/// Relies on `regex::Regex::new`: it accepts or rejects a pattern by
/// its text alone. Patterns that are not valid UTF-8 cannot be given to
/// it and are rejected here.
#[verifier::external_body]
fn compile_regex(pattern: &[u8]) -> (r: Option<regex::Regex>)
    ensures
        r is Some == (valid_utf8(pattern@) && regex_compiles(pattern@)),
{
    match core::str::from_utf8(pattern) {
        Ok(s) => regex::Regex::new(s).ok(),
        Err(_) => None,
    }
}

/// Whether `b` is an ASCII decimal digit.
pub open spec fn is_digit(b: u8) -> bool {
    48 <= b <= 57
}

/// Whether every byte of `s` is an ASCII decimal digit.
pub open spec fn all_digits(s: Seq<u8>) -> bool {
    forall|i: int| 0 <= i < s.len() ==> is_digit(#[trigger] s[i])
}

/// The number an all-digit string denotes, most significant first.
pub open spec fn digits_value(s: Seq<u8>) -> int
    decreases s.len(),
{
    if s.len() == 0 {
        0
    } else {
        digits_value(s.drop_last()) * 10 + (s.last() - 48)
    }
}

/// What parsing an unsigned number accepts: one or more ASCII digits
/// (no sign), denoting a value that fits 64 bits.
pub open spec fn spec_parse_digits(s: Seq<u8>) -> Option<u64> {
    if s.len() == 0 || !all_digits(s) || digits_value(s) > u64::MAX {
        None
    } else {
        Some(digits_value(s) as u64)
    }
}

/// What `u64` parsing accepts: an optional leading plus sign, then
/// digits whose value fits.
pub open spec fn spec_parse_u64(s: Seq<u8>) -> Option<u64> {
    if s.len() > 0 && s[0] == 43 {
        spec_parse_digits(s.subrange(1, s.len() as int))
    } else {
        spec_parse_digits(s)
    }
}

/// What `i64` parsing accepts: an optional sign, then digits whose
/// signed value fits.
pub open spec fn spec_parse_i64(s: Seq<u8>) -> Option<i64> {
    if s.len() > 0 && s[0] == 45 {
        let t = s.subrange(1, s.len() as int);
        if t.len() == 0 || !all_digits(t) || digits_value(t) > 0x8000_0000_0000_0000 {
            None
        } else {
            Some((-digits_value(t)) as i64)
        }
    } else {
        let t = if s.len() > 0 && s[0] == 43 {
            s.subrange(1, s.len() as int)
        } else {
            s
        };
        if t.len() == 0 || !all_digits(t) || digits_value(t) > i64::MAX {
            None
        } else {
            Some(digits_value(t) as i64)
        }
    }
}

/// A value over the limit stays over it when more digits follow.
proof fn lemma_digits_value_grows(s: Seq<u8>, k: int)
    requires
        0 <= k <= s.len(),
        all_digits(s),
    ensures
        digits_value(s.subrange(0, k)) <= digits_value(s),
    decreases s.len() - k,
{
    if k < s.len() {
        let next = s.subrange(0, k + 1);
        assert(next.drop_last() =~= s.subrange(0, k));
        assert(next.last() == s[k]);
        assert(digits_value(next) == digits_value(s.subrange(0, k)) * 10 + (s[k] - 48));
        assert(all_digits(s.subrange(0, k)));
        lemma_digits_value_nonneg(s.subrange(0, k));
        assert(digits_value(s.subrange(0, k)) * 10 >= digits_value(s.subrange(0, k))) by (nonlinear_arith)
            requires
                digits_value(s.subrange(0, k)) >= 0,
        ;
        lemma_digits_value_grows(s, k + 1);
        assert(s.subrange(0, s.len() as int) =~= s);
    } else {
        assert(s.subrange(0, k) =~= s);
    }
}

/// The denoted value is never negative.
proof fn lemma_digits_value_nonneg(s: Seq<u8>)
    requires
        all_digits(s),
    ensures
        digits_value(s) >= 0,
    decreases s.len(),
{
    if s.len() > 0 {
        assert(all_digits(s.drop_last()));
        lemma_digits_value_nonneg(s.drop_last());
        assert(digits_value(s.drop_last()) * 10 >= 0) by (nonlinear_arith)
            requires
                digits_value(s.drop_last()) >= 0,
        ;
    }
}

/// Parses an unsigned decimal number: one or more ASCII digits, value
/// fitting 64 bits; anything else is rejected.
pub fn parse_digits(s: &[u8]) -> (r: Option<u64>)
    ensures
        r == spec_parse_digits(s@),
{
    let n = s.len();
    if n == 0 {
        return None;
    }
    let mut acc: u64 = 0;
    let mut i: usize = 0;
    proof {
        assert(s@.subrange(0, 0).len() == 0);
    }
    while i < n
        invariant
            n == s@.len(),
            i <= n,
            all_digits(s@.subrange(0, i as int)),
            acc == digits_value(s@.subrange(0, i as int)),
        decreases n - i,
    {
        let b = s[i];
        if b < 48 || b > 57 {
            proof {
                assert(!is_digit(s@[i as int]));
            }
            return None;
        }
        let d = (b - 48) as u64;
        if acc > u64::MAX / 10 || (acc == u64::MAX / 10 && d > u64::MAX % 10) {
            proof {
                vstd::arithmetic::div_mod::lemma_fundamental_div_mod(u64::MAX as int, 10);
                assert(acc * 10 + d > u64::MAX) by (nonlinear_arith)
                    requires
                        u64::MAX as int == 10 * (u64::MAX as int / 10) + u64::MAX as int % 10,
                        0 <= d <= 9,
                        acc > u64::MAX / 10 || (acc == u64::MAX / 10 && d > u64::MAX % 10),
                ;
                let next = s@.subrange(0, i + 1);
                assert(next.drop_last() =~= s@.subrange(0, i as int));
                assert(next.last() == s@[i as int]);
                assert(digits_value(next) == acc * 10 + d);
                if all_digits(s@) {
                    assert(next =~= s@.subrange(0, i + 1));
                    lemma_digits_value_grows(s@, i + 1);
                    assert(digits_value(s@) > u64::MAX);
                }
            }
            return None;
        }
        proof {
            vstd::arithmetic::div_mod::lemma_fundamental_div_mod(u64::MAX as int, 10);
            assert(acc * 10 + d <= u64::MAX) by (nonlinear_arith)
                requires
                    u64::MAX as int == 10 * (u64::MAX as int / 10) + u64::MAX as int % 10,
                    0 <= d <= 9,
                    acc >= 0,
                    !(acc > u64::MAX / 10 || (acc == u64::MAX / 10 && d > u64::MAX % 10)),
            ;
            let next = s@.subrange(0, i + 1);
            assert(next.drop_last() =~= s@.subrange(0, i as int));
            assert(next.last() == s@[i as int]);
        }
        acc = acc * 10 + d;
        i = i + 1;
    }
    proof {
        assert(s@.subrange(0, n as int) =~= s@);
    }
    Some(acc)
}

/// Parses an unsigned decimal number with an optional leading plus.
pub fn parse_u64(s: &[u8]) -> (r: Option<u64>)
    ensures
        r == spec_parse_u64(s@),
{
    if s.len() > 0 && s[0] == 43 {
        parse_digits(slice_subrange(s, 1, s.len()))
    } else {
        parse_digits(s)
    }
}

/// Parses a signed decimal number with an optional sign.
pub fn parse_i64(s: &[u8]) -> (r: Option<i64>)
    ensures
        r == spec_parse_i64(s@),
{
    if s.len() > 0 && s[0] == 45 {
        let t = slice_subrange(s, 1, s.len());
        match parse_digits(t) {
            Some(m) => {
                proof {
                    if t@.len() > 0 && all_digits(t@) {
                        lemma_digits_value_nonneg(t@);
                    }
                }
                if m > 0x8000_0000_0000_0000 {
                    None
                } else if m == 0x8000_0000_0000_0000 {
                    Some(i64::MIN)
                } else {
                    Some(-(m as i64))
                }
            },
            None => {
                proof {
                    if !(t@.len() == 0 || !all_digits(t@)) {
                        assert(digits_value(t@) > u64::MAX);
                    }
                }
                None
            },
        }
    } else {
        let t = if s.len() > 0 && s[0] == 43 {
            slice_subrange(s, 1, s.len())
        } else {
            s
        };
        match parse_digits(t) {
            Some(m) => {
                proof {
                    lemma_digits_value_nonneg(t@);
                }
                if m > i64::MAX as u64 {
                    None
                } else {
                    Some(m as i64)
                }
            },
            None => {
                proof {
                    if !(t@.len() == 0 || !all_digits(t@)) {
                        assert(digits_value(t@) > u64::MAX);
                    }
                }
                None
            },
        }
    }
}

/// The position of the first ".." in `s`, or the length of `s` when
/// there is none.
pub open spec fn spec_first_dotdot(s: Seq<u8>) -> int
    decreases s.len(),
{
    if s.len() < 2 {
        s.len() as int
    } else if s[0] == 46 && s[1] == 46 {
        0
    } else {
        1 + spec_first_dotdot(s.subrange(1, s.len() as int))
    }
}

proof fn lemma_first_dotdot_bounds(s: Seq<u8>)
    ensures
        0 <= spec_first_dotdot(s) <= s.len(),
        spec_first_dotdot(s) + 2 <= s.len() ==> s[spec_first_dotdot(s)] == 46 && s[
            spec_first_dotdot(s) + 1] == 46,
        forall|k: int|
            0 <= k < spec_first_dotdot(s) && k + 2 <= s.len() ==> !(#[trigger] s[k] == 46 && s[k
                + 1] == 46),
    decreases s.len(),
{
    if s.len() >= 2 && !(s[0] == 46 && s[1] == 46) {
        let t = s.subrange(1, s.len() as int);
        lemma_first_dotdot_bounds(t);
        assert forall|k: int|
            0 <= k < spec_first_dotdot(s) && k + 2 <= s.len() implies !(#[trigger] s[k] == 46
            && s[k + 1] == 46) by {
            if k > 0 {
                assert(t[k - 1] == s[k] && t[k] == s[k + 1]);
            }
        }
    }
}

/// Finds the first ".." in `s`; returns the length of `s` when none.
fn find_dotdot(s: &[u8]) -> (r: usize)
    ensures
        r == spec_first_dotdot(s@),
{
    let n = s.len();
    if n < 2 {
        return n;
    }
    let mut i: usize = 0;
    proof {
        assert(s@.subrange(0, n as int) =~= s@);
    }
    while n - i >= 2
        invariant
            n == s@.len(),
            i <= n,
            spec_first_dotdot(s@) == i + spec_first_dotdot(s@.subrange(i as int, n as int)),
        decreases n - i,
    {
        let ghost rem = s@.subrange(i as int, n as int);
        if s[i] == 46 && s[i + 1] == 46 {
            proof {
                assert(rem[0] == 46 && rem[1] == 46);
                assert(spec_first_dotdot(rem) == 0);
            }
            return i;
        }
        proof {
            assert(rem[0] == s@[i as int] && rem[1] == s@[i + 1]);
            assert(rem.subrange(1, rem.len() as int) =~= s@.subrange(i + 1, n as int));
            assert(spec_first_dotdot(rem) == 1 + spec_first_dotdot(
                s@.subrange(i + 1, n as int),
            ));
        }
        i = i + 1;
    }
    proof {
        let rem = s@.subrange(i as int, n as int);
        assert(rem.len() < 2);
        assert(spec_first_dotdot(rem) == rem.len());
    }
    n
}

impl SizeFilter {
    /// What parsing a `size:` body yields: `A..B` as a range, `>N` and
    /// `<N` as one-sided bounds, a bare number as an exact size;
    /// anything else is rejected.
    pub open spec fn spec_from(s: Seq<u8>) -> Option<SizeFilter> {
        let dd = spec_first_dotdot(s);
        if dd + 2 <= s.len() {
            match (spec_parse_u64(s.subrange(0, dd)), spec_parse_u64(
                s.subrange(dd + 2, s.len() as int),
            )) {
                (Some(a), Some(b)) => Some(SizeFilter::Range(a, b)),
                _ => None,
            }
        } else if s.len() > 0 && s[0] == 62 {
            match spec_parse_u64(s.subrange(1, s.len() as int)) {
                Some(v) => Some(SizeFilter::Greater(v)),
                None => None,
            }
        } else if s.len() > 0 && s[0] == 60 {
            match spec_parse_u64(s.subrange(1, s.len() as int)) {
                Some(v) => Some(SizeFilter::Less(v)),
                None => None,
            }
        } else {
            match spec_parse_u64(s) {
                Some(v) => Some(SizeFilter::Exact(v)),
                None => None,
            }
        }
    }

    /// Parses the body of a `size:` token.
    pub fn from_str(s: &[u8]) -> (r: Result<SizeFilter, &'static str>)
        ensures
            match r {
                Ok(f) => Self::spec_from(s@) == Some(f),
                Err(_) => Self::spec_from(s@) is None,
            },
    {
        let n = s.len();
        let dd = find_dotdot(s);
        proof {
            lemma_first_dotdot_bounds(s@);
        }
        if n - dd >= 2 {
            let a = parse_u64(slice_subrange(s, 0, dd));
            let b = parse_u64(slice_subrange(s, dd + 2, n));
            match (a, b) {
                (Some(a), Some(b)) => Ok(SizeFilter::Range(a, b)),
                _ => Err("Invalid size"),
            }
        } else if n > 0 && s[0] == 62 {
            match parse_u64(slice_subrange(s, 1, n)) {
                Some(v) => Ok(SizeFilter::Greater(v)),
                None => Err("Invalid size"),
            }
        } else if n > 0 && s[0] == 60 {
            match parse_u64(slice_subrange(s, 1, n)) {
                Some(v) => Ok(SizeFilter::Less(v)),
                None => Err("Invalid size"),
            }
        } else {
            match parse_u64(s) {
                Some(v) => Ok(SizeFilter::Exact(v)),
                None => Err("Invalid size"),
            }
        }
    }
}

impl DateFilter {
    /// What parsing a `date:` body yields: `A..B` as a range, `>T` and
    /// `<T` as one-sided bounds; a bare number is rejected.
    pub open spec fn spec_from(s: Seq<u8>) -> Option<DateFilter> {
        let dd = spec_first_dotdot(s);
        if dd + 2 <= s.len() {
            match (spec_parse_i64(s.subrange(0, dd)), spec_parse_i64(
                s.subrange(dd + 2, s.len() as int),
            )) {
                (Some(a), Some(b)) => Some(DateFilter::Between(a, b)),
                _ => None,
            }
        } else if s.len() > 0 && s[0] == 62 {
            match spec_parse_i64(s.subrange(1, s.len() as int)) {
                Some(v) => Some(DateFilter::After(v)),
                None => None,
            }
        } else if s.len() > 0 && s[0] == 60 {
            match spec_parse_i64(s.subrange(1, s.len() as int)) {
                Some(v) => Some(DateFilter::Before(v)),
                None => None,
            }
        } else {
            None
        }
    }

    /// Parses the body of a `date:` token.
    pub fn from_str(s: &[u8]) -> (r: Result<DateFilter, &'static str>)
        ensures
            match r {
                Ok(f) => Self::spec_from(s@) == Some(f),
                Err(_) => Self::spec_from(s@) is None,
            },
    {
        let n = s.len();
        let dd = find_dotdot(s);
        proof {
            lemma_first_dotdot_bounds(s@);
        }
        if n - dd >= 2 {
            let a = parse_i64(slice_subrange(s, 0, dd));
            let b = parse_i64(slice_subrange(s, dd + 2, n));
            match (a, b) {
                (Some(a), Some(b)) => Ok(DateFilter::Between(a, b)),
                _ => Err("Invalid date"),
            }
        } else if n > 0 && s[0] == 62 {
            match parse_i64(slice_subrange(s, 1, n)) {
                Some(v) => Ok(DateFilter::After(v)),
                None => Err("Invalid date"),
            }
        } else if n > 0 && s[0] == 60 {
            match parse_i64(slice_subrange(s, 1, n)) {
                Some(v) => Ok(DateFilter::Before(v)),
                None => Err("Invalid date"),
            }
        } else {
            Err("Invalid date format")
        }
    }
}

/// Whether `b` is an ASCII whitespace byte (space, tab, line feed,
/// vertical tab, form feed or carriage return).
pub open spec fn is_space(b: u8) -> bool {
    b == 32 || (9 <= b <= 13)
}

/// Where the whitespace-free run starting at `i` ends.
pub open spec fn spec_token_end(s: Seq<u8>, i: int) -> int
    decreases s.len() - i,
{
    if i < 0 || i >= s.len() || is_space(s[i]) {
        i
    } else {
        spec_token_end(s, i + 1)
    }
}

/// The run starting inside the string ends inside it, after at least
/// one byte when it starts on a non-space.
proof fn lemma_token_end_bounds(s: Seq<u8>, i: int)
    requires
        0 <= i <= s.len(),
    ensures
        i <= spec_token_end(s, i) <= s.len(),
    decreases s.len() - i,
{
    if !(i >= s.len() || is_space(s[i])) {
        lemma_token_end_bounds(s, i + 1);
    }
}

/// The whitespace-separated tokens of `s`, from position `i` on.
pub open spec fn spec_tokens_from(s: Seq<u8>, i: int) -> Seq<Seq<u8>>
    decreases s.len() - i,
    via spec_tokens_from_decreases
{
    if i < 0 || i >= s.len() {
        Seq::empty()
    } else if is_space(s[i]) {
        spec_tokens_from(s, i + 1)
    } else {
        seq![s.subrange(i, spec_token_end(s, i))] + spec_tokens_from(s, spec_token_end(s, i))
    }
}

#[via_fn]
proof fn spec_tokens_from_decreases(s: Seq<u8>, i: int) {
    if 0 <= i < s.len() && !is_space(s[i]) {
        lemma_token_end_bounds(s, i + 1);
        assert(spec_token_end(s, i) == spec_token_end(s, i + 1));
    }
}

/// The whitespace-separated tokens of `s`.
pub open spec fn spec_tokens(s: Seq<u8>) -> Seq<Seq<u8>> {
    spec_tokens_from(s, 0)
}

/// Whether `t` starts with `p`.
pub open spec fn spec_has_prefix(t: Seq<u8>, p: Seq<u8>) -> bool {
    t.len() >= p.len() && t.subrange(0, p.len() as int) == p
}

/// The bytes of "size:".
pub open spec fn size_prefix() -> Seq<u8> {
    seq![115u8, 105u8, 122u8, 101u8, 58u8]
}

/// The bytes of "date:".
pub open spec fn date_prefix() -> Seq<u8> {
    seq![100u8, 97u8, 116u8, 101u8, 58u8]
}

/// The bytes of "path:".
pub open spec fn path_prefix() -> Seq<u8> {
    seq![112u8, 97u8, 116u8, 104u8, 58u8]
}

/// The bytes of "regex:".
pub open spec fn regex_prefix() -> Seq<u8> {
    seq![114u8, 101u8, 103u8, 101u8, 120u8, 58u8]
}

/// Whether the token produces a structured filter: a `size:` or `date:`
/// token with a parsable body, or any `path:` token.
pub open spec fn spec_is_filter_token(t: Seq<u8>) -> bool {
    ||| (spec_has_prefix(t, size_prefix()) && SizeFilter::spec_from(
        t.subrange(5, t.len() as int),
    ) is Some)
    ||| (spec_has_prefix(t, date_prefix()) && DateFilter::spec_from(
        t.subrange(5, t.len() as int),
    ) is Some)
    ||| spec_has_prefix(t, path_prefix())
}

/// Whether the token joins the free search text: none of the four
/// recognized prefixes. A recognized token with an unparseable body is
/// dropped, not searched for.
pub open spec fn spec_is_text_token(t: Seq<u8>) -> bool {
    &&& !spec_has_prefix(t, size_prefix())
    &&& !spec_has_prefix(t, date_prefix())
    &&& !spec_has_prefix(t, path_prefix())
    &&& !spec_has_prefix(t, regex_prefix())
}

/// Whether the token is a `regex:` token whose body compiles.
pub open spec fn spec_is_valid_regex_token(t: Seq<u8>) -> bool {
    &&& spec_has_prefix(t, regex_prefix())
    &&& valid_utf8(t.subrange(6, t.len() as int))
    &&& regex_compiles(t.subrange(6, t.len() as int))
}

/// Whether `f` is the filter the token demands.
pub open spec fn spec_filter_matches(f: SearchFilter, t: Seq<u8>) -> bool {
    match f {
        SearchFilter::Size(sf) => spec_has_prefix(t, size_prefix()) && SizeFilter::spec_from(
            t.subrange(5, t.len() as int),
        ) == Some(sf),
        SearchFilter::Date(df) => spec_has_prefix(t, date_prefix()) && DateFilter::spec_from(
            t.subrange(5, t.len() as int),
        ) == Some(df),
        SearchFilter::Path(p) => spec_has_prefix(t, path_prefix()) && p@ == t.subrange(
            5,
            t.len() as int,
        ),
        SearchFilter::Type(_) => false,
    }
}

/// The tokens that produce filters, in order.
pub open spec fn spec_filter_tokens(toks: Seq<Seq<u8>>) -> Seq<Seq<u8>> {
    toks.filter(|t: Seq<u8>| spec_is_filter_token(t))
}

/// The free-text tokens, in order.
pub open spec fn spec_text_tokens(toks: Seq<Seq<u8>>) -> Seq<Seq<u8>> {
    toks.filter(|t: Seq<u8>| spec_is_text_token(t))
}

/// The tokens joined back into one string with single spaces.
pub open spec fn spec_join(ts: Seq<Seq<u8>>) -> Seq<u8>
    decreases ts.len(),
{
    if ts.len() == 0 {
        Seq::empty()
    } else if ts.len() == 1 {
        ts[0]
    } else {
        spec_join(ts.drop_last()) + seq![32u8] + ts.last()
    }
}

/// Whether `b` is an ASCII whitespace byte.
fn is_space_b(b: u8) -> (r: bool)
    ensures
        r == is_space(b),
{
    b == 32 || (9 <= b && b <= 13)
}

/// Whether `t` starts with `p`.
fn has_prefix(t: &[u8], p: &[u8]) -> (r: bool)
    ensures
        r == spec_has_prefix(t@, p@),
{
    if t.len() < p.len() {
        return false;
    }
    bytes_eq(slice_subrange(t, 0, p.len()), p)
}

impl SearchQuery {
    /// Splits the query into whitespace-separated tokens; turns `size:`
    /// and `date:` tokens with parsable bodies and every `path:` token
    /// into filters, in token order; compiles `regex:` tokens, keeping
    /// the last one that compiles; joins the rest back into the free
    /// search text with single spaces. Never fails: an unparseable
    /// recognized token is dropped.
    pub fn parse(query: &[u8]) -> (q: SearchQuery)
        ensures
            q.filters@.len() == spec_filter_tokens(spec_tokens(query@)).len(),
            forall|k: int|
                0 <= k < q.filters@.len() ==> spec_filter_matches(
                    #[trigger] q.filters@[k],
                    spec_filter_tokens(spec_tokens(query@))[k],
                ),
            q.text@ == spec_join(spec_text_tokens(spec_tokens(query@))),
            q.regex is Some <==> exists|k: int|
                0 <= k < spec_tokens(query@).len() && spec_is_valid_regex_token(
                    #[trigger] spec_tokens(query@)[k],
                ),
    {
        let size_p: Vec<u8> = vec![115u8, 105u8, 122u8, 101u8, 58u8];
        let date_p: Vec<u8> = vec![100u8, 97u8, 116u8, 101u8, 58u8];
        let path_p: Vec<u8> = vec![112u8, 97u8, 116u8, 104u8, 58u8];
        let regex_p: Vec<u8> = vec![114u8, 101u8, 103u8, 101u8, 120u8, 58u8];
        proof {
            assert(size_p@ =~= size_prefix());
            assert(date_p@ =~= date_prefix());
            assert(path_p@ =~= path_prefix());
            assert(regex_p@ =~= regex_prefix());
        }
        let mut filters: Vec<SearchFilter> = Vec::new();
        let mut text: Vec<u8> = Vec::new();
        let mut regex_found: Option<regex::Regex> = None;
        let n = query.len();
        let mut i: usize = 0;
        let ghost mut done: Seq<Seq<u8>> = Seq::empty();
        proof {
            reveal(Seq::filter);
            assert(spec_tokens(query@) =~= done + spec_tokens_from(query@, 0));
        }
        while i < n
            invariant
                n == query@.len(),
                i <= n,
                size_p@ == size_prefix(),
                date_p@ == date_prefix(),
                path_p@ == path_prefix(),
                regex_p@ == regex_prefix(),
                spec_tokens(query@) == done + spec_tokens_from(query@, i as int),
                forall|k: int| 0 <= k < done.len() ==> (#[trigger] done[k]).len() >= 1,
                filters@.len() == spec_filter_tokens(done).len(),
                forall|k: int|
                    0 <= k < filters@.len() ==> spec_filter_matches(
                        #[trigger] filters@[k],
                        spec_filter_tokens(done)[k],
                    ),
                text@ == spec_join(spec_text_tokens(done)),
                spec_text_tokens(done).len() > 0 <==> text@.len() > 0,
                regex_found is Some <==> exists|k: int|
                    0 <= k < done.len() && spec_is_valid_regex_token(#[trigger] done[k]),
            decreases n - i,
        {
            if is_space_b(query[i]) {
                i = i + 1;
                continue ;
            }
            let start = i;
            let mut e = i;
            while e < n && !is_space_b(query[e])
                invariant
                    n == query@.len(),
                    start <= e <= n,
                    spec_token_end(query@, start as int) == spec_token_end(query@, e as int),
                decreases n - e,
            {
                e = e + 1;
            }
            proof {
                assert(spec_token_end(query@, e as int) == e);
                assert(spec_tokens_from(query@, start as int) == seq![
                    query@.subrange(start as int, e as int),
                ] + spec_tokens_from(query@, e as int));
            }
            let tok = slice_subrange(query, start, e);
            let ghost done_prev = done;
            let ghost tv = tok@;
            proof {
                done = done.push(tv);
                reveal(Seq::filter);
                assert(done.drop_last() =~= done_prev);
                assert(spec_tokens(query@) =~= done + spec_tokens_from(query@, e as int));
            }
            if has_prefix(tok, size_p.as_slice()) {
                match SizeFilter::from_str(slice_subrange(tok, 5, tok.len())) {
                    Ok(f) => {
                        filters.push(SearchFilter::Size(f));
                    },
                    Err(_) => {},
                }
            } else if has_prefix(tok, date_p.as_slice()) {
                match DateFilter::from_str(slice_subrange(tok, 5, tok.len())) {
                    Ok(f) => {
                        filters.push(SearchFilter::Date(f));
                    },
                    Err(_) => {},
                }
            } else if has_prefix(tok, path_p.as_slice()) {
                filters.push(SearchFilter::Path(slice_to_vec(slice_subrange(tok, 5, tok.len()))));
            } else if has_prefix(tok, regex_p.as_slice()) {
                match compile_regex(slice_subrange(tok, 6, tok.len())) {
                    Some(re) => {
                        regex_found = Some(re);
                    },
                    None => {},
                }
            } else {
                if text.len() > 0 {
                    text.push(32);
                }
                let mut tok_bytes = slice_to_vec(tok);
                text.append(&mut tok_bytes);
            }
            i = e;
            proof {
                reveal(Seq::filter);
                assert(tv.len() >= 1);
                if spec_is_filter_token(tv) {
                    assert(spec_filter_tokens(done) =~= spec_filter_tokens(done_prev).push(tv));
                } else {
                    assert(spec_filter_tokens(done) =~= spec_filter_tokens(done_prev));
                }
                if spec_is_text_token(tv) {
                    assert(spec_text_tokens(done) =~= spec_text_tokens(done_prev).push(tv));
                    assert(spec_text_tokens(done).drop_last() =~= spec_text_tokens(done_prev));
                    if spec_text_tokens(done_prev).len() == 0 {
                        assert(spec_join(spec_text_tokens(done)) == tv);
                    }
                } else {
                    assert(spec_text_tokens(done) =~= spec_text_tokens(done_prev));
                }
            }
        }
        proof {
            assert(spec_tokens_from(query@, i as int) =~= Seq::<Seq<u8>>::empty());
            assert(done + Seq::<Seq<u8>>::empty() =~= done);
            assert(done =~= spec_tokens(query@));
        }
        SearchQuery { text, filters, regex: regex_found }
    }
}

} // verus!
