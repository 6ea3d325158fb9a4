//! The selector grammar.
//!
//! A selector is a non-empty, comma-separated list of ranges; a range is one
//! of `i-j`, `-j`, `i-`, or `i`, tried in that order, where `i` and `j` are
//! decimal numbers between 1 and 255 (leading zeros allowed). Every number is
//! normalized to a zero-based index as it is parsed. The grammar is stated by
//! spec functions over byte sequences ([`nat_at`], [`range_at`], [`list_at`]);
//! [`parse_target`] is the executable parser, proved to return exactly what
//! those functions describe.

use vstd::prelude::*;

use crate::model::Range;
use crate::model::Target;

verus! {

/// An ASCII decimal digit.
pub open spec fn is_digit(b: u8) -> bool {
    48 <= b && b <= 57
}

/// Where the maximal run of digits beginning at `i` ends.
pub open spec fn digit_run_end(s: Seq<u8>, i: int) -> int
    decreases s.len() - i,
{
    if i < 0 || i >= s.len() || !is_digit(s[i]) {
        i
    } else {
        digit_run_end(s, i + 1)
    }
}

/// The value of a sequence of decimal digits, most significant first.
pub open spec fn digits_val(s: Seq<u8>) -> int
    decreases s.len(),
{
    if s.len() == 0 {
        0
    } else {
        digits_val(s.drop_last()) * 10 + (s.last() - 48)
    }
}

/// Parsing a number at position `i`: the digit run must be non-empty and its
/// value must lie between 1 and 255; the result is the value and the position
/// just past the run. A value of zero or above 255 is a failure, never a
/// truncation.
pub open spec fn nat_at(s: Seq<u8>, i: int) -> Option<(int, int)> {
    let e = digit_run_end(s, i);
    if e == i {
        None
    } else {
        let v = digits_val(s.subrange(i, e));
        if 1 <= v && v <= 255 {
            Some((v, e))
        } else {
            None
        }
    }
}

/// Parsing one range at position `i`, with the grammar's ordered alternation:
/// a closed interval `i-j` first, then a right-open `-j`, then a left-open
/// `i-`, then a bare number. Parsed numbers are stored one less, zero-based.
pub open spec fn range_at(s: Seq<u8>, i: int) -> Option<(Range, int)> {
    match nat_at(s, i) {
        Some((a, p)) => {
            if p < s.len() && s[p] == 45 {
                match nat_at(s, p + 1) {
                    Some((b, q)) => Some((Range::Interval((a - 1) as u8, (b - 1) as u8), q)),
                    None => Some((Range::Left((a - 1) as u8), p + 1)),
                }
            } else {
                Some((Range::Single((a - 1) as u8), p))
            }
        },
        None => {
            if 0 <= i < s.len() && s[i] == 45 {
                match nat_at(s, i + 1) {
                    Some((b, q)) => Some((Range::Right((b - 1) as u8), q)),
                    None => None,
                }
            } else {
                None
            }
        },
    }
}

/// After a successful number, the position has advanced and stays in bounds.
proof fn lemma_nat_at_bounds(s: Seq<u8>, i: int)
    ensures
        nat_at(s, i) matches Some(vp) ==> 0 <= i < vp.1 <= s.len(),
{
    if nat_at(s, i) is Some {
        lemma_dre_advance(s, i);
    }
}

/// A digit run that moved at all started in bounds and ends in bounds.
proof fn lemma_dre_advance(s: Seq<u8>, i: int)
    ensures
        digit_run_end(s, i) != i ==> 0 <= i < digit_run_end(s, i) <= s.len(),
    decreases s.len() - i,
{
    if !(i < 0 || i >= s.len() || !is_digit(s[i])) {
        lemma_dre_advance(s, i + 1);
    }
}

/// After a successful range, the position has advanced and stays in bounds.
proof fn lemma_range_at_bounds(s: Seq<u8>, i: int)
    ensures
        range_at(s, i) matches Some(rp) ==> 0 <= i < rp.1 <= s.len(),
{
    lemma_nat_at_bounds(s, i);
    if let Some((a, p)) = nat_at(s, i) {
        lemma_nat_at_bounds(s, p + 1);
    } else {
        lemma_nat_at_bounds(s, i + 1);
    }
}

/// Parsing a whole selector from position `i`: one range, then, as long as a
/// comma follows and another range can be parsed after it, that range too.
/// A comma not followed by a parsable range is left unconsumed, as is
/// anything after the last range.
pub open spec fn list_at(s: Seq<u8>, i: int) -> Option<(Seq<Range>, int)>
    decreases s.len() - i,
    via list_at_decreases
{
    match range_at(s, i) {
        None => None,
        Some((r, p)) => {
            if p < s.len() && s[p] == 44 {
                match list_at(s, p + 1) {
                    Some((rest, q)) => Some((seq![r] + rest, q)),
                    None => Some((seq![r], p)),
                }
            } else {
                Some((seq![r], p))
            }
        },
    }
}

#[via_fn]
proof fn list_at_decreases(s: Seq<u8>, i: int) {
    lemma_range_at_bounds(s, i);
}

/// A sequence of digits has a non-negative value.
proof fn lemma_digits_val_nonneg(s: Seq<u8>)
    requires
        forall|k: int| 0 <= k < s.len() ==> is_digit(s[k]),
    ensures
        digits_val(s) >= 0,
    decreases s.len(),
{
    if s.len() > 0 {
        lemma_digits_val_nonneg(s.drop_last());
    }
}

/// Why a selector string was rejected.
#[derive(Debug, Clone)]
pub enum ParseError {
    /// No prefix of the input is a valid selector: the input is empty, a
    /// number is zero or above 255, or a range is malformed outright.
    Invalid,
    /// A valid selector ends before the input does: the ranges parsed so far
    /// and the index at which the unconsumed remainder begins.
    Trailing(Target, usize),
}

/// The byte at position `i`.
fn byte_at(s: &[u8], i: usize) -> (b: u8)
    requires
        i < s@.len(),
    ensures
        b == s@[i as int],
{
    s[i]
}

/// Parse a number at position `i`, returning its value and the position just
/// past its digits, exactly as [`nat_at`] describes.
fn parse_nat_at(s: &[u8], i: usize) -> (r: Option<(u8, usize)>)
    requires
        i <= s@.len(),
    ensures
        nat_at(s@, i as int) is Some <==> r is Some,
        r matches Some(ve) ==> nat_at(s@, i as int) == Some((ve.0 as int, ve.1 as int)),
{
    let n = s.len();
    let mut j = i;
    let mut acc: u32 = 0;
    let mut over: bool = false;
    while j < n && 48 <= s[j] && s[j] <= 57
        invariant
            i <= j <= n,
            n == s@.len(),
            digit_run_end(s@, i as int) == digit_run_end(s@, j as int),
            forall|k: int| i <= k < j ==> is_digit(s@[k]),
            !over ==> acc <= 255 && acc == digits_val(s@.subrange(i as int, j as int)),
            over ==> digits_val(s@.subrange(i as int, j as int)) > 255,
        decreases n - j,
    {
        let d = s[j] - 48;
        let ghost pre = s@.subrange(i as int, j as int);
        let ghost post = s@.subrange(i as int, j + 1 as int);
        proof {
            assert(post.drop_last() =~= pre);
            assert(post.last() == s@[j as int]);
            lemma_digits_val_nonneg(pre);
        }
        if !over {
            let next = acc * 10 + (d as u32);
            if next > 255 {
                over = true;
            } else {
                acc = next;
            }
        }
        j = j + 1;
    }
    proof {
        assert(digit_run_end(s@, j as int) == j as int);
    }
    if j == i {
        None
    } else {
        if over || acc < 1 {
            None
        } else {
            Some((acc as u8, j))
        }
    }
}

/// Parse one range at position `i`, exactly as [`range_at`] describes.
fn parse_range_at(s: &[u8], i: usize) -> (r: Option<(Range, usize)>)
    requires
        i <= s@.len(),
    ensures
        range_at(s@, i as int) is Some <==> r is Some,
        r matches Some(rp) ==> range_at(s@, i as int) == Some((rp.0, rp.1 as int)),
{
    proof {
        lemma_nat_at_bounds(s@, i as int);
    }
    match parse_nat_at(s, i) {
        Some((a, p)) => {
            if p < s.len() && s[p] == 45 {
                proof {
                    lemma_nat_at_bounds(s@, p + 1 as int);
                }
                match parse_nat_at(s, p + 1) {
                    Some((b, q)) => Some((Range::Interval(a - 1, b - 1), q)),
                    None => Some((Range::Left(a - 1), p + 1)),
                }
            } else {
                Some((Range::Single(a - 1), p))
            }
        },
        None => {
            if i < s.len() && s[i] == 45 {
                proof {
                    lemma_nat_at_bounds(s@, i + 1 as int);
                }
                match parse_nat_at(s, i + 1) {
                    Some((b, q)) => Some((Range::Right(b - 1), q)),
                    None => None,
                }
            } else {
                None
            }
        },
    }
}

/// What the whole parse from the start of the input yields, given that the
/// ranges in `done` have been parsed already and position `pos` is next: the
/// continuation shape of [`list_at`], used as the parsing loop's invariant.
spec fn continue_from(s: Seq<u8>, done: Seq<Range>, pos: int) -> Option<(Seq<Range>, int)> {
    if 0 <= pos < s.len() && s[pos] == 44 {
        match list_at(s, pos + 1) {
            Some((rest, q)) => Some((done + rest, q)),
            None => Some((done, pos)),
        }
    } else {
        Some((done, pos))
    }
}

/// Parse a selector string, given as its bytes.
///
/// The grammar must match the whole input: a valid selector followed by
/// anything else is reported as [`ParseError::Trailing`], with the parsed
/// prefix and the index of the first leftover byte; an input with no valid
/// selector prefix at all is [`ParseError::Invalid`].
pub fn parse_target(input: &[u8]) -> (r: Result<Target, ParseError>)
    ensures
        match list_at(input@, 0) {
            None => r == Err::<Target, ParseError>(ParseError::Invalid),
            Some((rs, p)) => {
                if p == input@.len() {
                    r matches Ok(t) && t.ranges@ == rs
                } else {
                    r matches Err(ParseError::Trailing(t, q)) && t.ranges@ == rs && q as int == p
                }
            },
        },
{
    let ghost s = input@;
    let mut ranges: Vec<Range> = Vec::new();
    let mut pos: usize = 0;
    match parse_range_at(input, 0) {
        None => {
            return Err(ParseError::Invalid);
        },
        Some((r0, p0)) => {
            proof {
                lemma_range_at_bounds(s, 0);
            }
            ranges.push(r0);
            pos = p0;
            proof {
                assert(ranges@ =~= seq![r0]);
                lemma_list_unfold(s, 0, r0, p0 as int);
            }
        },
    }
    let n = input.len();
    let mut stop: bool = false;
    while !stop && pos < n
        invariant
            n == input@.len(),
            pos <= input@.len(),
            s == input@,
            if stop {
                list_at(s, 0) == Some((ranges@, pos as int))
            } else {
                list_at(s, 0) == continue_from(s, ranges@, pos as int)
            },
        decreases input@.len() - pos + (if stop {
            0int
        } else {
            1int
        }),
    {
        let c: u8 = byte_at(input, pos);
        if c != 44 {
            stop = true;
        } else {
            let ghost done = ranges@;
            let ghost oldpos = pos as int;
            proof {
                lemma_range_at_bounds(s, oldpos + 1);
            }
            match parse_range_at(input, pos + 1) {
                None => {
                    assert(list_at(s, oldpos + 1) is None);
                    assert(continue_from(s, done, oldpos) == Some((done, oldpos)));
                    stop = true;
                },
                Some((r, p)) => {
                    proof {
                        lemma_list_step(s, done, oldpos, r, p as int);
                    }
                    ranges.push(r);
                    pos = p;
                    proof {
                        assert(ranges@ =~= done.push(r));
                    }
                },
            }
        }
    }
    if pos == n {
        Ok(Target { ranges })
    } else {
        Err(ParseError::Trailing(Target { ranges }, pos))
    }
}

/// Unfolding one successful range at the head of a selector: the whole parse
/// from there is the continuation after that range.
proof fn lemma_list_unfold(s: Seq<u8>, i: int, r: Range, p: int)
    requires
        range_at(s, i) == Some((r, p)),
    ensures
        list_at(s, i) == continue_from(s, seq![r], p),
{
    lemma_range_at_bounds(s, i);
    assert(list_at(s, i) == (if p < s.len() && s[p] == 44 {
        match list_at(s, p + 1) {
            Some((rest, q)) => Some((seq![r] + rest, q)),
            None => Some((seq![r], p)),
        }
    } else {
        Some((seq![r], p))
    }));
}

/// One step of the parsing loop keeps the continuation invariant: consuming
/// the comma at `pos` and the range that follows it moves the continuation
/// forward without changing what the whole parse yields.
proof fn lemma_list_step(s: Seq<u8>, done: Seq<Range>, pos: int, r: Range, p: int)
    requires
        0 <= pos < s.len(),
        s[pos] == 44,
        range_at(s, pos + 1) == Some((r, p)),
    ensures
        continue_from(s, done, pos) == continue_from(s, done.push(r), p),
{
    lemma_range_at_bounds(s, pos + 1);
    assert(list_at(s, pos + 1) == (if p < s.len() && s[p] == 44 {
        match list_at(s, p + 1) {
            Some((rest, q)) => Some((seq![r] + rest, q)),
            None => Some((seq![r], p)),
        }
    } else {
        Some((seq![r], p))
    }));
    if p < s.len() && s[p] == 44 {
        match list_at(s, p + 1) {
            Some((rest, q)) => {
                assert(done + (seq![r] + rest) =~= done.push(r) + rest);
            },
            None => {
                assert(done + seq![r] =~= done.push(r));
            },
        }
    } else {
        assert(done + seq![r] =~= done.push(r));
    }
}

/// If every byte in `[i, j)` is a digit and `j` is the input's end or a
/// non-digit, the digit run beginning at `i` ends exactly at `j`.
proof fn lemma_dre_run(s: Seq<u8>, i: int, j: int)
    requires
        0 <= i <= j <= s.len(),
        forall|k: int| i <= k < j ==> is_digit(s[k]),
        j == s.len() || !is_digit(s[j]),
    ensures
        digit_run_end(s, i) == j,
    decreases j - i,
{
    if i < j {
        lemma_dre_run(s, i + 1, j);
    }
}

/// Parsing a bare number: an input that is nothing but digits, with value
/// `v` between 1 and 255, is the one-range selector `Single(v-1)`, with no
/// input left over.
pub proof fn lemma_parse_single_number(s: Seq<u8>, v: int)
    requires
        s.len() >= 1,
        forall|k: int| 0 <= k < s.len() ==> is_digit(s[k]),
        digits_val(s) == v,
        1 <= v <= 255,
    ensures
        list_at(s, 0) == Some((seq![Range::Single((v - 1) as u8)], s.len() as int)),
{
    lemma_dre_run(s, 0, s.len() as int);
    assert(s.subrange(0, s.len() as int) =~= s);
    assert(nat_at(s, 0) == Some((v, s.len() as int)));
    assert(range_at(s, 0) == Some((Range::Single((v - 1) as u8), s.len() as int)));
}

/// Parsing digits followed by one dash: the left-open range `Left(v-1)`,
/// with no input left over.
pub proof fn lemma_parse_left_open(d: Seq<u8>, v: int)
    requires
        d.len() >= 1,
        forall|k: int| 0 <= k < d.len() ==> is_digit(d[k]),
        digits_val(d) == v,
        1 <= v <= 255,
    ensures
        list_at(d + seq![45u8], 0) == Some(
            (seq![Range::Left((v - 1) as u8)], d.len() + 1 as int),
        ),
{
    let s = d + seq![45u8];
    let l = d.len() as int;
    assert(forall|k: int| 0 <= k < l ==> s[k] == d[k]);
    assert(s[l] == 45);
    lemma_dre_run(s, 0, l);
    assert(s.subrange(0, l) =~= d);
    assert(nat_at(s, 0) == Some((v, l)));
    assert(digit_run_end(s, l + 1) == l + 1);
    assert(nat_at(s, l + 1) is None);
    assert(range_at(s, 0) == Some((Range::Left((v - 1) as u8), l + 1)));
}

/// Parsing one dash followed by digits: the right-open range `Right(v-1)`,
/// with no input left over.
pub proof fn lemma_parse_right_open(d: Seq<u8>, v: int)
    requires
        d.len() >= 1,
        forall|k: int| 0 <= k < d.len() ==> is_digit(d[k]),
        digits_val(d) == v,
        1 <= v <= 255,
    ensures
        list_at(seq![45u8] + d, 0) == Some(
            (seq![Range::Right((v - 1) as u8)], d.len() + 1 as int),
        ),
{
    let s = seq![45u8] + d;
    let e = s.len() as int;
    assert(s[0] == 45);
    assert(digit_run_end(s, 0) == 0);
    assert(nat_at(s, 0) is None);
    assert(forall|k: int| 1 <= k < e ==> s[k] == d[k - 1]);
    lemma_dre_run(s, 1, e);
    assert(s.subrange(1, e) =~= d);
    assert(nat_at(s, 1) == Some((v, e)));
    assert(range_at(s, 0) == Some((Range::Right((v - 1) as u8), e)));
}

/// Parsing digits, a dash, and digits again: always the closed interval
/// `Interval(v1-1, v2-1)` with no input left over -- never a left-open range
/// with the second number left unconsumed.
pub proof fn lemma_parse_interval(d1: Seq<u8>, d2: Seq<u8>, v1: int, v2: int)
    requires
        d1.len() >= 1,
        d2.len() >= 1,
        forall|k: int| 0 <= k < d1.len() ==> is_digit(d1[k]),
        forall|k: int| 0 <= k < d2.len() ==> is_digit(d2[k]),
        digits_val(d1) == v1,
        digits_val(d2) == v2,
        1 <= v1 <= 255,
        1 <= v2 <= 255,
    ensures
        list_at(d1 + seq![45u8] + d2, 0) == Some(
            (
                seq![Range::Interval((v1 - 1) as u8, (v2 - 1) as u8)],
                d1.len() + 1 + d2.len() as int,
            ),
        ),
{
    let s = d1 + seq![45u8] + d2;
    let l1 = d1.len() as int;
    let e = s.len() as int;
    assert(forall|k: int| 0 <= k < l1 ==> s[k] == d1[k]);
    assert(s[l1] == 45);
    assert(forall|k: int| l1 + 1 <= k < e ==> s[k] == d2[k - l1 - 1]);
    lemma_dre_run(s, 0, l1);
    assert(s.subrange(0, l1) =~= d1);
    assert(nat_at(s, 0) == Some((v1, l1)));
    lemma_dre_run(s, l1 + 1, e);
    assert(s.subrange(l1 + 1, e) =~= d2);
    assert(nat_at(s, l1 + 1) == Some((v2, e)));
    assert(range_at(s, 0) == Some(
        (Range::Interval((v1 - 1) as u8, (v2 - 1) as u8), e),
    ));
}

/// The decimal spelling of `n`, most significant digit first.
pub open spec fn dec_digits(n: int) -> Seq<u8>
    decreases n,
{
    if n <= 0 {
        Seq::empty()
    } else if n < 10 {
        seq![(48 + n) as u8]
    } else {
        dec_digits(n / 10).push((48 + n % 10) as u8)
    }
}

/// The decimal spelling of a positive number is a non-empty digit string
/// whose value is the number itself.
proof fn lemma_dec_digits(n: int)
    requires
        1 <= n,
    ensures
        dec_digits(n).len() >= 1,
        forall|k: int| 0 <= k < dec_digits(n).len() ==> is_digit(dec_digits(n)[k]),
        digits_val(dec_digits(n)) == n,
    decreases n,
{
    if n < 10 {
        assert(dec_digits(n).drop_last() =~= Seq::<u8>::empty());
        assert(digits_val(Seq::<u8>::empty()) == 0);
    } else {
        lemma_dec_digits(n / 10);
        assert(dec_digits(n).drop_last() =~= dec_digits(n / 10));
        vstd::arithmetic::div_mod::lemma_fundamental_div_mod(n, 10);
        assert(dec_digits(n).last() == (48 + n % 10) as u8);
        assert(digits_val(dec_digits(n)) == (n / 10) * 10 + n % 10);
    }
}

/// Parsing the decimal spelling of any `n` from 1 to 255: the one-range
/// selector `Single(n-1)`, with no input left over.
pub proof fn lemma_parse_number_spelling(n: int)
    requires
        1 <= n <= 255,
    ensures
        list_at(dec_digits(n), 0) == Some(
            (seq![Range::Single((n - 1) as u8)], dec_digits(n).len() as int),
        ),
{
    lemma_dec_digits(n);
    lemma_parse_single_number(dec_digits(n), n);
}

} // verus!
