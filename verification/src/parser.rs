//! The range-expression grammar and its parser.
//!
//! An expression is a sequence of units separated by single spaces. A unit
//! is either a single page reference or an interval `ref-ref`. A reference
//! is the literal `end` (the document's last page) or a 1-based positive
//! page number, optionally followed by a rotation suffix `r0`, `r90`,
//! `r180` or `r270`. An interval's rotation is taken from its second
//! reference; a suffix on the first reference must still be well formed but
//! is discarded. Parsing needs the source document's page count, both to
//! resolve `end` and to reject out-of-bounds pages.

use vstd::prelude::*;
use vstd::slice::slice_subrange;
use crate::types::{PageRange, ParseError, Rotation};

verus! {

/// The ASCII decimal digits `0` through `9`.
pub open spec fn is_digit(b: u8) -> bool {
    48 <= b <= 57
}

/// A non-empty run of decimal digits.
pub open spec fn is_digits(s: Seq<u8>) -> bool {
    s.len() > 0 && forall|i: int| 0 <= i < s.len() ==> is_digit(#[trigger] s[i])
}

/// The numeric value of a run of decimal digits, most significant first.
pub open spec fn dec_value(s: Seq<u8>) -> nat
    recommends
        forall|i: int| 0 <= i < s.len() ==> is_digit(s[i]),
    decreases s.len(),
{
    if s.len() == 0 {
        0
    } else {
        (dec_value(s.drop_last()) * 10 + (s.last() - 48)) as nat
    }
}

/// Position of the first occurrence of `sep` in `s`, if any.
pub open spec fn find_sep(s: Seq<u8>, sep: u8) -> Option<int>
    decreases s.len(),
{
    if s.len() == 0 {
        None
    } else if s[0] == sep {
        Some(0int)
    } else {
        match find_sep(s.skip(1), sep) {
            None => None,
            Some(i) => Some(i + 1),
        }
    }
}

/// What `find_sep` finds is the first occurrence: in bounds, equal to the
/// separator, with nothing equal to it earlier; `None` means the separator
/// does not occur at all.
pub proof fn lemma_find_sep(s: Seq<u8>, sep: u8)
    ensures
        match find_sep(s, sep) {
            Some(i) => 0 <= i < s.len() && s[i] == sep && forall|j: int|
                0 <= j < i ==> s[j] != sep,
            None => forall|j: int| 0 <= j < s.len() ==> s[j] != sep,
        },
    decreases s.len(),
{
    if s.len() == 0 {
    } else if s[0] == sep {
    } else {
        lemma_find_sep(s.skip(1), sep);
        match find_sep(s.skip(1), sep) {
            None => {
                assert forall|j: int| 0 <= j < s.len() implies s[j] != sep by {
                    if j >= 1 {
                        assert(s.skip(1)[j - 1] != sep);
                    }
                }
            },
            Some(i) => {
                assert(s[i + 1] == s.skip(1)[i]);
                assert forall|j: int| 0 <= j < i + 1 implies s[j] != sep by {
                    if j >= 1 {
                        assert(s.skip(1)[j - 1] != sep);
                    }
                }
            },
        }
    }
}

/// A position that holds the separator, with no earlier occurrence, is
/// exactly what `find_sep` returns.
pub proof fn lemma_find_sep_at(s: Seq<u8>, sep: u8, i: int)
    requires
        0 <= i < s.len(),
        s[i] == sep,
        forall|j: int| 0 <= j < i ==> s[j] != sep,
    ensures
        find_sep(s, sep) == Some(i),
    decreases i,
{
    if i == 0 {
    } else {
        assert(s[0] != sep);
        assert(s.skip(1)[i - 1] == sep);
        assert forall|j: int| 0 <= j < i - 1 implies s.skip(1)[j] != sep by {
            assert(s[j + 1] != sep);
        }
        lemma_find_sep_at(s.skip(1), sep, i - 1);
    }
}

/// A sequence without the separator makes `find_sep` return `None`.
pub proof fn lemma_find_sep_none(s: Seq<u8>, sep: u8)
    requires
        forall|j: int| 0 <= j < s.len() ==> s[j] != sep,
    ensures
        find_sep(s, sep) == None::<int>,
    decreases s.len(),
{
    if s.len() == 0 {
    } else {
        assert(s[0] != sep);
        assert forall|j: int| 0 <= j < s.len() - 1 implies s.skip(1)[j] != sep by {
            assert(s[j + 1] != sep);
        }
        lemma_find_sep_none(s.skip(1), sep);
    }
}

/// Finds the first occurrence of `sep` in the slice, if any.
fn find_byte(s: &[u8], sep: u8) -> (r: Option<usize>)
    ensures
        match r {
            Some(i) => find_sep(s@, sep) == Some(i as int),
            None => find_sep(s@, sep) == None::<int>,
        },
{
    let n = s.len();
    let mut i: usize = 0;
    while i < n
        invariant
            i <= n,
            n == s@.len(),
            forall|j: int| 0 <= j < i ==> s@[j] != sep,
        decreases n - i,
    {
        if s[i] == sep {
            proof {
                lemma_find_sep_at(s@, sep, i as int);
            }
            return Some(i);
        }
        i += 1;
    }
    proof {
        lemma_find_sep_none(s@, sep);
    }
    None
}

/// The rotation named by the body of a rotation suffix (the text after the
/// `r`): exactly one of the four degree literals.
pub open spec fn spec_rotation(s: Seq<u8>) -> Option<Rotation> {
    if s.len() == 1 && s[0] == 48 {
        Some(Rotation::R0)
    } else if s.len() == 2 && s[0] == 57 && s[1] == 48 {
        Some(Rotation::R90)
    } else if s.len() == 3 && s[0] == 49 && s[1] == 56 && s[2] == 48 {
        Some(Rotation::R180)
    } else if s.len() == 3 && s[0] == 50 && s[1] == 55 && s[2] == 48 {
        Some(Rotation::R270)
    } else {
        None
    }
}

/// Parses the body of a rotation suffix. Exactly the literals `0`, `90`,
/// `180` and `270` are accepted; every other body is a syntax error.
pub fn parse_rotation(s: &[u8]) -> (r: Result<Rotation, ParseError>)
    ensures
        match spec_rotation(s@) {
            Some(rot) => r == Ok::<Rotation, ParseError>(rot),
            None => r == Err::<Rotation, ParseError>(ParseError::InvalidRotation),
        },
{
    if s.len() == 1 && s[0] == 48 {
        Ok(Rotation::R0)
    } else if s.len() == 2 && s[0] == 57 && s[1] == 48 {
        Ok(Rotation::R90)
    } else if s.len() == 3 && s[0] == 49 && s[1] == 56 && s[2] == 48 {
        Ok(Rotation::R180)
    } else if s.len() == 3 && s[0] == 50 && s[1] == 55 && s[2] == 48 {
        Ok(Rotation::R270)
    } else {
        Err(ParseError::InvalidRotation)
    }
}

/// The three bytes of the literal `end`.
pub open spec fn is_end_literal(s: Seq<u8>) -> bool {
    s.len() == 3 && s[0] == 101 && s[1] == 110 && s[2] == 100
}

/// The meaning of a page bound without its rotation suffix: `end` resolves
/// to the last page; a positive 1-based page number within the document
/// resolves to itself minus one. An empty bound, a non-number, zero, and a
/// number past the last page are each rejected with their own error.
pub open spec fn spec_parse_base(s: Seq<u8>, page_count: u32) -> Result<u32, ParseError> {
    if s.len() == 0 {
        Err(ParseError::MissingBound)
    } else if is_end_literal(s) {
        if page_count == 0 {
            Err(ParseError::OutOfBounds)
        } else {
            Ok((page_count - 1) as u32)
        }
    } else if is_digits(s) {
        if dec_value(s) == 0 {
            Err(ParseError::MalformedNumber)
        } else if dec_value(s) > page_count {
            Err(ParseError::OutOfBounds)
        } else {
            Ok((dec_value(s) - 1) as u32)
        }
    } else {
        Err(ParseError::MalformedNumber)
    }
}

/// The value of a digit run never drops when digits are appended: every
/// prefix is worth at most the whole.
pub proof fn lemma_dec_value_prefix(s: Seq<u8>, i: int)
    requires
        0 <= i <= s.len(),
        forall|j: int| 0 <= j < s.len() ==> is_digit(#[trigger] s[j]),
    ensures
        dec_value(s.subrange(0, i)) <= dec_value(s),
    decreases s.len(),
{
    if i == s.len() {
        assert(s.subrange(0, i) =~= s);
    } else {
        assert(s.drop_last() =~= s.subrange(0, s.len() - 1));
        lemma_dec_value_prefix(s.drop_last(), i);
        assert(s.drop_last().subrange(0, i) =~= s.subrange(0, i));
        assert(is_digit(s.last()));
    }
}

/// Parses a page bound without its rotation suffix.
pub fn parse_base(t: &[u8], page_count: u32) -> (r: Result<u32, ParseError>)
    ensures
        r == spec_parse_base(t@, page_count),
{
    if t.len() == 0 {
        return Err(ParseError::MissingBound);
    }
    if t.len() == 3 && t[0] == 101 && t[1] == 110 && t[2] == 100 {
        if page_count == 0 {
            return Err(ParseError::OutOfBounds);
        }
        return Ok(page_count - 1);
    }
    assert(!is_end_literal(t@));
    let n = t.len();
    let mut i: usize = 0;
    while i < n
        invariant
            i <= n,
            n == t@.len(),
            n > 0,
            !is_end_literal(t@),
            forall|j: int| 0 <= j < i ==> is_digit(#[trigger] t@[j]),
        decreases n - i,
    {
        if t[i] < 48 || t[i] > 57 {
            assert(!is_digit(t@[i as int]));
            return Err(ParseError::MalformedNumber);
        }
        i += 1;
    }
    assert(is_digits(t@));
    assert(!is_end_literal(t@));
    let mut acc: u64 = 0;
    let mut k: usize = 0;
    while k < n
        invariant
            k <= n,
            n == t@.len(),
            is_digits(t@),
            !is_end_literal(t@),
            acc <= u32::MAX,
            acc == dec_value(t@.subrange(0, k as int)),
        decreases n - k,
    {
        let d = t[k] - 48;
        proof {
            assert(t@.subrange(0, k as int + 1).drop_last() =~= t@.subrange(0, k as int));
            assert(t@.subrange(0, k as int + 1).last() == t@[k as int]);
        }
        let next = acc * 10 + d as u64;
        assert(next == dec_value(t@.subrange(0, k as int + 1)));
        if next > u32::MAX as u64 {
            proof {
                lemma_dec_value_prefix(t@, k as int + 1);
            }
            return Err(ParseError::OutOfBounds);
        }
        acc = next;
        k += 1;
    }
    assert(t@.subrange(0, n as int) =~= t@);
    if acc == 0 {
        return Err(ParseError::MalformedNumber);
    }
    if acc > page_count as u64 {
        return Err(ParseError::OutOfBounds);
    }
    Ok((acc as u32) - 1)
}

/// The meaning of one page reference: its bound, plus an optional rotation
/// suffix introduced by the first `r`. A bound error is reported before a
/// suffix error.
pub open spec fn spec_parse_ref(s: Seq<u8>, page_count: u32) -> Result<
    (u32, Option<Rotation>),
    ParseError,
> {
    match find_sep(s, 114) {
        None => match spec_parse_base(s, page_count) {
            Ok(idx) => Ok((idx, None)),
            Err(e) => Err(e),
        },
        Some(i) => match spec_parse_base(s.subrange(0, i), page_count) {
            Err(e) => Err(e),
            Ok(idx) => match spec_rotation(s.subrange(i + 1, s.len() as int)) {
                Some(rot) => Ok((idx, Some(rot))),
                None => Err(ParseError::InvalidRotation),
            },
        },
    }
}

/// Parses one page reference: a bound with an optional rotation suffix.
pub fn parse_page_ref(t: &[u8], page_count: u32) -> (r: Result<
    (u32, Option<Rotation>),
    ParseError,
>)
    ensures
        r == spec_parse_ref(t@, page_count),
{
    match find_byte(t, 114) {
        None => match parse_base(t, page_count) {
            Ok(idx) => Ok((idx, None)),
            Err(e) => Err(e),
        },
        Some(i) => {
            proof {
                lemma_find_sep(t@, 114);
            }
            let n = t.len();
            let base = slice_subrange(t, 0, i);
            let sfx = slice_subrange(t, i + 1, n);
            match parse_base(base, page_count) {
                Err(e) => Err(e),
                Ok(idx) => match parse_rotation(sfx) {
                    Ok(rot) => Ok((idx, Some(rot))),
                    Err(e) => Err(e),
                },
            }
        },
    }
}

/// The meaning of one space-separated unit. Without a dash it is a single
/// page; with a dash it is an interval whose start is the first reference,
/// whose end and rotation come from the second reference, and whose start
/// must not exceed its end.
pub open spec fn spec_parse_unit(s: Seq<u8>, page_count: u32) -> Result<PageRange, ParseError> {
    match find_sep(s, 45) {
        None => match spec_parse_ref(s, page_count) {
            Ok((idx, rot)) => Ok(PageRange { start: idx, end: idx, rotation: rot }),
            Err(e) => Err(e),
        },
        Some(i) => match spec_parse_ref(s.subrange(0, i), page_count) {
            Err(e) => Err(e),
            Ok((sidx, _)) => match spec_parse_ref(s.subrange(i + 1, s.len() as int), page_count) {
                Err(e) => Err(e),
                Ok((eidx, rot)) => if sidx > eidx {
                    Err(ParseError::StartAfterEnd)
                } else {
                    Ok(PageRange { start: sidx, end: eidx, rotation: rot })
                },
            },
        },
    }
}

/// Parses one space-separated unit of a range expression.
pub fn parse_unit(t: &[u8], page_count: u32) -> (r: Result<PageRange, ParseError>)
    ensures
        r == spec_parse_unit(t@, page_count),
{
    match find_byte(t, 45) {
        None => match parse_page_ref(t, page_count) {
            Ok((idx, rot)) => Ok(PageRange { start: idx, end: idx, rotation: rot }),
            Err(e) => Err(e),
        },
        Some(i) => {
            proof {
                lemma_find_sep(t@, 45);
            }
            let n = t.len();
            let left = slice_subrange(t, 0, i);
            let right = slice_subrange(t, i + 1, n);
            match parse_page_ref(left, page_count) {
                Err(e) => Err(e),
                Ok((sidx, _)) => match parse_page_ref(right, page_count) {
                    Err(e) => Err(e),
                    Ok((eidx, rot)) => if sidx > eidx {
                        Err(ParseError::StartAfterEnd)
                    } else {
                        Ok(PageRange { start: sidx, end: eidx, rotation: rot })
                    },
                },
            }
        },
    }
}

/// The meaning of a whole range expression: units separated by single
/// spaces, parsed left to right, their ranges emitted in that order; the
/// first failing unit's error is the expression's error.
pub open spec fn spec_parse_pages(s: Seq<u8>, page_count: u32) -> Result<
    Seq<PageRange>,
    ParseError,
>
    decreases s.len(),
    via spec_parse_pages_decreases
{
    match find_sep(s, 32) {
        None => match spec_parse_unit(s, page_count) {
            Ok(r) => Ok(seq![r]),
            Err(e) => Err(e),
        },
        Some(i) => match spec_parse_unit(s.subrange(0, i), page_count) {
            Err(e) => Err(e),
            Ok(r) => match spec_parse_pages(s.subrange(i + 1, s.len() as int), page_count) {
                Err(e) => Err(e),
                Ok(rest) => Ok(seq![r] + rest),
            },
        },
    }
}

#[via_fn]
proof fn spec_parse_pages_decreases(s: Seq<u8>, page_count: u32) {
    lemma_find_sep(s, 32);
}

/// Units already parsed, prepended to the outcome for the rest of the
/// expression.
pub open spec fn with_prefix(acc: Seq<PageRange>, r: Result<Seq<PageRange>, ParseError>) -> Result<
    Seq<PageRange>,
    ParseError,
> {
    match r {
        Ok(rest) => Ok(acc + rest),
        Err(e) => Err(e),
    }
}

/// Parses a whole range expression against a source document's page count.
/// On success every returned range is a validated span of that document,
/// in the order the units were written.
pub fn parse_pages(expr: &[u8], page_count: u32) -> (r: Result<Vec<PageRange>, ParseError>)
    ensures
        match r {
            Ok(v) => spec_parse_pages(expr@, page_count) == Result::<
                Seq<PageRange>,
                ParseError,
            >::Ok(v@),
            Err(e) => spec_parse_pages(expr@, page_count) == Result::<
                Seq<PageRange>,
                ParseError,
            >::Err(e),
        },
{
    let mut out: Vec<PageRange> = Vec::new();
    let mut p: usize = 0;
    proof {
        assert(expr@.subrange(0, expr@.len() as int) =~= expr@);
        let r0 = spec_parse_pages(expr@, page_count);
        if r0 is Ok {
            assert(Seq::<PageRange>::empty() + r0->Ok_0 =~= r0->Ok_0);
        }
    }
    loop
        invariant
            p <= expr@.len(),
            spec_parse_pages(expr@, page_count) == with_prefix(
                out@,
                spec_parse_pages(expr@.subrange(p as int, expr@.len() as int), page_count),
            ),
        decreases expr@.len() - p,
    {
        let rest = slice_subrange(expr, p, expr.len());
        let ghost rest_s = expr@.subrange(p as int, expr@.len() as int);
        match find_byte(rest, 32) {
            None => {
                match parse_unit(rest, page_count) {
                    Ok(pr) => {
                        let ghost pre = out@;
                        out.push(pr);
                        proof {
                            assert(spec_parse_pages(rest_s, page_count) == Result::<
                                Seq<PageRange>,
                                ParseError,
                            >::Ok(seq![pr]));
                            assert(pre + seq![pr] =~= out@);
                        }
                        return Ok(out);
                    },
                    Err(e) => {
                        return Err(e);
                    },
                }
            },
            Some(q) => {
                proof {
                    lemma_find_sep(rest_s, 32);
                }
                let token = slice_subrange(rest, 0, q);
                match parse_unit(token, page_count) {
                    Err(e) => {
                        return Err(e);
                    },
                    Ok(pr) => {
                        let ghost pre = out@;
                        out.push(pr);
                        proof {
                            let suf = expr@.subrange(p + q + 1, expr@.len() as int);
                            assert(rest_s.subrange(q + 1, rest_s.len() as int) =~= suf);
                            assert(pre + seq![pr] =~= out@);
                            let rsuf = spec_parse_pages(suf, page_count);
                            if rsuf is Ok {
                                assert(pre + (seq![pr] + rsuf->Ok_0) =~= (pre + seq![pr])
                                    + rsuf->Ok_0);
                            }
                        }
                        p = p + q + 1;
                    },
                }
            },
        }
    }
}

} // verus!
