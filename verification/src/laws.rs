//! Laws of the range grammar and of assembly, stated for every input the
//! grammar allows and proved against the parser's and assembler's own
//! specifications.

use vstd::prelude::*;
use crate::parser::{
    dec_value, find_sep, is_digit, is_digits, is_end_literal, lemma_find_sep_at,
    lemma_find_sep_none, spec_parse_pages, spec_parse_ref, spec_parse_unit, spec_rotation,
};
use crate::assembler::{flat_copies, range_copies, spec_assemble};
use crate::types::{CopyInstruction, PageRange, ParseError, Rotation};

verus! {

/// The three bytes of the literal `end`.
pub open spec fn end_lit() -> Seq<u8> {
    seq![101u8, 110u8, 100u8]
}

/// Digits are not separators: a digit run contains no space, dash, or `r`.
proof fn lemma_digits_not_sep(s: Seq<u8>)
    requires
        forall|j: int| 0 <= j < s.len() ==> is_digit(#[trigger] s[j]),
    ensures
        forall|j: int| 0 <= j < s.len() ==> s[j] != 32 && s[j] != 45 && s[j] != 114,
{
}

/// A digit-run bound resolves to its value minus one, with no rotation.
proof fn lemma_ref_digits(t: Seq<u8>, page_count: u32)
    requires
        is_digits(t),
        1 <= dec_value(t) <= page_count,
    ensures
        spec_parse_ref(t, page_count) == Result::<(u32, Option<Rotation>), ParseError>::Ok(
            (((dec_value(t) - 1) as u32), None),
        ),
{
    lemma_digits_not_sep(t);
    lemma_find_sep_none(t, 114);
    assert(!is_end_literal(t));
}

/// The literal `end` resolves to the last page, with no rotation.
proof fn lemma_ref_end(page_count: u32)
    requires
        page_count >= 1,
    ensures
        spec_parse_ref(end_lit(), page_count) == Result::<
            (u32, Option<Rotation>),
            ParseError,
        >::Ok((((page_count - 1) as u32), None)),
{
    let t = end_lit();
    assert forall|j: int| 0 <= j < t.len() implies t[j] != 114 by {}
    lemma_find_sep_none(t, 114);
    assert(is_end_literal(t));
}

/// A digit-run bound with a valid rotation suffix resolves to its value
/// minus one and that rotation.
proof fn lemma_ref_digits_rot(b: Seq<u8>, sfx: Seq<u8>, rot: Rotation, page_count: u32)
    requires
        is_digits(b),
        1 <= dec_value(b) <= page_count,
        spec_rotation(sfx) == Some(rot),
    ensures
        spec_parse_ref(b + seq![114u8] + sfx, page_count) == Result::<
            (u32, Option<Rotation>),
            ParseError,
        >::Ok((((dec_value(b) - 1) as u32), Some(rot))),
{
    let t = b + seq![114u8] + sfx;
    lemma_digits_not_sep(b);
    assert forall|j: int| 0 <= j < b.len() implies t[j] != 114 by {
        assert(t[j] == b[j]);
    }
    assert(t[b.len() as int] == 114);
    lemma_find_sep_at(t, 114, b.len() as int);
    assert(t.subrange(0, b.len() as int) =~= b);
    assert(t.subrange(b.len() as int + 1, t.len() as int) =~= sfx);
    assert(!is_end_literal(b));
}

/// A single token with no space parses as one unit.
proof fn lemma_pages_of_unit(t: Seq<u8>, page_count: u32)
    requires
        forall|j: int| 0 <= j < t.len() ==> t[j] != 32,
    ensures
        spec_parse_pages(t, page_count) == match spec_parse_unit(t, page_count) {
            Ok(r) => Result::<Seq<PageRange>, ParseError>::Ok(seq![r]),
            Err(e) => Result::<Seq<PageRange>, ParseError>::Err(e),
        },
{
    lemma_find_sep_none(t, 32);
}

/// Law: a valid single-page token `N` (1 <= N <= page_count) parses to
/// exactly one range, covering page N-1 alone, with no rotation.
pub proof fn lemma_single_page_law(t: Seq<u8>, page_count: u32)
    requires
        is_digits(t),
        1 <= dec_value(t) <= page_count,
    ensures
        spec_parse_pages(t, page_count) == Result::<Seq<PageRange>, ParseError>::Ok(
            seq![
                PageRange {
                    start: (dec_value(t) - 1) as u32,
                    end: (dec_value(t) - 1) as u32,
                    rotation: None,
                },
            ],
        ),
{
    lemma_digits_not_sep(t);
    lemma_find_sep_none(t, 45);
    lemma_ref_digits(t, page_count);
    lemma_pages_of_unit(t, page_count);
}

/// Law: the token `end` parses to the single range covering the last page.
pub proof fn lemma_end_token_law(page_count: u32)
    requires
        page_count >= 1,
    ensures
        spec_parse_pages(end_lit(), page_count) == Result::<Seq<PageRange>, ParseError>::Ok(
            seq![
                PageRange {
                    start: (page_count - 1) as u32,
                    end: (page_count - 1) as u32,
                    rotation: None,
                },
            ],
        ),
{
    let t = end_lit();
    assert forall|j: int| 0 <= j < t.len() implies t[j] != 45 && t[j] != 32 by {}
    lemma_find_sep_none(t, 45);
    lemma_ref_end(page_count);
    lemma_pages_of_unit(t, page_count);
}

/// The bytes of an interval token `a-b`, and where its dash stands.
proof fn lemma_interval_shape(a: Seq<u8>, b: Seq<u8>)
    requires
        forall|j: int| 0 <= j < a.len() ==> (#[trigger] a[j]) != 45,
    ensures
        find_sep(a + seq![45u8] + b, 45) == Some(a.len() as int),
        (a + seq![45u8] + b).subrange(0, a.len() as int) =~= a,
        (a + seq![45u8] + b).subrange(a.len() as int + 1, (a + seq![45u8] + b).len() as int) =~= b,
{
    let t = a + seq![45u8] + b;
    assert forall|j: int| 0 <= j < a.len() implies t[j] != 45 by {
        assert(t[j] == a[j]);
    }
    assert(t[a.len() as int] == 45);
    lemma_find_sep_at(t, 45, a.len() as int);
}

/// Law: a valid interval token `A-B` (1 <= A <= B <= page_count) parses to
/// exactly one range from A-1 to B-1, with no rotation.
pub proof fn lemma_interval_law(a: Seq<u8>, b: Seq<u8>, page_count: u32)
    requires
        is_digits(a),
        is_digits(b),
        1 <= dec_value(a) <= dec_value(b) <= page_count,
    ensures
        spec_parse_pages(a + seq![45u8] + b, page_count) == Result::<
            Seq<PageRange>,
            ParseError,
        >::Ok(
            seq![
                PageRange {
                    start: (dec_value(a) - 1) as u32,
                    end: (dec_value(b) - 1) as u32,
                    rotation: None,
                },
            ],
        ),
{
    let t = a + seq![45u8] + b;
    lemma_digits_not_sep(a);
    lemma_digits_not_sep(b);
    lemma_interval_shape(a, b);
    lemma_ref_digits(a, page_count);
    lemma_ref_digits(b, page_count);
    assert forall|j: int| 0 <= j < t.len() implies t[j] != 32 by {
        if j < a.len() {
            assert(t[j] == a[j]);
        } else if j > a.len() {
            assert(t[j] == b[j - a.len() - 1]);
        }
    }
    lemma_pages_of_unit(t, page_count);
}

/// Law: `N-end` resolves its end bound to the last page, whatever N is, as
/// long as N itself is a valid page.
pub proof fn lemma_to_end_law(a: Seq<u8>, page_count: u32)
    requires
        is_digits(a),
        1 <= dec_value(a) <= page_count,
    ensures
        spec_parse_pages(a + seq![45u8] + end_lit(), page_count) == Result::<
            Seq<PageRange>,
            ParseError,
        >::Ok(
            seq![
                PageRange {
                    start: (dec_value(a) - 1) as u32,
                    end: (page_count - 1) as u32,
                    rotation: None,
                },
            ],
        ),
{
    let t = a + seq![45u8] + end_lit();
    lemma_digits_not_sep(a);
    lemma_interval_shape(a, end_lit());
    lemma_ref_digits(a, page_count);
    lemma_ref_end(page_count);
    assert forall|j: int| 0 <= j < t.len() implies t[j] != 32 by {
        if j < a.len() {
            assert(t[j] == a[j]);
        } else if j > a.len() {
            assert(t[j] == end_lit()[j - a.len() - 1]);
        }
    }
    lemma_pages_of_unit(t, page_count);
}

/// Law: a rotation suffix on an interval's end bound attaches that
/// rotation to the whole range, and assembly gives it to every page of the
/// span, not just the last.
pub proof fn lemma_interval_rotation_law(
    a: Seq<u8>,
    b: Seq<u8>,
    sfx: Seq<u8>,
    rot: Rotation,
    page_count: u32,
)
    requires
        is_digits(a),
        is_digits(b),
        1 <= dec_value(a) <= dec_value(b) <= page_count,
        spec_rotation(sfx) == Some(rot),
    ensures
        spec_parse_pages(a + seq![45u8] + (b + seq![114u8] + sfx), page_count) == Result::<
            Seq<PageRange>,
            ParseError,
        >::Ok(
            seq![
                PageRange {
                    start: (dec_value(a) - 1) as u32,
                    end: (dec_value(b) - 1) as u32,
                    rotation: Some(rot),
                },
            ],
        ),
        forall|k: int|
            0 <= k < spec_assemble(
                seq![
                    PageRange {
                        start: (dec_value(a) - 1) as u32,
                        end: (dec_value(b) - 1) as u32,
                        rotation: Some(rot),
                    },
                ],
            ).len() ==> (#[trigger] spec_assemble(
                seq![
                    PageRange {
                        start: (dec_value(a) - 1) as u32,
                        end: (dec_value(b) - 1) as u32,
                        rotation: Some(rot),
                    },
                ],
            )[k]).rotation_override == Some(rot),
{
    let right = b + seq![114u8] + sfx;
    let t = a + seq![45u8] + right;
    lemma_digits_not_sep(a);
    lemma_digits_not_sep(b);
    lemma_interval_shape(a, right);
    lemma_ref_digits(a, page_count);
    lemma_ref_digits_rot(b, sfx, rot, page_count);
    assert(sfx.len() <= 3 && forall|j: int| 0 <= j < sfx.len() ==> is_digit(#[trigger] sfx[j]));
    assert forall|j: int| 0 <= j < t.len() implies t[j] != 32 by {
        if j < a.len() {
            assert(t[j] == a[j]);
        } else if j > a.len() {
            assert(t[j] == right[j - a.len() - 1]);
            let i = j - a.len() - 1;
            if i < b.len() {
                assert(right[i] == b[i]);
            } else if i > b.len() {
                assert(right[i] == sfx[i - b.len() - 1]);
            }
        }
    }
    lemma_pages_of_unit(t, page_count);
    let rg = PageRange {
        start: (dec_value(a) - 1) as u32,
        end: (dec_value(b) - 1) as u32,
        rotation: Some(rot),
    };
    assert(seq![rg].drop_last() =~= Seq::<PageRange>::empty());
    assert(flat_copies(Seq::<PageRange>::empty()) == Seq::<(u32, Option<Rotation>)>::empty());
    assert(Seq::<(u32, Option<Rotation>)>::empty() + range_copies(rg) =~= range_copies(rg));
    assert(flat_copies(seq![rg]) =~= range_copies(rg));
}

/// Law: an invalid rotation suffix is a syntax error; no range comes back.
/// The suffix body may be any text free of the unit and interval
/// separators that fails to name one of the four rotations.
pub proof fn lemma_invalid_rotation_law(b: Seq<u8>, sfx: Seq<u8>, page_count: u32)
    requires
        is_digits(b),
        1 <= dec_value(b) <= page_count,
        spec_rotation(sfx) == None::<Rotation>,
        forall|j: int| 0 <= j < sfx.len() ==> sfx[j] != 32 && sfx[j] != 45,
    ensures
        spec_parse_pages(b + seq![114u8] + sfx, page_count) == Result::<
            Seq<PageRange>,
            ParseError,
        >::Err(ParseError::InvalidRotation),
{
    let t = b + seq![114u8] + sfx;
    lemma_digits_not_sep(b);
    assert forall|j: int| 0 <= j < t.len() implies t[j] != 45 && t[j] != 32 by {
        if j < b.len() {
            assert(t[j] == b[j]);
        } else if j > b.len() {
            assert(t[j] == sfx[j - b.len() - 1]);
        }
    }
    lemma_find_sep_none(t, 45);
    assert forall|j: int| 0 <= j < b.len() implies t[j] != 114 by {
        assert(t[j] == b[j]);
    }
    assert(t[b.len() as int] == 114);
    lemma_find_sep_at(t, 114, b.len() as int);
    assert(t.subrange(0, b.len() as int) =~= b);
    assert(t.subrange(b.len() as int + 1, t.len() as int) =~= sfx);
    assert(!is_end_literal(b));
    lemma_pages_of_unit(t, page_count);
}

/// Law: an interval whose resolved start exceeds its resolved end is a
/// semantic error, not a range.
pub proof fn lemma_start_after_end_law(a: Seq<u8>, b: Seq<u8>, page_count: u32)
    requires
        is_digits(a),
        is_digits(b),
        1 <= dec_value(b) < dec_value(a) <= page_count,
    ensures
        spec_parse_pages(a + seq![45u8] + b, page_count) == Result::<
            Seq<PageRange>,
            ParseError,
        >::Err(ParseError::StartAfterEnd),
{
    let t = a + seq![45u8] + b;
    lemma_digits_not_sep(a);
    lemma_digits_not_sep(b);
    lemma_interval_shape(a, b);
    lemma_ref_digits(a, page_count);
    lemma_ref_digits(b, page_count);
    assert forall|j: int| 0 <= j < t.len() implies t[j] != 32 by {
        if j < a.len() {
            assert(t[j] == a[j]);
        } else if j > a.len() {
            assert(t[j] == b[j - a.len() - 1]);
        }
    }
    lemma_pages_of_unit(t, page_count);
}

/// Law: extracting the full range `1-end` with no rotation reproduces the
/// document: the plan copies page k to target k for every page, touching
/// no rotation.
pub proof fn lemma_full_range_identity_law(page_count: u32)
    requires
        page_count >= 1,
    ensures
        spec_parse_pages(seq![49u8, 45u8, 101u8, 110u8, 100u8], page_count) == Result::<
            Seq<PageRange>,
            ParseError,
        >::Ok(seq![PageRange { start: 0, end: (page_count - 1) as u32, rotation: None }]),
        spec_assemble(seq![PageRange { start: 0, end: (page_count - 1) as u32, rotation: None }])
            =~= Seq::new(
            page_count as nat,
            |k: int| CopyInstruction {
                source_index: k as u32,
                target_index: k as usize,
                rotation_override: None,
            },
        ),
{
    let one = seq![49u8];
    assert(one.drop_last() =~= Seq::<u8>::empty());
    assert(dec_value(Seq::<u8>::empty()) == 0);
    assert(dec_value(one) == 1);
    assert(is_digits(one));
    lemma_to_end_law(one, page_count);
    assert(one + seq![45u8] + end_lit() =~= seq![49u8, 45u8, 101u8, 110u8, 100u8]);
    let rg = PageRange { start: 0, end: (page_count - 1) as u32, rotation: None };
    assert(seq![rg].drop_last() =~= Seq::<PageRange>::empty());
    assert(flat_copies(Seq::<PageRange>::empty()) == Seq::<(u32, Option<Rotation>)>::empty());
    assert(Seq::<(u32, Option<Rotation>)>::empty() + range_copies(rg) =~= range_copies(rg));
    assert(flat_copies(seq![rg]) =~= range_copies(rg));
}

} // verus!
