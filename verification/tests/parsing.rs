use page_ranges::parser::{parse_pages, parse_rotation};
use page_ranges::types::{PageRange, ParseError, Rotation};

fn range(start: u32, end: u32, rotation: Option<Rotation>) -> PageRange {
    PageRange { start, end, rotation }
}

#[test]
fn single_page_token() {
    assert_eq!(parse_pages(b"3", 5), Ok(vec![range(2, 2, None)]));
    assert_eq!(parse_pages(b"1", 5), Ok(vec![range(0, 0, None)]));
    assert_eq!(parse_pages(b"5", 5), Ok(vec![range(4, 4, None)]));
}

#[test]
fn interval_token() {
    assert_eq!(parse_pages(b"2-4", 5), Ok(vec![range(1, 3, None)]));
    assert_eq!(parse_pages(b"1-5", 5), Ok(vec![range(0, 4, None)]));
    assert_eq!(parse_pages(b"3-3", 5), Ok(vec![range(2, 2, None)]));
}

#[test]
fn end_token_resolves_to_last_page() {
    assert_eq!(parse_pages(b"end", 5), Ok(vec![range(4, 4, None)]));
    assert_eq!(parse_pages(b"end", 1), Ok(vec![range(0, 0, None)]));
}

#[test]
fn to_end_resolves_regardless_of_start() {
    assert_eq!(parse_pages(b"2-end", 5), Ok(vec![range(1, 4, None)]));
    assert_eq!(parse_pages(b"5-end", 5), Ok(vec![range(4, 4, None)]));
    assert_eq!(parse_pages(b"end-end", 5), Ok(vec![range(4, 4, None)]));
}

#[test]
fn rotation_suffix_attaches_to_whole_range() {
    assert_eq!(parse_pages(b"2-4r90", 5), Ok(vec![range(1, 3, Some(Rotation::R90))]));
    assert_eq!(parse_pages(b"1-endr180", 5), Ok(vec![range(0, 4, Some(Rotation::R180))]));
}

#[test]
fn rotation_suffix_on_single_page() {
    assert_eq!(parse_pages(b"3r270", 5), Ok(vec![range(2, 2, Some(Rotation::R270))]));
    assert_eq!(parse_pages(b"endr0", 5), Ok(vec![range(4, 4, Some(Rotation::R0))]));
}

#[test]
fn invalid_rotation_suffix_is_syntax_error() {
    assert_eq!(parse_pages(b"3r45", 5), Err(ParseError::InvalidRotation));
    assert_eq!(parse_pages(b"3r", 5), Err(ParseError::InvalidRotation));
    assert_eq!(parse_pages(b"1-3r91", 5), Err(ParseError::InvalidRotation));
}

#[test]
fn rotation_on_first_bound_is_validated_then_discarded() {
    assert_eq!(parse_pages(b"1r90-3", 5), Ok(vec![range(0, 2, None)]));
    assert_eq!(parse_pages(b"1r45-3", 5), Err(ParseError::InvalidRotation));
}

#[test]
fn start_after_end_is_semantic_error() {
    assert_eq!(parse_pages(b"4-2", 5), Err(ParseError::StartAfterEnd));
    assert_eq!(parse_pages(b"end-1", 5), Err(ParseError::StartAfterEnd));
}

#[test]
fn multi_unit_expression_keeps_order() {
    assert_eq!(
        parse_pages(b"1 3-4 end", 5),
        Ok(vec![range(0, 0, None), range(2, 3, None), range(4, 4, None)])
    );
}

#[test]
fn duplicate_and_overlapping_units_are_kept() {
    assert_eq!(
        parse_pages(b"2 2 1-3", 3),
        Ok(vec![range(1, 1, None), range(1, 1, None), range(0, 2, None)])
    );
}

#[test]
fn zero_is_not_a_page_number() {
    assert_eq!(parse_pages(b"0", 5), Err(ParseError::MalformedNumber));
    assert_eq!(parse_pages(b"00", 5), Err(ParseError::MalformedNumber));
}

#[test]
fn malformed_numbers_are_rejected() {
    assert_eq!(parse_pages(b"abc", 5), Err(ParseError::MalformedNumber));
    assert_eq!(parse_pages(b"2x", 5), Err(ParseError::MalformedNumber));
    assert_eq!(parse_pages(b"1-2-3", 5), Err(ParseError::MalformedNumber));
}

#[test]
fn empty_bounds_are_rejected() {
    assert_eq!(parse_pages(b"", 5), Err(ParseError::MissingBound));
    assert_eq!(parse_pages(b"1-", 5), Err(ParseError::MissingBound));
    assert_eq!(parse_pages(b"-4", 5), Err(ParseError::MissingBound));
    assert_eq!(parse_pages(b"1  2", 5), Err(ParseError::MissingBound));
    assert_eq!(parse_pages(b"r90", 5), Err(ParseError::MissingBound));
}

#[test]
fn pages_beyond_the_document_are_rejected() {
    assert_eq!(parse_pages(b"7", 5), Err(ParseError::OutOfBounds));
    assert_eq!(parse_pages(b"1-6", 5), Err(ParseError::OutOfBounds));
    assert_eq!(parse_pages(b"end", 0), Err(ParseError::OutOfBounds));
    assert_eq!(parse_pages(b"1", 0), Err(ParseError::OutOfBounds));
}

#[test]
fn numbers_too_large_for_any_document_are_out_of_bounds() {
    assert_eq!(parse_pages(b"99999999999", u32::MAX), Err(ParseError::OutOfBounds));
}

#[test]
fn leading_zeros_are_accepted() {
    assert_eq!(parse_pages(b"07", 9), Ok(vec![range(6, 6, None)]));
}

#[test]
fn first_error_in_expression_wins() {
    assert_eq!(parse_pages(b"1 0 r45", 5), Err(ParseError::MalformedNumber));
    assert_eq!(parse_pages(b"1 9 4-2", 5), Err(ParseError::OutOfBounds));
}

#[test]
fn rotation_literals() {
    assert_eq!(parse_rotation(b"0"), Ok(Rotation::R0));
    assert_eq!(parse_rotation(b"90"), Ok(Rotation::R90));
    assert_eq!(parse_rotation(b"180"), Ok(Rotation::R180));
    assert_eq!(parse_rotation(b"270"), Ok(Rotation::R270));
    assert_eq!(parse_rotation(b"45"), Err(ParseError::InvalidRotation));
    assert_eq!(parse_rotation(b"900"), Err(ParseError::InvalidRotation));
    assert_eq!(parse_rotation(b""), Err(ParseError::InvalidRotation));
}
