use page_ranges::assembler::{assemble, concat_plan, extract_plan, rotation_action};
use page_ranges::types::{CopyInstruction, DocCopy, PageRange, ParseError, Rotation};

fn instr(source_index: u32, target_index: usize, rotation_override: Option<Rotation>) -> CopyInstruction {
    CopyInstruction { source_index, target_index, rotation_override }
}

#[test]
fn assembling_two_ranges_appends_in_arrival_order() {
    let ranges = vec![
        PageRange { start: 0, end: 0, rotation: None },
        PageRange { start: 2, end: 3, rotation: None },
    ];
    assert_eq!(
        assemble(&ranges),
        vec![instr(0, 0, None), instr(2, 1, None), instr(3, 2, None)]
    );
}

#[test]
fn rotation_override_repeats_on_every_page_of_a_range() {
    let plan = extract_plan(b"2-4r90", 5).unwrap();
    assert_eq!(
        plan,
        vec![
            instr(1, 0, Some(Rotation::R90)),
            instr(2, 1, Some(Rotation::R90)),
            instr(3, 2, Some(Rotation::R90)),
        ]
    );
}

#[test]
fn full_range_extraction_is_the_identity_plan() {
    let plan = extract_plan(b"1-end", 4).unwrap();
    assert_eq!(
        plan,
        vec![instr(0, 0, None), instr(1, 1, None), instr(2, 2, None), instr(3, 3, None)]
    );
}

#[test]
fn extract_plan_reports_parse_errors_and_plans_nothing() {
    assert_eq!(extract_plan(b"9", 5), Err(ParseError::OutOfBounds));
    assert_eq!(extract_plan(b"2-1", 5), Err(ParseError::StartAfterEnd));
    assert_eq!(extract_plan(b"1r15", 5), Err(ParseError::InvalidRotation));
}

#[test]
fn extract_plan_follows_unit_order() {
    let plan = extract_plan(b"1 3-4 end", 5).unwrap();
    assert_eq!(
        plan,
        vec![instr(0, 0, None), instr(2, 1, None), instr(3, 2, None), instr(4, 3, None)]
    );
}

#[test]
fn concatenating_documents_interleaves_in_document_then_page_order() {
    let plan = concat_plan(&vec![3, 2]);
    assert_eq!(
        plan,
        vec![
            DocCopy { doc_index: 0, source_index: 0, target_index: 0 },
            DocCopy { doc_index: 0, source_index: 1, target_index: 1 },
            DocCopy { doc_index: 0, source_index: 2, target_index: 2 },
            DocCopy { doc_index: 1, source_index: 0, target_index: 3 },
            DocCopy { doc_index: 1, source_index: 1, target_index: 4 },
        ]
    );
}

#[test]
fn concatenation_skips_empty_documents_without_gaps() {
    let plan = concat_plan(&vec![2, 0, 1]);
    assert_eq!(
        plan,
        vec![
            DocCopy { doc_index: 0, source_index: 0, target_index: 0 },
            DocCopy { doc_index: 0, source_index: 1, target_index: 1 },
            DocCopy { doc_index: 2, source_index: 0, target_index: 2 },
        ]
    );
}

#[test]
fn concatenating_nothing_plans_nothing() {
    assert_eq!(concat_plan(&vec![]), vec![]);
}

#[test]
fn rotation_set_is_skipped_when_already_equal() {
    assert_eq!(rotation_action(Some(Rotation::R90), Rotation::R90), None);
    assert_eq!(rotation_action(Some(Rotation::R0), Rotation::R0), None);
    assert_eq!(rotation_action(Some(Rotation::R90), Rotation::R0), Some(Rotation::R90));
    assert_eq!(rotation_action(Some(Rotation::R0), Rotation::R90), Some(Rotation::R0));
    assert_eq!(rotation_action(None, Rotation::R180), None);
}
