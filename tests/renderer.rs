use tsalign::alignment_type::AlignmentType;
use tsalign::character::{Character, CharacterKind, NoCharacterData};
use tsalign::inner::{inner_first_non_blank_column, inner_last_non_blank_column, InnerChar};
use tsalign::renderer::MultipairAlignmentRenderer;
use tsalign::sequence::MultipairAlignmentSequence;

fn chars(s: &str) -> Vec<char> {
    s.chars().collect()
}

fn name(s: &str) -> String {
    s.to_string()
}

#[test]
fn insertion_opens_gap_in_reference() {
    let mut renderer = MultipairAlignmentRenderer::new_without_data(name("reference"), chars("ACGT"));
    renderer.add_aligned_sequence_without_data(
        &name("reference"),
        0,
        name("query"),
        chars("ACTGT"),
        vec![
            (2, AlignmentType::PrimaryMatch),
            (1, AlignmentType::PrimaryInsertion),
            (2, AlignmentType::PrimaryMatch),
        ],
        false,
        false,
    );
    let rendered = renderer.render(&vec![name("reference"), name("query")]);
    assert_eq!(rendered, "reference: AC-GT\nquery:     ACTGT\n");
}

#[test]
fn substitution_lowercases_both_rows() {
    let mut renderer = MultipairAlignmentRenderer::new_without_data(name("r"), chars("ACGT"));
    renderer.add_aligned_sequence_without_data(
        &name("r"),
        0,
        name("q"),
        chars("ACTT"),
        vec![
            (2, AlignmentType::PrimaryMatch),
            (1, AlignmentType::PrimarySubstitution),
            (1, AlignmentType::PrimaryMatch),
        ],
        true,
        false,
    );
    assert_eq!(renderer.render_without_names(&vec![name("r"), name("q")]), "ACgT\nACtT\n");
}

#[test]
fn deletion_shows_gap_in_query_and_offset_leaves_blanks() {
    let mut renderer = MultipairAlignmentRenderer::new_without_data(name("r"), chars("ACGTA"));
    renderer.add_aligned_sequence_without_data(
        &name("r"),
        2,
        name("q"),
        chars("GA"),
        vec![
            (1, AlignmentType::PrimaryMatch),
            (1, AlignmentType::PrimaryDeletion),
            (1, AlignmentType::PrimaryMatch),
        ],
        false,
        false,
    );
    assert_eq!(renderer.render_without_names(&vec![name("r"), name("q")]), "ACGTA\n  G-A\n");
}

#[test]
fn inverted_alignment_swaps_insertions_and_deletions() {
    let mut renderer = MultipairAlignmentRenderer::new_without_data(name("r"), chars("ACGT"));
    renderer.add_aligned_sequence_without_data(
        &name("r"),
        0,
        name("q"),
        chars("ACT"),
        vec![
            (2, AlignmentType::PrimaryMatch),
            (1, AlignmentType::PrimaryInsertion),
            (1, AlignmentType::PrimaryMatch),
        ],
        false,
        true,
    );
    assert_eq!(renderer.render_without_names(&vec![name("r"), name("q")]), "ACGT\nAC-T\n");
}

#[test]
fn other_rows_get_blanks_in_new_gap_columns() {
    let mut renderer = MultipairAlignmentRenderer::new_without_data(name("r"), chars("AC"));
    renderer.add_independent_sequence(
        name("x"),
        vec![Character::new_char_with_default('X'), Character::new_char_with_default('Y')],
    );
    renderer.add_aligned_sequence_without_data(
        &name("r"),
        0,
        name("q"),
        chars("AGC"),
        vec![
            (1, AlignmentType::PrimaryMatch),
            (1, AlignmentType::PrimaryInsertion),
            (1, AlignmentType::PrimaryMatch),
        ],
        false,
        false,
    );
    assert_eq!(
        renderer.render(&vec![name("r"), name("x"), name("q")]),
        "r: A-C\nx: X Y\nq: AGC\n"
    );
}

#[test]
fn extend_sequence_pads_other_rows() {
    let mut renderer = MultipairAlignmentRenderer::new_without_data(name("a"), chars("AC"));
    renderer.add_empty_independent_sequence(name("b"));
    renderer.extend_sequence_with_default_data(&name("a"), chars("GT"));
    assert_eq!(renderer.render_without_names(&vec![name("a"), name("b")]), "ACGT\n    \n");
    assert_eq!(renderer.sequence(&name("b")).len(), 4);
}

#[test]
fn extend_sequence_with_alignment_continues_query() {
    let mut renderer = MultipairAlignmentRenderer::new_without_data(name("r"), chars("ACGT"));
    renderer.add_aligned_sequence_without_data(
        &name("r"),
        0,
        name("q"),
        chars("AC"),
        vec![(2, AlignmentType::PrimaryMatch)],
        false,
        false,
    );
    renderer.extend_sequence_with_alignment_and_default_data(
        &name("r"),
        &name("q"),
        2,
        chars("GA"),
        vec![(1, AlignmentType::PrimaryMatch), (1, AlignmentType::PrimarySubstitution)],
        false,
        false,
    );
    assert_eq!(renderer.render_without_names(&vec![name("r"), name("q")]), "ACGT\nACGA\n");
}

#[test]
fn renderer_with_payload_keeps_data() {
    let root: Vec<Character<u8>> = vec![Character::new_char('A', 1), Character::new_char('C', 2)];
    let mut renderer = MultipairAlignmentRenderer::new(name("r"), root);
    renderer.add_aligned_sequence(
        &name("r"),
        0,
        name("q"),
        vec![Character::new_char('A', 7)],
        9,
        8,
        vec![(1, AlignmentType::PrimaryMatch), (1, AlignmentType::PrimaryDeletion)],
        false,
        false,
    );
    let q = renderer.sequence(&name("q"));
    assert_eq!(*q.get(0).unwrap().data(), 7);
    assert_eq!(*q.get(1).unwrap().data(), 8);
    assert_eq!(q.get(1).unwrap().kind(), CharacterKind::Gap);
    assert!(q.get(2).is_none());
    let mut empty = MultipairAlignmentRenderer::<NoCharacterData>::new_empty();
    empty.add_empty_independent_sequence(name("e"));
    assert_eq!(empty.render(&vec![name("e")]), "e: \n");
}

fn sample_sequence() -> MultipairAlignmentSequence<NoCharacterData> {
    MultipairAlignmentSequence::from_vec(vec![
        Character::new(CharacterKind::Blank, NoCharacterData),
        Character::new_char_with_default('A'),
        Character::new(CharacterKind::Gap, NoCharacterData),
        Character::new_char_with_default('C'),
        Character::new(CharacterKind::Gap, NoCharacterData),
    ])
}

#[test]
fn translate_offsets() {
    let sequence = sample_sequence();
    assert_eq!(sequence.translate_alignment_offset(0), Some(0));
    assert_eq!(sequence.translate_alignment_offset(1), Some(2));
    assert_eq!(sequence.translate_alignment_offset(2), Some(4));
    assert_eq!(sequence.translate_alignment_offset(3), None);
    assert_eq!(sequence.translate_extension_offset(0), Some(0));
    assert_eq!(sequence.translate_extension_offset(1), Some(2));
    assert_eq!(sequence.translate_extension_offset(2), Some(4));
    assert_eq!(sequence.translate_extension_offset(3), None);
    assert_eq!(sequence.iter_characters(), chars(" A-C-"));
    assert_eq!(sequence.iter().len(), 5);
}

#[test]
fn row_editing() {
    let mut sequence = sample_sequence();
    sequence.extend_with_blanks(NoCharacterData, 7);
    assert_eq!(sequence.iter_characters(), chars(" A-C-  "));
    sequence.prune_blanks(5);
    assert_eq!(sequence.iter_characters(), chars(" A-C-"));
    sequence.push(Character::new_char_with_default('G'));
    sequence.extend_with(vec![Character::new_char_with_default('T')]);
    assert_eq!(sequence.iter_characters(), chars(" A-C-GT"));
    sequence.insert_gaps(NoCharacterData, &vec![0, 7]);
    assert_eq!(sequence.iter_characters(), chars("- A-C-GT-"));
    sequence.insert_blanks(NoCharacterData, &vec![1, 1]);
    assert_eq!(sequence.iter_characters(), chars("-   A-C-GT-"));
}

#[test]
fn multi_insert_merges_in_order() {
    let mut sequence = MultipairAlignmentSequence::from_vec(vec![
        Character::new_char_with_default('a'),
        Character::new_char_with_default('b'),
        Character::new_char_with_default('c'),
    ]);
    sequence.multi_insert(
        &vec![
            Character::new_char_with_default('x'),
            Character::new_char_with_default('y'),
            Character::new_char_with_default('z'),
        ],
        &vec![0, 2, 3],
    );
    assert_eq!(sequence.iter_characters(), chars("xabycz"));
}

#[test]
fn character_kinds() {
    let mut c = Character::new_char_with_default('Q');
    assert!(c.is_char());
    assert_eq!(c.as_char(), 'Q');
    c.make_ascii_lowercase();
    assert_eq!(c.as_char(), 'q');
    let mut gap = Character::new_gap(NoCharacterData);
    gap.make_ascii_lowercase();
    assert_eq!(gap.as_char(), '-');
    assert_eq!(Character::new_blank(NoCharacterData).as_char(), ' ');
    assert!(!Character::new_blank(NoCharacterData).is_char());
    assert!(CharacterKind::Gap.is_gap());
    assert!(CharacterKind::Blank.is_blank());
}

#[test]
fn inner_chars() {
    let mut c = InnerChar::Inner { column: 3, lower_case: false, copy_depth: None };
    c.to_lower_case();
    assert_eq!(c, InnerChar::Inner { column: 3, lower_case: true, copy_depth: None });
    assert_eq!(c.source_column(), 3);
    assert!(c.is_char() && c.is_source_char() && !c.is_gap() && !c.is_blank());
    assert!(!c.is_spacer() && !c.is_hidden());
    let row = vec![
        InnerChar::Blank,
        InnerChar::Gap { copy_depth: Some(1) },
        c,
        InnerChar::Blank,
    ];
    assert_eq!(inner_first_non_blank_column(&row), 1);
    assert_eq!(inner_last_non_blank_column(&row), 2);
    assert_eq!(inner_first_non_blank_column(&vec![InnerChar::Blank]), 1);
}
