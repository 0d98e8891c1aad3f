use std::cmp::Ordering;

use tsalign::alignment_type::{AlignmentType, TemplateSwitchPrimary, TemplateSwitchSecondary};
use tsalign::character::Character;
use tsalign::cost::U64Cost;
use tsalign::search::{NodeData, NodeIdentifier};
use tsalign::sequence::MultipairAlignmentSequence;
use tsalign::strategies::{
    compare_nodes, AntiDiagonalNodeOrdStrategy, CostOnlyNodeOrdStrategy, NodeOrdStrategy,
    TemplateSwitchNodeOrdStrategy, TemplateSwitchNodeOrdStrategySelector,
};

fn node(reference_index: usize, query_index: usize, cost: u64) -> NodeData {
    NodeData {
        identifier: NodeIdentifier::Primary { reference_index, query_index },
        template_switch_count: 0,
        cost: U64Cost::from_u64(cost),
        predecessor: 0,
        alignment_type: AlignmentType::Root,
    }
}

#[test]
fn cost_only_order_ignores_position() {
    let s = CostOnlyNodeOrdStrategy;
    assert_eq!(s.cmp(&node(0, 0, 1), &node(5, 5, 2)), Ordering::Less);
    assert_eq!(s.cmp(&node(0, 0, 3), &node(5, 5, 2)), Ordering::Greater);
    assert_eq!(s.cmp(&node(0, 0, 2), &node(5, 5, 2)), Ordering::Equal);
}

#[test]
fn anti_diagonal_order_breaks_ties_forward() {
    let s = AntiDiagonalNodeOrdStrategy;
    assert_eq!(s.cmp(&node(0, 0, 1), &node(5, 5, 2)), Ordering::Less);
    assert_eq!(s.cmp(&node(5, 5, 2), &node(0, 0, 2)), Ordering::Less);
    assert_eq!(s.cmp(&node(0, 1, 2), &node(4, 5, 2)), Ordering::Greater);
    assert_eq!(s.cmp(&node(1, 2, 2), &node(2, 1, 2)), Ordering::Equal);
    assert_eq!(
        compare_nodes(TemplateSwitchNodeOrdStrategy::AntiDiagonal, &node(3, 3, 2), &node(0, 0, 2)),
        Ordering::Less
    );
    assert_eq!(
        compare_nodes(TemplateSwitchNodeOrdStrategy::CostOnly, &node(3, 3, 2), &node(0, 0, 2)),
        Ordering::Equal
    );
    assert_eq!(
        TemplateSwitchNodeOrdStrategySelector::AntiDiagonal.strategy(),
        TemplateSwitchNodeOrdStrategy::AntiDiagonal
    );
}

#[test]
fn inverting_swaps_roles() {
    assert_eq!(AlignmentType::PrimaryInsertion.inverted(), AlignmentType::PrimaryDeletion);
    assert_eq!(AlignmentType::SecondaryDeletion.inverted(), AlignmentType::SecondaryInsertion);
    assert_eq!(AlignmentType::PrimaryMatch.inverted(), AlignmentType::PrimaryMatch);
    assert_eq!(
        AlignmentType::TemplateSwitchEntrance {
            primary: TemplateSwitchPrimary::Query,
            secondary: TemplateSwitchSecondary::Reference,
            first_offset: -3,
        }
        .inverted(),
        AlignmentType::TemplateSwitchEntrance {
            primary: TemplateSwitchPrimary::Reference,
            secondary: TemplateSwitchSecondary::Query,
            first_offset: -3,
        }
    );
    assert_eq!(
        AlignmentType::PrimaryShortcut { delta_reference: 1, delta_query: 2 }.inverted(),
        AlignmentType::PrimaryShortcut { delta_reference: 2, delta_query: 1 }
    );
}

#[test]
fn row_text() {
    let row = MultipairAlignmentSequence::from_vec(vec![
        Character::new_char_with_default('A'),
        Character::new_gap(tsalign::character::NoCharacterData),
        Character::new_blank(tsalign::character::NoCharacterData),
    ]);
    assert_eq!(row.to_text(), "A- ");
}
