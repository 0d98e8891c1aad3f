use tsalign::alignment_type::{AlignmentType, TemplateSwitchPrimary, TemplateSwitchSecondary};
use tsalign::cost_function::CostFunction;
use tsalign::search::{
    template_switch_distance_a_star_align, AbortReason, Alignment, Context, SearchConfig,
    SearchError, TemplateSwitchCostTable,
};
use tsalign::strategies::{
    TemplateSwitchChainingStrategySelector, TemplateSwitchMinLengthStrategySelector,
    TemplateSwitchNodeOrdStrategy,
};

fn costs() -> TemplateSwitchCostTable {
    let (_, anti_primary_gap) = CostFunction::parse_plain("-inf\n   0").unwrap();
    TemplateSwitchCostTable {
        primary_match: 0,
        primary_substitution: 3,
        primary_insertion: 3,
        primary_deletion: 3,
        secondary_match: 0,
        secondary_substitution: 3,
        secondary_insertion: 3,
        secondary_deletion: 3,
        template_switch_entrance: 2,
        template_switch_exit: 2,
        anti_primary_gap,
    }
}

fn config(node_ord: TemplateSwitchNodeOrdStrategy) -> SearchConfig {
    SearchConfig {
        node_ord,
        min_length_strategy: TemplateSwitchMinLengthStrategySelector::Disabled,
        min_length: 0,
        chaining: TemplateSwitchChainingStrategySelector::Disabled,
        max_template_switch_count: None,
        cost_limit: u64::MAX,
        memory_limit: 1_000_000,
        allow_primary_match: true,
        allow_secondary_deletion: true,
    }
}

fn context(reference: &str, query: &str, config: SearchConfig) -> Context {
    Context {
        reference: reference.as_bytes().to_vec(),
        query: query.as_bytes().to_vec(),
        costs: costs(),
        config,
    }
}

fn align(context: &Context) -> Result<Alignment, SearchError> {
    template_switch_distance_a_star_align(context, "reference".to_string(), "query".to_string())
}

const ORDERS: [TemplateSwitchNodeOrdStrategy; 2] = [
    TemplateSwitchNodeOrdStrategy::CostOnly,
    TemplateSwitchNodeOrdStrategy::AntiDiagonal,
];

/// The reference with a middle segment replaced by its reverse complement.
const SWITCH_REFERENCE: &str = "CCAAACGG";
const SWITCH_QUERY: &str = "CCGTTTGG";

fn expanded(alignment: &Alignment) -> Vec<AlignmentType> {
    let mut ops = Vec::new();
    for (multiplicity, op) in &alignment.operations {
        for _ in 0..*multiplicity {
            ops.push(*op);
        }
    }
    ops
}

#[test]
fn identical_sequences_align_by_matches() {
    for order in ORDERS {
        let alignment = align(&context("ACGTACGT", "ACGTACGT", config(order))).unwrap();
        assert_eq!(alignment.total_cost.value, 0);
        assert_eq!(alignment.operations, vec![(8, AlignmentType::PrimaryMatch)]);
        assert_eq!(alignment.reference_name, "reference");
        assert_eq!(alignment.query_name, "query");
    }
}

#[test]
fn primary_edits_have_hand_computed_cost() {
    for order in ORDERS {
        let alignment = align(&context("ACGT", "AGT", config(order))).unwrap();
        assert_eq!(alignment.total_cost.value, 3);
        let alignment = align(&context("ACGT", "ACCT", config(order))).unwrap();
        assert_eq!(alignment.total_cost.value, 3);
        assert_eq!(
            alignment.operations,
            vec![
                (2, AlignmentType::PrimaryMatch),
                (1, AlignmentType::PrimarySubstitution),
                (1, AlignmentType::PrimaryMatch)
            ]
        );
    }
}

#[test]
fn template_switch_is_cheaper_than_primary_edits() {
    for order in ORDERS {
        let alignment = align(&context(SWITCH_REFERENCE, SWITCH_QUERY, config(order))).unwrap();
        assert_eq!(alignment.total_cost.value, 4);
        let ops = expanded(&alignment);
        assert!(ops.iter().any(|op| matches!(
            op,
            AlignmentType::TemplateSwitchEntrance {
                primary: TemplateSwitchPrimary::Query,
                secondary: TemplateSwitchSecondary::Reference,
                ..
            }
        )));
    }
}

#[test]
fn node_order_does_not_change_cost() {
    for (reference, query) in [
        ("ACGTACGT", "ACGTACGT"),
        ("ACGT", "TTT"),
        ("GATTACA", "GATCACA"),
        (SWITCH_REFERENCE, SWITCH_QUERY),
        ("", "AC"),
    ] {
        let a = align(&context(reference, query, config(ORDERS[0]))).unwrap();
        let b = align(&context(reference, query, config(ORDERS[1]))).unwrap();
        assert_eq!(a.total_cost, b.total_cost);
    }
}

#[test]
fn zero_switch_budget_forbids_switches() {
    let mut limited = config(TemplateSwitchNodeOrdStrategy::CostOnly);
    limited.max_template_switch_count = Some(0);
    let without = align(&context(SWITCH_REFERENCE, SWITCH_QUERY, limited)).unwrap();
    assert!(!expanded(&without)
        .iter()
        .any(|op| matches!(op, AlignmentType::TemplateSwitchEntrance { .. })));
    assert_eq!(without.total_cost.value, 12);
    let with = align(&context(
        SWITCH_REFERENCE,
        SWITCH_QUERY,
        config(TemplateSwitchNodeOrdStrategy::CostOnly),
    ))
    .unwrap();
    assert!(with.total_cost.value <= without.total_cost.value);
}

#[test]
fn lookahead_enforces_minimum_length() {
    let mut cfg = config(TemplateSwitchNodeOrdStrategy::CostOnly);
    cfg.min_length_strategy = TemplateSwitchMinLengthStrategySelector::Lookahead;
    cfg.min_length = 9;
    let alignment = align(&context(SWITCH_REFERENCE, SWITCH_QUERY, cfg)).unwrap();
    let ops = expanded(&alignment);
    let mut secondary_steps = 0usize;
    let mut inside = false;
    for op in ops {
        match op {
            AlignmentType::TemplateSwitchEntrance { .. } => {
                inside = true;
                secondary_steps = 0;
            }
            AlignmentType::TemplateSwitchExit { .. } => {
                assert!(inside);
                assert!(secondary_steps >= 9);
                inside = false;
            }
            AlignmentType::SecondaryMatch
            | AlignmentType::SecondarySubstitution
            | AlignmentType::SecondaryInsertion
            | AlignmentType::SecondaryDeletion => secondary_steps += 1,
            _ => assert!(!inside),
        }
    }
    assert!(alignment.total_cost.value > 4);
    assert!(alignment.total_cost.value <= 12);
}

#[test]
fn tiny_limits_abort() {
    let mut cfg = config(TemplateSwitchNodeOrdStrategy::CostOnly);
    cfg.memory_limit = 0;
    assert_eq!(
        align(&context("ACGT", "ACGT", cfg)).unwrap_err(),
        SearchError::SearchAborted(AbortReason::MemoryLimitExceeded)
    );
    cfg.memory_limit = 1;
    assert_eq!(
        align(&context("ACGT", "ACGT", cfg)).unwrap_err(),
        SearchError::SearchAborted(AbortReason::MemoryLimitExceeded)
    );
    let mut cfg = config(TemplateSwitchNodeOrdStrategy::AntiDiagonal);
    cfg.cost_limit = 0;
    assert_eq!(
        align(&context("A", "C", cfg)).unwrap_err(),
        SearchError::SearchAborted(AbortReason::CostLimitExceeded)
    );
    cfg.cost_limit = 3;
    assert_eq!(align(&context("A", "C", cfg)).unwrap().total_cost.value, 3);
}

#[test]
fn forbidden_steps_exhaust_the_search() {
    let mut cfg = config(TemplateSwitchNodeOrdStrategy::CostOnly);
    cfg.max_template_switch_count = Some(0);
    let mut ctx = context("A", "AA", cfg);
    ctx.costs.primary_insertion = u64::MAX;
    assert_eq!(align(&ctx).unwrap_err(), SearchError::SearchExhausted);
}

#[test]
fn forbidding_primary_matches_forces_other_steps() {
    let mut cfg = config(TemplateSwitchNodeOrdStrategy::CostOnly);
    cfg.allow_primary_match = false;
    cfg.max_template_switch_count = Some(0);
    let alignment = align(&context("AC", "AC", cfg)).unwrap();
    // Insert A, substitute A by C, delete C.
    assert_eq!(alignment.total_cost.value, 9);
    assert!(!expanded(&alignment).contains(&AlignmentType::PrimaryMatch));
    cfg.allow_secondary_deletion = false;
    cfg.max_template_switch_count = None;
    let alignment = align(&context(SWITCH_REFERENCE, SWITCH_QUERY, cfg)).unwrap();
    assert!(!expanded(&alignment).contains(&AlignmentType::SecondaryDeletion));
    assert!(!expanded(&alignment).contains(&AlignmentType::PrimaryMatch));
}
