//! The policies a search is configured with.
use vstd::prelude::*;

use crate::search::{Context, NodeData};

verus! {

/// How the frontier orders nodes.
#[derive(Debug, Clone, Copy, PartialEq, Eq, Structural)]
pub enum TemplateSwitchNodeOrdStrategy {
    CostOnly,
    AntiDiagonal,
}

/// The node ordering chosen for a search.
#[derive(Debug, Clone, Copy, PartialEq, Eq, Structural)]
pub enum TemplateSwitchNodeOrdStrategySelector {
    CostOnly,
    AntiDiagonal,
}

/// Whether a template switch must reach a minimum length before it may exit.
#[derive(Debug, Clone, Copy, PartialEq, Eq, Structural)]
pub enum TemplateSwitchMinLengthStrategySelector {
    Disabled,
    Lookahead,
}

/// The lower bound that guides the search.
#[derive(Debug, Clone, Copy, PartialEq, Eq, Structural)]
pub enum TemplateSwitchChainingStrategySelector {
    Disabled,
    PrecomputeOnly,
    LowerBound,
}

impl TemplateSwitchNodeOrdStrategySelector {
    pub fn strategy(self) -> (r: TemplateSwitchNodeOrdStrategy)
        ensures
            (self is CostOnly) == (r is CostOnly),
    {
        match self {
            TemplateSwitchNodeOrdStrategySelector::CostOnly => TemplateSwitchNodeOrdStrategy::CostOnly,
            TemplateSwitchNodeOrdStrategySelector::AntiDiagonal => {
                TemplateSwitchNodeOrdStrategy::AntiDiagonal
            },
        }
    }
}

/// Per-node state of one search policy.
pub trait AlignmentStrategy: Sized {
    /// The state of the root node.
    spec fn root_spec(context: &Context) -> Self;

    /// The state of a successor of a node in this state.
    spec fn successor_spec(&self, context: &Context) -> Self;

    fn create_root(context: &Context) -> (r: Self)
        ensures
            r == Self::root_spec(context),
    ;

    fn generate_successor(&self, context: &Context) -> (r: Self)
        ensures
            r == self.successor_spec(context),
    ;
}

/// A frontier order: a cheaper node always comes first.
pub trait NodeOrdStrategy: AlignmentStrategy {
    /// The order of two nodes.
    spec fn order(&self, n1: NodeData, n2: NodeData) -> std::cmp::Ordering;

    fn cmp(&self, n1: &NodeData, n2: &NodeData) -> (r: std::cmp::Ordering)
        ensures
            r == self.order(*n1, *n2),
            n1.cost.value < n2.cost.value ==> r == std::cmp::Ordering::Less,
            n1.cost.value > n2.cost.value ==> r == std::cmp::Ordering::Greater,
    ;
}

/// Orders by accumulated cost alone.
#[derive(Debug, Clone, Copy, PartialEq, Eq, Structural)]
pub struct CostOnlyNodeOrdStrategy;

/// Orders by accumulated cost, then the node further along the anti-diagonal
/// first.
#[derive(Debug, Clone, Copy, PartialEq, Eq, Structural)]
pub struct AntiDiagonalNodeOrdStrategy;

/// Accumulated cost, ascending; equal costs compare equal.
pub open spec fn cost_order(n1: NodeData, n2: NodeData) -> std::cmp::Ordering {
    if n1.cost.value < n2.cost.value {
        std::cmp::Ordering::Less
    } else if n1.cost.value == n2.cost.value {
        std::cmp::Ordering::Equal
    } else {
        std::cmp::Ordering::Greater
    }
}

/// Accumulated cost, ascending; among equal costs the larger anti-diagonal
/// first.
pub open spec fn anti_diagonal_order(n1: NodeData, n2: NodeData) -> std::cmp::Ordering {
    if n1.cost.value < n2.cost.value {
        std::cmp::Ordering::Less
    } else if n1.cost.value > n2.cost.value {
        std::cmp::Ordering::Greater
    } else if n2.identifier.anti_diagonal() < n1.identifier.anti_diagonal() {
        std::cmp::Ordering::Less
    } else if n2.identifier.anti_diagonal() == n1.identifier.anti_diagonal() {
        std::cmp::Ordering::Equal
    } else {
        std::cmp::Ordering::Greater
    }
}

fn cost_compare(n1: &NodeData, n2: &NodeData) -> (r: std::cmp::Ordering)
    ensures
        r == cost_order(*n1, *n2),
{
    n1.cost.compare(n2.cost)
}

fn anti_diagonal_compare(n1: &NodeData, n2: &NodeData) -> (r: std::cmp::Ordering)
    ensures
        r == anti_diagonal_order(*n1, *n2),
{
    if n1.cost.value < n2.cost.value {
        std::cmp::Ordering::Less
    } else if n1.cost.value > n2.cost.value {
        std::cmp::Ordering::Greater
    } else {
        let a1 = n1.identifier.anti_diagonal_exec();
        let a2 = n2.identifier.anti_diagonal_exec();
        if a2 < a1 {
            std::cmp::Ordering::Less
        } else if a2 == a1 {
            std::cmp::Ordering::Equal
        } else {
            std::cmp::Ordering::Greater
        }
    }
}

impl AlignmentStrategy for CostOnlyNodeOrdStrategy {
    open spec fn root_spec(context: &Context) -> Self {
        CostOnlyNodeOrdStrategy
    }

    open spec fn successor_spec(&self, context: &Context) -> Self {
        *self
    }

    fn create_root(context: &Context) -> (r: Self) {
        CostOnlyNodeOrdStrategy
    }

    fn generate_successor(&self, context: &Context) -> (r: Self) {
        *self
    }
}

impl AlignmentStrategy for AntiDiagonalNodeOrdStrategy {
    open spec fn root_spec(context: &Context) -> Self {
        AntiDiagonalNodeOrdStrategy
    }

    open spec fn successor_spec(&self, context: &Context) -> Self {
        *self
    }

    fn create_root(context: &Context) -> (r: Self) {
        AntiDiagonalNodeOrdStrategy
    }

    fn generate_successor(&self, context: &Context) -> (r: Self) {
        *self
    }
}

impl NodeOrdStrategy for CostOnlyNodeOrdStrategy {
    open spec fn order(&self, n1: NodeData, n2: NodeData) -> std::cmp::Ordering {
        cost_order(n1, n2)
    }

    fn cmp(&self, n1: &NodeData, n2: &NodeData) -> (r: std::cmp::Ordering) {
        cost_compare(n1, n2)
    }
}

impl NodeOrdStrategy for AntiDiagonalNodeOrdStrategy {
    open spec fn order(&self, n1: NodeData, n2: NodeData) -> std::cmp::Ordering {
        anti_diagonal_order(n1, n2)
    }

    fn cmp(&self, n1: &NodeData, n2: &NodeData) -> (r: std::cmp::Ordering) {
        anti_diagonal_compare(n1, n2)
    }
}

/// The chosen node order is a per-search setting: the root takes it from the
/// configuration and every successor keeps it.
impl AlignmentStrategy for TemplateSwitchNodeOrdStrategy {
    open spec fn root_spec(context: &Context) -> Self {
        context.config.node_ord
    }

    open spec fn successor_spec(&self, context: &Context) -> Self {
        *self
    }

    fn create_root(context: &Context) -> (r: Self) {
        context.config.node_ord
    }

    fn generate_successor(&self, context: &Context) -> (r: Self) {
        *self
    }
}

/// The minimum-length choice is a per-search setting as well.
impl AlignmentStrategy for TemplateSwitchMinLengthStrategySelector {
    open spec fn root_spec(context: &Context) -> Self {
        context.config.min_length_strategy
    }

    open spec fn successor_spec(&self, context: &Context) -> Self {
        *self
    }

    fn create_root(context: &Context) -> (r: Self) {
        context.config.min_length_strategy
    }

    fn generate_successor(&self, context: &Context) -> (r: Self) {
        *self
    }
}

/// One state per policy, side by side.
#[derive(Debug, Clone, Copy, PartialEq, Eq, Structural)]
pub struct AlignmentStrategies {
    pub node_ord_strategy: TemplateSwitchNodeOrdStrategy,
    pub template_switch_min_length_strategy: TemplateSwitchMinLengthStrategySelector,
}

/// The composite delegates field by field to each policy.
impl AlignmentStrategy for AlignmentStrategies {
    open spec fn root_spec(context: &Context) -> Self {
        AlignmentStrategies {
            node_ord_strategy: TemplateSwitchNodeOrdStrategy::root_spec(context),
            template_switch_min_length_strategy: TemplateSwitchMinLengthStrategySelector::root_spec(
                context,
            ),
        }
    }

    open spec fn successor_spec(&self, context: &Context) -> Self {
        AlignmentStrategies {
            node_ord_strategy: self.node_ord_strategy.successor_spec(context),
            template_switch_min_length_strategy:
                self.template_switch_min_length_strategy.successor_spec(context),
        }
    }

    fn create_root(context: &Context) -> (r: Self) {
        AlignmentStrategies {
            node_ord_strategy: TemplateSwitchNodeOrdStrategy::create_root(context),
            template_switch_min_length_strategy:
                TemplateSwitchMinLengthStrategySelector::create_root(context),
        }
    }

    fn generate_successor(&self, context: &Context) -> (r: Self) {
        AlignmentStrategies {
            node_ord_strategy: self.node_ord_strategy.generate_successor(context),
            template_switch_min_length_strategy:
                self.template_switch_min_length_strategy.generate_successor(context),
        }
    }
}

/// Compares two nodes by the chosen order.
pub fn compare_nodes(
    strategy: TemplateSwitchNodeOrdStrategy,
    n1: &NodeData,
    n2: &NodeData,
) -> (r: std::cmp::Ordering)
    ensures
        r == (match strategy {
            TemplateSwitchNodeOrdStrategy::CostOnly => cost_order(*n1, *n2),
            TemplateSwitchNodeOrdStrategy::AntiDiagonal => anti_diagonal_order(*n1, *n2),
        }),
{
    match strategy {
        TemplateSwitchNodeOrdStrategy::CostOnly => CostOnlyNodeOrdStrategy.cmp(n1, n2),
        TemplateSwitchNodeOrdStrategy::AntiDiagonal => AntiDiagonalNodeOrdStrategy.cmp(n1, n2),
    }
}

} // verus!
