//! The template-switch alignment model and its best-first search.
use vstd::prelude::*;

use crate::alignment_type::{AlignmentType, TemplateSwitchPrimary, TemplateSwitchSecondary};
use crate::cost::{saturating_add_spec, U64Cost, COST_INFINITY};
use crate::cost_function::CostFunction;
use crate::walk::{expand_alignment, lemma_expand_prefix};
use crate::strategies::{
    compare_nodes, TemplateSwitchChainingStrategySelector, TemplateSwitchMinLengthStrategySelector,
    TemplateSwitchNodeOrdStrategy,
};

verus! {

/// The largest sequence length the search accepts, so that offsets between
/// positions fit into `isize` on every platform.
pub const MAX_SEQUENCE_LENGTH: usize = 0x3fff_ffff;

/// Where a search state stands.
///
/// A primary state has aligned the first `reference_index` characters of the
/// reference with the first `query_index` characters of the query. A secondary
/// state is inside a template switch: the primary sequence (the query or the
/// reference, by `primary`) goes on forwards from `primary_index`, while the
/// secondary position walks the other sequence backwards (its reverse
/// complement is copied). The other sequence stays at `anti_primary_index`, the
/// position where the switch was entered, until the switch exits. `length`
/// counts the secondary steps taken so far, up to the minimum length that the
/// search asks for.
#[derive(Debug, Clone, Copy, PartialEq, Eq, Structural)]
pub enum NodeIdentifier {
    Primary { reference_index: usize, query_index: usize },
    Secondary {
        primary: TemplateSwitchPrimary,
        anti_primary_index: usize,
        primary_index: usize,
        secondary_index: usize,
        length: usize,
    },
}

impl NodeIdentifier {
    /// The sum of the reference and query offsets.
    pub open spec fn anti_diagonal(self) -> int {
        match self {
            NodeIdentifier::Primary { reference_index, query_index } => reference_index
                + query_index,
            NodeIdentifier::Secondary { anti_primary_index, primary_index, .. } =>
                anti_primary_index + primary_index,
        }
    }

    pub fn anti_diagonal_exec(&self) -> (r: u128)
        ensures
            r == self.anti_diagonal(),
    {
        match self {
            NodeIdentifier::Primary { reference_index, query_index } => *reference_index as u128
                + *query_index as u128,
            NodeIdentifier::Secondary { anti_primary_index, primary_index, .. } =>
                *anti_primary_index as u128 + *primary_index as u128,
        }
    }
}

/// The two kinds of template switch: the query copies from the reference, or
/// the reference from the query.
pub open spec fn switch_pair(primary: TemplateSwitchPrimary, secondary: TemplateSwitchSecondary) -> bool {
    (primary is Query && secondary is Reference) || (primary is Reference && secondary is Query)
}

/// A node of the search: its state, the template switches used so far, its
/// accumulated cost, and the node and step it was reached by.
#[derive(Debug, Clone, Copy, PartialEq, Eq, Structural)]
pub struct NodeData {
    pub identifier: NodeIdentifier,
    pub template_switch_count: usize,
    pub cost: U64Cost,
    pub predecessor: usize,
    pub alignment_type: AlignmentType,
}

/// The price of each step.
#[derive(Debug, Clone)]
pub struct TemplateSwitchCostTable {
    pub primary_match: u64,
    pub primary_substitution: u64,
    pub primary_insertion: u64,
    pub primary_deletion: u64,
    pub secondary_match: u64,
    pub secondary_substitution: u64,
    pub secondary_insertion: u64,
    pub secondary_deletion: u64,
    pub template_switch_entrance: u64,
    pub template_switch_exit: u64,
    /// The extra cost of leaving a template switch, by the distance between the
    /// reference positions where it was entered and where it is left.
    pub anti_primary_gap: CostFunction,
}

/// The limits and strategies of a search.
#[derive(Debug, Clone, Copy)]
pub struct SearchConfig {
    pub node_ord: TemplateSwitchNodeOrdStrategy,
    pub min_length_strategy: TemplateSwitchMinLengthStrategySelector,
    /// The least number of secondary steps of a template switch, under `Lookahead`.
    pub min_length: usize,
    /// The lower bound on the remaining cost. Every choice searches with the zero
    /// bound, the one bound shown admissible here, so all of them find the same
    /// minimum.
    pub chaining: TemplateSwitchChainingStrategySelector,
    /// The most template switches in one alignment; `None` for no limit.
    pub max_template_switch_count: Option<usize>,
    pub cost_limit: u64,
    pub memory_limit: usize,
    /// Whether a primary match is a possible step.
    pub allow_primary_match: bool,
    /// Whether a secondary deletion is a possible step.
    pub allow_secondary_deletion: bool,
}

/// Everything a search reads, fixed for its whole run.
#[derive(Debug, Clone)]
pub struct Context {
    pub reference: Vec<u8>,
    pub query: Vec<u8>,
    pub costs: TemplateSwitchCostTable,
    pub config: SearchConfig,
}

/// Why a search stopped without an alignment.
#[derive(Debug, Clone, Copy, PartialEq, Eq, Structural)]
pub enum AbortReason {
    CostLimitExceeded,
    MemoryLimitExceeded,
}

#[derive(Debug, Clone, Copy, PartialEq, Eq, Structural)]
pub enum SearchError {
    /// A limit was reached first.
    SearchAborted(AbortReason),
    /// No alignment exists under the chosen strategies.
    SearchExhausted,
}

/// A minimum-cost path, with its steps run-length encoded.
#[derive(Debug, Clone)]
pub struct Alignment {
    pub total_cost: U64Cost,
    pub reference_name: String,
    pub query_name: String,
    pub operations: Vec<(usize, AlignmentType)>,
}

/// The Watson-Crick complement of a nucleotide; other bytes stay as they are.
pub open spec fn complement(c: u8) -> u8 {
    if c == 65 {
        84u8
    } else if c == 84 {
        65u8
    } else if c == 67 {
        71u8
    } else if c == 71 {
        67u8
    } else if c == 97 {
        116u8
    } else if c == 116 {
        97u8
    } else if c == 99 {
        103u8
    } else if c == 103 {
        99u8
    } else {
        c
    }
}

pub fn complement_exec(c: u8) -> (r: u8)
    ensures
        r == complement(c),
{
    if c == 65 {
        84
    } else if c == 84 {
        65
    } else if c == 67 {
        71
    } else if c == 71 {
        67
    } else if c == 97 {
        116
    } else if c == 116 {
        97
    } else if c == 99 {
        103
    } else if c == 103 {
        99
    } else {
        c
    }
}

impl Context {
    /// The least number of secondary steps before a template switch may exit.
    pub open spec fn min_length(&self) -> nat {
        match self.config.min_length_strategy {
            TemplateSwitchMinLengthStrategySelector::Disabled => 0,
            TemplateSwitchMinLengthStrategySelector::Lookahead => self.config.min_length as nat,
        }
    }

    /// The sequence that a template switch with this primary goes on along.
    pub open spec fn primary_sequence(&self, primary: TemplateSwitchPrimary) -> Seq<u8> {
        match primary {
            TemplateSwitchPrimary::Query => self.query@,
            TemplateSwitchPrimary::Reference => self.reference@,
        }
    }

    /// The sequence that a template switch with this primary copies from.
    pub open spec fn secondary_sequence(&self, primary: TemplateSwitchPrimary) -> Seq<u8> {
        match primary {
            TemplateSwitchPrimary::Query => self.reference@,
            TemplateSwitchPrimary::Reference => self.query@,
        }
    }

    pub open spec fn wf(&self) -> bool {
        &&& self.reference@.len() <= MAX_SEQUENCE_LENGTH
        &&& self.query@.len() <= MAX_SEQUENCE_LENGTH
        &&& self.costs.anti_primary_gap.wf()
    }

    /// The step from the state `id` (with `count` template switches so far) by
    /// `op`: the state it leads to, its count, and the step's cost. `None` where
    /// the step is not possible there, or is forbidden (its cost is `+inf`).
    pub open spec fn step(&self, id: NodeIdentifier, count: nat, op: AlignmentType) -> Option<
        (NodeIdentifier, nat, u64),
    > {
        let r = self.reference@;
        let q = self.query@;
        let n = r.len() as int;
        let m = q.len() as int;
        let c = self.costs;
        let result: Option<(NodeIdentifier, nat, u64)> = match id {
            NodeIdentifier::Primary { reference_index: i, query_index: j } => match op {
                AlignmentType::PrimaryMatch => if self.config.allow_primary_match && i < n && j < m
                    && r[i as int] == q[j as int] {
                    Some(
                        (
                            NodeIdentifier::Primary {
                                reference_index: (i + 1) as usize,
                                query_index: (j + 1) as usize,
                            },
                            count,
                            c.primary_match,
                        ),
                    )
                } else {
                    None
                },
                AlignmentType::PrimarySubstitution => if i < n && j < m && r[i as int]
                    != q[j as int] {
                    Some(
                        (
                            NodeIdentifier::Primary {
                                reference_index: (i + 1) as usize,
                                query_index: (j + 1) as usize,
                            },
                            count,
                            c.primary_substitution,
                        ),
                    )
                } else {
                    None
                },
                AlignmentType::PrimaryInsertion => if j < m {
                    Some(
                        (
                            NodeIdentifier::Primary {
                                reference_index: i,
                                query_index: (j + 1) as usize,
                            },
                            count,
                            c.primary_insertion,
                        ),
                    )
                } else {
                    None
                },
                AlignmentType::PrimaryDeletion => if i < n {
                    Some(
                        (
                            NodeIdentifier::Primary {
                                reference_index: (i + 1) as usize,
                                query_index: j,
                            },
                            count,
                            c.primary_deletion,
                        ),
                    )
                } else {
                    None
                },
                AlignmentType::TemplateSwitchEntrance { primary, secondary, first_offset } => {
                    let (primary_index, anti) = match primary {
                        TemplateSwitchPrimary::Query => (j, i),
                        TemplateSwitchPrimary::Reference => (i, j),
                    };
                    let k = anti + first_offset;
                    let next_count: Option<nat> = match self.config.max_template_switch_count {
                        None => Some(count),
                        Some(mx) => if count + 1 <= mx {
                            Some(count + 1)
                        } else {
                            None
                        },
                    };
                    if switch_pair(primary, secondary) && 0 <= k <= self.secondary_sequence(
                        primary,
                    ).len() && next_count is Some {
                        Some(
                            (
                                NodeIdentifier::Secondary {
                                    primary,
                                    anti_primary_index: anti,
                                    primary_index,
                                    secondary_index: k as usize,
                                    length: 0,
                                },
                                next_count->Some_0,
                                c.template_switch_entrance,
                            ),
                        )
                    } else {
                        None
                    }
                },
                _ => None,
            },
            NodeIdentifier::Secondary {
                primary,
                anti_primary_index: a,
                primary_index: pi,
                secondary_index: k,
                length: l,
            } => {
                let ps = self.primary_sequence(primary);
                let ss = self.secondary_sequence(primary);
                let next_length = if l + 1 <= self.min_length() {
                    (l + 1) as usize
                } else {
                    l
                };
                match op {
                    AlignmentType::SecondaryMatch => if k > 0 && pi < ps.len() && complement(
                        ss[k - 1],
                    ) == ps[pi as int] {
                        Some(
                            (
                                NodeIdentifier::Secondary {
                                    primary,
                                    anti_primary_index: a,
                                    primary_index: (pi + 1) as usize,
                                    secondary_index: (k - 1) as usize,
                                    length: next_length,
                                },
                                count,
                                c.secondary_match,
                            ),
                        )
                    } else {
                        None
                    },
                    AlignmentType::SecondarySubstitution => if k > 0 && pi < ps.len() && complement(
                        ss[k - 1],
                    ) != ps[pi as int] {
                        Some(
                            (
                                NodeIdentifier::Secondary {
                                    primary,
                                    anti_primary_index: a,
                                    primary_index: (pi + 1) as usize,
                                    secondary_index: (k - 1) as usize,
                                    length: next_length,
                                },
                                count,
                                c.secondary_substitution,
                            ),
                        )
                    } else {
                        None
                    },
                    AlignmentType::SecondaryInsertion => if pi < ps.len() {
                        Some(
                            (
                                NodeIdentifier::Secondary {
                                    primary,
                                    anti_primary_index: a,
                                    primary_index: (pi + 1) as usize,
                                    secondary_index: k,
                                    length: next_length,
                                },
                                count,
                                c.secondary_insertion,
                            ),
                        )
                    } else {
                        None
                    },
                    AlignmentType::SecondaryDeletion => if self.config.allow_secondary_deletion && k
                        > 0 {
                        Some(
                            (
                                NodeIdentifier::Secondary {
                                    primary,
                                    anti_primary_index: a,
                                    primary_index: pi,
                                    secondary_index: (k - 1) as usize,
                                    length: next_length,
                                },
                                count,
                                c.secondary_deletion,
                            ),
                        )
                    } else {
                        None
                    },
                    AlignmentType::TemplateSwitchExit { anti_primary_gap } => {
                        let target = a + anti_primary_gap;
                        if l >= self.min_length() && 0 <= target <= ss.len() {
                            Some(
                                (
                                    match primary {
                                        TemplateSwitchPrimary::Query => NodeIdentifier::Primary {
                                            reference_index: target as usize,
                                            query_index: pi,
                                        },
                                        TemplateSwitchPrimary::Reference => NodeIdentifier::Primary {
                                            reference_index: pi,
                                            query_index: target as usize,
                                        },
                                    },
                                    count,
                                    saturating_add_spec(
                                        c.template_switch_exit,
                                        c.anti_primary_gap.value_at(anti_primary_gap as int),
                                    ),
                                ),
                            )
                        } else {
                            None
                        }
                    },
                    _ => None,
                }
            },
        };
        match result {
            Some((next, next_count, cost)) => if cost == COST_INFINITY {
                None
            } else {
                result
            },
            None => None,
        }
    }

    pub open spec fn root_id() -> NodeIdentifier {
        NodeIdentifier::Primary { reference_index: 0, query_index: 0 }
    }

    pub open spec fn is_goal(&self, id: NodeIdentifier) -> bool {
        id == NodeIdentifier::Primary {
            reference_index: self.reference@.len() as usize,
            query_index: self.query@.len() as usize,
        }
    }

    /// The steps `ops` taken one after the other from the root: the state and
    /// count they lead to and the accumulated cost, which stays below `+inf`.
    pub open spec fn run(&self, ops: Seq<AlignmentType>) -> Option<(NodeIdentifier, nat, u64)>
        decreases ops.len(),
    {
        if ops.len() == 0 {
            Some((Self::root_id(), 0, 0))
        } else {
            match self.run(ops.drop_last()) {
                Some((id, count, cost)) => match self.step(id, count, ops.last()) {
                    Some((next, next_count, step_cost)) => {
                        let total = saturating_add_spec(cost, step_cost);
                        if total == COST_INFINITY {
                            None
                        } else {
                            Some((next, next_count, total))
                        }
                    },
                    None => None,
                },
                None => None,
            }
        }
    }
}

} // verus!

verus! {

/// The root node: nothing aligned, nothing spent.
pub open spec fn root_node() -> NodeData {
    NodeData {
        identifier: Context::root_id(),
        template_switch_count: 0,
        cost: U64Cost { value: 0 },
        predecessor: 0,
        alignment_type: AlignmentType::Root,
    }
}

impl Context {
    /// Each node past the root is reached from an earlier node by one possible
    /// step, and its cost is that node's cost plus the step's, below `+inf`.
    pub open spec fn arena_wf(&self, arena: Seq<NodeData>) -> bool {
        &&& arena.len() >= 1
        &&& arena[0] == root_node()
        &&& forall|x: int| 1 <= x < arena.len() ==> #[trigger] self.reached(arena, x)
        &&& forall|x: int|
            0 <= x < arena.len() ==> (#[trigger] arena[x]).template_switch_count <= self.count_cap()
    }

    /// The most template switches a node can have used: the budget, or zero
    /// without a budget (the count then stays at zero).
    pub open spec fn count_cap(&self) -> int {
        match self.config.max_template_switch_count {
            None => 0,
            Some(mx) => mx as int,
        }
    }

    pub open spec fn reached(&self, arena: Seq<NodeData>, x: int) -> bool {
        let node = arena[x];
        let pred = arena[node.predecessor as int];
        &&& node.predecessor < x
        &&& self.step(pred.identifier, pred.template_switch_count as nat, node.alignment_type)
            matches Some((id, count, step_cost))
        &&& id == node.identifier
        &&& count == node.template_switch_count
        &&& node.cost.value == saturating_add_spec(pred.cost.value, step_cost)
        &&& node.cost.value != COST_INFINITY
    }
}

/// The steps from the root to node `x`, following predecessors.
pub open spec fn path_ops(arena: Seq<NodeData>, x: int) -> Seq<AlignmentType>
    decreases x,
{
    if x <= 0 || x >= arena.len() || arena[x].predecessor >= x {
        Seq::empty()
    } else {
        path_ops(arena, arena[x].predecessor as int).push(arena[x].alignment_type)
    }
}

/// A path to node `x` has at most `x` steps.
pub proof fn lemma_path_len(arena: Seq<NodeData>, x: int)
    ensures
        path_ops(arena, x).len() <= if x < 0 {
            0
        } else {
            x
        },
    decreases x,
{
    if x > 0 && x < arena.len() && arena[x].predecessor < x {
        lemma_path_len(arena, arena[x].predecessor as int);
    }
}

pub proof fn lemma_path_frame(arena: Seq<NodeData>, node: NodeData, x: int)
    requires
        0 <= x < arena.len(),
    ensures
        path_ops(arena.push(node), x) == path_ops(arena, x),
    decreases x,
{
    if x > 0 && arena[x].predecessor < x {
        assert(arena.push(node)[x] == arena[x]);
        lemma_path_frame(arena, node, arena[x].predecessor as int);
    } else {
        assert(arena.push(node)[x] == arena[x]);
    }
}

impl Context {
    /// The steps to any node of a well-formed arena lead, from the root, to that
    /// node's state at that node's cost.
    pub proof fn lemma_path_valid(&self, arena: Seq<NodeData>, x: int)
        requires
            self.arena_wf(arena),
            0 <= x < arena.len(),
        ensures
            self.run(path_ops(arena, x)) == Some(
                (
                    arena[x].identifier,
                    arena[x].template_switch_count as nat,
                    arena[x].cost.value,
                ),
            ),
        decreases x,
    {
        if x > 0 {
            assert(self.reached(arena, x));
            let p = arena[x].predecessor as int;
            self.lemma_path_valid(arena, p);
            assert(path_ops(arena, x).drop_last() =~= path_ops(arena, p));
        }
    }

    /// The exact counterpart of `step`.
    pub fn apply_step(&self, id: NodeIdentifier, count: usize, op: AlignmentType) -> (r: Option<
        (NodeIdentifier, usize, u64),
    >)
        requires
            self.wf(),
            in_bounds(self, id),
        ensures
            match self.step(id, count as nat, op) {
                Some((next, next_count, cost)) => r == Some((next, next_count as usize, cost))
                    && next_count <= usize::MAX,
                None => r is None,
            },
    {
        let n = self.reference.len();
        let m = self.query.len();
        let c = &self.costs;
        let result: Option<(NodeIdentifier, usize, u64)> = match id {
            NodeIdentifier::Primary { reference_index: i, query_index: j } => match op {
                AlignmentType::PrimaryMatch => {
                    if self.config.allow_primary_match && i < n && j < m && self.reference[i]
                        == self.query[j] {
                        Some(
                            (
                                NodeIdentifier::Primary { reference_index: i + 1, query_index: j + 1 },
                                count,
                                c.primary_match,
                            ),
                        )
                    } else {
                        None
                    }
                },
                AlignmentType::PrimarySubstitution => {
                    if i < n && j < m && self.reference[i] != self.query[j] {
                        Some(
                            (
                                NodeIdentifier::Primary { reference_index: i + 1, query_index: j + 1 },
                                count,
                                c.primary_substitution,
                            ),
                        )
                    } else {
                        None
                    }
                },
                AlignmentType::PrimaryInsertion => {
                    if j < m {
                        Some(
                            (
                                NodeIdentifier::Primary { reference_index: i, query_index: j + 1 },
                                count,
                                c.primary_insertion,
                            ),
                        )
                    } else {
                        None
                    }
                },
                AlignmentType::PrimaryDeletion => {
                    if i < n {
                        Some(
                            (
                                NodeIdentifier::Primary { reference_index: i + 1, query_index: j },
                                count,
                                c.primary_deletion,
                            ),
                        )
                    } else {
                        None
                    }
                },
                AlignmentType::TemplateSwitchEntrance { primary, secondary, first_offset } => {
                    let (primary_index, anti, secondary_len) = match primary {
                        TemplateSwitchPrimary::Query => (j, i, n),
                        TemplateSwitchPrimary::Reference => (i, j, m),
                    };
                    let pair = match (primary, secondary) {
                        (TemplateSwitchPrimary::Query, TemplateSwitchSecondary::Reference) => true,
                        (TemplateSwitchPrimary::Reference, TemplateSwitchSecondary::Query) => true,
                        _ => false,
                    };
                    let k = anti as i128 + first_offset as i128;
                    let next_count = match self.config.max_template_switch_count {
                        None => Some(count),
                        Some(mx) => {
                            if count < mx {
                                Some(count + 1)
                            } else {
                                None
                            }
                        },
                    };
                    if pair && 0 <= k && k <= secondary_len as i128 && next_count.is_some() {
                        Some(
                            (
                                NodeIdentifier::Secondary {
                                    primary,
                                    anti_primary_index: anti,
                                    primary_index,
                                    secondary_index: k as usize,
                                    length: 0,
                                },
                                next_count.unwrap(),
                                c.template_switch_entrance,
                            ),
                        )
                    } else {
                        None
                    }
                },
                _ => None,
            },
            NodeIdentifier::Secondary {
                primary,
                anti_primary_index: a,
                primary_index: pi,
                secondary_index: k,
                length: l,
            } => {
                let (ps, ss) = match primary {
                    TemplateSwitchPrimary::Query => (&self.query, &self.reference),
                    TemplateSwitchPrimary::Reference => (&self.reference, &self.query),
                };
                let min_length = match self.config.min_length_strategy {
                    TemplateSwitchMinLengthStrategySelector::Disabled => 0,
                    TemplateSwitchMinLengthStrategySelector::Lookahead => self.config.min_length,
                };
                let next_length = if l < min_length {
                    l + 1
                } else {
                    l
                };
                match op {
                    AlignmentType::SecondaryMatch => {
                        if k > 0 && pi < ps.len() && complement_exec(ss[k - 1]) == ps[pi] {
                            Some(
                                (
                                    NodeIdentifier::Secondary {
                                        primary,
                                        anti_primary_index: a,
                                        primary_index: pi + 1,
                                        secondary_index: k - 1,
                                        length: next_length,
                                    },
                                    count,
                                    c.secondary_match,
                                ),
                            )
                        } else {
                            None
                        }
                    },
                    AlignmentType::SecondarySubstitution => {
                        if k > 0 && pi < ps.len() && complement_exec(ss[k - 1]) != ps[pi] {
                            Some(
                                (
                                    NodeIdentifier::Secondary {
                                        primary,
                                        anti_primary_index: a,
                                        primary_index: pi + 1,
                                        secondary_index: k - 1,
                                        length: next_length,
                                    },
                                    count,
                                    c.secondary_substitution,
                                ),
                            )
                        } else {
                            None
                        }
                    },
                    AlignmentType::SecondaryInsertion => {
                        if pi < ps.len() {
                            Some(
                                (
                                    NodeIdentifier::Secondary {
                                        primary,
                                        anti_primary_index: a,
                                        primary_index: pi + 1,
                                        secondary_index: k,
                                        length: next_length,
                                    },
                                    count,
                                    c.secondary_insertion,
                                ),
                            )
                        } else {
                            None
                        }
                    },
                    AlignmentType::SecondaryDeletion => {
                        if self.config.allow_secondary_deletion && k > 0 {
                            Some(
                                (
                                    NodeIdentifier::Secondary {
                                        primary,
                                        anti_primary_index: a,
                                        primary_index: pi,
                                        secondary_index: k - 1,
                                        length: next_length,
                                    },
                                    count,
                                    c.secondary_deletion,
                                ),
                            )
                        } else {
                            None
                        }
                    },
                    AlignmentType::TemplateSwitchExit { anti_primary_gap } => {
                        let target = a as i128 + anti_primary_gap as i128;
                        if l >= min_length && 0 <= target && target <= ss.len() as i128 {
                            let gap_cost = c.anti_primary_gap.evaluate(anti_primary_gap);
                            let cost = U64Cost { value: c.template_switch_exit }.add(gap_cost);
                            let next = match primary {
                                TemplateSwitchPrimary::Query => NodeIdentifier::Primary {
                                    reference_index: target as usize,
                                    query_index: pi,
                                },
                                TemplateSwitchPrimary::Reference => NodeIdentifier::Primary {
                                    reference_index: pi,
                                    query_index: target as usize,
                                },
                            };
                            Some((next, count, cost.value))
                        } else {
                            None
                        }
                    },
                    _ => None,
                }
            },
        };
        match result {
            Some((next, next_count, cost)) => {
                if cost == COST_INFINITY {
                    None
                } else {
                    result
                }
            },
            None => None,
        }
    }
}

} // verus!

verus! {

/// The number of `true` entries.
pub open spec fn count_true(s: Seq<bool>) -> nat
    decreases s.len(),
{
    if s.len() == 0 {
        0
    } else {
        count_true(s.drop_last()) + if s.last() {
            1nat
        } else {
            0nat
        }
    }
}

proof fn lemma_count_true_bound(s: Seq<bool>)
    ensures
        count_true(s) <= s.len(),
    decreases s.len(),
{
    if s.len() > 0 {
        lemma_count_true_bound(s.drop_last());
    }
}

proof fn lemma_count_true_push_false(s: Seq<bool>)
    ensures
        count_true(s.push(false)) == count_true(s),
{
    assert(s.push(false).drop_last() =~= s);
}

proof fn lemma_count_true_set(s: Seq<bool>, i: int)
    requires
        0 <= i < s.len(),
        !s[i],
    ensures
        count_true(s.update(i, true)) == count_true(s) + 1,
    decreases s.len(),
{
    let t = s.update(i, true);
    if i == s.len() - 1 {
        assert(t.drop_last() =~= s.drop_last());
    } else {
        assert(t.drop_last() =~= s.drop_last().update(i, true));
        lemma_count_true_set(s.drop_last(), i);
    }
}

/// Run-length encoding in normal form: no empty run, and no two neighbouring
/// runs of the same step.
pub open spec fn rle_normal(a: Seq<(usize, AlignmentType)>) -> bool {
    &&& forall|i: int| 0 <= i < a.len() ==> #[trigger] a[i].0 > 0
    &&& forall|i: int| 0 < i < a.len() ==> #[trigger] a[i].1 != a[i - 1].1
}

/// The steps of an encoded alignment, written out.
pub open spec fn expand_operations(a: Seq<(usize, AlignmentType)>) -> Seq<AlignmentType> {
    expand_alignment(a, false)
}

proof fn lemma_expand_push(a: Seq<(usize, AlignmentType)>, op: AlignmentType)
    ensures
        expand_operations(a.push((1, op))) == expand_operations(a).push(op),
{
    assert(a.push((1, op)).drop_last() =~= a);
    assert(Seq::new(1nat, |j: int| op) =~= seq![op]);
    assert(expand_operations(a) + seq![op] =~= expand_operations(a).push(op));
}

proof fn lemma_expand_extend_last(a: Seq<(usize, AlignmentType)>)
    requires
        a.len() > 0,
        a.last().0 < usize::MAX,
    ensures
        expand_operations(a.update(a.len() - 1, ((a.last().0 + 1) as usize, a.last().1)))
            == expand_operations(a).push(a.last().1),
{
    let (m, t) = a.last();
    let b = a.update(a.len() - 1, ((m + 1) as usize, t));
    assert(b.drop_last() =~= a.drop_last());
    assert(Seq::new((m + 1) as nat, |j: int| t) =~= Seq::new(m as nat, |j: int| t).push(t));
    assert(expand_operations(a.drop_last()) + Seq::new(m as nat, |j: int| t).push(t)
        =~= (expand_operations(a.drop_last()) + Seq::new(m as nat, |j: int| t)).push(t));
}

/// Encodes `ops` run by run.
fn run_length_encode(ops: &Vec<AlignmentType>) -> (r: Vec<(usize, AlignmentType)>)
    ensures
        expand_operations(r@) == ops@,
        rle_normal(r@),
{
    let mut r: Vec<(usize, AlignmentType)> = Vec::new();
    let mut i: usize = 0;
    proof {
        assert(ops@.subrange(0, 0) =~= Seq::<AlignmentType>::empty());
    }
    while i < ops.len()
        invariant
            i <= ops@.len(),
            expand_operations(r@) == ops@.subrange(0, i as int),
            rle_normal(r@),
            forall|k: int| 0 <= k < r@.len() ==> #[trigger] r@[k].0 <= i,
        decreases ops@.len() - i,
    {
        let op = ops[i];
        let len = r.len();
        let ghost before = r@;
        proof {
            assert(ops@.subrange(0, i + 1) =~= ops@.subrange(0, i as int).push(op));
        }
        if len > 0 && r[len - 1].1 == op {
            let (m, t) = r[len - 1];
            assert(m <= i);
            r.set(len - 1, (m + 1, t));
            proof {
                lemma_expand_extend_last(before);
                assert forall|k: int| 0 < k < r@.len() implies #[trigger] r@[k].1 != r@[k - 1].1 by {
                    assert(r@[k].1 == before[k].1);
                    assert(r@[k - 1].1 == before[k - 1].1);
                }
            }
        } else {
            r.push((1, op));
            proof {
                lemma_expand_push(before, op);
                assert forall|k: int| 0 < k < r@.len() implies #[trigger] r@[k].1 != r@[k - 1].1 by {
                    if k < len {
                        assert(r@[k].1 == before[k].1);
                    }
                }
            }
        }
        i = i + 1;
    }
    proof {
        assert(ops@.subrange(0, i as int) =~= ops@);
    }
    r
}

/// The steps from the root to node `goal`, in order.
fn reconstruct(arena: &Vec<NodeData>, goal: usize) -> (r: Vec<AlignmentType>)
    requires
        goal < arena@.len(),
        forall|x: int| 1 <= x < arena@.len() ==> (#[trigger] arena@[x]).predecessor < x,
    ensures
        r@ == path_ops(arena@, goal as int),
{
    let mut reversed: Vec<AlignmentType> = Vec::new();
    let mut cur = goal;
    while cur != 0
        invariant
            cur < arena@.len(),
            forall|x: int| 1 <= x < arena@.len() ==> (#[trigger] arena@[x]).predecessor < x,
            path_ops(arena@, goal as int) == path_ops(arena@, cur as int) + reversed@.reverse(),
        decreases cur,
    {
        let node = arena[cur];
        let ghost before = reversed@;
        reversed.push(node.alignment_type);
        proof {
            assert(arena@[cur as int].predecessor < cur);
            assert(reversed@.reverse() =~= seq![node.alignment_type] + before.reverse());
            assert(path_ops(arena@, cur as int) == path_ops(
                arena@,
                node.predecessor as int,
            ).push(node.alignment_type));
            assert(path_ops(arena@, node.predecessor as int).push(node.alignment_type)
                + before.reverse() =~= path_ops(arena@, node.predecessor as int) + (seq![
                node.alignment_type,
            ] + before.reverse()));
        }
        cur = node.predecessor;
    }
    let mut r: Vec<AlignmentType> = Vec::new();
    let mut i = reversed.len();
    proof {
        assert(path_ops(arena@, 0) =~= Seq::<AlignmentType>::empty());
        assert(reversed@.reverse().subrange(0, 0) =~= r@);
    }
    while i > 0
        invariant
            i <= reversed@.len(),
            r@ == reversed@.reverse().subrange(0, reversed@.len() - i),
        decreases i,
    {
        i = i - 1;
        r.push(reversed[i]);
        proof {
            assert(r@ =~= reversed@.reverse().subrange(0, reversed@.len() - i));
        }
    }
    proof {
        assert(reversed@.reverse().subrange(0, reversed@.len() as int) =~= reversed@.reverse());
        assert(Seq::<AlignmentType>::empty() + reversed@.reverse() =~= reversed@.reverse());
    }
    r
}

/// Whether the arena already holds a node with this state and count at no more
/// than `cost`.
fn dominated(arena: &Vec<NodeData>, id: NodeIdentifier, count: usize, cost: u64) -> (r: bool)
    ensures
        r == exists|x: int|
            0 <= x < arena@.len() && (#[trigger] arena@[x]).identifier == id
                && arena@[x].template_switch_count == count && arena@[x].cost.value <= cost,
{
    let mut x: usize = 0;
    while x < arena.len()
        invariant
            x <= arena@.len(),
            forall|y: int|
                0 <= y < x ==> !((#[trigger] arena@[y]).identifier == id
                    && arena@[y].template_switch_count == count && arena@[y].cost.value <= cost),
        decreases arena@.len() - x,
    {
        let node = arena[x];
        if node.identifier == id && node.template_switch_count == count && node.cost.value <= cost {
            return true;
        }
        x = x + 1;
    }
    false
}

/// Whether a node other than `except` with this state and count was expanded.
fn expanded_before(
    arena: &Vec<NodeData>,
    closed: &Vec<bool>,
    except: usize,
    id: NodeIdentifier,
    count: usize,
) -> (r: bool)
    requires
        closed@.len() == arena@.len(),
    ensures
        r == exists|x: int|
            0 <= x < arena@.len() && x != except && closed@[x] && (#[trigger] arena@[x]).identifier
                == id && arena@[x].template_switch_count == count,
{
    let mut x: usize = 0;
    while x < arena.len()
        invariant
            x <= arena@.len(),
            closed@.len() == arena@.len(),
            forall|y: int|
                0 <= y < x ==> !(y != except && closed@[y] && (#[trigger] arena@[y]).identifier
                    == id && arena@[y].template_switch_count == count),
        decreases arena@.len() - x,
    {
        let node = arena[x];
        if x != except && closed[x] && node.identifier == id && node.template_switch_count == count {
            return true;
        }
        x = x + 1;
    }
    false
}

/// Every position of a node lies within the sequences.
pub open spec fn in_bounds(ctx: &Context, id: NodeIdentifier) -> bool {
    match id {
        NodeIdentifier::Primary { reference_index, query_index } => reference_index
            <= ctx.reference@.len() && query_index <= ctx.query@.len(),
        NodeIdentifier::Secondary {
            primary,
            anti_primary_index,
            primary_index,
            secondary_index,
            ..
        } => anti_primary_index <= ctx.secondary_sequence(primary).len() && primary_index
            <= ctx.primary_sequence(primary).len() && secondary_index <= ctx.secondary_sequence(
            primary,
        ).len() && id->length <= ctx.min_length(),
    }
}

proof fn lemma_step_in_bounds(ctx: &Context, id: NodeIdentifier, count: nat, op: AlignmentType)
    requires
        in_bounds(ctx, id),
        count <= ctx.count_cap(),
        ctx.step(id, count, op) is Some,
    ensures
        in_bounds(ctx, ctx.step(id, count, op)->Some_0.0),
        ctx.step(id, count, op)->Some_0.1 <= ctx.count_cap(),
{
}

impl Context {
    /// The step `op` from state `id` (count `count`, cost `cost`) leads nowhere,
    /// or to a state that the arena holds at no more than the step's total cost.
    pub open spec fn covered(
        &self,
        arena: Seq<NodeData>,
        id: NodeIdentifier,
        count: nat,
        cost: u64,
        op: AlignmentType,
    ) -> bool {
        match self.step(id, count, op) {
            None => true,
            Some((next, next_count, step_cost)) => {
                let total = saturating_add_spec(cost, step_cost);
                total == COST_INFINITY || exists|y: int|
                    0 <= y < arena.len() && (#[trigger] arena[y]).identifier == next
                        && arena[y].template_switch_count as nat == next_count
                        && arena[y].cost.value <= total
            },
        }
    }
}

/// `new` holds `old` as its prefix.
pub open spec fn extends<T>(new: Seq<T>, old: Seq<T>) -> bool {
    new.len() >= old.len() && new.subrange(0, old.len() as int) == old
}

proof fn lemma_covered_mono(
    ctx: &Context,
    old: Seq<NodeData>,
    new: Seq<NodeData>,
    id: NodeIdentifier,
    count: nat,
    cost: u64,
    op: AlignmentType,
)
    requires
        extends(new, old),
        ctx.covered(old, id, count, cost, op),
    ensures
        ctx.covered(new, id, count, cost, op),
{
    match ctx.step(id, count, op) {
        None => {},
        Some((next, next_count, step_cost)) => {
            let total = saturating_add_spec(cost, step_cost);
            if total != COST_INFINITY {
                let y = choose|y: int|
                    0 <= y < old.len() && (#[trigger] old[y]).identifier == next
                        && old[y].template_switch_count as nat == next_count
                        && old[y].cost.value <= total;
                assert(new[y] == new.subrange(0, old.len() as int)[y]);
            }
        },
    }
}

/// Adds the successor of node `b` by `op`, unless it is impossible, forbidden,
/// or no cheaper than a node already held.
fn push_successor(
    ctx: &Context,
    arena: &mut Vec<NodeData>,
    closed: &mut Vec<bool>,
    b: usize,
    op: AlignmentType,
)
    requires
        ctx.wf(),
        ctx.arena_wf(old(arena)@),
        b < old(arena)@.len(),
        old(closed)@.len() == old(arena)@.len(),
        forall|x: int| 0 <= x < old(arena)@.len() ==> in_bounds(ctx, #[trigger] old(arena)@[x].identifier),
    ensures
        ctx.arena_wf(final(arena)@),
        final(closed)@.len() == final(arena)@.len(),
        final(arena)@.len() >= old(arena)@.len(),
        final(arena)@.len() <= old(arena)@.len() + 1,
        final(arena)@.subrange(0, old(arena)@.len() as int) == old(arena)@,
        final(closed)@.subrange(0, old(arena)@.len() as int) == old(closed)@,
        count_true(final(closed)@) == count_true(old(closed)@),
        forall|x: int| 0 <= x < final(arena)@.len() ==> in_bounds(ctx, #[trigger] final(arena)@[x].identifier),
        ctx.covered(
            final(arena)@,
            old(arena)@[b as int].identifier,
            old(arena)@[b as int].template_switch_count as nat,
            old(arena)@[b as int].cost.value,
            op,
        ),
        forall|x: int|
            old(arena)@.len() <= x < final(arena)@.len() ==> (#[trigger] final(arena)@[x]).cost.value
                >= old(arena)@[b as int].cost.value && !final(closed)@[x],
{
    let node = arena[b];
    proof {
        assert(in_bounds(ctx, old(arena)@[b as int].identifier));
    }
    match ctx.apply_step(node.identifier, node.template_switch_count, op) {
        None => {
            proof {
                assert(arena@.subrange(0, arena@.len() as int) =~= arena@);
                assert(closed@.subrange(0, closed@.len() as int) =~= closed@);
            }
        },
        Some((id, count, step_cost)) => {
            let total = node.cost.add(U64Cost { value: step_cost });
            if total.value != COST_INFINITY && !dominated(arena, id, count, total.value) {
                let new_node = NodeData {
                    identifier: id,
                    template_switch_count: count,
                    cost: total,
                    predecessor: b,
                    alignment_type: op,
                };
                let ghost before = arena@;
                arena.push(new_node);
                proof {
                    lemma_count_true_push_false(closed@);
                    lemma_step_in_bounds(
                        ctx,
                        node.identifier,
                        node.template_switch_count as nat,
                        op,
                    );
                    assert forall|x: int| 1 <= x < arena@.len() implies #[trigger] ctx.reached(
                        arena@,
                        x,
                    ) by {
                        if x < before.len() {
                            assert(ctx.reached(before, x));
                            assert(arena@[x] == before[x]);
                            assert(arena@[arena@[x].predecessor as int] == before[before[x].predecessor as int]);
                        }
                    }
                    assert(arena@.subrange(0, before.len() as int) =~= before);
                }
                let ghost closed_before = closed@;
                closed.push(false);
                proof {
                    assert(closed@.subrange(0, closed_before.len() as int) =~= closed_before);
                    let y = before.len() as int;
                    assert(arena@[y] == new_node);
                }
            } else {
                proof {
                    assert(arena@.subrange(0, arena@.len() as int) =~= arena@);
                    assert(closed@.subrange(0, closed@.len() as int) =~= closed@);
                }
            }
        },
    }
}

/// The template-switch step that `expand_node` tries as the `k`-th of kind `kind`.
pub open spec fn switch_op(id: NodeIdentifier, kind: int, k: int) -> AlignmentType {
    match id {
        NodeIdentifier::Primary { reference_index, query_index } => if kind == 0 {
            AlignmentType::TemplateSwitchEntrance {
                primary: TemplateSwitchPrimary::Query,
                secondary: TemplateSwitchSecondary::Reference,
                first_offset: (k - reference_index) as isize,
            }
        } else {
            AlignmentType::TemplateSwitchEntrance {
                primary: TemplateSwitchPrimary::Reference,
                secondary: TemplateSwitchSecondary::Query,
                first_offset: (k - query_index) as isize,
            }
        },
        NodeIdentifier::Secondary { anti_primary_index, .. } => AlignmentType::TemplateSwitchExit {
            anti_primary_gap: (k - anti_primary_index) as isize,
        },
    }
}

/// The largest position tried for switches of kind `kind`.
pub open spec fn switch_limit(ctx: &Context, id: NodeIdentifier, kind: int) -> int {
    match id {
        NodeIdentifier::Primary { .. } => if kind == 0 {
            ctx.reference@.len() as int
        } else {
            ctx.query@.len() as int
        },
        NodeIdentifier::Secondary { primary, .. } => ctx.secondary_sequence(primary).len() as int,
    }
}

/// The edit steps tried from a state.
pub open spec fn edit_op(id: NodeIdentifier, e: int) -> AlignmentType {
    match id {
        NodeIdentifier::Primary { .. } => if e == 0 {
            AlignmentType::PrimaryMatch
        } else if e == 1 {
            AlignmentType::PrimarySubstitution
        } else if e == 2 {
            AlignmentType::PrimaryInsertion
        } else {
            AlignmentType::PrimaryDeletion
        },
        NodeIdentifier::Secondary { .. } => if e == 0 {
            AlignmentType::SecondaryMatch
        } else if e == 1 {
            AlignmentType::SecondarySubstitution
        } else if e == 2 {
            AlignmentType::SecondaryInsertion
        } else {
            AlignmentType::SecondaryDeletion
        },
    }
}

/// What `expand_node` and `push_successor` keep: the arena and the closed flags
/// only grow, and every new node is open and costs at least `cost`.
pub open spec fn grown(
    arena: Seq<NodeData>,
    closed: Seq<bool>,
    old_arena: Seq<NodeData>,
    old_closed: Seq<bool>,
    cost: u64,
) -> bool {
    &&& extends(arena, old_arena)
    &&& closed.len() == arena.len()
    &&& closed.subrange(0, old_closed.len() as int) == old_closed
    &&& forall|x: int|
        old_arena.len() <= x < arena.len() ==> (#[trigger] arena[x]).cost.value >= cost
            && !closed[x]
}

proof fn lemma_grown_trans(
    a2: Seq<NodeData>,
    c2: Seq<bool>,
    a1: Seq<NodeData>,
    c1: Seq<bool>,
    a0: Seq<NodeData>,
    c0: Seq<bool>,
    cost: u64,
)
    requires
        c0.len() == a0.len(),
        grown(a1, c1, a0, c0, cost),
        grown(a2, c2, a1, c1, cost),
    ensures
        grown(a2, c2, a0, c0, cost),
{
    assert(a2.subrange(0, a0.len() as int) =~= a1.subrange(0, a0.len() as int));
    assert(c2.subrange(0, c0.len() as int) =~= c1.subrange(0, c0.len() as int));
    assert forall|x: int| a0.len() <= x < a2.len() implies (#[trigger] a2[x]).cost.value >= cost
        && !c2[x] by {
        if x < a1.len() {
            assert(a2[x] == a2.subrange(0, a1.len() as int)[x]);
            assert(c2[x] == c2.subrange(0, c1.len() as int)[x]);
        }
    }
}

/// Adds the successors of node `b`: every edit step from its state, and every
/// entrance into (or exit from) a template switch to any position.
fn expand_node(ctx: &Context, arena: &mut Vec<NodeData>, closed: &mut Vec<bool>, b: usize)
    requires
        ctx.wf(),
        ctx.arena_wf(old(arena)@),
        b < old(arena)@.len(),
        old(closed)@.len() == old(arena)@.len(),
        forall|x: int| 0 <= x < old(arena)@.len() ==> in_bounds(ctx, #[trigger] old(arena)@[x].identifier),
    ensures
        ctx.arena_wf(final(arena)@),
        count_true(final(closed)@) == count_true(old(closed)@),
        forall|x: int| 0 <= x < final(arena)@.len() ==> in_bounds(ctx, #[trigger] final(arena)@[x].identifier),
        grown(final(arena)@, final(closed)@, old(arena)@, old(closed)@, old(arena)@[b as int].cost.value),
        final(arena)@.len() <= old(arena)@.len() + ctx.max_successors(),
        forall|op: AlignmentType|
            #[trigger] ctx.covered(
                final(arena)@,
                old(arena)@[b as int].identifier,
                old(arena)@[b as int].template_switch_count as nat,
                old(arena)@[b as int].cost.value,
                op,
            ),
{
    let node = arena[b];
    let n = ctx.reference.len();
    let m = ctx.query.len();
    let ghost a0 = arena@;
    let ghost c0 = closed@;
    let ghost idb = node.identifier;
    let ghost cb = node.template_switch_count as nat;
    let ghost costb = node.cost.value;
    let ghost count0 = count_true(closed@);
    proof {
        assert(in_bounds(ctx, old(arena)@[b as int].identifier));
        assert(arena@.subrange(0, arena@.len() as int) =~= arena@);
        assert(closed@.subrange(0, closed@.len() as int) =~= closed@);
    }
    let mut e: usize = 0;
    while e < 4
        invariant
            ctx.wf(),
            node == a0[b as int],
            b < a0.len(),
            c0.len() == a0.len(),
            idb == node.identifier,
            cb == node.template_switch_count as nat,
            costb == node.cost.value,
            ctx.arena_wf(arena@),
            count_true(closed@) == count0,
            forall|x: int| 0 <= x < arena@.len() ==> in_bounds(ctx, #[trigger] arena@[x].identifier),
            grown(arena@, closed@, a0, c0, costb),
            e <= 4,
            arena@.len() <= a0.len() + e,
            forall|i: int| 0 <= i < e ==> ctx.covered(arena@, idb, cb, costb, #[trigger] edit_op(idb, i)),
        decreases 4 - e,
    {
        let op = match node.identifier {
            NodeIdentifier::Primary { .. } => {
                if e == 0 {
                    AlignmentType::PrimaryMatch
                } else if e == 1 {
                    AlignmentType::PrimarySubstitution
                } else if e == 2 {
                    AlignmentType::PrimaryInsertion
                } else {
                    AlignmentType::PrimaryDeletion
                }
            },
            NodeIdentifier::Secondary { .. } => {
                if e == 0 {
                    AlignmentType::SecondaryMatch
                } else if e == 1 {
                    AlignmentType::SecondarySubstitution
                } else if e == 2 {
                    AlignmentType::SecondaryInsertion
                } else {
                    AlignmentType::SecondaryDeletion
                }
            },
        };
        let ghost a1 = arena@;
        let ghost c1 = closed@;
        proof {
            assert(arena@[b as int] == arena@.subrange(0, a0.len() as int)[b as int]);
        }
        push_successor(ctx, arena, closed, b, op);
        proof {
            lemma_grown_trans(arena@, closed@, a1, c1, a0, c0, costb);
            assert forall|i: int| 0 <= i < e + 1 implies ctx.covered(
                arena@,
                idb,
                cb,
                costb,
                #[trigger] edit_op(idb, i),
            ) by {
                if i < e {
                    lemma_covered_mono(ctx, a1, arena@, idb, cb, costb, edit_op(idb, i));
                }
            }
        }
        e = e + 1;
    }
    let kinds: usize = match node.identifier {
        NodeIdentifier::Primary { .. } => 2,
        NodeIdentifier::Secondary { .. } => 1,
    };
    let mut kind: usize = 0;
    while kind < kinds
        invariant
            ctx.wf(),
            n == ctx.reference@.len(),
            m == ctx.query@.len(),
            node == a0[b as int],
            b < a0.len(),
            c0.len() == a0.len(),
            idb == node.identifier,
            cb == node.template_switch_count as nat,
            costb == node.cost.value,
            in_bounds(ctx, node.identifier),
            kinds == (if node.identifier is Primary {
                2usize
            } else {
                1usize
            }),
            ctx.arena_wf(arena@),
            count_true(closed@) == count0,
            forall|x: int| 0 <= x < arena@.len() ==> in_bounds(ctx, #[trigger] arena@[x].identifier),
            grown(arena@, closed@, a0, c0, costb),
            kind <= kinds,
            arena@.len() <= a0.len() + 4 + (if kind >= 1 && kinds == 2 {
                n + 1
            } else if kind >= 1 {
                n + m + 1
            } else {
                0int
            }) + (if kind >= 2 {
                m + 1
            } else {
                0int
            }),
            forall|i: int| 0 <= i < 4 ==> ctx.covered(arena@, idb, cb, costb, #[trigger] edit_op(idb, i)),
            forall|kd: int, k: int|
                0 <= kd < kind && 0 <= k <= switch_limit(ctx, idb, kd) ==> ctx.covered(
                    arena@,
                    idb,
                    cb,
                    costb,
                    #[trigger] switch_op(idb, kd, k),
                ),
        decreases kinds - kind,
    {
        let (base, limit) = match node.identifier {
            NodeIdentifier::Primary { reference_index, query_index } => {
                if kind == 0 {
                    (reference_index, n)
                } else {
                    (query_index, m)
                }
            },
            NodeIdentifier::Secondary { primary, anti_primary_index, .. } => {
                match primary {
                    TemplateSwitchPrimary::Query => (anti_primary_index, n),
                    TemplateSwitchPrimary::Reference => (anti_primary_index, m),
                }
            },
        };
        let mut k: usize = 0;
        while k <= limit
            invariant
                ctx.wf(),
                node == a0[b as int],
                b < a0.len(),
                c0.len() == a0.len(),
                idb == node.identifier,
                cb == node.template_switch_count as nat,
                costb == node.cost.value,
                kind < kinds,
                kinds == (if node.identifier is Primary {
                    2usize
                } else {
                    1usize
                }),
                base <= limit <= MAX_SEQUENCE_LENGTH,
                limit == switch_limit(ctx, idb, kind as int),
                match idb {
                    NodeIdentifier::Primary { reference_index, query_index } => base == (if kind
                        == 0 {
                        reference_index
                    } else {
                        query_index
                    }),
                    NodeIdentifier::Secondary { anti_primary_index, .. } => base
                        == anti_primary_index,
                },
                ctx.arena_wf(arena@),
                count_true(closed@) == count0,
                forall|x: int| 0 <= x < arena@.len() ==> in_bounds(ctx, #[trigger] arena@[x].identifier),
                grown(arena@, closed@, a0, c0, costb),
                k <= limit + 1,
                n == ctx.reference@.len(),
                m == ctx.query@.len(),
                limit <= n + m,
                kind == 1 ==> limit == m,
                kinds == 2 && kind == 0 ==> limit == n,
                arena@.len() <= a0.len() + 4 + (if kind >= 1 {
                    n + 1
                } else {
                    0int
                }) + k,
                forall|i: int| 0 <= i < 4 ==> ctx.covered(arena@, idb, cb, costb, #[trigger] edit_op(idb, i)),
                forall|kd: int, j: int|
                    (0 <= kd < kind && 0 <= j <= switch_limit(ctx, idb, kd)) || (kd == kind && 0 <= j
                        < k) ==> ctx.covered(arena@, idb, cb, costb, #[trigger] switch_op(idb, kd, j)),
            decreases limit + 1 - k,
        {
            let offset = k as isize - base as isize;
            let op = match node.identifier {
                NodeIdentifier::Primary { .. } => {
                    if kind == 0 {
                        AlignmentType::TemplateSwitchEntrance {
                            primary: TemplateSwitchPrimary::Query,
                            secondary: TemplateSwitchSecondary::Reference,
                            first_offset: offset,
                        }
                    } else {
                        AlignmentType::TemplateSwitchEntrance {
                            primary: TemplateSwitchPrimary::Reference,
                            secondary: TemplateSwitchSecondary::Query,
                            first_offset: offset,
                        }
                    }
                },
                NodeIdentifier::Secondary { .. } => AlignmentType::TemplateSwitchExit {
                    anti_primary_gap: offset,
                },
            };
            assert(op == switch_op(idb, kind as int, k as int));
            let ghost a1 = arena@;
            let ghost c1 = closed@;
            proof {
                assert(arena@[b as int] == arena@.subrange(0, a0.len() as int)[b as int]);
            }
            push_successor(ctx, arena, closed, b, op);
            proof {
                lemma_grown_trans(arena@, closed@, a1, c1, a0, c0, costb);
                assert forall|i: int| 0 <= i < 4 implies ctx.covered(
                    arena@,
                    idb,
                    cb,
                    costb,
                    #[trigger] edit_op(idb, i),
                ) by {
                    lemma_covered_mono(ctx, a1, arena@, idb, cb, costb, edit_op(idb, i));
                }
                assert forall|kd: int, j: int|
                    (0 <= kd < kind && 0 <= j <= switch_limit(ctx, idb, kd)) || (kd == kind && 0
                        <= j < k + 1) implies ctx.covered(
                    arena@,
                    idb,
                    cb,
                    costb,
                    #[trigger] switch_op(idb, kd, j),
                ) by {
                    if !(kd == kind && j == k) {
                        lemma_covered_mono(ctx, a1, arena@, idb, cb, costb, switch_op(idb, kd, j));
                    }
                }
            }
            k = k + 1;
        }
        kind = kind + 1;
    }
    proof {
        assert forall|op: AlignmentType| #[trigger] ctx.covered(arena@, idb, cb, costb, op) by {
            lemma_expansion_complete(ctx, arena@, idb, cb, costb, op);
        }
    }
}

/// Every step from a state is one of those `expand_node` tries, or leads nowhere.
proof fn lemma_expansion_complete(
    ctx: &Context,
    arena: Seq<NodeData>,
    id: NodeIdentifier,
    count: nat,
    cost: u64,
    op: AlignmentType,
)
    requires
        ctx.wf(),
        in_bounds(ctx, id),
        forall|i: int| 0 <= i < 4 ==> ctx.covered(arena, id, count, cost, #[trigger] edit_op(id, i)),
        forall|kd: int, k: int|
            0 <= kd < (if id is Primary {
                2int
            } else {
                1int
            }) && 0 <= k <= switch_limit(ctx, id, kd) ==> ctx.covered(
                arena,
                id,
                count,
                cost,
                #[trigger] switch_op(id, kd, k),
            ),
    ensures
        ctx.covered(arena, id, count, cost, op),
{
    match id {
        NodeIdentifier::Primary { reference_index: i, query_index: j } => {
            match op {
                AlignmentType::PrimaryMatch => {
                    assert(edit_op(id, 0) == op);
                },
                AlignmentType::PrimarySubstitution => {
                    assert(edit_op(id, 1) == op);
                },
                AlignmentType::PrimaryInsertion => {
                    assert(edit_op(id, 2) == op);
                },
                AlignmentType::PrimaryDeletion => {
                    assert(edit_op(id, 3) == op);
                },
                AlignmentType::TemplateSwitchEntrance { primary, secondary, first_offset } => {
                    if switch_pair(primary, secondary) {
                        if primary is Query {
                            let k = i + first_offset;
                            if 0 <= k <= ctx.reference@.len() {
                                assert(switch_op(id, 0, k) == op);
                            }
                        } else {
                            let k = j + first_offset;
                            if 0 <= k <= ctx.query@.len() {
                                assert(switch_op(id, 1, k) == op);
                            }
                        }
                    }
                },
                _ => {},
            }
        },
        NodeIdentifier::Secondary { primary, anti_primary_index: a, .. } => {
            match op {
                AlignmentType::SecondaryMatch => {
                    assert(edit_op(id, 0) == op);
                },
                AlignmentType::SecondarySubstitution => {
                    assert(edit_op(id, 1) == op);
                },
                AlignmentType::SecondaryInsertion => {
                    assert(edit_op(id, 2) == op);
                },
                AlignmentType::SecondaryDeletion => {
                    assert(edit_op(id, 3) == op);
                },
                AlignmentType::TemplateSwitchExit { anti_primary_gap } => {
                    let k = a + anti_primary_gap;
                    if 0 <= k <= ctx.secondary_sequence(primary).len() {
                        assert(switch_op(id, 0, k) == op);
                    }
                },
                _ => {},
            }
        },
    }
}

impl Context {
    /// The search's record of its work: node `x` is closed once taken from the
    /// frontier, and expanded if its successors were then added. Expanded nodes
    /// have all their steps covered and are not goals; closed nodes cost no more
    /// than open ones; a node closed without expansion has an expanded twin (same
    /// state and count) that costs no more.
    pub open spec fn search_wf(
        &self,
        arena: Seq<NodeData>,
        closed: Seq<bool>,
        expanded: Seq<bool>,
    ) -> bool {
        &&& self.arena_wf(arena)
        &&& closed.len() == arena.len()
        &&& expanded.len() == arena.len()
        &&& forall|x: int| 0 <= x < arena.len() && #[trigger] expanded[x] ==> closed[x]
        &&& forall|x: int| 0 <= x < arena.len() && #[trigger] expanded[x] ==> !self.is_goal(
            arena[x].identifier,
        )
        &&& forall|x: int, op: AlignmentType|
            0 <= x < arena.len() && expanded[x] ==> #[trigger] self.covered(
                arena,
                arena[x].identifier,
                arena[x].template_switch_count as nat,
                arena[x].cost.value,
                op,
            )
        &&& forall|c: int, o: int|
            0 <= c < arena.len() && 0 <= o < arena.len() && #[trigger] closed[c] && !#[trigger] closed[o]
                ==> arena[c].cost.value <= arena[o].cost.value
        &&& forall|z: int|
            0 <= z < arena.len() && #[trigger] closed[z] && !expanded[z] ==> exists|w: int|
                0 <= w < arena.len() && #[trigger] expanded[w] && arena[w].identifier
                    == arena[z].identifier && arena[w].template_switch_count
                    == arena[z].template_switch_count && arena[w].cost.value <= arena[z].cost.value
    }

    /// Along any path, some open node costs no more than the path so far, or the
    /// path's current state has an expanded node that costs no more.
    proof fn lemma_frontier(
        &self,
        arena: Seq<NodeData>,
        closed: Seq<bool>,
        expanded: Seq<bool>,
        ops: Seq<AlignmentType>,
        k: int,
    )
        requires
            self.search_wf(arena, closed, expanded),
            0 <= k <= ops.len(),
            self.run(ops) is Some,
        ensures
            self.run(ops.subrange(0, k)) is Some,
            ({
                let (id, count, cost) = self.run(ops.subrange(0, k))->Some_0;
                (exists|y: int| 0 <= y < arena.len() && !closed[y] && arena[y].cost.value <= cost)
                    || (exists|w: int|
                    0 <= w < arena.len() && expanded[w] && arena[w].identifier == id
                        && arena[w].template_switch_count as nat == count && arena[w].cost.value
                        <= cost)
            }),
        decreases k,
    {
        self.lemma_run_prefix(ops, k);
        if k == 0 {
            assert(ops.subrange(0, 0) =~= Seq::<AlignmentType>::empty());
            if closed[0] && !expanded[0] {
                assert(closed[0] && !expanded[0]);
            }
        } else {
            self.lemma_frontier(arena, closed, expanded, ops, k - 1);
            let p = ops.subrange(0, k - 1);
            let q = ops.subrange(0, k);
            assert(q.drop_last() =~= p);
            let (id, count, cost) = self.run(p)->Some_0;
            let (nid, ncount, ncost) = self.run(q)->Some_0;
            let (sid, scount, step_cost) = self.step(id, count, q.last())->Some_0;
            assert(ncost == saturating_add_spec(cost, step_cost));
            if exists|y: int| 0 <= y < arena.len() && !closed[y] && arena[y].cost.value <= cost {
                let y = choose|y: int| 0 <= y < arena.len() && !closed[y] && arena[y].cost.value <= cost;
                assert(arena[y].cost.value <= ncost);
            } else {
                let w = choose|w: int|
                    0 <= w < arena.len() && expanded[w] && arena[w].identifier == id
                        && arena[w].template_switch_count as nat == count && arena[w].cost.value
                        <= cost;
                assert(self.covered(
                    arena,
                    arena[w].identifier,
                    arena[w].template_switch_count as nat,
                    arena[w].cost.value,
                    q.last(),
                ));
                let total = saturating_add_spec(arena[w].cost.value, step_cost);
                assert(total <= ncost);
                let y = choose|y: int|
                    0 <= y < arena.len() && (#[trigger] arena[y]).identifier == nid
                        && arena[y].template_switch_count as nat == ncount && arena[y].cost.value
                        <= total;
                if !closed[y] {
                } else if expanded[y] {
                } else {
                    assert(closed[y] && !expanded[y]);
                    let w2 = choose|w2: int|
                        0 <= w2 < arena.len() && #[trigger] expanded[w2] && arena[w2].identifier
                            == arena[y].identifier && arena[w2].template_switch_count
                            == arena[y].template_switch_count && arena[w2].cost.value
                            <= arena[y].cost.value;
                    assert(expanded[w2]);
                }
            }
        }
    }

    /// A goal node that is cheapest among the open nodes costs no more than any
    /// path to the goal.
    proof fn lemma_goal_optimal(
        &self,
        arena: Seq<NodeData>,
        closed: Seq<bool>,
        expanded: Seq<bool>,
        g: int,
        ops: Seq<AlignmentType>,
    )
        requires
            self.search_wf(arena, closed, expanded),
            0 <= g < arena.len(),
            forall|y: int| 0 <= y < arena.len() && !closed[y] ==> arena[g].cost.value
                <= arena[y].cost.value,
            self.run(ops) matches Some((id, count, cost)) && self.is_goal(id),
        ensures
            arena[g].cost.value <= self.run(ops)->Some_0.2,
    {
        self.lemma_frontier(arena, closed, expanded, ops, ops.len() as int);
        assert(ops.subrange(0, ops.len() as int) =~= ops);
    }
}

impl Context {
    /// The alignment's steps lead from the root to the goal at its total cost,
    /// and no path to the goal costs less.
    pub open spec fn is_optimal_alignment(&self, a: Alignment) -> bool {
        &&& self.run(expand_operations(a.operations@)) matches Some((id, count, cost))
        &&& self.is_goal(id)
        &&& cost == a.total_cost.value
        &&& no_cheaper_path(self, a.total_cost.value)
    }
}

/// The steps `ops` lead from the root to the goal.
pub open spec fn goal_path(ctx: &Context, ops: Seq<AlignmentType>) -> bool {
    ctx.run(ops) is Some && ctx.is_goal(ctx.run(ops)->Some_0.0)
}

/// The least cost of a path from the root to the goal is `cost`, or more.
pub open spec fn no_cheaper_path(ctx: &Context, cost: u64) -> bool {
    forall|ops: Seq<AlignmentType>|
        #[trigger] ctx.run(ops) is Some && ctx.is_goal(ctx.run(ops)->Some_0.0) ==> cost <= ctx.run(
            ops,
        )->Some_0.2
}

/// Finds a minimum-cost alignment of `context.query` to `context.reference` by
/// best-first search. An alignment that comes back is a path of possible steps
/// from the root to the goal (both sequences used up, outside any template
/// switch) whose cost is its total cost, within the cost limit, and no path to
/// the goal costs less. The search stops early once more nodes than the memory
/// limit are held, or once the cheapest open node costs more than the cost
/// limit.
pub fn template_switch_distance_a_star_align(
    context: &Context,
    reference_name: String,
    query_name: String,
) -> (r: Result<Alignment, SearchError>)
    requires
        context.wf(),
    ensures
        r matches Ok(a) ==> {
            &&& context.is_optimal_alignment(a)
            &&& a.total_cost.value <= context.config.cost_limit
            &&& rle_normal(a.operations@)
            &&& a.reference_name@ == reference_name@
            &&& a.query_name@ == query_name@
            &&& expand_operations(a.operations@).len() < context.config.memory_limit
        },
        context.config.memory_limit == 0 ==> r == Err::<Alignment, SearchError>(
            SearchError::SearchAborted(AbortReason::MemoryLimitExceeded),
        ),
        r == Err::<Alignment, SearchError>(SearchError::SearchExhausted) ==> forall|
            ops: Seq<AlignmentType>,
        | !#[trigger] goal_path(context, ops),
        r == Err::<Alignment, SearchError>(
            SearchError::SearchAborted(AbortReason::MemoryLimitExceeded),
        ) ==> context.config.memory_limit < context.node_bound(),
        r == Err::<Alignment, SearchError>(
            SearchError::SearchAborted(AbortReason::CostLimitExceeded),
        ) ==> {
            &&& 1 < context.config.memory_limit
            &&& exists|ops: Seq<AlignmentType>| #[trigger]
                context.run(ops) is Some && context.run(ops)->Some_0.2 > context.config.cost_limit
            &&& forall|ops: Seq<AlignmentType>| #[trigger]
                goal_path(context, ops) ==> context.run(ops)->Some_0.2 > context.config.cost_limit
        },
{
    let n = context.reference.len();
    let m = context.query.len();
    let ord = context.config.node_ord;
    let mut arena: Vec<NodeData> = Vec::new();
    arena.push(
        NodeData {
            identifier: NodeIdentifier::Primary { reference_index: 0, query_index: 0 },
            template_switch_count: 0,
            cost: U64Cost { value: 0 },
            predecessor: 0,
            alignment_type: AlignmentType::Root,
        },
    );
    let mut closed: Vec<bool> = Vec::new();
    closed.push(false);
    let ghost mut expanded: Seq<bool> = seq![false];
    let ghost mut codes: Set<int> = Set::empty();
    proof {
        assert(count_true(closed@) == 0) by {
            assert(closed@.drop_last() =~= Seq::<bool>::empty());
            assert(count_true(Seq::<bool>::empty()) == 0);
        }
    }
    loop
        invariant
            context.wf(),
            n == context.reference@.len(),
            m == context.query@.len(),
            ord == context.config.node_ord,
            context.search_wf(arena@, closed@, expanded),
            count_true(closed@) <= context.config.memory_limit + 1,
            context.config.memory_limit == 0 ==> arena@.len() >= 1,
            forall|x: int| 0 <= x < arena@.len() ==> in_bounds(context, #[trigger] arena@[x].identifier),
            codes.finite(),
            forall|c: int| #[trigger] codes.contains(c) ==> 0 <= c < context.key_space(),
            forall|c: int| #[trigger]
                codes.contains(c) ==> exists|x: int|
                    0 <= x < arena@.len() && expanded[x] && context.key_code(
                        arena@[x].identifier,
                        arena@[x].template_switch_count as int,
                    ) == c,
            arena@.len() <= 1 + codes.len() * context.max_successors(),
        decreases context.config.memory_limit + 1 - count_true(closed@),
    {
        if arena.len() > context.config.memory_limit {
            proof {
                let k = context.key_space();
                let p = context.max_successors();
                assert(0 <= k) by {
                    context.lemma_key_code(root_node().identifier, 0, root_node().identifier, 0);
                }
                vstd::set_lib::lemma_int_range(0, k);
                vstd::set_lib::lemma_len_subset(codes, vstd::set_lib::set_int_range(0, k));
                let c = codes.len() as int;
                assert(c * p <= k * p) by (nonlinear_arith)
                    requires
                        0 <= c <= k,
                        0 <= p,
                ;
            }
            return Err(SearchError::SearchAborted(AbortReason::MemoryLimitExceeded));
        }
        let mut best: Option<usize> = None;
        let mut x: usize = 0;
        while x < arena.len()
            invariant
                closed@.len() == arena@.len(),
                x <= arena@.len(),
                best matches Some(b) ==> b < arena@.len() && !closed@[b as int] && forall|y: int|
                    0 <= y < x && !closed@[y] ==> arena@[b as int].cost.value
                        <= arena@[y].cost.value,
                best is None ==> forall|y: int| 0 <= y < x ==> closed@[y],
            decreases arena@.len() - x,
        {
            if !closed[x] {
                match best {
                    None => {
                        best = Some(x);
                    },
                    Some(b) => {
                        match compare_nodes(ord, &arena[x], &arena[b]) {
                            std::cmp::Ordering::Less => {
                                best = Some(x);
                            },
                            _ => {},
                        }
                    },
                }
            }
            x = x + 1;
        }
        let b = match best {
            None => {
                proof {
                    assert forall|ops: Seq<AlignmentType>| !#[trigger] goal_path(context, ops) by {
                        if goal_path(context, ops) {
                            context.lemma_frontier(
                                arena@,
                                closed@,
                                expanded,
                                ops,
                                ops.len() as int,
                            );
                            assert(ops.subrange(0, ops.len() as int) =~= ops);
                        }
                    }
                }
                return Err(SearchError::SearchExhausted);
            },
            Some(b) => b,
        };
        let ghost closed_pre = closed@;
        proof {
            lemma_count_true_bound(closed@);
            lemma_count_true_set(closed@, b as int);
        }
        closed.set(b, true);
        let node = arena[b];
        proof {
            assert forall|c: int, o: int|
                0 <= c < arena@.len() && 0 <= o < arena@.len() && #[trigger] closed@[c]
                    && !#[trigger] closed@[o] implies arena@[c].cost.value
                <= arena@[o].cost.value by {
                if c != b {
                    assert(closed_pre[c] && !closed_pre[o]);
                }
            }
        }
        if node.cost.value > context.config.cost_limit {
            proof {
                assert(b != 0);
                context.lemma_path_valid(arena@, b as int);
                assert(context.run(path_ops(arena@, b as int)) is Some);
                assert forall|ops: Seq<AlignmentType>| #[trigger]
                    goal_path(context, ops) implies context.run(ops)->Some_0.2
                    > context.config.cost_limit by {
                    context.lemma_goal_optimal(arena@, closed_pre, expanded, b as int, ops);
                }
            }
            return Err(SearchError::SearchAborted(AbortReason::CostLimitExceeded));
        }
        if expanded_before(&arena, &closed, b, node.identifier, node.template_switch_count) {
            proof {
                let w = choose|w: int|
                    0 <= w < arena@.len() && w != b && closed@[w] && (#[trigger] arena@[w]).identifier
                        == node.identifier && arena@[w].template_switch_count
                        == node.template_switch_count;
                assert(closed_pre[w] && !closed_pre[b as int]);
                assert forall|z: int|
                    0 <= z < arena@.len() && #[trigger] closed@[z] && !expanded[z] implies exists|
                    w2: int,
                |
                    0 <= w2 < arena@.len() && #[trigger] expanded[w2] && arena@[w2].identifier
                        == arena@[z].identifier && arena@[w2].template_switch_count
                        == arena@[z].template_switch_count && arena@[w2].cost.value
                        <= arena@[z].cost.value by {
                    if z == b {
                        if expanded[w] {
                            assert(expanded[w]);
                        } else {
                            assert(closed_pre[w] && !expanded[w]);
                            let w2 = choose|w2: int|
                                0 <= w2 < arena@.len() && #[trigger] expanded[w2]
                                    && arena@[w2].identifier == arena@[w].identifier
                                    && arena@[w2].template_switch_count
                                    == arena@[w].template_switch_count && arena@[w2].cost.value
                                    <= arena@[w].cost.value;
                            assert(expanded[w2]);
                        }
                    } else {
                        assert(closed_pre[z]);
                    }
                }
                assert forall|x: int| 0 <= x < arena@.len() && #[trigger] expanded[x] implies closed@[x] by {
                    assert(closed_pre[x]);
                }
            }
            continue;
        }
        if node.identifier == (NodeIdentifier::Primary { reference_index: n, query_index: m }) {
            proof {
                context.lemma_path_valid(arena@, b as int);
                assert forall|x: int| 1 <= x < arena@.len() implies (#[trigger] arena@[x]).predecessor
                    < x by {
                    assert(context.reached(arena@, x));
                }
                assert forall|ops: Seq<AlignmentType>|
                    #[trigger] context.run(ops) is Some && context.is_goal(
                        context.run(ops)->Some_0.0,
                    ) implies node.cost.value <= context.run(ops)->Some_0.2 by {
                    context.lemma_goal_optimal(arena@, closed_pre, expanded, b as int, ops);
                }
            }
            let ops = reconstruct(&arena, b);
            let operations = run_length_encode(&ops);
            proof {
                assert(goal_path(context, expand_operations(operations@)));
                lemma_path_len(arena@, b as int);
            }
            return Ok(
                Alignment {
                    total_cost: node.cost,
                    reference_name,
                    query_name,
                    operations,
                },
            );
        }
        let ghost a0 = arena@;
        let ghost c0 = closed@;
        let ghost codes_old = codes;
        let ghost code_b = context.key_code(node.identifier, node.template_switch_count as int);
        proof {
            assert(in_bounds(context, arena@[b as int].identifier));
            assert(arena@[b as int].template_switch_count <= context.count_cap());
            context.lemma_key_code(
                node.identifier,
                node.template_switch_count as int,
                node.identifier,
                node.template_switch_count as int,
            );
            if codes.contains(code_b) {
                let x = choose|x: int|
                    0 <= x < arena@.len() && expanded[x] && context.key_code(
                        arena@[x].identifier,
                        arena@[x].template_switch_count as int,
                    ) == code_b;
                assert(in_bounds(context, arena@[x].identifier));
                assert(arena@[x].template_switch_count <= context.count_cap());
                context.lemma_key_code(
                    arena@[x].identifier,
                    arena@[x].template_switch_count as int,
                    node.identifier,
                    node.template_switch_count as int,
                );
                assert(closed_pre[x]);
                assert(x != b);
                assert(closed@[x]);
                assert(false);
            }
        }
        let ghost len_before = arena@.len();
        let ghost exp_before = expanded;
        expand_node(context, &mut arena, &mut closed, b);
        proof {
            let exp_old = expanded;
            let e0 = expanded.update(b as int, true);
            let grown_len = arena@.len() - a0.len();
            expanded = e0 + Seq::new(grown_len as nat, |i: int| false);
            assert(arena@.subrange(0, a0.len() as int) == a0);
            assert forall|x: int| 0 <= x < a0.len() implies arena@[x] == a0[x] by {
                assert(arena@[x] == arena@.subrange(0, a0.len() as int)[x]);
            }
            assert forall|x: int| 0 <= x < a0.len() implies closed@[x] == c0[x] by {
                assert(closed@[x] == closed@.subrange(0, c0.len() as int)[x]);
            }
            assert forall|x: int| 0 <= x < arena@.len() && #[trigger] expanded[x] implies closed@[x] by {
                if x < a0.len() {
                    assert(closed@[x] == c0[x]);
                    if x != b {
                        assert(e0[x] == exp_old[x]);
                        assert(exp_old[x]);
                        assert(closed_pre[x]);
                    }
                }
            }
            assert forall|x: int| 0 <= x < arena@.len() && #[trigger] expanded[x] implies !context.is_goal(
                arena@[x].identifier,
            ) by {
                if x < a0.len() && x != b {
                    assert(e0[x]);
                }
            }
            assert forall|x: int, op: AlignmentType|
                0 <= x < arena@.len() && expanded[x] implies #[trigger] context.covered(
                arena@,
                arena@[x].identifier,
                arena@[x].template_switch_count as nat,
                arena@[x].cost.value,
                op,
            ) by {
                if x < a0.len() && x != b {
                    assert(e0[x]);
                    assert(context.covered(
                        a0,
                        a0[x].identifier,
                        a0[x].template_switch_count as nat,
                        a0[x].cost.value,
                        op,
                    ));
                    lemma_covered_mono(
                        context,
                        a0,
                        arena@,
                        a0[x].identifier,
                        a0[x].template_switch_count as nat,
                        a0[x].cost.value,
                        op,
                    );
                }
            }
            assert forall|c: int, o: int|
                0 <= c < arena@.len() && 0 <= o < arena@.len() && #[trigger] closed@[c]
                    && !#[trigger] closed@[o] implies arena@[c].cost.value
                <= arena@[o].cost.value by {
                if c < a0.len() && o < a0.len() {
                    assert(c0[c] && !c0[o]);
                } else if c < a0.len() {
                    assert(c0[c]);
                    if c != b {
                        assert(closed_pre[c] && !closed_pre[b as int]);
                    }
                }
            }
            assert forall|z: int|
                0 <= z < arena@.len() && #[trigger] closed@[z] && !expanded[z] implies exists|
                w: int,
            |
                0 <= w < arena@.len() && #[trigger] expanded[w] && arena@[w].identifier
                    == arena@[z].identifier && arena@[w].template_switch_count
                    == arena@[z].template_switch_count && arena@[w].cost.value
                    <= arena@[z].cost.value by {
                if z < a0.len() {
                    assert(c0[z]);
                    assert(z != b);
                    assert(!e0[z]);
                    assert(closed_pre[z]);
                    assert(!exp_old[z]);
                    let w = choose|w: int|
                        0 <= w < a0.len() && #[trigger] exp_old[w] && a0[w].identifier
                            == a0[z].identifier && a0[w].template_switch_count
                            == a0[z].template_switch_count && a0[w].cost.value
                            <= a0[z].cost.value;
                    assert(e0[w]);
                    assert(expanded[w]);
                }
            }
        }
        proof {
            codes = codes_old.insert(code_b);
            let p = context.max_successors();
            let c = codes_old.len() as int;
            assert(arena@.len() <= len_before + p);
            assert(len_before <= 1 + c * p);
            assert(codes.len() == c + 1);
            assert(1 + c * p + p == 1 + (c + 1) * p) by (nonlinear_arith);
            assert forall|cc: int| #[trigger]
                codes.contains(cc) implies exists|x: int|
                    0 <= x < arena@.len() && expanded[x] && context.key_code(
                        arena@[x].identifier,
                        arena@[x].template_switch_count as int,
                    ) == cc by {
                if cc == code_b {
                    assert(expanded[b as int]);
                    assert(arena@[b as int] == node);
                } else {
                    assert(codes_old.contains(cc));
                    let x = choose|x: int|
                        0 <= x < len_before && exp_before[x] && context.key_code(
                            a0[x].identifier,
                            a0[x].template_switch_count as int,
                        ) == cc;
                    assert(expanded[x]);
                    assert(arena@[x] == a0[x]);
                }
            }
        }
    }
}

impl Context {
    pub proof fn lemma_run_prefix(&self, ops: Seq<AlignmentType>, k: int)
        requires
            0 <= k <= ops.len(),
            self.run(ops) is Some,
        ensures
            self.run(ops.subrange(0, k)) is Some,
        decreases ops.len(),
    {
        if k < ops.len() {
            self.lemma_run_prefix(ops.drop_last(), k);
            assert(ops.drop_last().subrange(0, k) =~= ops.subrange(0, k));
        } else {
            assert(ops.subrange(0, k) =~= ops);
        }
    }

    /// With a budget of zero template switches, no path enters one.
    pub proof fn lemma_no_switch_without_budget(&self, ops: Seq<AlignmentType>)
        requires
            self.config.max_template_switch_count == Some(0usize),
            self.run(ops) is Some,
        ensures
            forall|i: int| 0 <= i < ops.len() ==> !(#[trigger] ops[i] is TemplateSwitchEntrance),
        decreases ops.len(),
    {
        if ops.len() > 0 {
            self.lemma_no_switch_without_budget(ops.drop_last());
            assert forall|i: int| 0 <= i < ops.len() implies !(
            #[trigger] ops[i] is TemplateSwitchEntrance) by {
                if i < ops.len() - 1 {
                    assert(ops[i] == ops.drop_last()[i]);
                }
            }
        }
    }
}

pub open spec fn is_secondary_edit(op: AlignmentType) -> bool {
    op is SecondaryMatch || op is SecondarySubstitution || op is SecondaryInsertion
        || op is SecondaryDeletion
}

/// The number of secondary edit steps at the end of `ops`.
pub open spec fn trailing_secondary(ops: Seq<AlignmentType>) -> nat
    decreases ops.len(),
{
    if ops.len() > 0 && is_secondary_edit(ops.last()) {
        trailing_secondary(ops.drop_last()) + 1
    } else {
        0
    }
}

pub open spec fn min_nat(a: nat, b: nat) -> nat {
    if a <= b {
        a
    } else {
        b
    }
}

impl Context {
    /// Inside a template switch, the path ends in its entrance followed by the
    /// secondary steps counted in the state; outside, in no secondary step.
    proof fn lemma_run_template_switch_shape(&self, ops: Seq<AlignmentType>)
        requires
            self.run(ops) is Some,
        ensures
            match self.run(ops)->Some_0.0 {
                NodeIdentifier::Secondary { length, .. } => {
                    &&& length == min_nat(trailing_secondary(ops), self.min_length())
                    &&& trailing_secondary(ops) < ops.len()
                    &&& ops[ops.len() - trailing_secondary(ops) - 1] is TemplateSwitchEntrance
                },
                NodeIdentifier::Primary { .. } => trailing_secondary(ops) == 0,
            },
        decreases ops.len(),
    {
        if ops.len() > 0 {
            let prev = ops.drop_last();
            self.lemma_run_template_switch_shape(prev);
            let t = trailing_secondary(prev);
            if is_secondary_edit(ops.last()) {
                assert(ops[ops.len() - (t + 1) - 1] == prev[prev.len() - t - 1]);
            }
        }
    }

    /// Every template switch on a path takes at least the minimum number of
    /// secondary steps: each exit follows that many (or more) secondary edit
    /// steps, which follow an entrance.
    pub proof fn lemma_min_length_respected(&self, ops: Seq<AlignmentType>, x: int)
        requires
            self.run(ops) is Some,
            0 <= x < ops.len(),
            ops[x] is TemplateSwitchExit,
        ensures
            trailing_secondary(ops.subrange(0, x)) >= self.min_length(),
            trailing_secondary(ops.subrange(0, x)) < x,
            ops[x - trailing_secondary(ops.subrange(0, x)) - 1] is TemplateSwitchEntrance,
    {
        self.lemma_run_prefix(ops, x + 1);
        let p = ops.subrange(0, x + 1);
        assert(p.drop_last() =~= ops.subrange(0, x));
        self.lemma_run_template_switch_shape(ops.subrange(0, x));
        let t = trailing_secondary(ops.subrange(0, x));
        assert(ops.subrange(0, x)[x - t - 1] == ops[x - t - 1]);
    }
}


/// The two contexts pose the same alignment problem (sequences, costs, minimum
/// length, allowed steps), whatever their node order, limits and lower bound.
pub open spec fn same_problem(c1: &Context, c2: &Context) -> bool {
    &&& c1.reference@ == c2.reference@
    &&& c1.query@ == c2.query@
    &&& c1.costs.primary_match == c2.costs.primary_match
    &&& c1.costs.primary_substitution == c2.costs.primary_substitution
    &&& c1.costs.primary_insertion == c2.costs.primary_insertion
    &&& c1.costs.primary_deletion == c2.costs.primary_deletion
    &&& c1.costs.secondary_match == c2.costs.secondary_match
    &&& c1.costs.secondary_substitution == c2.costs.secondary_substitution
    &&& c1.costs.secondary_insertion == c2.costs.secondary_insertion
    &&& c1.costs.secondary_deletion == c2.costs.secondary_deletion
    &&& c1.costs.template_switch_entrance == c2.costs.template_switch_entrance
    &&& c1.costs.template_switch_exit == c2.costs.template_switch_exit
    &&& c1.costs.anti_primary_gap.entries() == c2.costs.anti_primary_gap.entries()
    &&& c1.min_length() == c2.min_length()
    &&& c1.config.allow_primary_match == c2.config.allow_primary_match
    &&& c1.config.allow_secondary_deletion == c2.config.allow_secondary_deletion
}

impl Context {
    /// In two contexts of the same problem and switch budget, every path has the
    /// same outcome.
    pub proof fn lemma_same_problem_same_run(&self, other: &Context, ops: Seq<AlignmentType>)
        requires
            same_problem(self, other),
            self.config.max_template_switch_count == other.config.max_template_switch_count,
        ensures
            self.run(ops) == other.run(ops),
        decreases ops.len(),
    {
        if ops.len() > 0 {
            self.lemma_same_problem_same_run(other, ops.drop_last());
            match self.run(ops.drop_last()) {
                Some((id, count, cost)) => {
                    assert(self.step(id, count, ops.last()) == other.step(id, count, ops.last()));
                },
                None => {},
            }
        }
    }

    /// A path without template switches has the same outcome whatever the switch
    /// budget.
    proof fn lemma_run_without_switches(&self, other: &Context, ops: Seq<AlignmentType>)
        requires
            same_problem(self, other),
            forall|i: int| 0 <= i < ops.len() ==> !(#[trigger] ops[i] is TemplateSwitchEntrance),
        ensures
            self.run(ops) == other.run(ops),
        decreases ops.len(),
    {
        if ops.len() > 0 {
            assert forall|i: int| 0 <= i < ops.drop_last().len() implies !(
            #[trigger] ops.drop_last()[i] is TemplateSwitchEntrance) by {
                assert(ops.drop_last()[i] == ops[i]);
            }
            self.lemma_run_without_switches(other, ops.drop_last());
            assert(!(ops[ops.len() - 1] is TemplateSwitchEntrance));
            match self.run(ops.drop_last()) {
                Some((id, count, cost)) => {
                    assert(self.step(id, count, ops.last()) == other.step(id, count, ops.last()));
                },
                None => {},
            }
        }
    }
}

/// Changing only the node order (or the limits, or the lower bound) does not
/// change the cost of an optimal alignment.
pub proof fn lemma_node_order_does_not_change_cost(
    c1: &Context,
    c2: &Context,
    a1: Alignment,
    a2: Alignment,
)
    requires
        same_problem(c1, c2),
        c1.config.max_template_switch_count == c2.config.max_template_switch_count,
        c1.is_optimal_alignment(a1),
        c2.is_optimal_alignment(a2),
    ensures
        a1.total_cost == a2.total_cost,
{
    let ops1 = expand_operations(a1.operations@);
    let ops2 = expand_operations(a2.operations@);
    c1.lemma_same_problem_same_run(c2, ops1);
    c1.lemma_same_problem_same_run(c2, ops2);
    assert(c2.run(ops1) is Some);
    assert(c1.run(ops2) is Some);
}

/// Allowing any number of template switches never costs more than allowing
/// none.
pub proof fn lemma_unlimited_switches_no_worse(
    limited: &Context,
    unlimited: &Context,
    a_limited: Alignment,
    a_unlimited: Alignment,
)
    requires
        same_problem(limited, unlimited),
        limited.config.max_template_switch_count == Some(0usize),
        unlimited.config.max_template_switch_count is None,
        limited.is_optimal_alignment(a_limited),
        unlimited.is_optimal_alignment(a_unlimited),
    ensures
        a_unlimited.total_cost.value <= a_limited.total_cost.value,
{
    let ops = expand_operations(a_limited.operations@);
    limited.lemma_no_switch_without_budget(ops);
    limited.lemma_run_without_switches(unlimited, ops);
    assert(unlimited.run(ops) is Some);
}


impl Context {
    /// A bound on every position: `n + m + 1`.
    pub open spec fn dim(&self) -> int {
        (self.reference@.len() + self.query@.len() + 1) as int
    }

    /// The number of primary states.
    pub open spec fn primary_keys(&self) -> int {
        ((self.reference@.len() + 1) * (self.query@.len() + 1)) as int
    }

    /// The number of codes for states: primary ones first, then secondary ones.
    pub open spec fn state_keys(&self) -> int {
        self.primary_keys() + 2 * self.dim() * self.dim() * self.dim() * (self.min_length() + 1)
    }

    /// A number for each state, distinct for distinct states within bounds.
    pub open spec fn state_code(&self, id: NodeIdentifier) -> int {
        match id {
            NodeIdentifier::Primary { reference_index, query_index } => reference_index * (
            self.query@.len() + 1) + query_index,
            NodeIdentifier::Secondary {
                primary,
                anti_primary_index,
                primary_index,
                secondary_index,
                length,
            } => self.primary_keys() + ((((if primary is Query {
                0int
            } else {
                1int
            }) * self.dim() + anti_primary_index) * self.dim() + primary_index) * self.dim()
                + secondary_index) * (self.min_length() + 1) + length,
        }
    }

    /// The number of (state, count) pairs.
    pub open spec fn key_space(&self) -> int {
        self.state_keys() * (self.count_cap() + 1)
    }

    /// A number for each (state, count) pair, distinct for distinct pairs within
    /// bounds.
    pub open spec fn key_code(&self, id: NodeIdentifier, count: int) -> int {
        self.state_code(id) * (self.count_cap() + 1) + count
    }

    /// The most successors one expansion adds.
    pub open spec fn max_successors(&self) -> int {
        (4 + (self.reference@.len() + 1) + (self.query@.len() + 1)) as int
    }

    /// The most nodes a search can hold: the root, and the successors of one
    /// expansion per (state, count) pair.
    pub open spec fn node_bound(&self) -> int {
        1 + self.key_space() * self.max_successors()
    }
}

proof fn lemma_radix(a1: int, b1: int, a2: int, b2: int, base: int)
    requires
        base > 0,
        0 <= b1 < base,
        0 <= b2 < base,
        a1 * base + b1 == a2 * base + b2,
    ensures
        a1 == a2,
        b1 == b2,
{
    if a1 < a2 {
        assert(a1 * base + base <= a2 * base) by (nonlinear_arith)
            requires
                a1 < a2,
                base > 0,
        ;
    } else if a2 < a1 {
        assert(a2 * base + base <= a1 * base) by (nonlinear_arith)
            requires
                a2 < a1,
                base > 0,
        ;
    }
}

proof fn lemma_radix_bound(a: int, b: int, bound: int, base: int)
    requires
        0 <= a < bound,
        0 <= b < base,
    ensures
        0 <= a * base + b < bound * base,
{
    assert(0 <= a * base + b < bound * base) by (nonlinear_arith)
        requires
            0 <= a < bound,
            0 <= b < base,
    ;
}

impl Context {
    proof fn lemma_state_code(&self, id: NodeIdentifier)
        requires
            in_bounds(self, id),
        ensures
            0 <= self.state_code(id) < self.state_keys(),
            id is Primary <==> self.state_code(id) < self.primary_keys(),
    {
        let n = self.reference@.len() as int;
        let m = self.query@.len() as int;
        let d = self.dim();
        let ld = (self.min_length() + 1) as int;
        match id {
            NodeIdentifier::Primary { reference_index, query_index } => {
                lemma_radix_bound(reference_index as int, query_index as int, n + 1, m + 1);
                assert(0 <= 2 * d * d * d * ld) by (nonlinear_arith)
                    requires
                        d > 0,
                        ld > 0,
                ;
            },
            NodeIdentifier::Secondary {
                primary,
                anti_primary_index,
                primary_index,
                secondary_index,
                length,
            } => {
                let bit: int = if primary is Query {
                    0
                } else {
                    1
                };
                lemma_radix_bound(bit, anti_primary_index as int, 2, d);
                lemma_radix_bound(bit * d + anti_primary_index, primary_index as int, 2 * d, d);
                lemma_radix_bound(
                    (bit * d + anti_primary_index) * d + primary_index,
                    secondary_index as int,
                    2 * d * d,
                    d,
                );
                lemma_radix_bound(
                    ((bit * d + anti_primary_index) * d + primary_index) * d + secondary_index,
                    length as int,
                    2 * d * d * d,
                    ld,
                );
                assert(0 <= (n + 1) * (m + 1)) by (nonlinear_arith)
                    requires
                        n >= 0,
                        m >= 0,
                ;
            },
        }
    }

    proof fn lemma_state_code_injective(&self, id1: NodeIdentifier, id2: NodeIdentifier)
        requires
            in_bounds(self, id1),
            in_bounds(self, id2),
            self.state_code(id1) == self.state_code(id2),
        ensures
            id1 == id2,
    {
        self.lemma_state_code(id1);
        self.lemma_state_code(id2);
        let m = self.query@.len() as int;
        let d = self.dim();
        let ld = (self.min_length() + 1) as int;
        match (id1, id2) {
            (
                NodeIdentifier::Primary { reference_index: i1, query_index: j1 },
                NodeIdentifier::Primary { reference_index: i2, query_index: j2 },
            ) => {
                lemma_radix(i1 as int, j1 as int, i2 as int, j2 as int, m + 1);
            },
            (
                NodeIdentifier::Secondary {
                    primary: p1,
                    anti_primary_index: a1,
                    primary_index: q1,
                    secondary_index: k1,
                    length: l1,
                },
                NodeIdentifier::Secondary {
                    primary: p2,
                    anti_primary_index: a2,
                    primary_index: q2,
                    secondary_index: k2,
                    length: l2,
                },
            ) => {
                let b1: int = if p1 is Query {
                    0
                } else {
                    1
                };
                let b2: int = if p2 is Query {
                    0
                } else {
                    1
                };
                let c1 = ((b1 * d + a1) * d + q1) * d + k1;
                let c2 = ((b2 * d + a2) * d + q2) * d + k2;
                lemma_radix(c1, l1 as int, c2, l2 as int, ld);
                lemma_radix((b1 * d + a1) * d + q1, k1 as int, (b2 * d + a2) * d + q2, k2 as int, d);
                lemma_radix(b1 * d + a1, q1 as int, b2 * d + a2, q2 as int, d);
                lemma_radix(b1, a1 as int, b2, a2 as int, d);
            },
            _ => {},
        }
    }

    /// Distinct (state, count) pairs within bounds get distinct codes in the key
    /// space.
    pub proof fn lemma_key_code(&self, id1: NodeIdentifier, c1: int, id2: NodeIdentifier, c2: int)
        requires
            in_bounds(self, id1),
            in_bounds(self, id2),
            0 <= c1 <= self.count_cap(),
            0 <= c2 <= self.count_cap(),
        ensures
            0 <= self.key_code(id1, c1) < self.key_space(),
            self.key_code(id1, c1) == self.key_code(id2, c2) ==> id1 == id2 && c1 == c2,
    {
        self.lemma_state_code(id1);
        lemma_radix_bound(self.state_code(id1), c1, self.state_keys(), self.count_cap() + 1);
        if self.key_code(id1, c1) == self.key_code(id2, c2) {
            lemma_radix(self.state_code(id1), c1, self.state_code(id2), c2, self.count_cap() + 1);
            self.lemma_state_code_injective(id1, id2);
        }
    }
}

/// A step of the written-out alignment stands in one of its runs.
pub proof fn lemma_expanded_step_in_run(a: Seq<(usize, AlignmentType)>, x: int)
    requires
        0 <= x < expand_operations(a).len(),
    ensures
        exists|i: int| 0 <= i < a.len() && #[trigger] a[i].1 == expand_operations(a)[x],
    decreases a.len(),
{
    let prefix = expand_operations(a.drop_last());
    assert(expand_operations(a) == prefix + Seq::new(
        a.last().0 as nat,
        |k: int|
            if false {
                a.last().1.spec_inverted()
            } else {
                a.last().1
            },
    ));
    if x < prefix.len() {
        lemma_expanded_step_in_run(a.drop_last(), x);
        let i = choose|i: int| 0 <= i < a.drop_last().len() && #[trigger] a.drop_last()[i].1
            == prefix[x];
        assert(a[i] == a.drop_last()[i]);
    } else {
        assert(a[a.len() - 1].1 == expand_operations(a)[x]);
    }
}

/// Where every path to the goal that enters no template switch costs more than
/// an optimal alignment, that alignment enters a template switch: one of its
/// runs is an entrance.
pub proof fn lemma_optimal_alignment_uses_switch(ctx: &Context, a: Alignment)
    requires
        ctx.is_optimal_alignment(a),
        forall|ops: Seq<AlignmentType>|
            #[trigger] goal_path(ctx, ops) && (forall|i: int|
                0 <= i < ops.len() ==> !(ops[i] is TemplateSwitchEntrance)) ==> ctx.run(
                ops,
            )->Some_0.2 > a.total_cost.value,
    ensures
        exists|i: int|
            0 <= i < a.operations@.len() && #[trigger] a.operations@[i].1 is TemplateSwitchEntrance,
{
    let ops = expand_operations(a.operations@);
    assert(goal_path(ctx, ops));
    let x = choose|x: int| 0 <= x < ops.len() && ops[x] is TemplateSwitchEntrance;
    lemma_expanded_step_in_run(a.operations@, x);
    let i = choose|i: int| 0 <= i < a.operations@.len() && #[trigger] a.operations@[i].1 == ops[x];
    assert(a.operations@[i].1 is TemplateSwitchEntrance);
}

/// The number of runs of secondary edit steps at the end of `a`.
pub open spec fn trailing_secondary_runs(a: Seq<(usize, AlignmentType)>) -> nat
    decreases a.len(),
{
    if a.len() > 0 && is_secondary_edit(a.last().1) {
        trailing_secondary_runs(a.drop_last()) + 1
    } else {
        0
    }
}

/// The number of secondary edit steps in the runs at the end of `a`: the sum of
/// their multiplicities.
pub open spec fn trailing_secondary_steps(a: Seq<(usize, AlignmentType)>) -> nat
    decreases a.len(),
{
    if a.len() > 0 && is_secondary_edit(a.last().1) {
        trailing_secondary_steps(a.drop_last()) + a.last().0 as nat
    } else {
        0
    }
}

proof fn lemma_trailing_repeat(s: Seq<AlignmentType>, m: nat, t: AlignmentType)
    requires
        is_secondary_edit(t),
    ensures
        trailing_secondary(s + Seq::new(m, |k: int| t)) == trailing_secondary(s) + m,
    decreases m,
{
    if m == 0 {
        assert(s + Seq::new(0nat, |k: int| t) =~= s);
    } else {
        let r = (m - 1) as nat;
        assert((s + Seq::new(m, |k: int| t)).drop_last() =~= s + Seq::new(r, |k: int| t));
        lemma_trailing_repeat(s, r, t);
    }
}

proof fn lemma_trailing_runs(a: Seq<(usize, AlignmentType)>)
    requires
        forall|i: int| 0 <= i < a.len() ==> #[trigger] a[i].0 > 0,
    ensures
        trailing_secondary(expand_operations(a)) == trailing_secondary_steps(a),
        trailing_secondary_runs(a) <= a.len(),
        trailing_secondary_runs(a) < a.len() ==> trailing_secondary_steps(a)
            < expand_operations(a).len(),
        trailing_secondary_runs(a) < a.len() ==> expand_operations(a)[expand_operations(a).len()
            - trailing_secondary_steps(a) - 1] == a[a.len() - trailing_secondary_runs(a) - 1].1,
        trailing_secondary_runs(a) == a.len() ==> trailing_secondary_steps(a)
            == expand_operations(a).len(),
    decreases a.len(),
{
    if a.len() > 0 {
        let b = a.drop_last();
        let (m, t) = a.last();
        assert forall|i: int| 0 <= i < b.len() implies #[trigger] b[i].0 > 0 by {
            assert(b[i] == a[i]);
        }
        lemma_trailing_runs(b);
        let run = Seq::new(
            m as nat,
            |k: int|
                if false {
                    t.spec_inverted()
                } else {
                    t
                },
        );
        assert(run =~= Seq::new(m as nat, |k: int| t));
        assert(expand_operations(a) == expand_operations(b) + run);
        assert(a[a.len() - 1].0 > 0);
        if is_secondary_edit(t) {
            lemma_trailing_repeat(expand_operations(b), m as nat, t);
            let eb = expand_operations(b);
            let ea = expand_operations(a);
            if trailing_secondary_runs(b) < b.len() {
                let idx = eb.len() - trailing_secondary_steps(b) - 1;
                assert(ea[idx] == eb[idx]);
                assert(a[a.len() - trailing_secondary_runs(a) - 1] == b[b.len()
                    - trailing_secondary_runs(b) - 1]);
            }
        } else {
            let ea = expand_operations(a);
            assert(ea.last() == t);
            assert(ea.drop_last().len() + 1 == ea.len());
        }
    }
}

/// Each template-switch exit in the runs of an alignment follows at least the
/// minimum number of secondary edit steps, counted by the multiplicities of the
/// runs between it and the entrance before them.
pub proof fn lemma_min_length_in_runs(ctx: &Context, a: Seq<(usize, AlignmentType)>, x: int)
    requires
        ctx.run(expand_operations(a)) is Some,
        forall|i: int| 0 <= i < a.len() ==> #[trigger] a[i].0 > 0,
        0 <= x < a.len(),
        a[x].1 is TemplateSwitchExit,
    ensures
        trailing_secondary_steps(a.subrange(0, x)) >= ctx.min_length(),
        trailing_secondary_runs(a.subrange(0, x)) < x,
        a[x - trailing_secondary_runs(a.subrange(0, x)) - 1].1 is TemplateSwitchEntrance,
        forall|j: int|
            x - trailing_secondary_runs(a.subrange(0, x)) <= j < x ==> is_secondary_edit(
                #[trigger] a[j].1,
            ),
{
    let b = a.subrange(0, x);
    let b1 = a.subrange(0, x + 1);
    let ea = expand_operations(a);
    let eb = expand_operations(b);
    assert forall|i: int| 0 <= i < b.len() implies #[trigger] b[i].0 > 0 by {
        assert(b[i] == a[i]);
    }
    lemma_trailing_runs(b);
    lemma_expand_prefix(a, x + 1, false);
    lemma_expand_prefix(a, x, false);
    assert(b1.drop_last() =~= b);
    let big_x = eb.len() as int;
    assert(expand_operations(b1)[big_x] == a[x].1);
    assert(ea[big_x] == expand_operations(b1)[big_x]);
    ctx.lemma_min_length_respected(ea, big_x);
    assert(ea.subrange(0, big_x) == eb);
    lemma_trailing_runs_suffix(b);
    let r = trailing_secondary_runs(b) as int;
    if r < x {
        assert(a[x - r - 1] == b[x - r - 1]);
    }
    assert forall|j: int| x - r <= j < x implies is_secondary_edit(#[trigger] a[j].1) by {
        assert(a[j] == b[j]);
    }
}

/// The trailing runs counted by `trailing_secondary_runs` are secondary edits.
proof fn lemma_trailing_runs_suffix(a: Seq<(usize, AlignmentType)>)
    ensures
        trailing_secondary_runs(a) <= a.len(),
        forall|j: int|
            a.len() - trailing_secondary_runs(a) <= j < a.len() ==> is_secondary_edit(
                #[trigger] a[j].1,
            ),
    decreases a.len(),
{
    if a.len() > 0 && is_secondary_edit(a.last().1) {
        let b = a.drop_last();
        lemma_trailing_runs_suffix(b);
        assert forall|j: int|
            a.len() - trailing_secondary_runs(a) <= j < a.len() implies is_secondary_edit(
            #[trigger] a[j].1,
        ) by {
            if j < a.len() - 1 {
                assert(a[j] == b[j]);
            }
        }
    }
}
} // verus!
