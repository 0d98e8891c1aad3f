//! Step functions from indices to costs, and their two-row plain text form.
use vstd::prelude::*;

use crate::strings::push_char;

use crate::cost::{U64Cost, COST_INFINITY};
use crate::decimal::{decimal, int_text, is_digit, lemma_decimal, push_decimal};
use crate::text::{
    digits_end, is_newline, lemma_skip_spaces, lemma_skip_whitespace, parse_number, parse_row,
    parse_row_exec, skip_spaces, skip_whitespace, skip_whitespace_exec,
};

verus! {

/// Why a cost function text was refused.
#[derive(Debug, Clone, Copy, PartialEq, Eq, Structural)]
pub enum CostFunctionParseError {
    /// A row holds something that is not an integer in range (an overflowing
    /// literal, a stray character, `-` before a cost), or the index row does not
    /// end in a line break. `position` is the character offset where reading
    /// failed.
    MalformedRow { position: usize },
    /// The rows have different lengths.
    LengthMismatch,
    /// The first index is not the smallest index value (or there is none).
    FirstIndexNotMinimum,
    /// The indices do not strictly increase.
    IndicesNotIncreasing,
}

pub open spec fn strictly_increasing(s: Seq<int>) -> bool {
    forall|i: int, j: int| 0 <= i < j < s.len() ==> s[i] < s[j]
}

pub open spec fn index_min() -> int {
    isize::MIN as int
}

pub open spec fn index_max() -> int {
    isize::MAX as int
}

/// What a cost function text stands for: the index row, the cost row, and the
/// position where reading stopped. The index row comes first and ends in a line
/// break; whitespace before each row is passed over; the cost row ends at a line
/// break or at the end of the text.
pub open spec fn parse_plain_spec(s: Seq<char>) -> Result<
    (Seq<int>, Seq<int>, int),
    CostFunctionParseError,
> {
    match parse_row(s, skip_whitespace(s, 0), index_min(), index_max(), false) {
        Err(f) => Err(CostFunctionParseError::MalformedRow { position: f as usize }),
        Ok((indices, index_end)) => match parse_row(
            s,
            skip_whitespace(s, index_end),
            0,
            COST_INFINITY as int,
            true,
        ) {
            Err(f) => Err(CostFunctionParseError::MalformedRow { position: f as usize }),
            Ok((costs, end)) => {
                if indices.len() != costs.len() {
                    Err(CostFunctionParseError::LengthMismatch)
                } else if indices.len() == 0 || indices[0] != index_min() {
                    Err(CostFunctionParseError::FirstIndexNotMinimum)
                } else if !strictly_increasing(indices) {
                    Err(CostFunctionParseError::IndicesNotIncreasing)
                } else {
                    Ok((indices, costs, end))
                }
            },
        },
    }
}

/// The text of an index: `inf` and `-inf` for the largest and smallest values.
pub open spec fn index_text(i: int) -> Seq<char> {
    if i == index_max() {
        seq!['i', 'n', 'f']
    } else if i == index_min() {
        seq!['-', 'i', 'n', 'f']
    } else {
        int_text(i)
    }
}

/// The text of a cost: `inf` for the largest value.
pub open spec fn cost_text(c: int) -> Seq<char> {
    if c == COST_INFINITY {
        seq!['i', 'n', 'f']
    } else {
        decimal(c as nat)
    }
}

pub open spec fn spaces(n: int) -> Seq<char> {
    Seq::new(n as nat, |i: int| ' ')
}

/// `t` right-aligned in a column of `width`.
pub open spec fn padded(t: Seq<char>, width: int) -> Seq<char> {
    spaces(width - t.len()) + t
}

/// The cells separated by single spaces.
pub open spec fn joined(cells: Seq<Seq<char>>) -> Seq<char>
    decreases cells.len(),
{
    if cells.len() == 0 {
        Seq::empty()
    } else if cells.len() == 1 {
        cells[0]
    } else {
        cells[0] + seq![' '] + joined(cells.subrange(1, cells.len() as int))
    }
}

pub open spec fn max_int(a: int, b: int) -> int {
    if a >= b {
        a
    } else {
        b
    }
}

/// The width of a column: that of the wider of its two texts.
pub open spec fn column_width(index: int, cost: int) -> int {
    max_int(index_text(index).len() as int, cost_text(cost).len() as int)
}

pub open spec fn index_cells(indices: Seq<int>, costs: Seq<int>) -> Seq<Seq<char>> {
    Seq::new(
        indices.len(),
        |k: int| padded(index_text(indices[k]), column_width(indices[k], costs[k])),
    )
}

pub open spec fn cost_cells(indices: Seq<int>, costs: Seq<int>) -> Seq<Seq<char>> {
    Seq::new(
        indices.len(),
        |k: int| padded(cost_text(costs[k]), column_width(indices[k], costs[k])),
    )
}

/// The plain text of a cost function: the index row, a line break, and the cost
/// row, each column right-aligned to the wider of its two cells.
pub open spec fn write_plain_spec(indices: Seq<int>, costs: Seq<int>) -> Seq<char> {
    joined(index_cells(indices, costs)) + seq!['\n'] + joined(cost_cells(indices, costs))
}

/// The indices strictly increase from the smallest index value on.
pub open spec fn entries_wf(e: Seq<(isize, U64Cost)>) -> bool {
    &&& e.len() > 0
    &&& e[0].0 == isize::MIN
    &&& forall|i: int, j: int| 0 <= i < j < e.len() ==> e[i].0 < e[j].0
}

/// Entry `k` prices `x`: it is the last one whose index is at most `x`.
pub open spec fn entry_prices(e: Seq<(isize, U64Cost)>, k: int, x: int) -> bool {
    &&& 0 <= k < e.len()
    &&& e[k].0 <= x
    &&& (k + 1 == e.len() || x < e[k + 1].0)
}

/// The cost that the entries give to `x`.
pub open spec fn step_value(e: Seq<(isize, U64Cost)>, x: int) -> u64 {
    e[choose|k: int| entry_prices(e, k, x)].1.value
}

/// A step function from indices to costs: each entry gives the cost from its
/// index up to the next entry's index.
#[derive(Debug, Clone, PartialEq, Eq)]
pub struct CostFunction {
    function: Vec<(isize, U64Cost)>,
}


/// Every value read by `parse_row` is in range.
pub proof fn lemma_parse_row_range(s: Seq<char>, p: int, lo: int, hi: int, may_end: bool)
    requires
        lo <= hi,
        parse_row(s, p, lo, hi, may_end) is Ok,
    ensures
        0 <= p <= parse_row(s, p, lo, hi, may_end)->Ok_0.1 <= s.len(),
        forall|j: int|
            0 <= j < parse_row(s, p, lo, hi, may_end)->Ok_0.0.len() ==> lo <= #[trigger] parse_row(
                s,
                p,
                lo,
                hi,
                may_end,
            )->Ok_0.0[j] <= hi,
    decreases s.len() - p,
{
    if p < s.len() && is_newline(s[p]) {
    } else if p == s.len() && may_end {
    } else {
        let (v, e) = parse_number(s, p, lo, hi)->Some_0;
        let q = skip_spaces(s, e);
        lemma_parse_row_range(s, q, lo, hi, may_end);
        let vs = parse_row(s, q, lo, hi, may_end)->Ok_0.0;
        assert(parse_row(s, p, lo, hi, may_end)->Ok_0.0 == seq![v] + vs);
        assert(lo <= v <= hi);
        assert forall|j: int|
            0 <= j < (seq![v] + vs).len() implies lo <= #[trigger] (seq![v] + vs)[j] <= hi by {
            if j > 0 {
                assert((seq![v] + vs)[j] == vs[j - 1]);
            }
        }
    }
}

/// The text of a cell of the index row (`index_row`) or of the cost row.
pub open spec fn text_of(v: int, index_row: bool) -> Seq<char> {
    if index_row {
        index_text(v)
    } else {
        cost_text(v)
    }
}

pub open spec fn row_lo(index_row: bool) -> int {
    if index_row {
        index_min()
    } else {
        0
    }
}

pub open spec fn row_hi(index_row: bool) -> int {
    if index_row {
        index_max()
    } else {
        COST_INFINITY as int
    }
}

pub open spec fn cells_of(vals: Seq<int>, widths: Seq<int>, index_row: bool) -> Seq<Seq<char>> {
    Seq::new(vals.len(), |k: int| padded(text_of(vals[k], index_row), widths[k]))
}

proof fn lemma_skip_spaces_run(s: Seq<char>, a: int, b: int)
    requires
        0 <= a <= b <= s.len(),
        forall|j: int| a <= j < b ==> s[j] == ' ',
        b == s.len() || (s[b] != ' ' && s[b] != '\t'),
    ensures
        skip_spaces(s, a) == b,
    decreases b - a,
{
    if a < b {
        lemma_skip_spaces_run(s, a + 1, b);
    }
}

proof fn lemma_skip_whitespace_run(s: Seq<char>, a: int, b: int)
    requires
        0 <= a <= b <= s.len(),
        forall|j: int| a <= j < b ==> s[j] == ' ' || s[j] == '\n',
        b == s.len() || (s[b] != ' ' && s[b] != '\t' && s[b] != '\n' && s[b] != '\r'),
    ensures
        skip_whitespace(s, a) == b,
    decreases b - a,
{
    if a < b {
        lemma_skip_whitespace_run(s, a + 1, b);
    }
}

proof fn lemma_digits_end_run(s: Seq<char>, a: int, b: int)
    requires
        0 <= a <= b <= s.len(),
        forall|j: int| a <= j < b ==> is_digit(s[j]),
        b == s.len() || s[b] == ' ' || s[b] == '\n',
    ensures
        digits_end(s, a) == b,
    decreases b - a,
{
    if a < b {
        lemma_digits_end_run(s, a + 1, b);
    }
}

/// A cell text is not empty and does not start with whitespace.
proof fn lemma_text_shape(v: int, index_row: bool)
    requires
        row_lo(index_row) <= v <= row_hi(index_row),
    ensures
        text_of(v, index_row).len() > 0,
        text_of(v, index_row)[0] != ' ' && text_of(v, index_row)[0] != '\t',
        text_of(v, index_row)[0] != '\n' && text_of(v, index_row)[0] != '\r',
{
    if v >= 0 {
        lemma_decimal(v as nat);
    } else {
        lemma_decimal((-v) as nat);
    }
}

/// The text of a value, followed by a space, a line break or the end, reads
/// back as that value.
proof fn lemma_parse_text(s: Seq<char>, a: int, v: int, index_row: bool)
    requires
        row_lo(index_row) <= v <= row_hi(index_row),
        0 <= a,
        a + text_of(v, index_row).len() <= s.len(),
        s.subrange(a, a + text_of(v, index_row).len()) == text_of(v, index_row),
        a + text_of(v, index_row).len() == s.len() || s[a + text_of(v, index_row).len()] == ' '
            || s[a + text_of(v, index_row).len()] == '\n',
    ensures
        parse_number(s, a, row_lo(index_row), row_hi(index_row)) == Some(
            (v, a + text_of(v, index_row).len()),
        ),
{
    let t = text_of(v, index_row);
    let b = a + t.len();
    assert forall|j: int| 0 <= j < t.len() implies s[a + j] == t[j] by {
        assert(s.subrange(a, b)[j] == s[a + j]);
    }
    assert(isize::MIN < 0);
    if v == row_hi(index_row) {
        assert(s[a] == 'i' && s[a + 1] == 'n' && s[a + 2] == 'f');
    } else if index_row && v == index_min() {
        assert(s[a] == '-' && s[a + 1] == 'i' && s[a + 2] == 'n' && s[a + 3] == 'f');
    } else if v >= 0 {
        let d = decimal(v as nat);
        lemma_decimal(v as nat);
        assert(t == d);
        assert(s[a] == d[0]);
        assert forall|j: int| a <= j < b implies is_digit(s[j]) by {
            assert(s[j] == t[j - a]);
            assert(is_digit(d[j - a]));
        }
        lemma_digits_end_run(s, a, b);
        assert(s.subrange(a, b) =~= d);
        assert(is_digit(s.subrange(a, b)[0]));
    } else {
        let d = decimal((-v) as nat);
        lemma_decimal((-v) as nat);
        assert(t == seq!['-'] + d);
        assert(t[0] == '-');
        assert(s[a] == '-');
        assert forall|j: int| a + 1 <= j < b implies is_digit(s[j]) by {
            assert(s[j] == t[j - a]);
            assert(t[j - a] == d[j - a - 1]);
            assert(is_digit(d[j - a - 1]));
        }
        assert(is_digit(s[a + 1])) by {
            assert(s[a + 1] == t[1]);
            assert(t[1] == d[0]);
        }
        lemma_digits_end_run(s, a + 1, b);
        assert forall|j: int| 0 <= j < d.len() implies s.subrange(a + 1, b)[j] == d[j] by {
            assert(s[a + 1 + j] == t[1 + j]);
        }
        assert(s.subrange(a + 1, b) =~= d);
        assert(is_digit(s.subrange(a + 1, b)[0]));
    }
}

/// A row of cells, followed by a line break (or the end, if `may_end`), reads
/// back as its values.
proof fn lemma_parse_cells(
    s: Seq<char>,
    a: int,
    vals: Seq<int>,
    widths: Seq<int>,
    index_row: bool,
    may_end: bool,
)
    requires
        vals.len() == widths.len(),
        vals.len() >= 1,
        forall|k: int|
            0 <= k < vals.len() ==> row_lo(index_row) <= #[trigger] vals[k] <= row_hi(index_row),
        forall|k: int|
            0 <= k < vals.len() ==> #[trigger] widths[k] >= text_of(vals[k], index_row).len(),
        0 <= a,
        a + joined(cells_of(vals, widths, index_row)).len() <= s.len(),
        s.subrange(a, a + joined(cells_of(vals, widths, index_row)).len()) == joined(
            cells_of(vals, widths, index_row),
        ),
        ({
            let e = a + joined(cells_of(vals, widths, index_row)).len();
            (e == s.len() && may_end) || (e < s.len() && s[e] == '\n')
        }),
    ensures
        parse_row(s, skip_spaces(s, a), row_lo(index_row), row_hi(index_row), may_end) == Ok::<
            (Seq<int>, int),
            int,
        >((vals, a + joined(cells_of(vals, widths, index_row)).len())),
    decreases vals.len(),
{
    let cells = cells_of(vals, widths, index_row);
    let r = joined(cells);
    let t0 = text_of(vals[0], index_row);
    let c0 = cells[0];
    let w0 = widths[0];
    lemma_text_shape(vals[0], index_row);
    let b = a + (w0 - t0.len());
    let e = a + w0;
    assert(c0 == spaces(w0 - t0.len()) + t0);
    assert(c0.len() == w0);
    // The cell comes first in the row.
    assert(r.subrange(0, w0) == c0) by {
        if cells.len() == 1 {
            assert(r == c0);
            assert(r.subrange(0, w0) =~= c0);
        } else {
            assert(r.subrange(0, w0) =~= c0);
        }
    }
    assert forall|j: int| 0 <= j < w0 implies s[a + j] == c0[j] by {
        assert(s.subrange(a, a + r.len())[j] == s[a + j]);
        assert(r[j] == r.subrange(0, w0)[j]);
    }
    assert forall|j: int| a <= j < b implies s[j] == ' ' by {
        assert(s[j] == c0[j - a]);
    }
    assert(s[b] == t0[0]) by {
        assert(s[b] == c0[b - a]);
    }
    lemma_skip_spaces_run(s, a, b);
    assert(s.subrange(b, e) =~= t0) by {
        assert forall|j: int| 0 <= j < t0.len() implies s.subrange(b, e)[j] == t0[j] by {
            assert(s[b + j] == c0[b - a + j]);
        }
    }
    if cells.len() == 1 {
        assert(r == c0);
        lemma_parse_text(s, b, vals[0], index_row);
        if e < s.len() {
            assert(skip_spaces(s, e) == e);
        }
        assert(parse_row(s, e, row_lo(index_row), row_hi(index_row), may_end) == Ok::<
            (Seq<int>, int),
            int,
        >((Seq::<int>::empty(), e)));
        assert(seq![vals[0]] + Seq::<int>::empty() =~= vals);
        assert(parse_row(s, b, row_lo(index_row), row_hi(index_row), may_end) == Ok::<
            (Seq<int>, int),
            int,
        >((seq![vals[0]] + Seq::<int>::empty(), e)));
    } else {
        let rest_cells = cells.subrange(1, cells.len() as int);
        let rv = vals.subrange(1, vals.len() as int);
        let rw = widths.subrange(1, widths.len() as int);
        assert(cells_of(rv, rw, index_row) =~= rest_cells);
        let r2 = joined(rest_cells);
        assert(r == c0 + seq![' '] + r2);
        assert(s[e] == ' ') by {
            assert(s[e] == s.subrange(a, a + r.len())[w0]);
            assert(r[w0] == ' ');
        }
        lemma_parse_text(s, b, vals[0], index_row);
        assert(s.subrange(e + 1, e + 1 + r2.len()) =~= r2) by {
            assert forall|j: int| 0 <= j < r2.len() implies s.subrange(e + 1, e + 1 + r2.len())[j]
                == r2[j] by {
                assert(s[e + 1 + j] == s.subrange(a, a + r.len())[w0 + 1 + j]);
                assert(r[w0 + 1 + j] == r2[j]);
            }
        }
        lemma_parse_cells(s, e + 1, rv, rw, index_row, may_end);
        assert(skip_spaces(s, e) == skip_spaces(s, e + 1));
        lemma_skip_spaces(s, e + 1);
        assert(seq![vals[0]] + rv =~= vals);
        assert(a + r.len() == e + 1 + r2.len());
        assert(parse_row(s, b, row_lo(index_row), row_hi(index_row), may_end) == Ok::<
            (Seq<int>, int),
            int,
        >((seq![vals[0]] + rv, e + 1 + r2.len())));
    }
}

/// Reading the plain text of a well-formed cost function gives back its
/// indices and costs, and reading stops at the end of the text.
pub proof fn lemma_round_trip(f: CostFunction)
    requires
        f.wf(),
    ensures
        parse_plain_spec(write_plain_spec(f.indices(), f.costs())) == Ok::<
            (Seq<int>, Seq<int>, int),
            CostFunctionParseError,
        >((f.indices(), f.costs(), write_plain_spec(f.indices(), f.costs()).len() as int)),
{
    let indices = f.indices();
    let costs = f.costs();
    let n = indices.len();
    let widths = Seq::new(n, |k: int| column_width(indices[k], costs[k]));
    assert(index_cells(indices, costs) =~= cells_of(indices, widths, true));
    assert(cost_cells(indices, costs) =~= cells_of(costs, widths, false));
    let r1 = joined(index_cells(indices, costs));
    let r2 = joined(cost_cells(indices, costs));
    let l1 = r1.len() as int;
    let s = write_plain_spec(indices, costs);
    assert(s == r1 + seq!['\n'] + r2);
    assert forall|k: int| 0 <= k < n implies index_min() <= #[trigger] indices[k] <= index_max() by {
        assert(indices[k] == f.entries()[k].0 as int);
    }
    assert forall|k: int| 0 <= k < n implies 0 <= #[trigger] costs[k] <= COST_INFINITY by {
        assert(costs[k] == f.entries()[k].1.value as int);
    }
    assert(s.subrange(0, r1.len() as int) =~= r1);
    assert(s.subrange(l1 + 1, l1 + 1 + r2.len()) =~= r2);
    lemma_parse_cells(s, 0, indices, widths, true, false);
    lemma_parse_cells(s, l1 + 1, costs, widths, false, true);
    // Whitespace before each row is its padding.
    lemma_text_shape(indices[0], true);
    lemma_text_shape(costs[0], false);
    let b0 = widths[0] - index_text(indices[0]).len();
    let c0 = cells_of(indices, widths, true)[0];
    assert(r1.subrange(0, widths[0]) =~= c0);
    assert forall|j: int| 0 <= j < b0 implies s[j] == ' ' by {
        assert(s[j] == r1[j]);
        assert(r1[j] == r1.subrange(0, widths[0])[j]);
    }
    assert(s[b0] == index_text(indices[0])[0]) by {
        assert(s[b0] == r1[b0]);
        assert(r1[b0] == r1.subrange(0, widths[0])[b0]);
    }
    lemma_skip_spaces_run(s, 0, b0);
    lemma_skip_whitespace_run(s, 0, b0);
    let a2 = l1 + 1;
    let b2 = a2 + widths[0] - cost_text(costs[0]).len();
    let d0 = cells_of(costs, widths, false)[0];
    assert(r2.subrange(0, widths[0]) =~= d0);
    assert forall|j: int| r1.len() <= j < b2 implies s[j] == ' ' || s[j] == '\n' by {
        if j > r1.len() {
            assert(s[j] == r2[j - a2]);
            assert(r2[j - a2] == r2.subrange(0, widths[0])[j - a2]);
        }
    }
    assert(s[b2] == cost_text(costs[0])[0]) by {
        assert(s[b2] == r2[b2 - a2]);
        assert(r2[b2 - a2] == r2.subrange(0, widths[0])[b2 - a2]);
    }
    lemma_skip_whitespace_run(s, r1.len() as int, b2);
    lemma_skip_spaces_run(s, a2, b2);
    assert(indices[0] == index_min()) by {
        assert(indices[0] == f.entries()[0].0 as int);
    }
    assert(strictly_increasing(indices)) by {
        assert forall|i: int, j: int| 0 <= i < j < n implies indices[i] < indices[j] by {
            assert(indices[i] == f.entries()[i].0 as int);
            assert(indices[j] == f.entries()[j].0 as int);
        }
    }
}

/// Reading back the plain text of a well-formed cost function gives a cost
/// function equal to it, and nothing of the text is left over.
pub proof fn lemma_parse_of_write(f: CostFunction, g: CostFunction)
    requires
        f.wf(),
        parse_plain_spec(write_plain_spec(f.indices(), f.costs())) matches Ok(
            (indices, costs, end),
        ) && g.indices() == indices && g.costs() == costs,
    ensures
        g.entries() == f.entries(),
        parse_plain_spec(write_plain_spec(f.indices(), f.costs()))->Ok_0.2 == write_plain_spec(
            f.indices(),
            f.costs(),
        ).len(),
{
    lemma_round_trip(f);
    lemma_same_entries(f, g);
}

/// Two cost functions with the same indices and costs are equal.
proof fn lemma_same_entries(f: CostFunction, g: CostFunction)
    requires
        f.indices() == g.indices(),
        f.costs() == g.costs(),
    ensures
        f.entries() == g.entries(),
{
    assert(f.entries().len() == f.indices().len());
    assert(g.entries().len() == g.indices().len());
    assert forall|k: int| 0 <= k < f.entries().len() implies f.entries()[k] == g.entries()[k] by {
        assert(f.indices()[k] == f.entries()[k].0 as int);
        assert(g.indices()[k] == g.entries()[k].0 as int);
        assert(f.costs()[k] == f.entries()[k].1.value as int);
        assert(g.costs()[k] == g.entries()[k].1.value as int);
    }
    assert(f.entries() =~= g.entries());
}

pub proof fn lemma_joined_push(cells: Seq<Seq<char>>, k: int)
    requires
        0 <= k < cells.len(),
    ensures
        joined(cells.subrange(0, k + 1)) == if k == 0 {
            cells[0]
        } else {
            joined(cells.subrange(0, k)) + seq![' '] + cells[k]
        },
    decreases k,
{
    if k >= 1 {
        let c = cells.subrange(0, k + 1);
        let d = cells.subrange(1, cells.len() as int);
        lemma_joined_push(d, k - 1);
        assert(c.subrange(1, c.len() as int) =~= d.subrange(0, k));
        assert(c[0] == cells[0]);
        if k == 1 {
            assert(d.subrange(0, 1)[0] == cells[1]);
            assert(cells.subrange(0, 1)[0] == cells[0]);
        } else {
            let b = cells.subrange(0, k);
            assert(b.subrange(1, b.len() as int) =~= d.subrange(0, k - 1));
            assert(b[0] == cells[0]);
            assert(cells[0] + seq![' '] + (joined(d.subrange(0, k - 1)) + seq![' '] + cells[k])
                =~= cells[0] + seq![' '] + joined(d.subrange(0, k - 1)) + seq![' '] + cells[k]);
        }
    }
}

/// Appends the text of an index.
fn push_index_text(out: &mut Vec<char>, i: isize)
    ensures
        final(out)@ == old(out)@ + index_text(i as int),
{
    if i == isize::MAX {
        out.push('i');
        out.push('n');
        out.push('f');
        assert(final(out)@ =~= old(out)@ + index_text(i as int)) by {}
    } else if i == isize::MIN {
        out.push('-');
        out.push('i');
        out.push('n');
        out.push('f');
        assert(final(out)@ =~= old(out)@ + index_text(i as int)) by {}
    } else if i < 0 {
        out.push('-');
        let magnitude = (0 - (i as i128)) as u64;
        push_decimal(out, magnitude);
        assert(final(out)@ =~= old(out)@ + index_text(i as int)) by {}
    } else {
        push_decimal(out, i as u64);
    }
}

/// Appends the text of a cost.
fn push_cost_text(out: &mut Vec<char>, c: u64)
    ensures
        final(out)@ == old(out)@ + cost_text(c as int),
{
    if c == COST_INFINITY {
        out.push('i');
        out.push('n');
        out.push('f');
        assert(final(out)@ =~= old(out)@ + cost_text(c as int)) by {}
    } else {
        push_decimal(out, c);
    }
}

/// Appends `n` spaces.
fn push_spaces(out: &mut Vec<char>, n: usize)
    ensures
        final(out)@ == old(out)@ + spaces(n as int),
{
    let mut i: usize = 0;
    while i < n
        invariant
            i <= n,
            out@ == old(out)@ + spaces(i as int),
        decreases n - i,
    {
        out.push(' ');
        i = i + 1;
        proof {
            assert(out@ =~= old(out)@ + spaces(i as int));
        }
    }
}

/// Appends `t` to `out`.
fn push_all(out: &mut Vec<char>, t: &Vec<char>)
    ensures
        final(out)@ == old(out)@ + t@,
{
    let mut i: usize = 0;
    while i < t.len()
        invariant
            i <= t@.len(),
            out@ == old(out)@ + t@.subrange(0, i as int),
        decreases t@.len() - i,
    {
        out.push(t[i]);
        i = i + 1;
        proof {
            assert(out@ =~= old(out)@ + t@.subrange(0, i as int));
        }
    }
    proof {
        assert(t@.subrange(0, i as int) =~= t@);
    }
}

/// The string of the characters `v[from..]`.
fn string_from(v: &Vec<char>, from: usize) -> (r: String)
    requires
        from <= v@.len(),
    ensures
        r@ == v@.subrange(from as int, v@.len() as int),
{
    let mut r = String::new();
    let mut i = from;
    while i < v.len()
        invariant
            from <= i <= v@.len(),
            r@ == v@.subrange(from as int, i as int),
        decreases v@.len() - i,
    {
        push_char(&mut r, v[i]);
        i = i + 1;
        proof {
            assert(r@ =~= v@.subrange(from as int, i as int));
        }
    }
    r
}

/// The characters of `s`.
fn chars_of(s: &str) -> (r: Vec<char>)
    ensures
        r@ == s@,
{
    let n = s.unicode_len();
    let mut r: Vec<char> = Vec::new();
    let mut i: usize = 0;
    while i < n
        invariant
            n == s@.len(),
            i <= n,
            r@ == s@.subrange(0, i as int),
        decreases n - i,
    {
        r.push(s.get_char(i));
        i = i + 1;
        proof {
            assert(r@ =~= s@.subrange(0, i as int));
        }
    }
    proof {
        assert(s@.subrange(0, i as int) =~= s@);
    }
    r
}

impl CostFunction {
    /// Reads a cost function from its plain text (see `parse_plain_spec`), and
    /// gives the text that follows it.
    pub fn parse_plain(input: &str) -> (r: Result<(String, CostFunction), CostFunctionParseError>)
        ensures
            match parse_plain_spec(input@) {
                Ok((indices, costs, end)) => r matches Ok((rest, f)) && rest@ == input@.subrange(
                    end,
                    input@.len() as int,
                ) && f.wf() && f.indices() == indices && f.costs() == costs,
                Err(e) => r == Err::<(String, CostFunction), CostFunctionParseError>(e),
            },
    {
        let s = chars_of(input);
        proof {
            lemma_skip_whitespace(s@, 0);
        }
        let start = skip_whitespace_exec(&s, 0);
        let (indices, index_end) = match parse_row_exec(
            &s,
            start,
            isize::MIN as i128,
            isize::MAX as i128,
            false,
        ) {
            Err(f) => {
                return Err(CostFunctionParseError::MalformedRow { position: f });
            },
            Ok(row) => row,
        };
        proof {
            lemma_parse_row_range(s@, start as int, index_min(), index_max(), false);
            lemma_skip_whitespace(s@, index_end as int);
        }
        let cost_start = skip_whitespace_exec(&s, index_end);
        let (costs, end) = match parse_row_exec(&s, cost_start, 0, COST_INFINITY as i128, true) {
            Err(f) => {
                return Err(CostFunctionParseError::MalformedRow { position: f });
            },
            Ok(row) => row,
        };
        proof {
            lemma_parse_row_range(s@, cost_start as int, 0, COST_INFINITY as int, true);
        }
        let ghost iv = indices@.map_values(|x: i128| x as int);
        let ghost cv = costs@.map_values(|x: i128| x as int);
        if indices.len() != costs.len() {
            return Err(CostFunctionParseError::LengthMismatch);
        }
        if indices.len() == 0 || indices[0] != isize::MIN as i128 {
            return Err(CostFunctionParseError::FirstIndexNotMinimum);
        }
        let mut function: Vec<(isize, U64Cost)> = Vec::new();
        let mut k: usize = 0;
        proof {
            assert(s@ == input@);
        }
        while k < indices.len()
            invariant
                end <= s@.len(),
                s@ == input@,
                parse_plain_spec(input@) == if strictly_increasing(iv) {
                    Ok((iv, cv, end as int))
                } else {
                    Err::<(Seq<int>, Seq<int>, int), CostFunctionParseError>(
                        CostFunctionParseError::IndicesNotIncreasing,
                    )
                },
                iv == indices@.map_values(|x: i128| x as int),
                cv == costs@.map_values(|x: i128| x as int),
                indices@.len() == costs@.len(),
                indices@.len() > 0,
                iv[0] == index_min(),
                forall|j: int| 0 <= j < iv.len() ==> index_min() <= #[trigger] iv[j] <= index_max(),
                forall|j: int| 0 <= j < cv.len() ==> 0 <= #[trigger] cv[j] <= COST_INFINITY,
                k <= indices@.len(),
                function@.len() == k,
                forall|j: int| 0 <= j < k ==> (#[trigger] function@[j]).0 as int == iv[j]
                    && function@[j].1.value as int == cv[j],
                forall|a: int, b: int| 0 <= a < b < k ==> iv[a] < iv[b],
            decreases indices@.len() - k,
        {
            if k > 0 && indices[k - 1] >= indices[k] {
                proof {
                    assert(iv[k - 1] >= iv[k as int]);
                    assert(!strictly_increasing(iv));
                }
                return Err(CostFunctionParseError::IndicesNotIncreasing);
            }
            proof {
                if k > 0 {
                    assert(iv[k - 1] < iv[k as int]);
                    assert forall|a: int, b: int| 0 <= a < b < k + 1 implies iv[a] < iv[b] by {
                        if b == k && a < k - 1 {
                            assert(iv[a] < iv[k - 1]);
                        }
                    }
                }
            }
            proof {
                assert(index_min() <= iv[k as int] <= index_max());
                assert(0 <= cv[k as int] <= COST_INFINITY);
            }
            function.push((indices[k] as isize, U64Cost { value: costs[k] as u64 }));
            k = k + 1;
        }
        let f = CostFunction { function };
        proof {
            assert(f.indices() =~= iv);
            assert(f.costs() =~= cv);
            assert(strictly_increasing(iv));
        }
        Ok((string_from(&s, end), f))
    }

    /// The plain text of this cost function (see `write_plain_spec`).
    pub fn write_plain(&self) -> (r: String)
        ensures
            r@ == write_plain_spec(self.indices(), self.costs()),
    {
        let ghost indices = self.indices();
        let ghost costs = self.costs();
        let ghost ic = index_cells(indices, costs);
        let ghost cc = cost_cells(indices, costs);
        let mut row1: Vec<char> = Vec::new();
        let mut row2: Vec<char> = Vec::new();
        let mut k: usize = 0;
        proof {
            assert(ic.subrange(0, 0) =~= Seq::<Seq<char>>::empty());
            assert(cc.subrange(0, 0) =~= Seq::<Seq<char>>::empty());
        }
        while k < self.function.len()
            invariant
                indices == self.indices(),
                costs == self.costs(),
                ic == index_cells(indices, costs),
                cc == cost_cells(indices, costs),
                k <= self.entries().len(),
                row1@ == joined(ic.subrange(0, k as int)),
                row2@ == joined(cc.subrange(0, k as int)),
            decreases self.entries().len() - k,
        {
            let (index, cost) = self.function[k];
            let mut it: Vec<char> = Vec::new();
            push_index_text(&mut it, index);
            let mut ct: Vec<char> = Vec::new();
            push_cost_text(&mut ct, cost.value);
            let width = if it.len() >= ct.len() {
                it.len()
            } else {
                ct.len()
            };
            let ghost old1 = row1@;
            let ghost old2 = row2@;
            if k > 0 {
                row1.push(' ');
                row2.push(' ');
            }
            push_spaces(&mut row1, width - it.len());
            push_all(&mut row1, &it);
            push_spaces(&mut row2, width - ct.len());
            push_all(&mut row2, &ct);
            proof {
                lemma_joined_push(ic, k as int);
                lemma_joined_push(cc, k as int);
                assert(indices[k as int] == index as int);
                assert(costs[k as int] == cost.value as int);
                assert(ic[k as int] == padded(it@, width as int));
                assert(cc[k as int] == padded(ct@, width as int));
                if k > 0 {
                    assert(row1@ =~= old1 + seq![' '] + ic[k as int]);
                    assert(row2@ =~= old2 + seq![' '] + cc[k as int]);
                } else {
                    assert(row1@ =~= ic[0]);
                    assert(row2@ =~= cc[0]);
                }
            }
            k = k + 1;
        }
        proof {
            assert(ic.subrange(0, k as int) =~= ic);
            assert(cc.subrange(0, k as int) =~= cc);
        }
        let mut all = row1;
        all.push('\n');
        push_all(&mut all, &row2);
        string_from(&all, 0)
    }
}

impl CostFunction {
    pub closed spec fn entries(&self) -> Seq<(isize, U64Cost)> {
        self.function@
    }

    pub open spec fn indices(&self) -> Seq<int> {
        self.entries().map_values(|e: (isize, U64Cost)| e.0 as int)
    }

    pub open spec fn costs(&self) -> Seq<int> {
        self.entries().map_values(|e: (isize, U64Cost)| e.1.value as int)
    }

    pub open spec fn wf(&self) -> bool {
        entries_wf(self.entries())
    }

    /// The entry that prices `x`: the last one whose index is at most `x`.
    pub open spec fn prices(&self, k: int, x: int) -> bool {
        entry_prices(self.entries(), k, x)
    }

    /// The cost of `x`: that of the entry that prices it.
    pub open spec fn value_at(&self, x: int) -> u64 {
        step_value(self.entries(), x)
    }

    /// At most one entry prices a value.
    pub proof fn lemma_prices_unique(&self, k1: int, k2: int, x: int)
        requires
            self.wf(),
            self.prices(k1, x),
            self.prices(k2, x),
        ensures
            k1 == k2,
    {
        if k1 < k2 {
            assert(self.entries()[k1 + 1].0 <= self.entries()[k2].0);
        } else if k2 < k1 {
            assert(self.entries()[k2 + 1].0 <= self.entries()[k1].0);
        }
    }

    /// A cost function from its entries, if they are well-formed.
    pub fn new(function: Vec<(isize, U64Cost)>) -> (r: Option<CostFunction>)
        ensures
            r is Some <==> entries_wf(function@),
            r matches Some(f) ==> f.entries() == function@,
    {
        if function.len() == 0 || function[0].0 != isize::MIN {
            return None;
        }
        let mut i: usize = 1;
        while i < function.len()
            invariant
                1 <= i <= function@.len(),
                function@[0].0 == isize::MIN,
                forall|a: int, b: int| 0 <= a < b < i ==> function@[a].0 < function@[b].0,
            decreases function@.len() - i,
        {
            if function[i - 1].0 >= function[i].0 {
                return None;
            }
            i = i + 1;
        }
        Some(CostFunction { function })
    }

    /// The entries, in order of their indices.
    pub fn function(&self) -> (r: &Vec<(isize, U64Cost)>)
        ensures
            r@ == self.entries(),
    {
        &self.function
    }

    /// The cost of `x`: that of the last entry whose index is at most `x`.
    pub fn evaluate(&self, x: isize) -> (r: U64Cost)
        requires
            self.wf(),
        ensures
            exists|k: int| self.prices(k, x as int) && r == self.entries()[k].1,
            r.value == self.value_at(x as int),
    {
        let mut k: usize = 0;
        while k < self.function.len() - 1 && self.function[k + 1].0 <= x
            invariant
                self.wf(),
                k < self.entries().len(),
                self.entries()[k as int].0 <= x,
            decreases self.entries().len() - k,
        {
            k = k + 1;
        }
        let r = self.function[k].1;
        assert(self.prices(k as int, x as int));
        proof {
            let c = choose|c: int| entry_prices(self.entries(), c, x as int);
            self.lemma_prices_unique(k as int, c, x as int);
        }
        r
    }
}

} // verus!
