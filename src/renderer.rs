//! Several sequences laid out against each other, one row each.
use vstd::prelude::*;

use crate::strings::push_char;

use crate::alignment_type::AlignmentType;
use crate::character::{Character, CharacterKind, NoCharacterData};
use crate::sequence::{
    alignment_column, blanks, count_chars, gaps, multi_insert_spec, sorted_positions,
    MultipairAlignmentSequence,
};
use crate::walk::{
    expand_alignment, lemma_expand_prefix, lemma_walk_prefix, render_step, render_walk,
    skip_kind, walk_wf, RenderWalk,
};

verus! {

/// The rows after a layout that ended at `w`: the reference row (at `ri`)
/// gets the gap columns that the layout opened, the query row (at `qi`) is
/// padded with blanks to the reference row's former length, and every other row
/// shows blanks in the new gap columns.
pub open spec fn laid_out<D>(
    old_rows: Seq<Seq<Character<D>>>,
    new_rows: Seq<Seq<Character<D>>>,
    ri: int,
    qi: int,
    w: RenderWalk<D>,
    blank: D,
    gap: D,
) -> bool {
    &&& new_rows.len() == old_rows.len()
    &&& new_rows[ri] == multi_insert_spec(w.reference, w.gaps, gaps(w.gaps.len(), gap))
    &&& new_rows[qi] == w.query + blanks(
        if w.reference.len() > w.query.len() {
            (w.reference.len() - w.query.len()) as nat
        } else {
            0
        },
        blank,
    )
    &&& forall|j: int|
        0 <= j < old_rows.len() && j != ri && j != qi ==> new_rows[j] == multi_insert_spec(
            old_rows[j],
            w.gaps,
            blanks(w.gaps.len(), blank),
        )
}

/// The text of a rendered row.
pub open spec fn row_text<D>(s: Seq<Character<D>>) -> Seq<char> {
    s.map_values(|c: Character<D>| c.kind.spec_as_char())
}

/// `n` spaces.
pub open spec fn spaces(n: nat) -> Seq<char> {
    Seq::new(n, |i: int| ' ')
}

/// The length of the longest of `names`.
pub open spec fn max_name_len(names: Seq<Seq<char>>) -> nat
    decreases names.len(),
{
    if names.len() == 0 {
        0
    } else {
        let m = max_name_len(names.drop_last());
        if names.last().len() > m {
            names.last().len()
        } else {
            m
        }
    }
}

/// Appends `t` to `s`.
fn push_chars(s: &mut String, t: &str)
    ensures
        final(s)@ == old(s)@ + t@,
{
    let n = t.unicode_len();
    let mut i: usize = 0;
    while i < n
        invariant
            n == t@.len(),
            i <= n,
            s@ == old(s)@ + t@.subrange(0, i as int),
        decreases n - i,
    {
        push_char(s, t.get_char(i));
        i = i + 1;
        proof {
            assert(s@ =~= old(s)@ + t@.subrange(0, i as int));
        }
    }
    proof {
        assert(t@.subrange(0, i as int) =~= t@);
    }
}

/// Appends the text of `row` to `s`.
fn push_row_text<D: Copy>(s: &mut String, row: &Vec<Character<D>>)
    ensures
        final(s)@ == old(s)@ + row_text(row@),
{
    let mut i: usize = 0;
    while i < row.len()
        invariant
            i <= row@.len(),
            s@ == old(s)@ + row_text(row@.subrange(0, i as int)),
        decreases row@.len() - i,
    {
        push_char(s, row[i].as_char());
        i = i + 1;
        proof {
            assert(s@ =~= old(s)@ + row_text(row@.subrange(0, i as int)));
        }
    }
    proof {
        assert(row@.subrange(0, i as int) =~= row@);
    }
}

/// The row a query is laid out on: its columns up to `column`.
pub open spec fn walk_start<D>(
    column: int,
    reference: Seq<Character<D>>,
    query: Seq<Character<D>>,
) -> RenderWalk<D> {
    RenderWalk { index: column, ext_pos: 0, reference, query, gaps: Seq::empty() }
}

/// The rows of several sequences aligned against each other, each under a
/// unique name.
#[derive(Debug)]
pub struct MultipairAlignmentRenderer<CharacterData> {
    names: Vec<String>,
    sequences: Vec<MultipairAlignmentSequence<CharacterData>>,
}

impl<CharacterData: Copy> MultipairAlignmentRenderer<CharacterData> {
    /// The names, in the order in which they were added.
    pub closed spec fn names_view(&self) -> Seq<Seq<char>> {
        self.names@.map_values(|s: String| s@)
    }

    /// The rows, in the order of `names_view`.
    pub closed spec fn rows(&self) -> Seq<Seq<Character<CharacterData>>> {
        self.sequences@.map_values(|s: MultipairAlignmentSequence<CharacterData>| s@)
    }

    pub open spec fn wf(&self) -> bool {
        &&& self.names_view().len() == self.rows().len()
        &&& forall|i: int, j: int|
            0 <= i < j < self.names_view().len() ==> self.names_view()[i]
                != self.names_view()[j]
    }

    pub open spec fn has(&self, name: Seq<char>) -> bool {
        exists|i: int| 0 <= i < self.names_view().len() && self.names_view()[i] == name
    }

    /// Where the row named `name` stands.
    pub open spec fn position(&self, name: Seq<char>) -> int {
        choose|i: int| 0 <= i < self.names_view().len() && self.names_view()[i] == name
    }

    pub open spec fn row(&self, name: Seq<char>) -> Seq<Character<CharacterData>> {
        self.rows()[self.position(name)]
    }

    fn find(&self, name: &String) -> (r: Option<usize>)
        requires
            self.wf(),
        ensures
            r is None <==> !self.has(name@),
            r matches Some(i) ==> i < self.names_view().len() && self.names_view()[i as int]
                == name@ && i == self.position(name@),
    {
        let mut i: usize = 0;
        while i < self.names.len()
            invariant
                self.wf(),
                i <= self.names@.len(),
                self.names_view().len() == self.names@.len(),
                forall|j: int| 0 <= j < i ==> self.names_view()[j] != name@,
            decreases self.names@.len() - i,
        {
            if self.names[i] == *name {
                proof {
                    assert(self.names_view()[i as int] == name@);
                    let p = self.position(name@);
                    assert(0 <= p < self.names_view().len() && self.names_view()[p] == name@);
                }
                return Some(i);
            }
            i = i + 1;
        }
        None
    }

    pub fn new(root_sequence_name: String, root_sequence: Vec<Character<CharacterData>>) -> (r:
        Self)
        ensures
            r.wf(),
            r.names_view() == seq![root_sequence_name@],
            r.rows() == seq![root_sequence@],
    {
        let mut names: Vec<String> = Vec::new();
        names.push(root_sequence_name);
        let mut sequences: Vec<MultipairAlignmentSequence<CharacterData>> = Vec::new();
        sequences.push(MultipairAlignmentSequence::from_vec(root_sequence));
        let r = MultipairAlignmentRenderer { names, sequences };
        proof {
            assert(r.names_view() =~= seq![root_sequence_name@]);
            assert(r.rows() =~= seq![root_sequence@]);
        }
        r
    }

    pub fn new_empty() -> (r: Self)
        ensures
            r.wf(),
            r.names_view() == Seq::<Seq<char>>::empty(),
            r.rows() == Seq::<Seq<Character<CharacterData>>>::empty(),
    {
        let r = MultipairAlignmentRenderer { names: Vec::new(), sequences: Vec::new() };
        proof {
            assert(r.names_view() =~= Seq::<Seq<char>>::empty());
            assert(r.rows() =~= Seq::<Seq<Character<CharacterData>>>::empty());
        }
        r
    }

    pub fn sequence(&self, sequence_name: &String) -> (r: &MultipairAlignmentSequence<
        CharacterData,
    >)
        requires
            self.wf(),
            self.has(sequence_name@),
        ensures
            r@ == self.row(sequence_name@),
    {
        let i = self.find(sequence_name).unwrap();
        &self.sequences[i]
    }

    /// Takes the row at `i` out, leaving an empty row in its place.
    fn take_row(&mut self, i: usize) -> (r: MultipairAlignmentSequence<CharacterData>)
        requires
            i < old(self).rows().len(),
            old(self).names_view().len() == old(self).rows().len(),
        ensures
            r@ == old(self).rows()[i as int],
            final(self).names_view() == old(self).names_view(),
            final(self).rows() == old(self).rows().update(
                i as int,
                Seq::<Character<CharacterData>>::empty(),
            ),
    {
        let mut r = MultipairAlignmentSequence::new();
        self.sequences.set_and_swap(i, &mut r);
        proof {
            assert(self.rows() =~= old(self).rows().update(
                i as int,
                Seq::<Character<CharacterData>>::empty(),
            ));
        }
        r
    }

    /// Puts `row` at `i`.
    fn put_row(&mut self, i: usize, row: MultipairAlignmentSequence<CharacterData>)
        requires
            i < old(self).rows().len(),
        ensures
            final(self).names_view() == old(self).names_view(),
            final(self).rows() == old(self).rows().update(i as int, row@),
    {
        self.sequences.set(i, row);
        proof {
            assert(self.rows() =~= old(self).rows().update(i as int, row@));
        }
    }

    /// Appends characters to the end of a row. Gaps and blanks already at its end
    /// stay; every other row is padded with blanks to the new length.
    pub fn extend_sequence(
        &mut self,
        sequence_name: &String,
        extension: Vec<Character<CharacterData>>,
        blank_data: CharacterData,
    )
        requires
            old(self).wf(),
            old(self).has(sequence_name@),
        ensures
            final(self).wf(),
            final(self).names_view() == old(self).names_view(),
            final(self).rows().len() == old(self).rows().len(),
            ({
                let p = old(self).position(sequence_name@);
                let n = old(self).rows()[p].len() + extension@.len();
                &&& final(self).rows()[p] == old(self).rows()[p] + extension@
                &&& forall|j: int|
                    0 <= j < old(self).rows().len() && j != p ==> final(self).rows()[j] == old(self).rows()[j] + blanks(
                        if n > old(self).rows()[j].len() {
                            (n - old(self).rows()[j].len()) as nat
                        } else {
                            0
                        },
                        blank_data,
                    )
            }),
    {
        let p = self.find(sequence_name).unwrap();
        let mut row = self.take_row(p);
        row.extend_with(extension);
        let new_length = row.len();
        self.put_row(p, row);
        let ghost mid = self.rows();
        let mut j: usize = 0;
        while j < self.sequences.len()
            invariant
                old(self).wf(),
                p < old(self).rows().len(),
                p == old(self).position(sequence_name@),
                new_length == old(self).rows()[p as int].len() + extension@.len(),
                self.names_view() == old(self).names_view(),
                self.rows().len() == old(self).rows().len(),
                j <= self.rows().len(),
                self.rows()[p as int] == old(self).rows()[p as int] + extension@,
                forall|k: int|
                    0 <= k < self.rows().len() && k != p && k >= j ==> self.rows()[k] == old(self).rows()[k],
                forall|k: int|
                    0 <= k < j && k != p ==> self.rows()[k] == old(self).rows()[k] + blanks(
                        if new_length > old(self).rows()[k].len() {
                            (new_length - old(self).rows()[k].len()) as nat
                        } else {
                            0
                        },
                        blank_data,
                    ),
            decreases self.rows().len() - j,
        {
            if j != p {
                let mut other = self.take_row(j);
                other.extend_with_blanks(blank_data, new_length);
                self.put_row(j, other);
            }
            j = j + 1;
        }
    }

    /// Lays `extension` out against the row at `ri` from column `column` on, by
    /// the steps of `alignment`, as the query row at `qi` (which must end at that
    /// column). Gap columns that the layout opens in the reference row show blanks
    /// in every other row.
    fn extend_sequence_with_alignment_internal(
        &mut self,
        ri: usize,
        qi: usize,
        column: usize,
        extension: Vec<Character<CharacterData>>,
        blank_data: CharacterData,
        gap_data: CharacterData,
        alignment: Vec<(usize, AlignmentType)>,
        do_lowercasing: bool,
        invert_alignment: bool,
    )
        requires
            old(self).wf(),
            ri < old(self).rows().len(),
            qi < old(self).rows().len(),
            ri != qi,
            column <= old(self).rows()[ri as int].len(),
            old(self).rows()[qi as int].len() == column,
            render_walk(
                walk_start(column as int, old(self).rows()[ri as int], old(self).rows()[qi as int]),
                expand_alignment(alignment@, invert_alignment),
                extension@,
                blank_data,
                gap_data,
                do_lowercasing,
            ) matches Some(w) && w.ext_pos == extension@.len(),
        ensures
            final(self).wf(),
            final(self).names_view() == old(self).names_view(),
            final(self).rows().len() == old(self).rows().len(),
            laid_out(
                old(self).rows(),
                final(self).rows(),
                ri as int,
                qi as int,
                render_walk(
                    walk_start(
                        column as int,
                        old(self).rows()[ri as int],
                        old(self).rows()[qi as int],
                    ),
                    expand_alignment(alignment@, invert_alignment),
                    extension@,
                    blank_data,
                    gap_data,
                    do_lowercasing,
                )->Some_0,
                blank_data,
                gap_data,
            ),
    {
        let ghost ops = expand_alignment(alignment@, invert_alignment);
        let ghost start = walk_start(
            column as int,
            old(self).rows()[ri as int],
            old(self).rows()[qi as int],
        );
        let ghost reference_len = old(self).rows()[ri as int].len() as int;
        let reference_row = self.take_row(ri);
        let query_row = self.take_row(qi);
        let mut reference = reference_row.sequence;
        let mut query = query_row.sequence;
        let mut gaps_at: Vec<usize> = Vec::new();
        let mut index = column;
        let mut ext_pos: usize = 0;
        let ghost mut pos: int = 0;
        proof {
            assert(ops.subrange(0, 0) =~= Seq::<AlignmentType>::empty());
            assert(gaps_at@ =~= Seq::<usize>::empty());
        }
        let mut i: usize = 0;
        while i < alignment.len()
            invariant
                ops == expand_alignment(alignment@, invert_alignment),
                render_walk(start, ops, extension@, blank_data, gap_data, do_lowercasing) is Some,
                i <= alignment@.len(),
                pos == expand_alignment(alignment@.subrange(0, i as int), invert_alignment).len(),
                pos <= ops.len(),
                render_walk(
                    start,
                    ops.subrange(0, pos),
                    extension@,
                    blank_data,
                    gap_data,
                    do_lowercasing,
                ) == Some(
                    RenderWalk {
                        index: index as int,
                        ext_pos: ext_pos as int,
                        reference: reference@,
                        query: query@,
                        gaps: gaps_at@,
                    },
                ),
                walk_wf(
                    RenderWalk {
                        index: index as int,
                        ext_pos: ext_pos as int,
                        reference: reference@,
                        query: query@,
                        gaps: gaps_at@,
                    },
                    reference_len,
                ),
            decreases alignment@.len() - i,
        {
            let (multiplicity, alignment_type) = alignment[i];
            let step = if invert_alignment {
                alignment_type.inverted()
            } else {
                alignment_type
            };
            proof {
                lemma_expand_prefix(alignment@, i + 1, invert_alignment);
                assert(alignment@.subrange(0, i + 1).drop_last() =~= alignment@.subrange(
                    0,
                    i as int,
                ));
            }
            let mut j: usize = 0;
            while j < multiplicity
                invariant
                    ops == expand_alignment(alignment@, invert_alignment),
                    render_walk(start, ops, extension@, blank_data, gap_data, do_lowercasing) is Some,
                    i < alignment@.len(),
                    alignment@[i as int] == (multiplicity, alignment_type),
                    step == (if invert_alignment {
                        alignment_type.spec_inverted()
                    } else {
                        alignment_type
                    }),
                    j <= multiplicity,
                    pos == expand_alignment(alignment@.subrange(0, i as int), invert_alignment).len()
                        + j,
                    expand_alignment(alignment@.subrange(0, i + 1), invert_alignment).len()
                        == expand_alignment(alignment@.subrange(0, i as int), invert_alignment).len()
                        + multiplicity,
                    expand_alignment(alignment@.subrange(0, i + 1), invert_alignment).len()
                        <= ops.len(),
                    ops.subrange(
                        0,
                        expand_alignment(alignment@.subrange(0, i + 1), invert_alignment).len() as int,
                    ) == expand_alignment(alignment@.subrange(0, i + 1), invert_alignment),
                    expand_alignment(alignment@.subrange(0, i + 1), invert_alignment)
                        == expand_alignment(alignment@.subrange(0, i as int), invert_alignment)
                        + Seq::new(
                        multiplicity as nat,
                        |k: int|
                            if invert_alignment {
                                alignment_type.spec_inverted()
                            } else {
                                alignment_type
                            },
                    ),
                    render_walk(
                        start,
                        ops.subrange(0, pos),
                        extension@,
                        blank_data,
                        gap_data,
                        do_lowercasing,
                    ) == Some(
                        RenderWalk {
                            index: index as int,
                            ext_pos: ext_pos as int,
                            reference: reference@,
                            query: query@,
                            gaps: gaps_at@,
                        },
                    ),
                    walk_wf(
                        RenderWalk {
                            index: index as int,
                            ext_pos: ext_pos as int,
                            reference: reference@,
                            query: query@,
                            gaps: gaps_at@,
                        },
                        reference_len,
                    ),
                decreases multiplicity - j,
            {
                proof {
                    let e = expand_alignment(alignment@.subrange(0, i + 1), invert_alignment);
                    assert(ops[pos] == e[pos]);
                    assert(ops[pos] == step);
                    assert(ops.subrange(0, pos + 1).drop_last() =~= ops.subrange(0, pos));
                    lemma_walk_prefix(
                        start,
                        ops,
                        pos + 1,
                        extension@,
                        blank_data,
                        gap_data,
                        do_lowercasing,
                    );
                }
                let (new_index, new_ext_pos) = place_step(
                    &mut reference,
                    &mut query,
                    &mut gaps_at,
                    index,
                    ext_pos,
                    &extension,
                    step,
                    blank_data,
                    gap_data,
                    do_lowercasing,
                );
                index = new_index;
                ext_pos = new_ext_pos;
                proof {
                    pos = pos + 1;
                }
                j = j + 1;
            }
            i = i + 1;
        }
        proof {
            assert(alignment@.subrange(0, i as int) =~= alignment@);
            assert(ops.subrange(0, pos) =~= ops);
        }
        let mut query_row = MultipairAlignmentSequence::from_vec(query);
        query_row.extend_with_blanks(blank_data, reference.len());
        let mut reference_row = MultipairAlignmentSequence::from_vec(reference);
        reference_row.insert_gaps(gap_data, &gaps_at);
        let ghost w_gaps = gaps_at@;
        let mut j: usize = 0;
        while j < self.sequences.len()
            invariant
                old(self).wf(),
                ri < old(self).rows().len(),
                qi < old(self).rows().len(),
                sorted_positions(gaps_at@),
                w_gaps == gaps_at@,
                self.names_view() == old(self).names_view(),
                self.rows().len() == old(self).rows().len(),
                j <= self.rows().len(),
                forall|k: int|
                    0 <= k < self.rows().len() && k != ri && k != qi && k >= j ==> self.rows()[k]
                        == old(self).rows()[k],
                forall|k: int|
                    0 <= k < j && k != ri && k != qi ==> self.rows()[k] == multi_insert_spec(
                        old(self).rows()[k],
                        w_gaps,
                        blanks(w_gaps.len(), blank_data),
                    ),
            decreases self.rows().len() - j,
        {
            if j != ri && j != qi {
                let mut other = self.take_row(j);
                other.insert_blanks(blank_data, &gaps_at);
                self.put_row(j, other);
            }
            j = j + 1;
        }
        self.put_row(ri, reference_row);
        self.put_row(qi, query_row);
    }

    /// Appends `extension` to the row `query_sequence_name`, aligned by
    /// `alignment` to the row `reference_sequence_name` from its
    /// `reference_sequence_offset`-th character on. Blanks at the end of the query
    /// row from that column on are removed first.
    pub fn extend_sequence_with_alignment(
        &mut self,
        reference_sequence_name: &String,
        query_sequence_name: &String,
        reference_sequence_offset: usize,
        extension: Vec<Character<CharacterData>>,
        blank_data: CharacterData,
        gap_data: CharacterData,
        alignment: Vec<(usize, AlignmentType)>,
        do_lowercasing: bool,
        invert_alignment: bool,
    )
        requires
            old(self).wf(),
            old(self).has(reference_sequence_name@),
            old(self).has(query_sequence_name@),
            reference_sequence_name@ != query_sequence_name@,
            count_chars(old(self).row(reference_sequence_name@)) >= reference_sequence_offset,
            ({
                let k = alignment_column(
                    old(self).row(reference_sequence_name@),
                    reference_sequence_offset as nat,
                );
                let q = old(self).row(query_sequence_name@);
                &&& k <= q.len()
                &&& forall|i: int| k <= i < q.len() ==> q[i].kind is Blank
                &&& render_walk(
                    walk_start(k, old(self).row(reference_sequence_name@), q.subrange(0, k)),
                    expand_alignment(alignment@, invert_alignment),
                    extension@,
                    blank_data,
                    gap_data,
                    do_lowercasing,
                ) matches Some(w) && w.ext_pos == extension@.len()
            }),
        ensures
            final(self).wf(),
            final(self).names_view() == old(self).names_view(),
            ({
                let k = alignment_column(
                    old(self).row(reference_sequence_name@),
                    reference_sequence_offset as nat,
                );
                laid_out(
                    old(self).rows(),
                    final(self).rows(),
                    old(self).position(reference_sequence_name@),
                    old(self).position(query_sequence_name@),
                    render_walk(
                        walk_start(
                            k,
                            old(self).row(reference_sequence_name@),
                            old(self).row(query_sequence_name@).subrange(0, k),
                        ),
                        expand_alignment(alignment@, invert_alignment),
                        extension@,
                        blank_data,
                        gap_data,
                        do_lowercasing,
                    )->Some_0,
                    blank_data,
                    gap_data,
                )
            }),
    {
        let ri = self.find(reference_sequence_name).unwrap();
        let qi = self.find(query_sequence_name).unwrap();
        let column = self.sequences[ri].translate_alignment_offset(
            reference_sequence_offset,
        ).unwrap();
        let mut query = self.take_row(qi);
        query.prune_blanks(column);
        proof {
            assert(query@ =~= old(self).rows()[qi as int].subrange(0, column as int));
        }
        self.put_row(qi, query);
        proof {
            assert(self.rows() =~= old(self).rows().update(
                qi as int,
                old(self).rows()[qi as int].subrange(0, column as int),
            ));
        }
        self.extend_sequence_with_alignment_internal(
            ri,
            qi,
            column,
            extension,
            blank_data,
            gap_data,
            alignment,
            do_lowercasing,
            invert_alignment,
        );
    }

    /// Adds the row `query_sequence_name`, made of blanks up to the column of
    /// the `reference_sequence_offset`-th character of the row
    /// `reference_sequence_name`, then `query_sequence` aligned by `alignment`.
    pub fn add_aligned_sequence(
        &mut self,
        reference_sequence_name: &String,
        reference_sequence_offset: usize,
        query_sequence_name: String,
        query_sequence: Vec<Character<CharacterData>>,
        blank_data: CharacterData,
        gap_data: CharacterData,
        alignment: Vec<(usize, AlignmentType)>,
        do_lowercasing: bool,
        invert_alignment: bool,
    )
        requires
            old(self).wf(),
            old(self).has(reference_sequence_name@),
            !old(self).has(query_sequence_name@),
            count_chars(old(self).row(reference_sequence_name@)) >= reference_sequence_offset,
            ({
                let k = alignment_column(
                    old(self).row(reference_sequence_name@),
                    reference_sequence_offset as nat,
                );
                render_walk(
                    walk_start(
                        k,
                        old(self).row(reference_sequence_name@),
                        blanks(k as nat, blank_data),
                    ),
                    expand_alignment(alignment@, invert_alignment),
                    query_sequence@,
                    blank_data,
                    gap_data,
                    do_lowercasing,
                ) matches Some(w) && w.ext_pos == query_sequence@.len()
            }),
        ensures
            final(self).wf(),
            final(self).names_view() == old(self).names_view().push(query_sequence_name@),
            ({
                let k = alignment_column(
                    old(self).row(reference_sequence_name@),
                    reference_sequence_offset as nat,
                );
                laid_out(
                    old(self).rows().push(blanks(k as nat, blank_data)),
                    final(self).rows(),
                    old(self).position(reference_sequence_name@),
                    old(self).rows().len() as int,
                    render_walk(
                        walk_start(
                            k,
                            old(self).row(reference_sequence_name@),
                            blanks(k as nat, blank_data),
                        ),
                        expand_alignment(alignment@, invert_alignment),
                        query_sequence@,
                        blank_data,
                        gap_data,
                        do_lowercasing,
                    )->Some_0,
                    blank_data,
                    gap_data,
                )
            }),
    {
        let ri = self.find(reference_sequence_name).unwrap();
        let column = self.sequences[ri].translate_alignment_offset(
            reference_sequence_offset,
        ).unwrap();
        let mut row = MultipairAlignmentSequence::new();
        row.extend_with_blanks(blank_data, column);
        let qi = self.sequences.len();
        self.names.push(query_sequence_name);
        self.sequences.push(row);
        proof {
            assert(self.names_view() =~= old(self).names_view().push(query_sequence_name@));
            assert(self.rows() =~= old(self).rows().push(blanks(column as nat, blank_data)));
            assert(blanks(column as nat, blank_data) =~= Seq::<Character<CharacterData>>::empty()
                + blanks(column as nat, blank_data));
        }
        self.extend_sequence_with_alignment_internal(
            ri,
            qi,
            column,
            query_sequence,
            blank_data,
            gap_data,
            alignment,
            do_lowercasing,
            invert_alignment,
        );
    }

    /// Adds the row `sequence_name` as it is, aligned to nothing.
    pub fn add_independent_sequence(
        &mut self,
        sequence_name: String,
        sequence: Vec<Character<CharacterData>>,
    )
        requires
            old(self).wf(),
            !old(self).has(sequence_name@),
        ensures
            final(self).wf(),
            final(self).names_view() == old(self).names_view().push(sequence_name@),
            final(self).rows() == old(self).rows().push(sequence@),
    {
        self.names.push(sequence_name);
        self.sequences.push(MultipairAlignmentSequence::from_vec(sequence));
        proof {
            assert(self.names_view() =~= old(self).names_view().push(sequence_name@));
            assert(self.rows() =~= old(self).rows().push(sequence@));
        }
    }

    /// Adds the empty row `sequence_name`.
    pub fn add_empty_independent_sequence(&mut self, sequence_name: String)
        requires
            old(self).wf(),
            !old(self).has(sequence_name@),
        ensures
            final(self).wf(),
            final(self).names_view() == old(self).names_view().push(sequence_name@),
            final(self).rows() == old(self).rows().push(Seq::empty()),
    {
        self.add_independent_sequence(sequence_name, Vec::new());
    }

    /// One line per name: the name, a colon, spaces up to the longest name, and
    /// the row's text.
    pub fn render(&self, names: &Vec<String>) -> (r: String)
        requires
            self.wf(),
            names@.len() > 0,
            forall|i: int| 0 <= i < names@.len() ==> self.has(#[trigger] names@[i]@),
        ensures
            r@ == self.rendered(names@.map_values(|s: String| s@), true),
    {
        let ghost nv = names@.map_values(|s: String| s@);
        let mut max_len: usize = 0;
        let mut i: usize = 0;
        while i < names.len()
            invariant
                nv == names@.map_values(|s: String| s@),
                i <= names@.len(),
                max_len == max_name_len(nv.subrange(0, i as int)),
            decreases names@.len() - i,
        {
            proof {
                assert(nv.subrange(0, i + 1).drop_last() =~= nv.subrange(0, i as int));
            }
            let n = names[i].as_str().unicode_len();
            if n > max_len {
                max_len = n;
            }
            i = i + 1;
        }
        proof {
            assert(nv.subrange(0, i as int) =~= nv);
        }
        self.render_lines(names, max_len, true)
    }

    /// One line per name: the row's text.
    pub fn render_without_names(&self, names: &Vec<String>) -> (r: String)
        requires
            self.wf(),
            forall|i: int| 0 <= i < names@.len() ==> self.has(#[trigger] names@[i]@),
        ensures
            r@ == self.rendered(names@.map_values(|s: String| s@), false),
    {
        self.render_lines(names, 0, false)
    }

    /// The text of one line of `rendered`.
    pub open spec fn rendered_line(&self, name: Seq<char>, width: nat, with_name: bool) -> Seq<
        char,
    > {
        if with_name {
            name + seq![':', ' '] + spaces(
                if width > name.len() {
                    (width - name.len()) as nat
                } else {
                    0
                },
            ) + row_text(self.row(name)) + seq!['\n']
        } else {
            row_text(self.row(name)) + seq!['\n']
        }
    }

    pub open spec fn rendered_lines(&self, names: Seq<Seq<char>>, width: nat, with_name: bool) -> Seq<
        char,
    >
        decreases names.len(),
    {
        if names.len() == 0 {
            Seq::empty()
        } else {
            self.rendered_lines(names.drop_last(), width, with_name) + self.rendered_line(
                names.last(),
                width,
                with_name,
            )
        }
    }

    /// The rendering of the rows `names`, in that order.
    pub open spec fn rendered(&self, names: Seq<Seq<char>>, with_name: bool) -> Seq<char> {
        if with_name {
            self.rendered_lines(names, max_name_len(names), true)
        } else {
            self.rendered_lines(names, 0, false)
        }
    }

    fn render_lines(&self, names: &Vec<String>, width: usize, with_name: bool) -> (r: String)
        requires
            self.wf(),
            forall|i: int| 0 <= i < names@.len() ==> self.has(#[trigger] names@[i]@),
        ensures
            r@ == self.rendered_lines(names@.map_values(|s: String| s@), width as nat, with_name),
    {
        let ghost nv = names@.map_values(|s: String| s@);
        let mut out = String::new();
        let mut i: usize = 0;
        while i < names.len()
            invariant
                self.wf(),
                forall|i: int| 0 <= i < names@.len() ==> self.has(#[trigger] names@[i]@),
                nv == names@.map_values(|s: String| s@),
                i <= names@.len(),
                out@ == self.rendered_lines(nv.subrange(0, i as int), width as nat, with_name),
            decreases names@.len() - i,
        {
            proof {
                assert(nv.subrange(0, i + 1).drop_last() =~= nv.subrange(0, i as int));
                assert(self.has(names@[i as int]@));
            }
            let ghost before = out@;
            let name = &names[i];
            let row = self.sequence(name);
            if with_name {
                push_chars(&mut out, name.as_str());
                push_char(&mut out, ':');
                push_char(&mut out, ' ');
                let n = name.as_str().unicode_len();
                let mut k = n;
                while k < width
                    invariant
                        n == name@.len(),
                        n <= k,
                        k <= width || n > width,
                        n > width ==> k == n,
                        out@ == before + name@ + seq![':', ' '] + spaces((k - n) as nat),
                    decreases width - k,
                {
                    push_char(&mut out, ' ');
                    k = k + 1;
                    proof {
                        assert(out@ =~= before + name@ + seq![':', ' '] + spaces((k - n) as nat));
                    }
                }
                proof {
                    assert(spaces((k - n) as nat) =~= spaces(
                        if width > n {
                            (width - n) as nat
                        } else {
                            0
                        },
                    ));
                }
            }
            push_row_text(&mut out, &row.sequence);
            push_char(&mut out, '\n');
            proof {
                assert(out@ =~= before + self.rendered_line(nv[i as int], width as nat, with_name));
            }
            i = i + 1;
        }
        proof {
            assert(nv.subrange(0, i as int) =~= nv);
        }
        out
    }
}

impl<CharacterData: Copy> MultipairAlignmentSequence<CharacterData> {
    /// What the row shows, as text.
    pub fn to_text(&self) -> (r: String)
        ensures
            r@ == row_text(self@),
    {
        let mut r = String::new();
        push_row_text(&mut r, &self.sequence);
        proof {
            assert(Seq::<char>::empty() + row_text(self@) =~= row_text(self@));
        }
        r
    }
}

/// Characters without payload.
pub open spec fn default_characters(s: Seq<char>) -> Seq<Character<NoCharacterData>> {
    characters_with_data(s, NoCharacterData)
}

/// Characters that all carry the payload `d`.
pub open spec fn characters_with_data<D>(s: Seq<char>, d: D) -> Seq<Character<D>> {
    Seq::new(s.len(), |i: int| character_of(s[i], d))
}

/// The character `c` with payload `d`.
pub open spec fn character_of<D>(c: char, d: D) -> Character<D> {
    Character { kind: CharacterKind::Char(c), data: d }
}

fn with_default_data(characters: Vec<char>) -> (r: Vec<Character<NoCharacterData>>)
    ensures
        r@ == default_characters(characters@),
{
    let mut r: Vec<Character<NoCharacterData>> = Vec::new();
    let mut i: usize = 0;
    proof {
        assert(r@ =~= default_characters(characters@.subrange(0, 0)));
    }
    while i < characters.len()
        invariant
            i <= characters@.len(),
            r@ == default_characters(characters@.subrange(0, i as int)),
        decreases characters@.len() - i,
    {
        r.push(Character::new_char_with_default(characters[i]));
        i = i + 1;
        proof {
            assert(characters@.subrange(0, i as int).drop_last() =~= characters@.subrange(0, i - 1));
            assert(r@ =~= default_characters(characters@.subrange(0, i as int)));
        }
    }
    proof {
        assert(characters@.subrange(0, i as int) =~= characters@);
    }
    r
}

impl MultipairAlignmentRenderer<NoCharacterData> {
    /// A renderer with the single row `root_sequence_name`.
    pub fn new_without_data(root_sequence_name: String, root_sequence: Vec<char>) -> (r: Self)
        ensures
            r.wf(),
            r.names_view() == seq![root_sequence_name@],
            r.rows() == seq![default_characters(root_sequence@)],
    {
        Self::new(root_sequence_name, with_default_data(root_sequence))
    }

    /// `extend_sequence` with characters that carry no payload.
    pub fn extend_sequence_with_default_data(&mut self, sequence_name: &String, extension: Vec<char>)
        requires
            old(self).wf(),
            old(self).has(sequence_name@),
        ensures
            final(self).wf(),
            final(self).names_view() == old(self).names_view(),
            final(self).rows().len() == old(self).rows().len(),
            ({
                let p = old(self).position(sequence_name@);
                let n = old(self).rows()[p].len() + extension@.len();
                &&& final(self).rows()[p] == old(self).rows()[p] + default_characters(extension@)
                &&& forall|j: int|
                    0 <= j < old(self).rows().len() && j != p ==> final(self).rows()[j] == old(self).rows()[j] + blanks(
                        if n > old(self).rows()[j].len() {
                            (n - old(self).rows()[j].len()) as nat
                        } else {
                            0
                        },
                        NoCharacterData,
                    )
            }),
    {
        self.extend_sequence(sequence_name, with_default_data(extension), NoCharacterData);
    }

    /// `extend_sequence_with_alignment` with characters that carry no payload.
    pub fn extend_sequence_with_alignment_and_default_data(
        &mut self,
        reference_sequence_name: &String,
        query_sequence_name: &String,
        reference_sequence_offset: usize,
        extension: Vec<char>,
        alignment: Vec<(usize, AlignmentType)>,
        do_lowercasing: bool,
        invert_alignment: bool,
    )
        requires
            old(self).wf(),
            old(self).has(reference_sequence_name@),
            old(self).has(query_sequence_name@),
            reference_sequence_name@ != query_sequence_name@,
            count_chars(old(self).row(reference_sequence_name@)) >= reference_sequence_offset,
            ({
                let k = alignment_column(
                    old(self).row(reference_sequence_name@),
                    reference_sequence_offset as nat,
                );
                let q = old(self).row(query_sequence_name@);
                &&& k <= q.len()
                &&& forall|i: int| k <= i < q.len() ==> q[i].kind is Blank
                &&& render_walk(
                    walk_start(k, old(self).row(reference_sequence_name@), q.subrange(0, k)),
                    expand_alignment(alignment@, invert_alignment),
                    default_characters(extension@),
                    NoCharacterData,
                    NoCharacterData,
                    do_lowercasing,
                ) matches Some(w) && w.ext_pos == extension@.len()
            }),
        ensures
            final(self).wf(),
            final(self).names_view() == old(self).names_view(),
            ({
                let k = alignment_column(
                    old(self).row(reference_sequence_name@),
                    reference_sequence_offset as nat,
                );
                laid_out(
                    old(self).rows(),
                    final(self).rows(),
                    old(self).position(reference_sequence_name@),
                    old(self).position(query_sequence_name@),
                    render_walk(
                        walk_start(
                            k,
                            old(self).row(reference_sequence_name@),
                            old(self).row(query_sequence_name@).subrange(0, k),
                        ),
                        expand_alignment(alignment@, invert_alignment),
                        default_characters(extension@),
                        NoCharacterData,
                        NoCharacterData,
                        do_lowercasing,
                    )->Some_0,
                    NoCharacterData,
                    NoCharacterData,
                )
            }),
    {
        let extension = with_default_data(extension);
        self.extend_sequence_with_alignment(
            reference_sequence_name,
            query_sequence_name,
            reference_sequence_offset,
            extension,
            NoCharacterData,
            NoCharacterData,
            alignment,
            do_lowercasing,
            invert_alignment,
        );
    }

    /// `add_aligned_sequence` with characters that carry no payload.
    pub fn add_aligned_sequence_without_data(
        &mut self,
        reference_sequence_name: &String,
        reference_sequence_offset: usize,
        query_sequence_name: String,
        query_sequence: Vec<char>,
        alignment: Vec<(usize, AlignmentType)>,
        do_lowercasing: bool,
        invert_alignment: bool,
    )
        requires
            old(self).wf(),
            old(self).has(reference_sequence_name@),
            !old(self).has(query_sequence_name@),
            count_chars(old(self).row(reference_sequence_name@)) >= reference_sequence_offset,
            ({
                let k = alignment_column(
                    old(self).row(reference_sequence_name@),
                    reference_sequence_offset as nat,
                );
                render_walk(
                    walk_start(
                        k,
                        old(self).row(reference_sequence_name@),
                        blanks(k as nat, NoCharacterData),
                    ),
                    expand_alignment(alignment@, invert_alignment),
                    default_characters(query_sequence@),
                    NoCharacterData,
                    NoCharacterData,
                    do_lowercasing,
                ) matches Some(w) && w.ext_pos == query_sequence@.len()
            }),
        ensures
            final(self).wf(),
            final(self).names_view() == old(self).names_view().push(query_sequence_name@),
            ({
                let k = alignment_column(
                    old(self).row(reference_sequence_name@),
                    reference_sequence_offset as nat,
                );
                laid_out(
                    old(self).rows().push(blanks(k as nat, NoCharacterData)),
                    final(self).rows(),
                    old(self).position(reference_sequence_name@),
                    old(self).rows().len() as int,
                    render_walk(
                        walk_start(
                            k,
                            old(self).row(reference_sequence_name@),
                            blanks(k as nat, NoCharacterData),
                        ),
                        expand_alignment(alignment@, invert_alignment),
                        default_characters(query_sequence@),
                        NoCharacterData,
                        NoCharacterData,
                        do_lowercasing,
                    )->Some_0,
                    NoCharacterData,
                    NoCharacterData,
                )
            }),
    {
        let query_sequence = with_default_data(query_sequence);
        self.add_aligned_sequence(
            reference_sequence_name,
            reference_sequence_offset,
            query_sequence_name,
            query_sequence,
            NoCharacterData,
            NoCharacterData,
            alignment,
            do_lowercasing,
            invert_alignment,
        );
    }
}

/// Places one step of an alignment; the exact counterpart of `render_step`.
fn place_step<D: Copy>(
    reference: &mut Vec<Character<D>>,
    query: &mut Vec<Character<D>>,
    gaps_at: &mut Vec<usize>,
    index: usize,
    ext_pos: usize,
    extension: &Vec<Character<D>>,
    op: AlignmentType,
    blank: D,
    gap: D,
    lower: bool,
) -> (r: (usize, usize))
    requires
        walk_wf(
            RenderWalk {
                index: index as int,
                ext_pos: ext_pos as int,
                reference: old(reference)@,
                query: old(query)@,
                gaps: old(gaps_at)@,
            },
            old(reference)@.len() as int,
        ),
        render_step(
            RenderWalk {
                index: index as int,
                ext_pos: ext_pos as int,
                reference: old(reference)@,
                query: old(query)@,
                gaps: old(gaps_at)@,
            },
            op,
            extension@,
            blank,
            gap,
            lower,
        ) is Some,
    ensures
        render_step(
            RenderWalk {
                index: index as int,
                ext_pos: ext_pos as int,
                reference: old(reference)@,
                query: old(query)@,
                gaps: old(gaps_at)@,
            },
            op,
            extension@,
            blank,
            gap,
            lower,
        ) == Some(
            RenderWalk {
                index: r.0 as int,
                ext_pos: r.1 as int,
                reference: final(reference)@,
                query: final(query)@,
                gaps: final(gaps_at)@,
            },
        ),
        walk_wf(
            RenderWalk {
                index: r.0 as int,
                ext_pos: r.1 as int,
                reference: final(reference)@,
                query: final(query)@,
                gaps: final(gaps_at)@,
            },
            old(reference)@.len() as int,
        ),
{
    let extension_len = extension.len();
    let index0 = index;
    let mut index = index;
    while index < reference.len() && reference[index].kind.is_blank()
        invariant
            reference@ == old(reference)@,
            index0 <= index <= reference@.len(),
            skip_kind(reference@, index0 as int, CharacterKind::Blank) == skip_kind(
                reference@,
                index as int,
                CharacterKind::Blank,
            ),
            query@ == old(query)@ + blanks((index - index0) as nat, blank),
        decreases reference@.len() - index,
    {
        query.push(Character::new_blank(blank));
        index = index + 1;
        proof {
            assert(query@ =~= old(query)@ + blanks((index - index0) as nat, blank));
        }
    }
    match op {
        AlignmentType::PrimaryInsertion
        | AlignmentType::PrimaryFlankInsertion
        | AlignmentType::SecondaryInsertion => {
            let c = extension[ext_pos];
            if index < reference.len() && reference[index].kind.is_gap() {
                index = index + 1;
            } else {
                gaps_at.push(index);
            }
            query.push(c);
            assert(ext_pos < extension_len);
            (index, ext_pos + 1)
        },
        AlignmentType::PrimaryDeletion
        | AlignmentType::PrimaryFlankDeletion
        | AlignmentType::SecondaryDeletion
        | AlignmentType::PrimarySubstitution
        | AlignmentType::PrimaryFlankSubstitution
        | AlignmentType::SecondarySubstitution
        | AlignmentType::PrimaryMatch
        | AlignmentType::PrimaryFlankMatch
        | AlignmentType::SecondaryMatch => {
            let index1 = index;
            let ghost q1 = query@;
            while index < reference.len() && reference[index].kind.is_gap()
                invariant
                    reference@ == old(reference)@,
                    index1 <= index <= reference@.len(),
                    skip_kind(reference@, index1 as int, CharacterKind::Gap) == skip_kind(
                        reference@,
                        index as int,
                        CharacterKind::Gap,
                    ),
                    query@ == q1 + blanks((index - index1) as nat, blank),
                decreases reference@.len() - index,
            {
                query.push(Character::new_blank(blank));
                index = index + 1;
                proof {
                    assert(query@ =~= q1 + blanks((index - index1) as nat, blank));
                }
            }
            match op {
                AlignmentType::PrimaryDeletion
                | AlignmentType::PrimaryFlankDeletion
                | AlignmentType::SecondaryDeletion => {
                    query.push(Character::new_gap(gap));
                    (index + 1, ext_pos)
                },
                AlignmentType::PrimaryMatch
                | AlignmentType::PrimaryFlankMatch
                | AlignmentType::SecondaryMatch => {
                    query.push(extension[ext_pos]);
                    assert(ext_pos < extension_len);
                    (index + 1, ext_pos + 1)
                },
                _ => {
                    let mut c = extension[ext_pos];
                    if lower {
                        c.make_ascii_lowercase();
                        let mut rc = reference[index];
                        rc.make_ascii_lowercase();
                        reference.set(index, rc);
                    }
                    query.push(c);
                    assert(ext_pos < extension_len);
                    (index + 1, ext_pos + 1)
                },
            }
        },
        _ => {
            proof {
                assert(false);
            }
            (index, ext_pos)
        },
    }
}

} // verus!
