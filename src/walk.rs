//! Laying an alignment out over a rendered reference row.
use vstd::prelude::*;

use crate::alignment_type::AlignmentType;
use crate::character::{Character, CharacterKind};
use crate::sequence::{blanks, sorted_positions};

verus! {

/// Where the layout of an alignment over a rendered reference row stands.
///
/// `index` is the next column of the reference row, `ext_pos` the number of
/// extension characters used so far, `query` the query row built so far and
/// `gaps` the reference columns before which a gap column must be opened.
pub struct RenderWalk<D> {
    pub index: int,
    pub ext_pos: int,
    pub reference: Seq<Character<D>>,
    pub query: Seq<Character<D>>,
    pub gaps: Seq<usize>,
}

/// The alignment with each `(multiplicity, step)` pair written out, each step
/// inverted if `invert` holds.
pub open spec fn expand_alignment(a: Seq<(usize, AlignmentType)>, invert: bool) -> Seq<
    AlignmentType,
>
    decreases a.len(),
{
    if a.len() == 0 {
        Seq::empty()
    } else {
        let (m, t) = a.last();
        expand_alignment(a.drop_last(), invert) + Seq::new(
            m as nat,
            |i: int|
                if invert {
                    t.spec_inverted()
                } else {
                    t
                },
        )
    }
}

/// The first column at or after `index` that does not show `kind`.
pub open spec fn skip_kind<D>(row: Seq<Character<D>>, index: int, kind: CharacterKind) -> int
    decreases row.len() - index,
{
    if 0 <= index < row.len() && row[index].kind == kind {
        skip_kind(row, index + 1, kind)
    } else {
        index
    }
}

/// Places one step of the alignment. Blank reference columns are passed over
/// first (the query shows a blank there). An insertion fills a gap column of
/// the reference if one comes next and otherwise asks for a new one. Any other
/// character step also passes over gap columns and then takes one reference
/// column: a deletion shows a gap in the query, a match or a substitution the
/// next extension character (a substitution lower-cases both sides if `lower`).
/// `None` where the step cannot be placed: no reference column or extension
/// character is left, a substituted extension entry is no character, or the
/// step consumes no character.
pub open spec fn render_step<D>(
    w: RenderWalk<D>,
    op: AlignmentType,
    ext: Seq<Character<D>>,
    blank: D,
    gap: D,
    lower: bool,
) -> Option<RenderWalk<D>> {
    let i1 = skip_kind(w.reference, w.index, CharacterKind::Blank);
    let q1 = w.query + blanks((i1 - w.index) as nat, blank);
    if op.spec_is_insertion() {
        if w.ext_pos >= ext.len() {
            None
        } else if i1 < w.reference.len() && w.reference[i1].kind is Gap {
            Some(
                RenderWalk {
                    index: i1 + 1,
                    ext_pos: w.ext_pos + 1,
                    query: q1.push(ext[w.ext_pos]),
                    ..w
                },
            )
        } else {
            Some(
                RenderWalk {
                    index: i1,
                    ext_pos: w.ext_pos + 1,
                    query: q1.push(ext[w.ext_pos]),
                    gaps: w.gaps.push(i1 as usize),
                    ..w
                },
            )
        }
    } else if op.spec_is_deletion() || op.spec_is_substitution() || op.spec_is_match() {
        let i2 = skip_kind(w.reference, i1, CharacterKind::Gap);
        let q2 = q1 + blanks((i2 - i1) as nat, blank);
        if i2 >= w.reference.len() {
            None
        } else if op.spec_is_deletion() {
            Some(
                RenderWalk {
                    index: i2 + 1,
                    query: q2.push(Character { kind: CharacterKind::Gap, data: gap }),
                    ..w
                },
            )
        } else if w.ext_pos >= ext.len() {
            None
        } else if op.spec_is_match() {
            Some(
                RenderWalk {
                    index: i2 + 1,
                    ext_pos: w.ext_pos + 1,
                    query: q2.push(ext[w.ext_pos]),
                    ..w
                },
            )
        } else if !(ext[w.ext_pos].kind is Char) {
            None
        } else if lower {
            Some(
                RenderWalk {
                    index: i2 + 1,
                    ext_pos: w.ext_pos + 1,
                    query: q2.push(ext[w.ext_pos].spec_lowercased()),
                    reference: w.reference.update(i2, w.reference[i2].spec_lowercased()),
                    ..w
                },
            )
        } else {
            Some(
                RenderWalk {
                    index: i2 + 1,
                    ext_pos: w.ext_pos + 1,
                    query: q2.push(ext[w.ext_pos]),
                    ..w
                },
            )
        }
    } else {
        None
    }
}

/// Places the steps `ops` one after the other, starting from `start`.
pub open spec fn render_walk<D>(
    start: RenderWalk<D>,
    ops: Seq<AlignmentType>,
    ext: Seq<Character<D>>,
    blank: D,
    gap: D,
    lower: bool,
) -> Option<RenderWalk<D>>
    decreases ops.len(),
{
    if ops.len() == 0 {
        Some(start)
    } else {
        match render_walk(start, ops.drop_last(), ext, blank, gap, lower) {
            Some(w) => render_step(w, ops.last(), ext, blank, gap, lower),
            None => None,
        }
    }
}

/// What holds of every reachable point of a walk.
pub open spec fn walk_wf<D>(w: RenderWalk<D>, reference_len: int) -> bool {
    &&& 0 <= w.index <= w.reference.len()
    &&& w.reference.len() == reference_len
    &&& 0 <= w.ext_pos
    &&& sorted_positions(w.gaps)
    &&& forall|k: int| 0 <= k < w.gaps.len() ==> w.gaps[k] <= w.index
}

pub proof fn lemma_walk_prefix<D>(
    start: RenderWalk<D>,
    ops: Seq<AlignmentType>,
    k: int,
    ext: Seq<Character<D>>,
    blank: D,
    gap: D,
    lower: bool,
)
    requires
        0 <= k <= ops.len(),
        render_walk(start, ops, ext, blank, gap, lower) is Some,
    ensures
        render_walk(start, ops.subrange(0, k), ext, blank, gap, lower) is Some,
    decreases ops.len(),
{
    if k < ops.len() {
        lemma_walk_prefix(start, ops.drop_last(), k, ext, blank, gap, lower);
        assert(ops.drop_last().subrange(0, k) =~= ops.subrange(0, k));
    } else {
        assert(ops.subrange(0, k) =~= ops);
    }
}

pub proof fn lemma_expand_prefix(a: Seq<(usize, AlignmentType)>, k: int, invert: bool)
    requires
        0 <= k <= a.len(),
    ensures
        expand_alignment(a.subrange(0, k), invert).len() <= expand_alignment(a, invert).len(),
        expand_alignment(a, invert).subrange(
            0,
            expand_alignment(a.subrange(0, k), invert).len() as int,
        ) == expand_alignment(a.subrange(0, k), invert),
    decreases a.len(),
{
    if k < a.len() {
        lemma_expand_prefix(a.drop_last(), k, invert);
        assert(a.drop_last().subrange(0, k) =~= a.subrange(0, k));
        let e = expand_alignment(a.drop_last(), invert);
        let p = expand_alignment(a.subrange(0, k), invert);
        assert(expand_alignment(a, invert).subrange(0, p.len() as int) =~= e.subrange(
            0,
            p.len() as int,
        ));
    } else {
        assert(a.subrange(0, k) =~= a);
        assert(expand_alignment(a, invert).subrange(0, expand_alignment(a, invert).len() as int)
            =~= expand_alignment(a, invert));
    }
}

} // verus!
