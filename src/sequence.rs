//! One rendered row and its editing operations.
use vstd::prelude::*;

use crate::character::{Character, CharacterKind};

verus! {

/// The number of entries of `s` that show a character (not a gap or blank).
pub open spec fn count_chars<D>(s: Seq<Character<D>>) -> nat
    decreases s.len(),
{
    if s.len() == 0 {
        0
    } else {
        count_chars(s.drop_last()) + if s.last().kind is Char { 1nat } else { 0nat }
    }
}

/// `n` blanks with payload `d`.
pub open spec fn blanks<D>(n: nat, d: D) -> Seq<Character<D>> {
    Seq::new(n, |i: int| Character { kind: CharacterKind::Blank, data: d })
}

/// `n` gaps with payload `d`.
pub open spec fn gaps<D>(n: nat, d: D) -> Seq<Character<D>> {
    Seq::new(n, |i: int| Character { kind: CharacterKind::Gap, data: d })
}

/// Positions that never decrease.
pub open spec fn sorted_positions(p: Seq<usize>) -> bool {
    forall|i: int, j: int| 0 <= i <= j < p.len() ==> p[i] <= p[j]
}

/// `s` with `fills[k]` inserted before the entry at `positions[k]`, for each `k`.
/// Entries for the same position keep their order; a position at or beyond the
/// end appends.
pub open spec fn multi_insert_spec<T>(s: Seq<T>, positions: Seq<usize>, fills: Seq<T>) -> Seq<T>
    decreases positions.len(),
{
    if positions.len() == 0 {
        s
    } else {
        let k = positions.len() - 1;
        let p = positions[k] as int;
        if p >= s.len() {
            multi_insert_spec(s, positions.drop_last(), fills).push(fills[k])
        } else {
            multi_insert_spec(s.subrange(0, p), positions.drop_last(), fills).push(fills[k])
                + s.subrange(p, s.len() as int)
        }
    }
}

pub proof fn lemma_count_chars_append<D>(s: Seq<Character<D>>, t: Seq<Character<D>>)
    ensures
        count_chars(s + t) == count_chars(s) + count_chars(t),
    decreases t.len(),
{
    if t.len() == 0 {
        assert(s + t =~= s);
    } else {
        assert((s + t).drop_last() =~= s + t.drop_last());
        lemma_count_chars_append(s, t.drop_last());
    }
}

pub proof fn lemma_count_chars_bound<D>(s: Seq<Character<D>>)
    ensures
        count_chars(s) <= s.len(),
    decreases s.len(),
{
    if s.len() > 0 {
        lemma_count_chars_bound(s.drop_last());
    }
}

proof fn lemma_multi_insert_extend<T>(s: Seq<T>, positions: Seq<usize>, fills: Seq<T>, i: int)
    requires
        0 <= i < s.len(),
        forall|k: int| 0 <= k < positions.len() ==> positions[k] <= i,
    ensures
        multi_insert_spec(s.subrange(0, i), positions, fills).push(s[i])
            == multi_insert_spec(s.subrange(0, i + 1), positions, fills),
{
    let a = s.subrange(0, i);
    let b = s.subrange(0, i + 1);
    if positions.len() > 0 {
        let k = positions.len() - 1;
        let p = positions[k] as int;
        if p < i {
            assert(b.subrange(0, p) =~= a.subrange(0, p));
            assert(a.subrange(p, a.len() as int).push(s[i]) =~= b.subrange(p, b.len() as int));
            let m = multi_insert_spec(a.subrange(0, p), positions.drop_last(), fills).push(fills[k]);
            assert((m + a.subrange(p, a.len() as int)).push(s[i]) =~= m + b.subrange(
                p,
                b.len() as int,
            ));
        } else {
            assert(b.subrange(0, p) =~= a);
            assert(b.subrange(p, b.len() as int) =~= seq![s[i]]);
            let m = multi_insert_spec(a, positions.drop_last(), fills).push(fills[k]);
            assert(m.push(s[i]) =~= m + seq![s[i]]);
        }
    }
}

/// The column of a rendered row right after its `offset`-th character (`0`
/// for offset `0`).
pub open spec fn alignment_column<D>(s: Seq<Character<D>>, offset: nat) -> int
    decreases s.len(),
{
    if offset == 0 || s.len() == 0 {
        0
    } else if count_chars(s.drop_last()) >= offset {
        alignment_column(s.drop_last(), offset)
    } else {
        s.len() as int
    }
}

proof fn lemma_count_chars_prefix_monotone<D>(s: Seq<Character<D>>, k: int, m: int)
    requires
        0 <= k <= m <= s.len(),
    ensures
        count_chars(s.subrange(0, k)) <= count_chars(s.subrange(0, m)),
{
    lemma_count_chars_append(s.subrange(0, k), s.subrange(k, m));
    assert(s.subrange(0, k) + s.subrange(k, m) =~= s.subrange(0, m));
}

proof fn lemma_alignment_column_unique<D>(s: Seq<Character<D>>, offset: nat, k: int)
    requires
        offset > 0,
        0 < k <= s.len(),
        count_chars(s.subrange(0, k)) == offset,
        s[k - 1].kind is Char,
    ensures
        k == alignment_column(s, offset),
    decreases s.len(),
{
    let d = s.drop_last();
    if count_chars(d) >= offset {
        if k == s.len() {
            assert(s.subrange(0, k) =~= s);
            assert(s.drop_last() =~= d);
        } else {
            assert(d.subrange(0, k) =~= s.subrange(0, k));
            lemma_alignment_column_unique(d, offset, k);
        }
    } else {
        if k < s.len() {
            lemma_count_chars_prefix_monotone(s, k, s.len() - 1);
            assert(s.subrange(0, s.len() - 1) =~= d);
        }
    }
}

/// One rendered row of a multi-pair alignment.
#[derive(Debug)]
pub struct MultipairAlignmentSequence<CharacterData> {
    pub sequence: Vec<Character<CharacterData>>,
}

impl<CharacterData: Copy> View for MultipairAlignmentSequence<CharacterData> {
    type V = Seq<Character<CharacterData>>;

    open spec fn view(&self) -> Seq<Character<CharacterData>> {
        self.sequence@
    }
}

impl<CharacterData: Copy> MultipairAlignmentSequence<CharacterData> {
    pub fn new() -> (r: Self)
        ensures
            r@ == Seq::<Character<CharacterData>>::empty(),
    {
        MultipairAlignmentSequence { sequence: Vec::new() }
    }

    pub fn from_vec(sequence: Vec<Character<CharacterData>>) -> (r: Self)
        ensures
            r@ == sequence@,
    {
        MultipairAlignmentSequence { sequence }
    }

    /// The smallest index that skips the first `offset` characters, or `None`
    /// if the row shows fewer than `offset` characters.
    pub fn translate_alignment_offset(&self, offset: usize) -> (r: Option<usize>)
        ensures
            r is None <==> count_chars(self@) < offset,
            r matches Some(k) ==> {
                &&& k <= self@.len()
                &&& count_chars(self@.subrange(0, k as int)) == offset
                &&& (offset == 0 ==> k == 0)
                &&& (offset > 0 ==> self@[k - 1].kind is Char)
                &&& k == alignment_column(self@, offset as nat)
            },
    {
        if offset == 0 {
            return Some(0);
        }
        let mut seen: usize = 0;
        let mut i: usize = 0;
        while i < self.sequence.len()
            invariant
                0 < offset,
                i <= self@.len(),
                seen == count_chars(self@.subrange(0, i as int)),
                seen < offset,
            decreases self@.len() - i,
        {
            proof {
                assert(self@.subrange(0, i + 1).drop_last() =~= self@.subrange(0, i as int));
            }
            if self.sequence[i].kind.is_char() {
                seen = seen + 1;
                if seen == offset {
                    proof {
                        let s = self@;
                        assert(self@.subrange(0, i + 1).drop_last() =~= self@.subrange(0, i as int));
                        lemma_alignment_column_unique(s, offset as nat, i + 1);
                        lemma_count_chars_append(s.subrange(0, i + 1), s.subrange(i + 1, s.len() as int));
                        assert(s.subrange(0, i + 1) + s.subrange(i + 1, s.len() as int) =~= s);
                    }
                    return Some(i + 1);
                }
            }
            i = i + 1;
        }
        proof {
            assert(self@.subrange(0, i as int) =~= self@);
        }
        None
    }

    /// The largest index that skips exactly the first `offset` characters, or
    /// `None` if the row shows fewer than `offset` characters.
    pub fn translate_extension_offset(&self, offset: usize) -> (r: Option<usize>)
        ensures
            r is None <==> count_chars(self@) < offset,
            r matches Some(k) ==> {
                &&& k <= self@.len()
                &&& count_chars(self@.subrange(0, k as int)) == offset
                &&& alignment_column(self@, offset as nat) <= k
                &&& forall|i: int|
                    alignment_column(self@, offset as nat) <= i < k ==> !(self@[i].kind is Char)
                &&& (k < self@.len() && !(self@[k as int].kind is Char) ==> {
                    ||| k + 1 == self@.len()
                    ||| self@[k + 1].kind is Char
                })
                &&& (k == alignment_column(self@, offset as nat) || !(self@[k as int].kind is Char))
            },
    {
        match self.translate_alignment_offset(offset) {
            None => None,
            Some(start) => {
                let mut last = start;
                let mut i = start;
                while i < self.sequence.len() && !self.sequence[i].kind.is_char()
                    invariant
                        start <= last <= i <= self@.len(),
                        count_chars(self@.subrange(0, start as int)) == offset,
                        count_chars(self@.subrange(0, i as int)) == offset,
                        (last == start && i == start) || last + 1 == i,
                        last + 1 == i ==> !(self@[last as int].kind is Char),
                        count_chars(self@.subrange(0, last as int)) == offset,
                        start == alignment_column(self@, offset as nat),
                        forall|j: int| start <= j < i ==> !(self@[j].kind is Char),
                    decreases self@.len() - i,
                {
                    proof {
                        assert(self@.subrange(0, i + 1).drop_last() =~= self@.subrange(0, i as int));
                    }
                    last = i;
                    i = i + 1;
                }
                Some(last)
            },
        }
    }

    pub fn len(&self) -> (r: usize)
        ensures
            r == self@.len(),
    {
        self.sequence.len()
    }

    /// The rendered columns, in order.
    pub fn iter(&self) -> (r: &[Character<CharacterData>])
        ensures
            r@ == self@,
    {
        self.sequence.as_slice()
    }

    /// What each column shows, as a character.
    pub fn iter_characters(&self) -> (r: Vec<char>)
        ensures
            r@.len() == self@.len(),
            forall|i: int| 0 <= i < r@.len() ==> r@[i] == self@[i].kind.spec_as_char(),
    {
        let mut r: Vec<char> = Vec::new();
        let mut i: usize = 0;
        while i < self.sequence.len()
            invariant
                i <= self@.len(),
                r@.len() == i,
                forall|j: int| 0 <= j < i ==> r@[j] == self@[j].kind.spec_as_char(),
            decreases self@.len() - i,
        {
            r.push(self.sequence[i].as_char());
            i = i + 1;
        }
        r
    }

    /// Removes blanks from the back until the desired length is reached.
    /// Nothing happens if the row is not longer than that.
    pub fn prune_blanks(&mut self, desired_length: usize)
        requires
            forall|i: int|
                desired_length <= i < old(self)@.len() ==> old(self)@[i].kind is Blank,
        ensures
            final(self)@ == if desired_length < old(self)@.len() {
                old(self)@.subrange(0, desired_length as int)
            } else {
                old(self)@
            },
    {
        while self.sequence.len() > desired_length
            invariant
                self@.len() <= old(self)@.len(),
                desired_length < old(self)@.len() ==> desired_length <= self@.len(),
                desired_length >= old(self)@.len() ==> self@ == old(self)@,
                self@ == old(self)@.subrange(0, self@.len() as int),
            decreases self@.len(),
        {
            self.sequence.pop();
            proof {
                assert(self@ =~= old(self)@.subrange(0, self@.len() as int));
            }
        }
    }

    /// Adds blanks to the back until the desired length is reached. Nothing
    /// happens if the row is not shorter than that.
    pub fn extend_with_blanks(&mut self, blank_data: CharacterData, desired_length: usize)
        ensures
            final(self)@ == old(self)@ + blanks(
                if desired_length > old(self)@.len() {
                    (desired_length - old(self)@.len()) as nat
                } else {
                    0
                },
                blank_data,
            ),
    {
        while self.sequence.len() < desired_length
            invariant
                old(self)@.len() <= self@.len(),
                desired_length > old(self)@.len() ==> self@.len() <= desired_length,
                desired_length <= old(self)@.len() ==> self@.len() == old(self)@.len(),
                self@ == old(self)@ + blanks((self@.len() - old(self)@.len()) as nat, blank_data),
            decreases desired_length - self@.len(),
        {
            self.sequence.push(Character::new_blank(blank_data));
            proof {
                assert(self@ =~= old(self)@ + blanks(
                    (self@.len() - old(self)@.len()) as nat,
                    blank_data,
                ));
            }
        }
        proof {
            assert(self@ =~= old(self)@ + blanks(
                if desired_length > old(self)@.len() {
                    (desired_length - old(self)@.len()) as nat
                } else {
                    0
                },
                blank_data,
            ));
        }
    }

    /// Adds the given characters to the back.
    pub fn extend_with(&mut self, extension: Vec<Character<CharacterData>>)
        ensures
            final(self)@ == old(self)@ + extension@,
    {
        let mut i: usize = 0;
        while i < extension.len()
            invariant
                i <= extension@.len(),
                self@ == old(self)@ + extension@.subrange(0, i as int),
            decreases extension@.len() - i,
        {
            self.sequence.push(extension[i]);
            i = i + 1;
            proof {
                assert(self@ =~= old(self)@ + extension@.subrange(0, i as int));
            }
        }
        proof {
            assert(extension@.subrange(0, i as int) =~= extension@);
        }
    }

    /// Adds the given character to the back.
    pub fn push(&mut self, character: Character<CharacterData>)
        ensures
            final(self)@ == old(self)@.push(character),
    {
        self.sequence.push(character);
    }

    pub fn get(&self, index: usize) -> (r: Option<&Character<CharacterData>>)
        ensures
            index < self@.len() ==> r == Some(&self@[index as int]),
            index >= self@.len() ==> r is None,
    {
        if index < self.sequence.len() {
            Some(&self.sequence[index])
        } else {
            None
        }
    }

    /// Inserts a gap before each of the given positions.
    pub fn insert_gaps(&mut self, gap_data: CharacterData, gaps_at: &Vec<usize>)
        requires
            sorted_positions(gaps_at@),
        ensures
            final(self)@ == multi_insert_spec(old(self)@, gaps_at@, gaps(gaps_at@.len(), gap_data)),
    {
        let mut fills: Vec<Character<CharacterData>> = Vec::new();
        while fills.len() < gaps_at.len()
            invariant
                fills@.len() <= gaps_at@.len(),
                fills@ == gaps(fills@.len(), gap_data),
            decreases gaps_at@.len() - fills@.len(),
        {
            fills.push(Character::new_gap(gap_data));
            proof {
                assert(fills@ =~= gaps(fills@.len(), gap_data));
            }
        }
        self.multi_insert(&fills, gaps_at);
    }

    /// Inserts a blank before each of the given positions.
    pub fn insert_blanks(&mut self, blank_data: CharacterData, blanks_at: &Vec<usize>)
        requires
            sorted_positions(blanks_at@),
        ensures
            final(self)@ == multi_insert_spec(
                old(self)@,
                blanks_at@,
                blanks(blanks_at@.len(), blank_data),
            ),
    {
        let mut fills: Vec<Character<CharacterData>> = Vec::new();
        while fills.len() < blanks_at.len()
            invariant
                fills@.len() <= blanks_at@.len(),
                fills@ == blanks(fills@.len(), blank_data),
            decreases blanks_at@.len() - fills@.len(),
        {
            fills.push(Character::new_blank(blank_data));
            proof {
                assert(fills@ =~= blanks(fills@.len(), blank_data));
            }
        }
        self.multi_insert(&fills, blanks_at);
    }

    /// Inserts `characters[k]` before the entry at `positions[k]`, for each `k`.
    pub fn multi_insert(
        &mut self,
        characters: &Vec<Character<CharacterData>>,
        positions: &Vec<usize>,
    )
        requires
            sorted_positions(positions@),
            characters@.len() >= positions@.len(),
        ensures
            final(self)@ == multi_insert_spec(old(self)@, positions@, characters@),
    {
        let mut previous: Vec<Character<CharacterData>> = Vec::new();
        std::mem::swap(&mut self.sequence, &mut previous);
        let ghost s = previous@;
        let mut k: usize = 0;
        let mut i: usize = 0;
        proof {
            assert(s.subrange(0, 0) =~= Seq::<Character<CharacterData>>::empty());
            assert(positions@.subrange(0, 0) =~= Seq::<usize>::empty());
            assert(self@ =~= multi_insert_spec(s.subrange(0, 0), positions@.subrange(0, 0), characters@));
        }
        while i < previous.len()
            invariant
                s == previous@,
                sorted_positions(positions@),
                characters@.len() >= positions@.len(),
                i <= s.len(),
                k <= positions@.len(),
                k < positions@.len() ==> positions@[k as int] >= i,
                forall|j: int| 0 <= j < k ==> positions@[j] <= i,
                self@ == multi_insert_spec(
                    s.subrange(0, i as int),
                    positions@.subrange(0, k as int),
                    characters@,
                ),
            decreases s.len() - i, positions@.len() - k,
        {
            if k < positions.len() && positions[k] <= i {
                proof {
                    let pk = positions@.subrange(0, k + 1);
                    assert(pk.drop_last() =~= positions@.subrange(0, k as int));
                    assert(pk[k as int] == i);
                }
                self.sequence.push(characters[k]);
                k = k + 1;
            } else {
                proof {
                    lemma_multi_insert_extend(s, positions@.subrange(0, k as int), characters@, i as int);
                }
                self.sequence.push(previous[i]);
                i = i + 1;
            }
        }
        proof {
            assert(s.subrange(0, i as int) =~= s);
        }
        while k < positions.len()
            invariant
                sorted_positions(positions@),
                characters@.len() >= positions@.len(),
                k <= positions@.len(),
                k < positions@.len() ==> positions@[k as int] >= s.len(),
                self@ == multi_insert_spec(s, positions@.subrange(0, k as int), characters@),
            decreases positions@.len() - k,
        {
            proof {
                let pk = positions@.subrange(0, k + 1);
                assert(pk.drop_last() =~= positions@.subrange(0, k as int));
            }
            self.sequence.push(characters[k]);
            k = k + 1;
        }
        proof {
            assert(positions@.subrange(0, k as int) =~= positions@);
        }
    }
}

} // verus!
