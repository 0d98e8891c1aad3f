//! Rendered columns: characters, gaps and blanks, each with a payload.
use vstd::prelude::*;

verus! {

/// The ASCII lower-case form of a character: `A` to `Z` move to `a` to `z`,
/// every other character stays as it is.
pub open spec fn ascii_lowercase(c: char) -> char {
    if 'A' <= c && c <= 'Z' {
        ((c as u32) + 32) as char
    } else {
        c
    }
}

/// Relies on `char::to_ascii_lowercase`: maps `A` to `Z` to `a` to `z` and keeps
/// every other character.
#[verifier::external_body]
pub(crate) fn to_ascii_lowercase(c: char) -> (r: char)
    ensures
        r == ascii_lowercase(c),
{
    c.to_ascii_lowercase()
}

/// Payload for characters that carry no data.
#[derive(Debug, Default, Clone, Copy, PartialEq, Eq, Structural)]
pub struct NoCharacterData;

/// What a rendered column shows: a character, a gap (`-`) or a blank (` `).
#[derive(Debug, Clone, Copy, PartialEq, Eq, Structural)]
pub enum CharacterKind {
    Char(char),
    Gap,
    Blank,
}

/// One rendered column of a sequence, with a payload.
#[derive(Debug, Clone, Copy, PartialEq, Eq)]
pub struct Character<Data> {
    pub kind: CharacterKind,
    pub data: Data,
}

impl CharacterKind {
    pub open spec fn spec_as_char(self) -> char {
        match self {
            CharacterKind::Char(c) => c,
            CharacterKind::Gap => '-',
            CharacterKind::Blank => ' ',
        }
    }

    pub open spec fn spec_lowercased(self) -> CharacterKind {
        match self {
            CharacterKind::Char(c) => CharacterKind::Char(ascii_lowercase(c)),
            other => other,
        }
    }

    pub fn is_char(&self) -> (r: bool)
        ensures
            r == (*self is Char),
    {
        match self {
            CharacterKind::Char(_) => true,
            _ => false,
        }
    }

    pub fn is_gap(&self) -> (r: bool)
        ensures
            r == (*self is Gap),
    {
        match self {
            CharacterKind::Gap => true,
            _ => false,
        }
    }

    pub fn is_blank(&self) -> (r: bool)
        ensures
            r == (*self is Blank),
    {
        match self {
            CharacterKind::Blank => true,
            _ => false,
        }
    }

    pub fn as_char(&self) -> (r: char)
        ensures
            r == self.spec_as_char(),
    {
        match self {
            CharacterKind::Char(character) => *character,
            CharacterKind::Gap => '-',
            CharacterKind::Blank => ' ',
        }
    }

    pub fn make_ascii_lowercase(&mut self)
        ensures
            *final(self) == old(self).spec_lowercased(),
    {
        if let CharacterKind::Char(character) = self {
            *character = to_ascii_lowercase(*character);
        }
    }
}

impl<Data> Character<Data> {
    pub open spec fn spec_lowercased(self) -> Character<Data> {
        Character { kind: self.kind.spec_lowercased(), data: self.data }
    }
}

impl<Data: Copy> Character<Data> {
    pub fn new(kind: CharacterKind, data: Data) -> (r: Character<Data>)
        ensures
            r == (Character { kind, data }),
    {
        Character { kind, data }
    }

    pub fn new_gap(data: Data) -> (r: Character<Data>)
        ensures
            r == (Character { kind: CharacterKind::Gap, data }),
    {
        Self::new(CharacterKind::Gap, data)
    }

    pub fn new_blank(data: Data) -> (r: Character<Data>)
        ensures
            r == (Character { kind: CharacterKind::Blank, data }),
    {
        Self::new(CharacterKind::Blank, data)
    }

    pub fn new_char(character: char, data: Data) -> (r: Character<Data>)
        ensures
            r == (Character { kind: CharacterKind::Char(character), data }),
    {
        Self::new(CharacterKind::Char(character), data)
    }

    pub fn kind(&self) -> (r: CharacterKind)
        ensures
            r == self.kind,
    {
        self.kind
    }

    pub fn data(&self) -> (r: &Data)
        ensures
            *r == self.data,
    {
        &self.data
    }

    pub fn is_char(&self) -> (r: bool)
        ensures
            r == (self.kind is Char),
    {
        self.kind.is_char()
    }

    pub fn as_char(&self) -> (r: char)
        ensures
            r == self.kind.spec_as_char(),
    {
        self.kind.as_char()
    }

    pub fn make_ascii_lowercase(&mut self)
        ensures
            *final(self) == old(self).spec_lowercased(),
    {
        self.kind.make_ascii_lowercase()
    }
}

impl Character<NoCharacterData> {
    /// A character with the default (empty) payload.
    pub fn new_char_with_default(character: char) -> (r: Character<NoCharacterData>)
        ensures
            r == (Character { kind: CharacterKind::Char(character), data: NoCharacterData }),
    {
        Self::new_char(character, NoCharacterData)
    }
}

} // verus!
