use vstd::prelude::*;

verus! {

/// A read-only position in a sequence of characters. Advancing yields a new cursor;
/// the characters themselves are never changed.
#[derive(Copy, Clone, Debug)]
pub struct IndexedCharacters<'a> {
    characters: &'a Vec<char>,
    index: usize,
}

impl<'a> IndexedCharacters<'a> {
    /// The characters that the cursor walks over.
    pub closed spec fn chars(&self) -> Seq<char> {
        self.characters@
    }

    /// The offset of the cursor: the number of characters before it.
    pub closed spec fn offset(&self) -> nat {
        self.index as nat
    }

    /// The characters of a cursor fit in memory, so their count fits in `usize`.
    pub proof fn lemma_len_bound(&self)
        ensures
            self.chars().len() <= usize::MAX,
    {
        assert(self.characters.len() == self.characters@.len());
    }

    /// A cursor on the first character of `characters`.
    pub fn new(characters: &'a Vec<char>) -> (r: IndexedCharacters<'a>)
        ensures
            r.chars() == characters@,
            r.offset() == 0,
    {
        IndexedCharacters { characters, index: 0 }
    }

    /// The cursor one character further on.
    pub fn progress(&self) -> (r: IndexedCharacters<'a>)
        requires
            self.offset() < usize::MAX,
        ensures
            r.chars() == self.chars(),
            r.offset() == self.offset() + 1,
    {
        self.jump(1)
    }

    /// The character just before the cursor, if there is one.
    pub fn previous_character(self) -> (r: Option<&'a char>)
        ensures
            r == (if 0 < self.offset() <= self.chars().len() {
                Some(&self.chars()[self.offset() - 1])
            } else {
                None::<&char>
            }),
    {
        if self.index == 0 || self.index > self.characters.len() {
            None
        } else {
            Some(&self.characters[self.index - 1])
        }
    }

    /// The character under the cursor, if the cursor is not past the end.
    pub fn current_character(self) -> (r: Option<&'a char>)
        ensures
            r == (if self.offset() < self.chars().len() {
                Some(&self.chars()[self.offset() as int])
            } else {
                None::<&char>
            }),
    {
        if self.index < self.characters.len() {
            Some(&self.characters[self.index])
        } else {
            None
        }
    }

    /// The offset of the cursor.
    pub fn get_index(self) -> (r: usize)
        ensures
            r == self.offset(),
    {
        self.index
    }

    /// The cursor `jump` characters further on.
    pub fn jump(&self, jump: usize) -> (r: IndexedCharacters<'a>)
        requires
            self.offset() + jump <= usize::MAX,
        ensures
            r.chars() == self.chars(),
            r.offset() == self.offset() + jump,
    {
        IndexedCharacters { characters: self.characters, index: self.index + jump }
    }
}

} // verus!
