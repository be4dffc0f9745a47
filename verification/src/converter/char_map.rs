use vstd::prelude::*;

use crate::text::{chars_of, flat_map, lemma_flat_map_take, push_char};

verus! {

/// Number of printable ASCII characters, from `!` to `~`.
pub const CHARS_PER_MAP: usize = 94;

/// The slot of `c` in a character map: printable ASCII characters, from `!`
/// (slot 0) to `~` (slot 93), have one; every other character has none.
pub open spec fn ascii_slot(c: char) -> Option<int> {
    if 33 <= c as int && c as int <= 126 {
        Some(c as int - 33)
    } else {
        None
    }
}

/// A substitution table for the printable ASCII characters.
#[derive(Clone, Copy, Debug)]
pub struct CharMap {
    data: [char; 94],
    pub insert_nonbreak: bool,
}

impl CharMap {
    /// The 94 substitutes, for `!` up to `~`.
    pub closed spec fn table(&self) -> Seq<char> {
        self.data@
    }

    /// Whether a no-break space follows each substituted character.
    pub closed spec fn nonbreak(&self) -> bool {
        self.insert_nonbreak
    }

    /// What `c` becomes: a character with a slot becomes the table's entry
    /// for it, followed by a no-break space when the map asks for one and the
    /// entry differs from `c`; any other character stays as it is.
    pub open spec fn chr_image(&self, c: char) -> Seq<char> {
        match ascii_slot(c) {
            Some(i) => {
                let d = self.table()[i];
                if self.nonbreak() && d != c {
                    seq![d, '\u{00A0}']
                } else {
                    seq![d]
                }
            },
            None => seq![c],
        }
    }

    /// What a whole string becomes, character by character.
    pub open spec fn string_image(&self, s: Seq<char>) -> Seq<char> {
        flat_map(s, |c: char| self.chr_image(c))
    }

    fn map_char_to_range(c: char) -> (r: Option<usize>)
        ensures
            r matches Some(i) ==> ascii_slot(c) == Some(i as int),
            r is None ==> ascii_slot(c) is None,
    {
        let code: u32 = c as u32;
        if 33 <= code && code <= 126 {
            Some((code - 33) as usize)
        } else {
            None
        }
    }

    /// Appends the image of `src` to `dest`.
    pub fn push_chr(&self, src: char, dest: &mut String)
        ensures
            final(dest)@ == old(dest)@ + self.chr_image(src),
    {
        proof { self.lemma_table_len(); }
        match Self::map_char_to_range(src) {
            Some(idx) => {
                let d = self.data[idx];
                push_char(dest, d);
                if self.insert_nonbreak && d != src {
                    push_char(dest, '\u{00A0}');
                }
            },
            None => {
                push_char(dest, src);
            },
        }
        assert(final(dest)@ =~= old(dest)@ + self.chr_image(src));
    }

    /// The image of one character.
    pub fn map_chr(&self, src: char) -> (r: String)
        ensures
            r@ == self.chr_image(src),
    {
        let mut s = String::new();
        self.push_chr(src, &mut s);
        assert(s@ =~= self.chr_image(src));
        s
    }

    /// The image of a string: each character replaced by its image.
    pub fn map_string(&self, src: &str) -> (r: String)
        ensures
            r@ == self.string_image(src@),
    {
        let chars = chars_of(src);
        let mut out = String::new();
        let ghost f = |c: char| self.chr_image(c);
        for i in 0..chars.len()
            invariant
                chars@ == src@,
                f == (|c: char| self.chr_image(c)),
                out@ == flat_map(src@.take(i as int), f),
        {
            proof { lemma_flat_map_take(src@, f, i as int); }
            self.push_chr(chars[i], &mut out);
        }
        assert(src@.take(chars.len() as int) =~= src@);
        out
    }

    /// Every map holds 94 entries.
    pub proof fn lemma_table_len(&self)
        ensures
            self.table().len() == CHARS_PER_MAP,
    {
    }

    pub fn new() -> (r: Self)
        ensures
            r.table() == Seq::new(94, |i: int| '\0'),
            !r.nonbreak(),
    {
        Self { data: ['\0'; 94], insert_nonbreak: false }
    }

    /// Sets whether substitutes are followed by a no-break space.
    pub fn set_nonbreak(&mut self, value: bool)
        ensures
            final(self).table() == old(self).table(),
            final(self).nonbreak() == value,
    {
        self.insert_nonbreak = value;
    }

    pub fn set_idx(&mut self, idx: usize, dst: char)
        requires
            idx < CHARS_PER_MAP,
        ensures
            final(self).table() == old(self).table().update(idx as int, dst),
            final(self).nonbreak() == old(self).nonbreak(),
    {
        self.data[idx] = dst;
    }
}

} // verus!
