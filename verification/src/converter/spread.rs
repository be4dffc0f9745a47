use vstd::prelude::*;

use super::transform::{Transform, Transformer, law_unmarked_message_transformed_whole, marked_image, star_ranges};
use crate::text::{flat_map, push_char};

verus! {

/// A transform that follows every character with a space.
#[derive(Debug, Clone, Copy)]
pub struct Spread {}

impl Spread {
    pub fn new() -> (r: Self)
        ensures
            r == (Spread {}),
    {
        Spread {}
    }
}

/// Spreading a message with no marked range follows each of its characters,
/// whitespace included, with exactly one space: the result is twice as long,
/// its character `2k` is the message's character `k` and its character
/// `2k + 1` is a space.
pub proof fn law_spread_follows_every_character_with_a_space(sp: Spread, s: Seq<char>)
    requires
        star_ranges(s).len() == 0,
    ensures
        marked_image(s, |c: char| sp.char_image(c)).len() == 2 * s.len(),
        forall|k: int|
            0 <= k < s.len() ==> marked_image(s, |c: char| sp.char_image(c))[2 * k] == s[k]
                && marked_image(s, |c: char| sp.char_image(c))[2 * k + 1] == ' ',
{
    let f = |c: char| sp.char_image(c);
    law_unmarked_message_transformed_whole(s, f);
    lemma_spread_image(sp, s);
}

proof fn lemma_spread_image(sp: Spread, s: Seq<char>)
    ensures
        flat_map(s, |c: char| sp.char_image(c)).len() == 2 * s.len(),
        forall|k: int|
            0 <= k < s.len() ==> flat_map(s, |c: char| sp.char_image(c))[2 * k] == s[k]
                && flat_map(s, |c: char| sp.char_image(c))[2 * k + 1] == ' ',
    decreases s.len(),
{
    let f = |c: char| sp.char_image(c);
    if s.len() > 0 {
        let d = s.drop_last();
        lemma_spread_image(sp, d);
        let r = flat_map(s, f);
        let rd = flat_map(d, f);
        assert(r == rd + seq![s.last(), ' ']);
        assert forall|k: int| 0 <= k < s.len() implies r[2 * k] == s[k] && r[2 * k + 1] == ' ' by {
            if k < d.len() {
                assert(d[k] == s[k]);
                assert(r[2 * k] == rd[2 * k]);
                assert(r[2 * k + 1] == rd[2 * k + 1]);
            } else {
                assert(k == s.len() - 1);
            }
        }
    }
}

/// Spreads text, one character at a time.
#[derive(Debug, Clone, Copy)]
pub struct SpreadTransformer {}

impl SpreadTransformer {
    pub fn new() -> (r: Self)
        ensures
            r == (SpreadTransformer {}),
    {
        SpreadTransformer {}
    }
}

impl Transformer for SpreadTransformer {
    open spec fn emits(&self, c: char) -> Seq<char> {
        seq![c, ' ']
    }

    fn transform_chr(&mut self, src: char, dest: &mut String) {
        push_char(dest, src);
        push_char(dest, ' ');
        assert(final(dest)@ =~= old(dest)@ + seq![src, ' ']);
    }
}

impl Transform for Spread {
    type Worker = SpreadTransformer;

    open spec fn char_image(&self, c: char) -> Seq<char> {
        seq![c, ' ']
    }

    fn get_transfomer(&self) -> (t: SpreadTransformer) {
        let t = SpreadTransformer::new();
        assert forall|c: char| #[trigger] t.emits(c) == self.char_image(c) by {}
        t
    }
}

} // verus!
