use vstd::prelude::*;

use super::char_map::CharMap;
use super::transform::{Transform, Transformer, law_unmarked_message_transformed_whole, marked_image, star_ranges};

verus! {

/// A transform that substitutes characters through a character map.
#[derive(Debug, Clone, Copy)]
pub struct MapTransform {
    char_map: CharMap,
}

impl MapTransform {
    /// The character map this transform applies.
    pub closed spec fn chars(&self) -> CharMap {
        self.char_map
    }

    pub fn new(char_map: CharMap) -> (r: Self)
        ensures
            r.chars() == char_map,
    {
        Self { char_map }
    }
}

/// On a message without marked ranges, a map transform gives what its
/// character map gives for the whole string.
pub proof fn law_map_transform_unmarked(m: MapTransform, s: Seq<char>)
    requires
        star_ranges(s).len() == 0,
    ensures
        marked_image(s, |c: char| m.char_image(c)) == m.chars().string_image(s),
{
    let f = |c: char| m.char_image(c);
    let g = |c: char| m.chars().chr_image(c);
    assert(f =~= g);
    law_unmarked_message_transformed_whole(s, f);
}

/// Applies a map, one character at a time.
pub struct MapTransformer {
    char_map: CharMap,
}

impl Transformer for MapTransformer {
    closed spec fn emits(&self, c: char) -> Seq<char> {
        self.char_map.chr_image(c)
    }

    fn transform_chr(&mut self, src: char, dest: &mut String) {
        self.char_map.push_chr(src, dest);
    }
}

impl Transform for MapTransform {
    type Worker = MapTransformer;

    open spec fn char_image(&self, c: char) -> Seq<char> {
        self.chars().chr_image(c)
    }

    fn get_transfomer(&self) -> (t: MapTransformer) {
        let t = MapTransformer { char_map: self.char_map };
        assert forall|c: char| #[trigger] t.emits(c) == self.char_image(c) by {}
        t
    }
}

} // verus!
