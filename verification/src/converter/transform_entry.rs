use vstd::prelude::*;

use heck::SnakeCase;

use super::map::{MapTransform, MapTransformer};
use super::spread::{Spread, SpreadTransformer};
use super::transform::{Transform, Transformer};
use crate::text::{law_remove_char_deletes_every_occurrence, lemma_without_keeps_absent, no_ascii_upper, remove_all, without};

verus! {

/// What `heck`'s `to_snake_case` makes of a string: its words, lower-cased
/// and joined by underscores.
pub uninterp spec fn snake_case(s: Seq<char>) -> Seq<char>;

/// Calls `heck::SnakeCase::to_snake_case` on `s`. Its result is taken to be
/// `snake_case` of the characters of `s`; how words are cut is left to `heck`
/// and stated nowhere here. What is stated: every word is written through
/// `char::to_lowercase` and words are joined by `_`, so the result holds no
/// ASCII uppercase letter.
#[verifier::external_body]
fn to_snake_case(s: &str) -> (r: String)
    ensures
        r@ == snake_case(s@),
        no_ascii_upper(r@),
{
    s.to_snake_case()
}

/// The display name of a transform: its full name without parentheses and
/// without the words " pseudoalphabet".
pub open spec fn display_name(full_name: Seq<char>) -> Seq<char> {
    without(without(without(full_name, "("@), ")"@), " pseudoalphabet"@)
}

/// What a transform is, as a value: a character map (its table and whether
/// it adds no-break spaces) or spreading.
pub enum KindModel {
    CharMap { table: Seq<char>, nonbreak: bool },
    Spread,
}

/// What a list entry is, as a value.
pub struct EntryModel {
    pub short_name: Seq<char>,
    pub name: Seq<char>,
    pub full_name: Seq<char>,
    pub idx: int,
    pub kind: KindModel,
}

/// A display name holds no parenthesis, whatever the full name.
pub proof fn law_display_name_has_no_parentheses(full_name: Seq<char>)
    ensures
        forall|i: int|
            0 <= i < display_name(full_name).len() ==> display_name(full_name)[i] != '('
                && display_name(full_name)[i] != ')',
{
    reveal_strlit("(");
    reveal_strlit(")");
    assert("("@ =~= seq!['(']);
    assert(")"@ =~= seq![')']);
    let s1 = without(full_name, "("@);
    let s2 = without(s1, ")"@);
    law_remove_char_deletes_every_occurrence(full_name, '(');
    law_remove_char_deletes_every_occurrence(s1, ')');
    lemma_without_keeps_absent(s1, ")"@, '(');
    lemma_without_keeps_absent(s2, " pseudoalphabet"@, '(');
    lemma_without_keeps_absent(s2, " pseudoalphabet"@, ')');
}

/// The transforms a list can hold.
#[derive(Debug, Clone, Copy)]
pub enum TransformKind {
    CharMap(MapTransform),
    Spread(Spread),
}

/// The transformer of a `TransformKind`.
pub enum KindTransformer {
    CharMap(MapTransformer),
    Spread(SpreadTransformer),
}

impl Transformer for KindTransformer {
    open spec fn emits(&self, c: char) -> Seq<char> {
        match self {
            KindTransformer::CharMap(t) => t.emits(c),
            KindTransformer::Spread(t) => t.emits(c),
        }
    }

    fn transform_chr(&mut self, src: char, dest: &mut String) {
        match self {
            KindTransformer::CharMap(t) => t.transform_chr(src, dest),
            KindTransformer::Spread(t) => t.transform_chr(src, dest),
        }
    }
}

impl TransformKind {
    pub open spec fn model(&self) -> KindModel {
        match self {
            TransformKind::CharMap(m) => KindModel::CharMap {
                table: m.chars().table(),
                nonbreak: m.chars().nonbreak(),
            },
            TransformKind::Spread(_) => KindModel::Spread,
        }
    }
}

impl Transform for TransformKind {
    type Worker = KindTransformer;

    open spec fn char_image(&self, c: char) -> Seq<char> {
        match self {
            TransformKind::CharMap(m) => m.char_image(c),
            TransformKind::Spread(s) => s.char_image(c),
        }
    }

    fn get_transfomer(&self) -> (t: KindTransformer) {
        match self {
            TransformKind::CharMap(m) => {
                let w = m.get_transfomer();
                let t = KindTransformer::CharMap(w);
                assert forall|c: char| #[trigger] t.emits(c) == self.char_image(c) by {
                    assert(w.emits(c) == m.char_image(c));
                }
                t
            },
            TransformKind::Spread(s) => {
                let w = s.get_transfomer();
                let t = KindTransformer::Spread(w);
                assert forall|c: char| #[trigger] t.emits(c) == self.char_image(c) by {
                    assert(w.emits(c) == s.char_image(c));
                }
                t
            },
        }
    }
}

/// A named transform, as listed for users.
#[derive(Debug)]
pub struct TransformEntry {
    /// The name users ask for: the display name in snake case.
    pub short_name: String,
    /// The display name.
    pub name: String,
    /// The name as it stands in the alphabet table.
    pub full_name: String,
    /// Position of the transform's line in the table.
    pub idx: usize,
    pub transform: TransformKind,
}

impl TransformEntry {
    pub open spec fn model(&self) -> EntryModel {
        EntryModel {
            short_name: self.short_name@,
            name: self.name@,
            full_name: self.full_name@,
            idx: self.idx as int,
            kind: self.transform.model(),
        }
    }

    pub fn new(idx: usize, name: &str, transform: TransformKind) -> (r: Self)
        ensures
            r.full_name@ == name@,
            r.name@ == display_name(name@),
            forall|i: int| 0 <= i < r.name@.len() ==> r.name@[i] != '(' && r.name@[i] != ')',
            r.short_name@ == snake_case(display_name(name@)),
            no_ascii_upper(r.short_name@),
            r.idx == idx,
            r.transform == transform,
    {
        proof {
            reveal_strlit("(");
            reveal_strlit(")");
            reveal_strlit(" pseudoalphabet");
        }
        let step1 = remove_all(name, "(");
        let step2 = remove_all(step1.as_str(), ")");
        let display = remove_all(step2.as_str(), " pseudoalphabet");
        let short_name = to_snake_case(display.as_str());
        proof {
            assert(display@ == display_name(name@));
            law_display_name_has_no_parentheses(name@);
        }
        Self { short_name, name: display, full_name: String::from_str(name), idx, transform }
    }

    /// The transform of this entry.
    pub fn transform(&self) -> (r: &TransformKind)
        ensures
            *r == self.transform,
    {
        &self.transform
    }
}

} // verus!
