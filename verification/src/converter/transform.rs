use vstd::prelude::*;

use crate::text::{chars_of, flat_map, is_white_space, lemma_flat_map_take, push_char, white_space};

verus! {

/// Where the star scanner stands after some prefix of a message.
pub enum Scan {
    /// Outside any marked range.
    Idle,
    /// Just after a star that may open a range.
    Opened,
    /// Inside a range whose first character is at `start`; `last_ws` tells
    /// whether the last character read was whitespace.
    Marking { start: int, last_ws: bool },
}

/// One step of the star scanner: character `c`, at position `i`.
///
/// A star opens a range when the character after it is not whitespace; the
/// range starts at that character and ends before the next star that does not
/// follow whitespace.
pub open spec fn scan_step(st: Scan, ranges: Seq<(int, int)>, i: int, c: char) -> (Scan, Seq<(int, int)>) {
    match st {
        Scan::Idle => if c == '*' {
            (Scan::Opened, ranges)
        } else {
            (Scan::Idle, ranges)
        },
        Scan::Opened => if white_space(c) {
            (Scan::Idle, ranges)
        } else {
            (Scan::Marking { start: i, last_ws: false }, ranges)
        },
        Scan::Marking { start, last_ws } => if !last_ws && c == '*' {
            (Scan::Idle, ranges.push((start, i)))
        } else {
            (Scan::Marking { start, last_ws: white_space(c) }, ranges)
        },
    }
}

/// The scanner's state and the ranges found, after reading all of `s`.
pub open spec fn scan(s: Seq<char>) -> (Scan, Seq<(int, int)>)
    decreases s.len(),
{
    if s.len() == 0 {
        (Scan::Idle, Seq::empty())
    } else {
        let (st, ranges) = scan(s.drop_last());
        scan_step(st, ranges, s.len() - 1, s.last())
    }
}

/// The marked ranges of `s`: each `(start, end)` covers the characters from
/// `start` up to, not including, `end`; the opening star is at `start - 1` and
/// the closing star at `end`.
pub open spec fn star_ranges(s: Seq<char>) -> Seq<(int, int)> {
    scan(s).1
}

/// Position `i` holds an opening or a closing star of one of `ranges`.
pub open spec fn is_star_of(ranges: Seq<(int, int)>, i: int) -> bool {
    exists|k: int| 0 <= k < ranges.len() && ((#[trigger] ranges[k]).0 - 1 == i || ranges[k].1 == i)
}

/// Position `i` lies inside one of `ranges`.
pub open spec fn is_inside(ranges: Seq<(int, int)>, i: int) -> bool {
    exists|k: int| 0 <= k < ranges.len() && (#[trigger] ranges[k]).0 <= i && i < ranges[k].1
}

/// What the character at `i` becomes: with no range at all, every character
/// is transformed; otherwise stars of a range vanish, characters inside a
/// range are transformed and the others are kept.
pub open spec fn piece(s: Seq<char>, ranges: Seq<(int, int)>, f: spec_fn(char) -> Seq<char>, i: int) -> Seq<char> {
    if ranges.len() == 0 {
        f(s[i])
    } else if is_star_of(ranges, i) {
        Seq::empty()
    } else if is_inside(ranges, i) {
        f(s[i])
    } else {
        seq![s[i]]
    }
}

/// The pieces of the first `n` characters, concatenated.
pub open spec fn pieces(s: Seq<char>, ranges: Seq<(int, int)>, f: spec_fn(char) -> Seq<char>, n: int) -> Seq<char>
    decreases n,
{
    if n <= 0 {
        Seq::empty()
    } else {
        pieces(s, ranges, f, n - 1) + piece(s, ranges, f, n - 1)
    }
}

/// The result of transforming `s` with the character transform `f`: only the
/// star-marked ranges when there are some, the whole message otherwise.
pub open spec fn marked_image(s: Seq<char>, f: spec_fn(char) -> Seq<char>) -> Seq<char> {
    pieces(s, star_ranges(s), f, s.len() as int)
}

/// Ranges that lie in `0..n`, each non-empty and preceded by room for its
/// opening star, in order, with at least one position between a closing star
/// and the next opening star.
pub open spec fn ranges_wf(ranges: Seq<(int, int)>, n: int) -> bool {
    &&& forall|k: int| 0 <= k < ranges.len() ==> 1 <= (#[trigger] ranges[k]).0 && ranges[k].0 < ranges[k].1 && ranges[k].1 < n
    &&& forall|k1: int, k2: int| 0 <= k1 < k2 < ranges.len() ==> (#[trigger] ranges[k1]).1 + 1 < (#[trigger] ranges[k2]).0
}

/// What the scanner guarantees of the ranges it found and of its state.
pub open spec fn scan_wf(st: Scan, ranges: Seq<(int, int)>, n: int) -> bool {
    &&& ranges_wf(ranges, n)
    &&& match st {
        Scan::Idle => true,
        Scan::Opened => n >= 1 && forall|k: int| 0 <= k < ranges.len() ==> (#[trigger] ranges[k]).1 < n - 1,
        Scan::Marking { start, last_ws } => 1 <= start && start < n && forall|k: int|
            0 <= k < ranges.len() ==> (#[trigger] ranges[k]).1 + 1 < start,
    }
}

pub proof fn lemma_scan_wf(s: Seq<char>)
    ensures
        scan_wf(scan(s).0, scan(s).1, s.len() as int),
    decreases s.len(),
{
    if s.len() > 0 {
        lemma_scan_wf(s.drop_last());
        let (st, rs) = scan(s.drop_last());
        let (st2, rs2) = scan(s);
        let i = s.len() - 1;
        if rs2 == rs {
            assert forall|k: int| 0 <= k < rs2.len() implies 1 <= (#[trigger] rs2[k]).0 && rs2[k].0
                < rs2[k].1 && rs2[k].1 < s.len() by {
                assert(rs[k].1 < i);
            }
            match st2 {
                Scan::Opened => {
                    assert forall|k: int| 0 <= k < rs2.len() implies (#[trigger] rs2[k]).1 < s.len()
                        - 1 by {
                        assert(rs[k].1 < i);
                    }
                },
                Scan::Marking { start, last_ws } => {
                    assert forall|k: int| 0 <= k < rs2.len() implies (#[trigger] rs2[k]).1 + 1
                        < start by {
                        assert(rs[k].1 < i);
                    }
                },
                _ => {},
            }
        } else {
            match st {
                Scan::Marking { start, last_ws } => {
                    assert(rs2 == rs.push((start, i)));
                    assert forall|k: int| 0 <= k < rs2.len() implies 1 <= (#[trigger] rs2[k]).0
                        && rs2[k].0 < rs2[k].1 && rs2[k].1 < s.len() by {
                        if k < rs.len() {
                            assert(rs2[k] == rs[k]);
                        }
                    }
                    assert forall|k1: int, k2: int| 0 <= k1 < k2 < rs2.len() implies (#[trigger] rs2[k1]).1
                        + 1 < (#[trigger] rs2[k2]).0 by {
                        assert(rs2[k1] == rs[k1]);
                        if k2 < rs.len() {
                            assert(rs2[k2] == rs[k2]);
                        }
                    }
                },
                _ => {},
            }
        }
    }
}

/// With the ranges in order, the position `i` reached while walking them
/// (all ranges before `k` are behind, and `i` has not passed the end of
/// range `k`) has the role that range `k` gives it.
pub proof fn lemma_role(ranges: Seq<(int, int)>, n: int, k: int, i: int)
    requires
        ranges_wf(ranges, n),
        0 <= k <= ranges.len(),
        forall|j: int| 0 <= j < k ==> (#[trigger] ranges[j]).1 < i,
        k < ranges.len() ==> i <= ranges[k].1,
    ensures
        k < ranges.len() && (i == ranges[k].0 - 1 || i == ranges[k].1) ==> is_star_of(ranges, i),
        k < ranges.len() && ranges[k].0 <= i < ranges[k].1 ==> !is_star_of(ranges, i) && is_inside(
            ranges,
            i,
        ),
        k == ranges.len() || i < ranges[k].0 - 1 ==> !is_star_of(ranges, i) && !is_inside(ranges, i),
{
    if k < ranges.len() && ranges[k].0 <= i < ranges[k].1 {
        assert forall|j: int| 0 <= j < ranges.len() implies !((#[trigger] ranges[j]).0 - 1 == i
            || ranges[j].1 == i) by {
            if j > k {
                assert(ranges[k].1 + 1 < ranges[j].0);
            }
        }
    }
    if k == ranges.len() || i < ranges[k].0 - 1 {
        assert forall|j: int| 0 <= j < ranges.len() implies !((#[trigger] ranges[j]).0 - 1 == i
            || ranges[j].1 == i) by {
            if j > k {
                assert(ranges[k].1 + 1 < ranges[j].0);
            }
        }
        assert forall|j: int| 0 <= j < ranges.len() implies !((#[trigger] ranges[j]).0 <= i && i
            < ranges[j].1) by {
            if j > k {
                assert(ranges[k].1 + 1 < ranges[j].0);
            }
        }
    }
}

/// With no marked range, the pieces of the first `n` characters are their
/// images.
pub proof fn lemma_pieces_unmarked(s: Seq<char>, f: spec_fn(char) -> Seq<char>, n: int)
    requires
        0 <= n <= s.len(),
    ensures
        pieces(s, Seq::empty(), f, n) == flat_map(s.take(n), f),
    decreases n,
{
    if n > 0 {
        lemma_pieces_unmarked(s, f, n - 1);
        lemma_flat_map_take(s, f, n - 1);
    } else {
        assert(s.take(0) =~= Seq::<char>::empty());
    }
}

/// A message in which no range is marked is transformed whole.
pub proof fn law_unmarked_message_transformed_whole(s: Seq<char>, f: spec_fn(char) -> Seq<char>)
    requires
        star_ranges(s).len() == 0,
    ensures
        marked_image(s, f) == flat_map(s, f),
{
    assert(star_ranges(s) =~= Seq::<(int, int)>::empty());
    lemma_pieces_unmarked(s, f, s.len() as int);
    assert(s.take(s.len() as int) =~= s);
}

/// Without a star, the scanner stays idle and finds no range.
pub proof fn lemma_scan_starless(s: Seq<char>)
    requires
        forall|i: int| 0 <= i < s.len() ==> s[i] != '*',
    ensures
        scan(s).0 == Scan::Idle,
        scan(s).1.len() == 0,
    decreases s.len(),
{
    if s.len() > 0 {
        lemma_scan_starless(s.drop_last());
        assert(s.last() == s[s.len() - 1]);
    }
}

/// A message without a star is transformed whole.
pub proof fn law_starless_message_transformed_whole(s: Seq<char>, f: spec_fn(char) -> Seq<char>)
    requires
        forall|i: int| 0 <= i < s.len() ==> s[i] != '*',
    ensures
        star_ranges(s).len() == 0,
        marked_image(s, f) == flat_map(s, f),
{
    lemma_scan_starless(s);
    law_unmarked_message_transformed_whole(s, f);
}

/// Inside a starred word, the scanner is marking from position 1.
pub proof fn lemma_scan_starred(t: Seq<char>, k: int)
    requires
        1 <= k <= t.len(),
        forall|i: int| 0 <= i < t.len() ==> t[i] != '*',
        !white_space(t[0]),
    ensures
        scan((seq!['*'] + t).take(k + 1)) == (Scan::Marking { start: 1, last_ws: white_space(t[k - 1]) }, Seq::<(int, int)>::empty()),
    decreases k,
{
    let s = seq!['*'] + t;
    if k == 1 {
        let one = seq!['*'];
        assert(one.drop_last() =~= Seq::<char>::empty());
        assert(scan(one.drop_last()) == (Scan::Idle, Seq::<(int, int)>::empty()));
        assert(scan(one) == (Scan::Opened, Seq::<(int, int)>::empty()));
        assert(s.take(2).drop_last() =~= one);
        assert(s.take(2).last() == t[0]);
    } else {
        lemma_scan_starred(t, k - 1);
        assert(s.take(k + 1).drop_last() =~= s.take(k));
        assert(s.take(k + 1).last() == t[k - 1]);
    }
}

/// `*word*`, where the word has no star and neither starts nor ends with
/// whitespace, becomes the word's image: the word is transformed and the
/// stars are dropped.
pub proof fn law_starred_word_transformed(t: Seq<char>, f: spec_fn(char) -> Seq<char>)
    requires
        t.len() >= 1,
        forall|i: int| 0 <= i < t.len() ==> t[i] != '*',
        !white_space(t[0]),
        !white_space(t.last()),
    ensures
        star_ranges(seq!['*'] + t + seq!['*']) == seq![(1int, t.len() + 1int)],
        marked_image(seq!['*'] + t + seq!['*'], f) == flat_map(t, f),
{
    let s = seq!['*'] + t + seq!['*'];
    let n = t.len() as int;
    lemma_scan_starred(t, n);
    assert(s.drop_last() =~= (seq!['*'] + t).take(n + 1));
    assert(s.last() == '*');
    let rs = star_ranges(s);
    assert(rs =~= seq![(1int, n + 1)]);
    assert(is_star_of(rs, 0)) by {
        assert(rs[0].0 - 1 == 0);
    }
    assert(is_star_of(rs, n + 1)) by {
        assert(rs[0].1 == n + 1);
    }
    assert(pieces(s, rs, f, 0) == Seq::<char>::empty());
    assert(pieces(s, rs, f, 1) =~= Seq::<char>::empty());
    assert forall|m: int| 1 <= m <= n + 1 implies pieces(s, rs, f, m) == flat_map(t.take(m - 1), f) by {
        lemma_pieces_starred(s, t, rs, f, m);
    }
    assert(pieces(s, rs, f, n + 2) == pieces(s, rs, f, n + 1));
    assert(t.take(n) =~= t);
}

proof fn lemma_pieces_starred(
    s: Seq<char>,
    t: Seq<char>,
    rs: Seq<(int, int)>,
    f: spec_fn(char) -> Seq<char>,
    m: int,
)
    requires
        s == seq!['*'] + t + seq!['*'],
        rs == seq![(1int, t.len() + 1int)],
        1 <= m <= t.len() + 1,
    ensures
        pieces(s, rs, f, m) == flat_map(t.take(m - 1), f),
    decreases m,
{
    if m == 1 {
        assert(is_star_of(rs, 0)) by {
            assert(rs[0].0 - 1 == 0);
        }
        assert(t.take(0) =~= Seq::<char>::empty());
        assert(pieces(s, rs, f, 0) == Seq::<char>::empty());
        assert(pieces(s, rs, f, 1) =~= Seq::<char>::empty());
    } else {
        lemma_pieces_starred(s, t, rs, f, m - 1);
        let i = m - 1;
        assert(!is_star_of(rs, i));
        assert(is_inside(rs, i)) by {
            assert(rs[0].0 <= i && i < rs[0].1);
        }
        assert(s[i] == t[i - 1]);
        lemma_flat_map_take(t, f, i - 1);
    }
}

/// Turns characters into text, one at a time.
pub trait Transformer {
    /// What `c` becomes.
    spec fn emits(&self, c: char) -> Seq<char>;

    /// Appends what `src` becomes to `dest`.
    fn transform_chr(&mut self, src: char, dest: &mut String)
        ensures
            final(dest)@ == old(dest)@ + old(self).emits(src),
            forall|c: char| #[trigger] final(self).emits(c) == old(self).emits(c),
    ;
}

/// A text transform: marked ranges of a message, or the whole message, are
/// turned character by character into other text.
pub trait Transform {
    type Worker: Transformer;

    /// What `c` becomes under this transform.
    spec fn char_image(&self, c: char) -> Seq<char>;

    /// A transformer that does this transform.
    fn get_transfomer(&self) -> (t: Self::Worker)
        ensures
            forall|c: char| #[trigger] t.emits(c) == self.char_image(c),
    ;

    /// Transforms `src`: when `*` ... `*` marks ranges in it (an opening star
    /// followed by a non-whitespace character, a closing star that does not
    /// follow whitespace), only those ranges are transformed and their stars
    /// dropped; otherwise the whole message is transformed.
    fn map_string(&self, src: &str) -> (r: String)
        ensures
            r@ == marked_image(src@, |c: char| self.char_image(c)),
    {
        let ghost f = |c: char| self.char_image(c);
        let chars = chars_of(src);
        let n = chars.len();

        // First, look for ranges to map
        let mut ranges: Vec<(usize, usize)> = Vec::new();
        let mut opened = false;
        let mut marking = false;
        let mut start: usize = 0;
        let mut last_ws = false;
        for i in 0..n
            invariant
                n == chars@.len(),
                chars@ == src@,
                !(opened && marking),
                ranges@.len() == scan(src@.take(i as int)).1.len(),
                forall|k: int| 0 <= k < ranges@.len() ==> (#[trigger] ranges@[k]).0 as int == scan(
                    src@.take(i as int),
                ).1[k].0 && ranges@[k].1 as int == scan(src@.take(i as int)).1[k].1,
                scan(src@.take(i as int)).0 == (if opened {
                    Scan::Opened
                } else if marking {
                    Scan::Marking { start: start as int, last_ws }
                } else {
                    Scan::Idle
                }),
        {
            let c = chars[i];
            let ghost prev = src@.take(i as int);
            assert(src@.take(i + 1).drop_last() =~= prev);
            if opened {
                opened = false;
                if !is_white_space(c) {
                    marking = true;
                    start = i;
                    last_ws = false;
                }
            } else if marking {
                if !last_ws && c == '*' {
                    ranges.push((start, i));
                    marking = false;
                } else {
                    last_ws = is_white_space(c);
                }
            } else if c == '*' {
                opened = true;
            }
        }
        assert(src@.take(n as int) =~= src@);
        let ghost rs = star_ranges(src@);
        proof { lemma_scan_wf(src@); }

        // Now map actual ranges
        let mut transformer = self.get_transfomer();
        let mut result = String::new();

        if ranges.len() == 0 {
            // No ranges, map everything
            for i in 0..n
                invariant
                    n == chars@.len(),
                    chars@ == src@,
                    rs.len() == 0,
                    rs == star_ranges(src@),
                    forall|c: char| #[trigger] transformer.emits(c) == f(c),
                    f == (|c: char| self.char_image(c)),
                    result@ == pieces(src@, rs, f, i as int),
            {
                transformer.transform_chr(chars[i], &mut result);
            }
        } else {
            let mut k: usize = 0;
            assert(rs[0].0 >= 1);
            for i in 0..n
                invariant
                    n == chars@.len(),
                    chars@ == src@,
                    rs == star_ranges(src@),
                    ranges_wf(rs, n as int),
                    rs.len() > 0,
                    ranges@.len() == rs.len(),
                    forall|j: int| 0 <= j < ranges@.len() ==> (#[trigger] ranges@[j]).0 as int
                        == rs[j].0 && ranges@[j].1 as int == rs[j].1,
                    forall|c: char| #[trigger] transformer.emits(c) == f(c),
                    f == (|c: char| self.char_image(c)),
                    0 <= k <= rs.len(),
                    forall|j: int| 0 <= j < k ==> (#[trigger] rs[j]).1 < i,
                    k < rs.len() ==> i <= rs[k as int].1,
                    result@ == pieces(src@, rs, f, i as int),
            {
                let c = chars[i];
                proof { lemma_role(rs, n as int, k as int, i as int); }
                if k < ranges.len() {
                    let (rstart, rend) = ranges[k];
                    if i + 1 == rstart {
                        // Do not push mapping open star
                    } else if i >= rstart && i < rend {
                        // Inside mapping, transform char
                        transformer.transform_chr(c, &mut result);
                    } else if i == rend {
                        // Do not push mapping closing star
                        // Switch to next mapping
                        k = k + 1;
                        proof {
                            if k < rs.len() {
                                assert(rs[k - 1].1 + 1 < rs[k as int].0);
                            }
                        }
                    } else {
                        // Not yet in mapping
                        push_char(&mut result, c);
                    }
                } else {
                    push_char(&mut result, c);
                }
                assert(result@ =~= pieces(src@, rs, f, i + 1));
            }
        }
        result
    }
}

} // verus!
