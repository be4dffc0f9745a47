use vstd::prelude::*;

use crate::text::{flat_map, lemma_flat_map_concat, lemma_flat_map_take};

verus! {

/// One complete line of an alphabet table: the transform's name, then (after
/// a tab) the substitutes for `!` up to `~`, carriage returns left out.
pub struct Record {
    pub name: Seq<char>,
    pub body: Seq<char>,
}

/// Position of the first `c` in `s`, or `s.len()` when there is none.
pub open spec fn first_index(s: Seq<char>, c: char) -> int
    decreases s.len(),
{
    if s.len() == 0 {
        0
    } else if s[0] == c {
        0
    } else {
        1 + first_index(s.skip(1), c)
    }
}

pub proof fn lemma_first_index(s: Seq<char>, c: char)
    ensures
        0 <= first_index(s, c) <= s.len(),
        first_index(s, c) < s.len() ==> s[first_index(s, c)] == c,
        forall|j: int| 0 <= j < first_index(s, c) ==> s[j] != c,
    decreases s.len(),
{
    if s.len() > 0 && s[0] != c {
        lemma_first_index(s.skip(1), c);
        assert forall|j: int| 0 <= j < first_index(s, c) implies s[j] != c by {
            if j > 0 {
                assert(s[j] == s.skip(1)[j - 1]);
            }
        }
    }
}

/// `k` is the first position of `c` in `s`, or `k == s.len()` and `c` is
/// not in `s`.
pub proof fn lemma_first_index_is(s: Seq<char>, c: char, k: int)
    requires
        0 <= k <= s.len(),
        k < s.len() ==> s[k] == c,
        forall|j: int| 0 <= j < k ==> s[j] != c,
    ensures
        first_index(s, c) == k,
{
    lemma_first_index(s, c);
    let f = first_index(s, c);
    if f < k {
        assert(s[f] == c);
    }
    if k < f {
        assert(s[k] != c);
    }
}

/// What a character of a table line stands for: carriage returns vanish.
pub open spec fn cr_dropped(c: char) -> Seq<char> {
    if c == '\r' {
        Seq::empty()
    } else {
        seq![c]
    }
}

/// `s` without its carriage returns.
pub open spec fn drop_cr(s: Seq<char>) -> Seq<char> {
    flat_map(s, |c: char| cr_dropped(c))
}

/// The complete lines of an alphabet table, in order. A line's name runs up
/// to its first tab; its substitutes run from there up to the next line feed.
/// What follows the last line feed is not a line.
pub open spec fn records(s: Seq<char>) -> Seq<Record>
    decreases s.len(),
{
    let t = first_index(s, '\t');
    if t >= s.len() {
        Seq::empty()
    } else {
        let rest = s.skip(t + 1);
        let e = first_index(rest, '\n');
        if e >= rest.len() {
            Seq::empty()
        } else {
            proof {
                lemma_first_index(s, '\t');
                lemma_first_index(rest, '\n');
            }
            seq![Record { name: s.take(t), body: drop_cr(rest.take(e)) }] + records(rest.skip(e + 1))
        }
    }
}

/// Every line of the table, the unfinished last one included, has at most
/// 94 substitutes.
pub open spec fn table_fits(s: Seq<char>) -> bool
    decreases s.len(),
{
    let t = first_index(s, '\t');
    if t >= s.len() {
        true
    } else {
        let rest = s.skip(t + 1);
        let e = first_index(rest, '\n');
        if e >= rest.len() {
            drop_cr(rest).len() <= 94
        } else {
            proof {
                lemma_first_index(s, '\t');
                lemma_first_index(rest, '\n');
            }
            drop_cr(rest.take(e)).len() <= 94 && table_fits(rest.skip(e + 1))
        }
    }
}

/// Unfolds `records` and `table_fits` over a table starting with a complete
/// line whose tab is at `t` and whose line feed is at `e`.
pub proof fn lemma_records_line(s: Seq<char>, t: int, e: int)
    requires
        0 <= t < e < s.len(),
        s[t] == '\t',
        forall|j: int| 0 <= j < t ==> s[j] != '\t',
        s[e] == '\n',
        forall|j: int| t < j < e ==> s[j] != '\n',
    ensures
        records(s) == seq![Record { name: s.take(t), body: drop_cr(s.subrange(t + 1, e)) }] + records(
            s.skip(e + 1),
        ),
        table_fits(s) == (drop_cr(s.subrange(t + 1, e)).len() <= 94 && table_fits(s.skip(e + 1))),
{
    lemma_first_index_is(s, '\t', t);
    let rest = s.skip(t + 1);
    assert forall|j: int| 0 <= j < e - t - 1 implies rest[j] != '\n' by {
        assert(rest[j] == s[t + 1 + j]);
    }
    lemma_first_index_is(rest, '\n', e - t - 1);
    assert(rest.take(e - t - 1) =~= s.subrange(t + 1, e));
    assert(rest.skip(e - t) =~= s.skip(e + 1));
}

/// A table with no tab, or with a tab and no line feed after it, has no
/// complete line.
pub proof fn lemma_records_none(s: Seq<char>)
    requires
        forall|j: int| 0 <= j < s.len() ==> s[j] != '\t',
    ensures
        records(s) == Seq::<Record>::empty(),
        table_fits(s),
{
    lemma_first_index_is(s, '\t', s.len() as int);
}

pub proof fn lemma_records_unfinished(s: Seq<char>, t: int)
    requires
        0 <= t < s.len(),
        s[t] == '\t',
        forall|j: int| 0 <= j < t ==> s[j] != '\t',
        forall|j: int| t < j < s.len() ==> s[j] != '\n',
    ensures
        records(s) == Seq::<Record>::empty(),
        table_fits(s) == (drop_cr(s.skip(t + 1)).len() <= 94),
{
    lemma_first_index_is(s, '\t', t);
    let rest = s.skip(t + 1);
    assert forall|j: int| 0 <= j < rest.len() implies rest[j] != '\n' by {
        assert(rest[j] == s[t + 1 + j]);
    }
    lemma_first_index_is(rest, '\n', rest.len() as int);
}

/// Dropping carriage returns from a prefix never gives more characters than
/// dropping them from the whole.
pub proof fn lemma_drop_cr_prefix(s: Seq<char>, k: int)
    requires
        0 <= k <= s.len(),
    ensures
        drop_cr(s.take(k)).len() <= drop_cr(s).len(),
{
    let f = |c: char| cr_dropped(c);
    assert(s =~= s.take(k) + s.skip(k));
    lemma_flat_map_concat(s.take(k), s.skip(k), f);
}

/// Adding one character to a line adds its image.
pub proof fn lemma_drop_cr_step(s: Seq<char>, a: int, b: int)
    requires
        0 <= a <= b < s.len(),
    ensures
        drop_cr(s.subrange(a, b + 1)) == drop_cr(s.subrange(a, b)) + cr_dropped(s[b]),
{
    let f = |c: char| cr_dropped(c);
    let t = s.subrange(a, b + 1);
    lemma_flat_map_take(t, f, b - a);
    assert(t.take(b - a + 1) =~= t);
    assert(t.take(b - a) =~= s.subrange(a, b));
}

/// With no line feed from just after the tab at `t` up to `i`, a table that
/// fits has room for the character at `i` in that line.
pub proof fn lemma_fits_prefix(s: Seq<char>, t: int, i: int)
    requires
        0 <= t < i < s.len(),
        s[t] == '\t',
        forall|j: int| 0 <= j < t ==> s[j] != '\t',
        forall|j: int| t < j <= i ==> s[j] != '\n',
        table_fits(s),
    ensures
        drop_cr(s.subrange(t + 1, i + 1)).len() <= 94,
{
    let rest = s.skip(t + 1);
    lemma_first_index(rest, '\n');
    let e = first_index(rest, '\n');
    if e < rest.len() {
        let ee = t + 1 + e;
        assert(s[ee] == rest[e]);
        assert forall|j: int| t < j < ee implies s[j] != '\n' by {
            assert(s[j] == rest[j - t - 1]);
        }
        lemma_records_line(s, t, ee);
        let line = s.subrange(t + 1, ee);
        lemma_drop_cr_prefix(line, i - t);
        assert(line.take(i - t) =~= s.subrange(t + 1, i + 1));
    } else {
        assert forall|j: int| t < j < s.len() implies s[j] != '\n' by {
            assert(s[j] == rest[j - t - 1]);
        }
        lemma_records_unfinished(s, t);
        lemma_drop_cr_prefix(rest, i - t);
        assert(rest.take(i - t) =~= s.subrange(t + 1, i + 1));
    }
}

/// The 94 entries of a character map built from the substitutes `body`:
/// unfilled slots hold `'\0'`.
pub open spec fn filled_table(body: Seq<char>) -> Seq<char> {
    Seq::new(94, |j: int| if j < body.len() { body[j] } else { '\0' })
}

/// Lines whose name starts with `#` are comments.
pub open spec fn is_comment(name: Seq<char>) -> bool {
    name.len() > 0 && name[0] == '#'
}

} // verus!
