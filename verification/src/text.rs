use vstd::prelude::*;

verus! {

/// The concatenation of `f(c)` over the characters `c` of `s`, in order.
pub open spec fn flat_map(s: Seq<char>, f: spec_fn(char) -> Seq<char>) -> Seq<char>
    decreases s.len(),
{
    if s.len() == 0 {
        Seq::empty()
    } else {
        flat_map(s.drop_last(), f) + f(s.last())
    }
}

/// Extending a prefix of `s` by one character extends its image by that character's image.
pub proof fn lemma_flat_map_take(s: Seq<char>, f: spec_fn(char) -> Seq<char>, i: int)
    requires
        0 <= i < s.len(),
    ensures
        flat_map(s.take(i + 1), f) == flat_map(s.take(i), f) + f(s[i]),
{
    assert(s.take(i + 1).drop_last() =~= s.take(i));
}

/// The image of a concatenation is the concatenation of the images.
pub proof fn lemma_flat_map_concat(a: Seq<char>, b: Seq<char>, f: spec_fn(char) -> Seq<char>)
    ensures
        flat_map(a + b, f) == flat_map(a, f) + flat_map(b, f),
    decreases b.len(),
{
    if b.len() == 0 {
        assert(a + b =~= a);
        assert(flat_map(b, f) =~= Seq::<char>::empty());
        assert(flat_map(a, f) + flat_map(b, f) =~= flat_map(a, f));
    } else {
        assert((a + b).drop_last() =~= a + b.drop_last());
        lemma_flat_map_concat(a, b.drop_last(), f);
        assert(flat_map(a + b, f) =~= flat_map(a, f) + flat_map(b, f));
    }
}

/// Unicode `White_Space` characters (those for which `char::is_whitespace`
/// holds): tab to carriage return, space, next line, no-break space, ogham
/// space mark, en quad to hair space, line and paragraph separators, narrow
/// no-break space, medium mathematical space and ideographic space.
pub open spec fn white_space(c: char) -> bool {
    let u = c as int;
    ||| 0x09 <= u && u <= 0x0D
    ||| u == 0x20
    ||| u == 0x85
    ||| u == 0xA0
    ||| u == 0x1680
    ||| 0x2000 <= u && u <= 0x200A
    ||| u == 0x2028
    ||| u == 0x2029
    ||| u == 0x202F
    ||| u == 0x205F
    ||| u == 0x3000
}

/// ASCII whitespace (as `char::is_ascii_whitespace`): space, tab, line feed,
/// form feed and carriage return.
pub open spec fn ascii_white_space(c: char) -> bool {
    c == ' ' || c == '\t' || c == '\n' || c == '\x0C' || c == '\r'
}

pub fn is_white_space(c: char) -> (r: bool)
    ensures
        r == white_space(c),
{
    let u: u32 = c as u32;
    (0x09 <= u && u <= 0x0D) || u == 0x20 || u == 0x85 || u == 0xA0 || u == 0x1680 || (0x2000 <= u
        && u <= 0x200A) || u == 0x2028 || u == 0x2029 || u == 0x202F || u == 0x205F || u == 0x3000
}

pub fn is_ascii_white_space(c: char) -> (r: bool)
    ensures
        r == ascii_white_space(c),
{
    c == ' ' || c == '\t' || c == '\n' || c == '\x0C' || c == '\r'
}

/// Position of the first character of `s` that satisfies `p`, or `s.len()`
/// when there is none.
pub open spec fn find_first(s: Seq<char>, p: spec_fn(char) -> bool) -> int
    decreases s.len(),
{
    if s.len() == 0 {
        0
    } else if p(s[0]) {
        0
    } else {
        1 + find_first(s.skip(1), p)
    }
}

pub proof fn lemma_find_first(s: Seq<char>, p: spec_fn(char) -> bool)
    ensures
        0 <= find_first(s, p) <= s.len(),
        find_first(s, p) < s.len() ==> p(s[find_first(s, p)]),
        forall|j: int| 0 <= j < find_first(s, p) ==> !p(#[trigger] s[j]),
    decreases s.len(),
{
    if s.len() > 0 && !p(s[0]) {
        lemma_find_first(s.skip(1), p);
        assert forall|j: int| 0 <= j < find_first(s, p) implies !p(#[trigger] s[j]) by {
            if j > 0 {
                assert(s[j] == s.skip(1)[j - 1]);
            }
        }
    }
}

/// `k` is where the first character satisfying `p` stands.
pub proof fn lemma_find_first_is(s: Seq<char>, p: spec_fn(char) -> bool, k: int)
    requires
        0 <= k <= s.len(),
        k < s.len() ==> p(s[k]),
        forall|j: int| 0 <= j < k ==> !p(#[trigger] s[j]),
    ensures
        find_first(s, p) == k,
    decreases k,
{
    if k > 0 {
        assert(!p(s[0]));
        assert forall|j: int| 0 <= j < k - 1 implies !p(#[trigger] s.skip(1)[j]) by {
            assert(s.skip(1)[j] == s[j + 1]);
        }
        if k < s.len() {
            assert(s.skip(1)[k - 1] == s[k]);
        }
        lemma_find_first_is(s.skip(1), p, k - 1);
    }
}

/// The characters of `s`, in order.
pub fn chars_of(s: &str) -> (r: Vec<char>)
    ensures
        r@ == s@,
{
    let mut out: Vec<char> = Vec::new();
    for c in it: s.chars()
        invariant
            out@ == it.seq().take(it.index() as int),
            it.seq() == s@,
    {
        out.push(c);
    }
    out
}

/// `s` with every occurrence of `pat` removed, scanning left to right and
/// taking matches that do not overlap (what `str::replace(pat, "")` gives).
pub open spec fn without(s: Seq<char>, pat: Seq<char>) -> Seq<char>
    decreases s.len(),
{
    if pat.len() == 0 || s.len() < pat.len() {
        s
    } else if s.take(pat.len() as int) == pat {
        without(s.skip(pat.len() as int), pat)
    } else {
        seq![s[0]] + without(s.skip(1), pat)
    }
}

/// Whether `pat` occurs in `s` at position `i`.
fn occurs_at(s: &Vec<char>, i: usize, pat: &Vec<char>) -> (r: bool)
    requires
        i + pat@.len() <= s@.len(),
    ensures
        r == (s@.subrange(i as int, i + pat@.len()) == pat@),
{
    let ls = s.len();
    let mut j: usize = 0;
    while j < pat.len()
        invariant
            ls == s@.len(),
            i + pat@.len() <= s@.len(),
            j <= pat@.len(),
            forall|k: int| 0 <= k < j ==> s@[i + k] == pat@[k],
        decreases pat@.len() - j,
    {
        if s[i + j] != pat[j] {
            assert(s@.subrange(i as int, i + pat@.len())[j as int] != pat@[j as int]);
            return false;
        }
        j = j + 1;
    }
    assert(s@.subrange(i as int, i + pat@.len()) =~= pat@);
    true
}

/// `s` holds no ASCII uppercase letter.
pub open spec fn no_ascii_upper(s: Seq<char>) -> bool {
    forall|i: int| 0 <= i < s.len() ==> !('A' <= #[trigger] s[i] && s[i] <= 'Z')
}

/// Removing a one-character pattern deletes every occurrence of that
/// character and keeps all other characters in order: the result is the
/// source filtered by `c != p`, and no character of it is `p`.
pub proof fn law_remove_char_deletes_every_occurrence(s: Seq<char>, p: char)
    ensures
        without(s, seq![p]) == s.filter(|c: char| c != p),
        forall|i: int| 0 <= i < without(s, seq![p]).len() ==> without(s, seq![p])[i] != p,
    decreases s.len(),
{
    let pred = |c: char| c != p;
    let pat = seq![p];
    if s.len() == 0 {
        reveal(Seq::filter);
        assert(s.filter(pred) =~= s);
    } else {
        law_remove_char_deletes_every_occurrence(s.skip(1), p);
        let head = seq![s[0]];
        assert(s =~= head + s.skip(1));
        Seq::filter_distributes_over_add(head, s.skip(1), pred);
        reveal(Seq::filter);
        assert(head.drop_last() =~= Seq::<char>::empty());
        assert(Seq::<char>::empty().filter(pred) =~= Seq::<char>::empty());
        if s[0] == p {
            assert(s.take(1) =~= pat);
            assert(head.filter(pred) =~= Seq::<char>::empty());
            assert(without(s, pat) == without(s.skip(1), pat));
            assert(s.filter(pred) =~= s.skip(1).filter(pred));
        } else {
            assert(s.take(1)[0] != pat[0]);
            assert(s.take(1) != pat);
            assert(head.filter(pred) =~= head);
            assert(without(s, pat) == seq![s[0]] + without(s.skip(1), pat));
            assert(s.filter(pred) =~= head + s.skip(1).filter(pred));
        }
    }
    assert forall|i: int| 0 <= i < without(s, pat).len() implies without(s, pat)[i] != p by {
        s.lemma_filter_pred(pred, i);
    }
}

/// Removing a pattern never brings in a character that the source lacks.
pub proof fn lemma_without_keeps_absent(s: Seq<char>, pat: Seq<char>, c: char)
    requires
        forall|i: int| 0 <= i < s.len() ==> s[i] != c,
    ensures
        forall|i: int| 0 <= i < without(s, pat).len() ==> without(s, pat)[i] != c,
    decreases s.len(),
{
    if pat.len() == 0 || s.len() < pat.len() {
    } else if s.take(pat.len() as int) == pat {
        assert forall|i: int| 0 <= i < s.skip(pat.len() as int).len() implies s.skip(pat.len() as int)[i] != c by {
            assert(s.skip(pat.len() as int)[i] == s[i + pat.len()]);
        }
        lemma_without_keeps_absent(s.skip(pat.len() as int), pat, c);
        assert(without(s, pat) == without(s.skip(pat.len() as int), pat));
    } else {
        assert forall|i: int| 0 <= i < s.skip(1).len() implies s.skip(1)[i] != c by {
            assert(s.skip(1)[i] == s[i + 1]);
        }
        lemma_without_keeps_absent(s.skip(1), pat, c);
        let w = without(s, pat);
        let rest = without(s.skip(1), pat);
        assert(w == seq![s[0]] + rest);
        assert forall|i: int| 0 <= i < w.len() implies w[i] != c by {
            if i == 0 {
                assert(w[0] == s[0]);
            } else {
                assert(w[i] == without(s.skip(1), pat)[i - 1]);
            }
        }
    }
}

/// Whether `pat` occurs in `s`.
pub open spec fn contains_seq(s: Seq<char>, pat: Seq<char>) -> bool {
    exists|j: int| 0 <= j && j + pat.len() <= s.len() && #[trigger] s.subrange(j, j + pat.len()) == pat
}

/// Whether `pat` occurs in `s` (as `str::contains`).
pub fn contains_text(s: &str, pat: &str) -> (r: bool)
    ensures
        r == contains_seq(s@, pat@),
{
    let cs = chars_of(s);
    let cp = chars_of(pat);
    let n = cs.len();
    let m = cp.len();
    if m > n {
        return false;
    }
    if m == 0 {
        assert(s@.subrange(0int, 0int + pat@.len()) =~= pat@);
        return true;
    }
    let mut i: usize = 0;
    while i <= n - m
        invariant
            cs@ == s@,
            cp@ == pat@,
            n == s@.len(),
            m == pat@.len(),
            0 < m <= n,
            i <= n - m + 1,
            forall|j: int| 0 <= j < i ==> #[trigger] s@.subrange(j, j + m) != pat@,
        decreases n - m + 1 - i,
    {
        if occurs_at(&cs, i, &cp) {
            return true;
        }
        i = i + 1;
    }
    false
}

/// Whether `a` and `b` hold the same characters.
pub fn same_text(a: &str, b: &str) -> (r: bool)
    ensures
        r == (a@ == b@),
{
    let ca = chars_of(a);
    let cb = chars_of(b);
    if ca.len() != cb.len() {
        return false;
    }
    let mut i: usize = 0;
    while i < ca.len()
        invariant
            ca@ == a@,
            cb@ == b@,
            ca@.len() == cb@.len(),
            i <= ca@.len(),
            forall|j: int| 0 <= j < i ==> a@[j] == b@[j],
        decreases ca@.len() - i,
    {
        if ca[i] != cb[i] {
            return false;
        }
        i = i + 1;
    }
    assert(a@ =~= b@);
    true
}

/// `src` with every occurrence of `pat` removed.
pub fn remove_all(src: &str, pat: &str) -> (r: String)
    requires
        pat@.len() > 0,
    ensures
        r@ == without(src@, pat@),
        pat@.len() == 1 ==> r@ == src@.filter(|c: char| c != pat@[0]),
        pat@.len() == 1 ==> forall|i: int| 0 <= i < r@.len() ==> r@[i] != pat@[0],
{
    proof {
        if pat@.len() == 1 {
            let p = pat@[0];
            assert(pat@ =~= seq![p]);
            law_remove_char_deletes_every_occurrence(src@, p);
            assert((|c: char| c != pat@[0]) =~= (|c: char| c != p));
        }
    }
    let s = chars_of(src);
    let p = chars_of(pat);
    let n = s.len();
    let m = p.len();
    let mut out = String::new();
    let mut i: usize = 0;
    assert(src@.skip(0) =~= src@);
    while i < n
        invariant
            s@ == src@,
            p@ == pat@,
            n == s@.len(),
            m == p@.len(),
            m > 0,
            i <= n,
            out@ + without(src@.skip(i as int), pat@) == without(src@, pat@),
        decreases n - i,
    {
        let ghost rest = src@.skip(i as int);
        if m <= n - i && occurs_at(&s, i, &p) {
            assert(rest.take(m as int) =~= src@.subrange(i as int, i + m));
            assert(rest.skip(m as int) =~= src@.skip(i + m));
            i = i + m;
        } else {
            if m <= n - i {
                assert(rest.take(m as int) =~= src@.subrange(i as int, i + m));
            }
            assert(rest.skip(1) =~= src@.skip(i + 1));
            let ghost before = out@;
            push_char(&mut out, s[i]);
            proof {
                if rest.len() < m {
                    assert(rest =~= seq![rest[0]] + rest.skip(1));
                    assert(without(rest.skip(1), pat@) == rest.skip(1));
                }
                assert(out@ + without(src@.skip(i + 1), pat@) =~= before + without(rest, pat@));
            }
            i = i + 1;
        }
    }
    assert(src@.skip(n as int) =~= Seq::<char>::empty());
    assert(out@ + without(src@.skip(n as int), pat@) =~= out@);
    out
}

/// Appends the characters of `t` at the end of `s`.
pub fn push_str(s: &mut String, t: &str)
    ensures
        final(s)@ == old(s)@ + t@,
{
    let cs = chars_of(t);
    let ghost start = s@;
    for i in 0..cs.len()
        invariant
            cs@ == t@,
            s@ == start + t@.take(i as int),
    {
        push_char(s, cs[i]);
        assert(start + t@.take(i + 1) =~= start + t@.take(i as int) + seq![t@[i as int]]);
    }
    assert(t@.take(cs.len() as int) =~= t@);
}

/// Appends `c` at the end of `s` (`String::push`).
#[verifier::external_body]
pub(crate) fn push_char(s: &mut String, c: char)
    ensures
        final(s)@ == old(s)@.push(c),
{
    s.push(c);
}

} // verus!
