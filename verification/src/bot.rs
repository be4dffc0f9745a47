use vstd::prelude::*;

use crate::converter::{FuzzyMatchResult, TransformList, entry_image, key_pos, not_found_message, skim_score};
use crate::manifest::{Manifest, image_hash};
use crate::text::{ascii_white_space, chars_of, find_first, is_ascii_white_space, lemma_find_first, lemma_find_first_is, push_char, push_str, same_text};

verus! {

/// A request's transform name and text: the name runs up to the first ASCII
/// whitespace, the text starts at the first non-whitespace character after
/// it. Without both, the request has neither.
pub open spec fn message_parts(s: Seq<char>) -> (Option<Seq<char>>, Option<Seq<char>>) {
    let k = find_first(s, |c: char| ascii_white_space(c));
    let rest = s.skip(k);
    let j = find_first(rest, |c: char| !ascii_white_space(c));
    if k < s.len() && j < rest.len() {
        (Some(s.take(k)), Some(rest.skip(j)))
    } else {
        (None, None)
    }
}

/// A request that splits is its name, a run of ASCII whitespace and its
/// text: the name holds no whitespace and the text starts with a
/// non-whitespace character. A request splits exactly when it holds
/// whitespace followed, somewhere later, by a non-whitespace character.
pub proof fn law_message_split(s: Seq<char>)
    ensures
        match message_parts(s) {
            (Some(name), Some(text)) => {
                let gap = s.subrange(name.len() as int, s.len() - text.len());
                &&& s == name + gap + text
                &&& gap.len() >= 1
                &&& forall|i: int| 0 <= i < gap.len() ==> ascii_white_space(#[trigger] gap[i])
                &&& forall|i: int| 0 <= i < name.len() ==> !ascii_white_space(#[trigger] name[i])
                &&& text.len() >= 1 && !ascii_white_space(text[0])
            },
            (None, None) => !exists|a: int, b: int|
                0 <= a < b < s.len() && ascii_white_space(#[trigger] s[a]) && !ascii_white_space(
                    #[trigger] s[b],
                ),
            _ => false,
        },
{
    let ws = |c: char| ascii_white_space(c);
    let non_ws = |c: char| !ascii_white_space(c);
    let k = find_first(s, ws);
    lemma_find_first(s, ws);
    let rest = s.skip(k);
    lemma_find_first(rest, non_ws);
    let j = find_first(rest, non_ws);
    if k < s.len() && j < rest.len() {
        let name = s.take(k);
        let text = rest.skip(j);
        let gap = s.subrange(k, s.len() - text.len());
        assert(s =~= name + gap + text);
        assert forall|i: int| 0 <= i < gap.len() implies ascii_white_space(#[trigger] gap[i]) by {
            assert(gap[i] == rest[i]);
            if i > 0 {
                assert(!non_ws(rest[i]));
            } else {
                assert(ws(s[k]));
            }
        }
        assert forall|i: int| 0 <= i < name.len() implies !ascii_white_space(#[trigger] name[i]) by {
            assert(!ws(s[i]));
        }
        assert(text[0] == rest[j]);
    } else {
        assert forall|a: int, b: int| 0 <= a < b < s.len() && ascii_white_space(#[trigger] s[a])
            implies ascii_white_space(#[trigger] s[b]) by {
            if a < k {
                assert(!ws(s[a]));
            }
            assert(rest[b - k] == s[b]);
            if b - k < j {
                assert(!non_ws(rest[b - k]));
            }
        }
    }
}

/// Splits a request into transform name and text.
pub fn parse_message(msg: &str) -> (r: (Option<String>, Option<String>))
    ensures
        match message_parts(msg@) {
            (Some(name), Some(text)) => r matches (Some(n), Some(t)) && n@ == name && t@ == text,
            _ => r matches (None, None),
        },
{
    let ghost s = msg@;
    let ghost ws = |c: char| ascii_white_space(c);
    let ghost non_ws = |c: char| !ascii_white_space(c);
    let chars = chars_of(msg);
    let n = chars.len();
    let mut name = String::new();
    let mut eating = false;
    let ghost mut k: int = 0;
    for i in 0..n
        invariant
            chars@ == s,
            s == msg@,
            n == s.len(),
            ws == (|c: char| ascii_white_space(c)),
            non_ws == (|c: char| !ascii_white_space(c)),
            !eating ==> name@ == s.take(i as int) && forall|j: int| 0 <= j < i ==> !ws(#[trigger] s[j]),
            eating ==> {
                &&& 0 <= k < i
                &&& name@ == s.take(k)
                &&& ws(s[k])
                &&& forall|j: int| 0 <= j < k ==> !ws(#[trigger] s[j])
                &&& forall|j: int| k <= j < i ==> ws(#[trigger] s[j])
            },
    {
        let c = chars[i];
        if !eating {
            if is_ascii_white_space(c) {
                eating = true;
                proof { k = i as int; }
            } else {
                push_char(&mut name, c);
                assert(name@ =~= s.take(i + 1));
            }
        } else {
            if !is_ascii_white_space(c) {
                let mut text = String::new();
                let mut m = i;
                while m < n
                    invariant
                        chars@ == s,
                        n == s.len(),
                        i <= m <= n,
                        text@ == s.subrange(i as int, m as int),
                    decreases n - m,
                {
                    push_char(&mut text, chars[m]);
                    assert(text@ =~= s.subrange(i as int, m + 1));
                    m = m + 1;
                }
                proof {
                    lemma_find_first_is(s, ws, k);
                    let rest = s.skip(k);
                    assert forall|j: int| 0 <= j < i - k implies !non_ws(#[trigger] rest[j]) by {
                        assert(rest[j] == s[k + j]);
                    }
                    assert(rest[i - k] == s[i as int]);
                    lemma_find_first_is(rest, non_ws, i - k);
                    assert(rest.skip(i - k) =~= s.subrange(i as int, n as int));
                }
                return (Some(name), Some(text));
            }
        }
    }
    proof {
        if eating {
            lemma_find_first_is(s, ws, k);
            let rest = s.skip(k);
            assert forall|j: int| 0 <= j < rest.len() implies !non_ws(#[trigger] rest[j]) by {
                assert(rest[j] == s[k + j]);
            }
            lemma_find_first_is(rest, non_ws, rest.len() as int);
        } else {
            lemma_find_first_is(s, ws, n as int);
        }
    }
    (None, None)
}

/// Whether some transform's short name matches `pattern`.
pub open spec fn has_fuzzy_match(list: &TransformList, pattern: Seq<char>) -> bool {
    exists|j: int| 0 <= j < list.entries().len() && (skim_score((#[trigger] list.entries()[j]).short_name@, pattern) is Some)
}

/// The results for an inline query, and whether the query is empty (then no
/// result is to be sent). A query "name text" gets the transforms whose
/// name matches "name", applied to "text"; when no name matches, and for any
/// other non-empty query, every transform is applied to the whole query.
pub fn inline_query_matches<'a>(transforms: &'a TransformList, data: &str) -> (r: (
    Vec<FuzzyMatchResult<'a>>,
    bool,
))
    ensures
        match message_parts(data@) {
            (Some(name), Some(text)) => {
                &&& !r.1
                &&& has_fuzzy_match(transforms, name) ==> transforms.fuzzy_matches_of(r.0@, name, text)
                &&& !has_fuzzy_match(transforms, name) ==> transforms.all_matches_of(r.0@, data@)
            },
            _ => {
                &&& r.1 == (data@.len() == 0)
                &&& data@.len() == 0 ==> r.0@.len() == 0
                &&& data@.len() != 0 ==> transforms.all_matches_of(r.0@, data@)
            },
        },
{
    match parse_message(data) {
        (Some(transform_name), Some(msg)) => {
            let fuzzy_matches = transforms.get_fuzzy_matches(transform_name.as_str(), msg.as_str());
            if fuzzy_matches.len() == 0 {
                proof {
                    if has_fuzzy_match(transforms, transform_name@) {
                        let j = choose|j: int| 0 <= j < transforms.entries().len() && (skim_score(
                            (#[trigger] transforms.entries()[j]).short_name@,
                            transform_name@,
                        ) is Some);
                        assert(skim_score(transforms.entries()[j].short_name@, transform_name@) is Some);
                    }
                }
                (transforms.get_all_matches(data), false)
            } else {
                proof {
                    let f0 = fuzzy_matches@[0];
                    let j = choose|j: int|
                        0 <= j < transforms.entries().len() && *f0.transform == #[trigger] transforms.entries()[j]
                            && skim_score(transforms.entries()[j].short_name@, transform_name@) == Some(f0.score)
                            && f0.result@ == entry_image(transforms.entries()[j], msg@);
                    assert(skim_score(transforms.entries()[j].short_name@, transform_name@) is Some);
                    assert(has_fuzzy_match(transforms, transform_name@));
                }
                (fuzzy_matches, false)
            }
        },
        _ => {
            if data.is_empty() {
                (Vec::new(), true)
            } else {
                (transforms.get_all_matches(data), false)
            }
        },
    }
}

/// The first `n` characters of `s`, or all of it when shorter.
pub open spec fn prefix_upto(s: Seq<char>, n: int) -> Seq<char> {
    if s.len() < n {
        s
    } else {
        s.take(n)
    }
}

/// The address of a transform's thumbnail: the image base address, the
/// transform's short name and ".jpg", then, when the manifest lists the
/// image, `?` and the first 12 characters of its hash.
pub open spec fn thumbnail_url(images_url: Seq<char>, manifest: Manifest, short_name: Seq<char>) -> Seq<char> {
    let file_name = short_name + ".jpg"@;
    images_url + file_name + match image_hash(manifest.images@, file_name) {
        Some(h) => seq!['?'] + prefix_upto(h, 12),
        None => Seq::empty(),
    }
}

/// The thumbnail address of the transform called `short_name`.
pub fn photo_url(images_url: &str, manifest: &Manifest, short_name: &str) -> (r: String)
    ensures
        r@ == thumbnail_url(images_url@, *manifest, short_name@),
{
    let mut filename = String::new();
    push_str(&mut filename, short_name);
    push_str(&mut filename, ".jpg");
    let mut url = String::new();
    push_str(&mut url, images_url);
    push_str(&mut url, filename.as_str());
    match manifest.hash(filename.as_str()) {
        Some(hash) => {
            push_char(&mut url, '?');
            let hc = chars_of(hash);
            let ghost before = url@;
            let mut i: usize = 0;
            while i < hc.len() && i < 12
                invariant
                    hc@ == hash@,
                    i <= hc@.len(),
                    i <= 12,
                    url@ == before + hash@.take(i as int),
                decreases 12 - i,
            {
                push_char(&mut url, hc[i]);
                assert(before + hash@.take(i + 1) =~= before + hash@.take(i as int) + seq![hash@[i as int]]);
                i = i + 1;
            }
            assert(hash@.take(i as int) =~= prefix_upto(hash@, 12));
            assert(url@ =~= thumbnail_url(images_url@, *manifest, short_name@));
        },
        None => {
            assert(url@ =~= thumbnail_url(images_url@, *manifest, short_name@));
        },
    }
    url
}

/// The answer to "/start" in a chat.
pub open spec fn greeting() -> Seq<char> {
    "Hello! I'm @unicode_text_converter_bot. To send messages using my various unicode alphabets, add me to the target chat and use the @unicode_text_converter_bot query to choose the script you want."@
}

/// What the bot answers to a chat message: a greeting for "/start", nothing
/// otherwise.
pub fn chat_reply(text: &str) -> (r: Option<String>)
    ensures
        r is Some <==> text@ == "/start"@,
        r matches Some(g) ==> g@ == greeting(),
{
    if same_text(text, "/start") {
        let mut g = String::new();
        push_str(&mut g, "Hello! I'm @unicode_text_converter_bot. To send messages using my various unicode alphabets, add me to the target chat and use the @unicode_text_converter_bot query to choose the script you want.");
        Some(g)
    } else {
        None
    }
}

/// The usage line for malformed requests.
pub open spec fn usage() -> Seq<char> {
    "Usage: transform_name message"@
}

/// What the bot replies to a text request "name text": the named transform
/// applied to the text, the error's message when there is no such
/// transform, the usage line when the request is malformed.
pub fn text_reply(transforms: &TransformList, data: &str) -> (r: String)
    ensures
        match message_parts(data@) {
            (Some(name), Some(text)) => match key_pos(transforms.models(), name) {
                Some(j) => r@ == entry_image(transforms.entries()[j], text),
                None => r@ == not_found_message(name),
            },
            _ => r@ == usage(),
        },
{
    match parse_message(data) {
        (Some(transform_name), Some(msg)) => {
            match transforms.transform_string(transform_name.as_str(), msg.as_str()) {
                Ok(result) => result,
                Err(error) => error.message(),
            }
        },
        _ => {
            let mut u = String::new();
            push_str(&mut u, "Usage: transform_name message");
            u
        },
    }
}

} // verus!
