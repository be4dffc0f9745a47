use vstd::prelude::*;

use super::char_map::CharMap;
use super::map::MapTransform;
use super::table::{
    Record, drop_cr, filled_table, is_comment, lemma_drop_cr_step, lemma_fits_prefix,
    lemma_records_line, lemma_records_none, lemma_records_unfinished, records, table_fits,
};
use super::transform_error::TransformError;
use super::transform_entry::{
    EntryModel, KindModel, TransformEntry, TransformKind, display_name, snake_case,
};
use super::transform::{Transform, marked_image};
use crate::text::{chars_of, contains_seq, contains_text, no_ascii_upper, push_char, same_text};

use fuzzy_matcher::FuzzyMatcher;
use fuzzy_matcher::skim::SkimMatcherV2;

verus! {

/// The entry that line `k` of a table describes.
pub open spec fn record_model(k: int, r: Record) -> EntryModel {
    EntryModel {
        short_name: snake_case(display_name(r.name)),
        name: display_name(r.name),
        full_name: r.name,
        idx: k,
        kind: KindModel::CharMap {
            table: filled_table(r.body),
            nonbreak: contains_seq(r.name, "Regional"@),
        },
    }
}

/// Where the entry named `key` stands in `es`, if anywhere.
pub open spec fn key_pos(es: Seq<EntryModel>, key: Seq<char>) -> Option<int> {
    if exists|j: int| 0 <= j < es.len() && (#[trigger] es[j]).short_name == key {
        Some(choose|j: int| 0 <= j < es.len() && (#[trigger] es[j]).short_name == key)
    } else {
        None
    }
}

/// `es` with `e` added last, in place of the entry of the same name if any.
pub open spec fn upsert(es: Seq<EntryModel>, e: EntryModel) -> Seq<EntryModel> {
    match key_pos(es, e.short_name) {
        Some(j) => es.remove(j).push(e),
        None => es.push(e),
    }
}

/// The entries that a table's lines give, in the order in which they were
/// last added: each line that is no comment adds its entry, replacing an
/// earlier entry of the same name.
pub open spec fn table_entries(recs: Seq<Record>) -> Seq<EntryModel>
    decreases recs.len(),
{
    if recs.len() == 0 {
        Seq::empty()
    } else {
        let es = table_entries(recs.drop_last());
        let r = recs.last();
        if is_comment(r.name) {
            es
        } else {
            upsert(es, record_model(recs.len() - 1, r))
        }
    }
}

/// Entries with distinct names and increasing positions, all below `n`.
pub open spec fn entries_wf(es: Seq<EntryModel>, n: int) -> bool {
    &&& forall|a: int| 0 <= a < es.len() ==> 0 <= (#[trigger] es[a]).idx < n
    &&& forall|a: int, b: int|
        0 <= a < b < es.len() ==> (#[trigger] es[a]).short_name != (#[trigger] es[b]).short_name
            && es[a].idx < es[b].idx
}

pub proof fn lemma_key_pos(es: Seq<EntryModel>, n: int, key: Seq<char>, j: int)
    requires
        entries_wf(es, n),
        0 <= j < es.len(),
        es[j].short_name == key,
    ensures
        key_pos(es, key) == Some(j),
{
    let k = choose|k: int| 0 <= k < es.len() && (#[trigger] es[k]).short_name == key;
    if k != j {
        if k < j {
            assert(es[k].short_name != es[j].short_name);
        } else {
            assert(es[j].short_name != es[k].short_name);
        }
    }
}

pub proof fn lemma_upsert_wf(es: Seq<EntryModel>, n: int, e: EntryModel)
    requires
        entries_wf(es, n),
        0 <= n,
        e.idx == n,
    ensures
        entries_wf(upsert(es, e), n + 1),
{
    match key_pos(es, e.short_name) {
        Some(j) => {
            assert(0 <= j < es.len());
            let r = es.remove(j);
            let u = r.push(e);
            assert forall|a: int| 0 <= a < r.len() implies #[trigger] r[a] == (if a < j {
                es[a]
            } else {
                es[a + 1]
            }) by {}
            assert forall|a: int, b: int| 0 <= a < b < u.len() implies (#[trigger] u[a]).short_name
                != (#[trigger] u[b]).short_name && u[a].idx < u[b].idx by {
                if b < r.len() {
                    let a0 = if a < j {
                        a
                    } else {
                        a + 1
                    };
                    let b0 = if b < j {
                        b
                    } else {
                        b + 1
                    };
                    assert(r[a] == es[a0]);
                    assert(r[b] == es[b0]);
                } else {
                    let a0 = if a < j {
                        a
                    } else {
                        a + 1
                    };
                    assert(r[a] == es[a0]);
                    assert(a0 != j);
                    if es[a0].short_name == e.short_name {
                        lemma_key_pos(es, n, e.short_name, a0);
                    }
                }
            }
            assert forall|a: int| 0 <= a < u.len() implies 0 <= (#[trigger] u[a]).idx < n + 1 by {
                if a < r.len() {
                    let a0 = if a < j {
                        a
                    } else {
                        a + 1
                    };
                    assert(r[a] == es[a0]);
                    assert(u[a] == r[a]);
                } else {
                    assert(u[a] == e);
                }
            }
        },
        None => {
            let u = es.push(e);
            assert forall|a: int| 0 <= a < u.len() implies 0 <= (#[trigger] u[a]).idx < n + 1 by {
                if a < es.len() {
                    assert(u[a] == es[a]);
                }
            }
            assert forall|a: int, b: int| 0 <= a < b < u.len() implies (#[trigger] u[a]).short_name
                != (#[trigger] u[b]).short_name && u[a].idx < u[b].idx by {
                if b == es.len() {
                    assert(u[a] == es[a]);
                    if es[a].short_name == e.short_name {
                        assert(exists|j: int| 0 <= j < es.len() && (#[trigger] es[j]).short_name == e.short_name);
                    }
                }
            }
        },
    }
}

/// Short names of entries, all without ASCII uppercase letters.
pub open spec fn names_lowercase(es: Seq<EntryModel>) -> bool {
    forall|i: int| 0 <= i < es.len() ==> no_ascii_upper((#[trigger] es[i]).short_name)
}

/// Adding an entry whose short name has no ASCII uppercase letter keeps all
/// short names free of them.
pub proof fn lemma_upsert_lowercase(es: Seq<EntryModel>, e: EntryModel)
    requires
        names_lowercase(es),
        no_ascii_upper(e.short_name),
    ensures
        names_lowercase(upsert(es, e)),
{
    let u = upsert(es, e);
    match key_pos(es, e.short_name) {
        Some(j) => {
            assert(0 <= j < es.len());
            let r = es.remove(j);
            assert forall|i: int| 0 <= i < u.len() implies no_ascii_upper((#[trigger] u[i]).short_name) by {
                if i < r.len() {
                    if i < j {
                        assert(u[i] == es[i]);
                    } else {
                        assert(u[i] == es[i + 1]);
                    }
                } else {
                    assert(u[i] == e);
                }
            }
        },
        None => {
            assert forall|i: int| 0 <= i < u.len() implies no_ascii_upper((#[trigger] u[i]).short_name) by {
                if i < es.len() {
                    assert(u[i] == es[i]);
                }
            }
        },
    }
}

/// The entries of any table have distinct names and increasing positions.
pub proof fn lemma_table_entries_wf(recs: Seq<Record>)
    ensures
        entries_wf(table_entries(recs), recs.len() as int),
    decreases recs.len(),
{
    if recs.len() > 0 {
        lemma_table_entries_wf(recs.drop_last());
        let es = table_entries(recs.drop_last());
        if !is_comment(recs.last().name) {
            lemma_upsert_wf(es, recs.len() - 1, record_model(recs.len() - 1, recs.last()));
        }
    }
}

/// The last line of `recs` that is no comment and whose short name is `key`.
pub open spec fn last_line_named(recs: Seq<Record>, key: Seq<char>) -> Option<int>
    decreases recs.len(),
{
    if recs.len() == 0 {
        None
    } else if !is_comment(recs.last().name) && record_model(recs.len() - 1, recs.last()).short_name
        == key {
        Some(recs.len() - 1)
    } else {
        last_line_named(recs.drop_last(), key)
    }
}

/// Looking a name up among the entries of a table finds the entry of the
/// last line (that is no comment) with that short name, and nothing when no
/// such line exists.
pub proof fn law_lookup_finds_last_line(recs: Seq<Record>, key: Seq<char>)
    ensures
        match last_line_named(recs, key) {
            Some(k) => {
                &&& 0 <= k < recs.len()
                &&& key_pos(table_entries(recs), key) matches Some(j)
                &&& 0 <= j < table_entries(recs).len()
                &&& table_entries(recs)[j] == record_model(k, recs[k])
            },
            None => key_pos(table_entries(recs), key) is None,
        },
    decreases recs.len(),
{
    lemma_table_entries_wf(recs);
    if recs.len() > 0 {
        let n = recs.len() - 1;
        let prev = recs.drop_last();
        law_lookup_finds_last_line(prev, key);
        lemma_table_entries_wf(prev);
        let es0 = table_entries(prev);
        let es = table_entries(recs);
        let r = recs.last();
        assert(recs[n] == r);
        if !is_comment(r.name) {
            let e = record_model(n, r);
            match key_pos(es0, e.short_name) {
                Some(j0) => {
                    assert(0 <= j0 < es0.len());
                    assert(es == es0.remove(j0).push(e));
                },
                None => {
                    assert(es == es0.push(e));
                },
            }
            if e.short_name == key {
                assert(es[es.len() - 1] == e);
                lemma_key_pos(es, n + 1, key, es.len() - 1);
            } else {
                match last_line_named(prev, key) {
                    Some(k) => {
                        let j = key_pos(es0, key)->0;
                        assert(prev[k] == recs[k]);
                        match key_pos(es0, e.short_name) {
                            Some(j0) => {
                                assert(j != j0);
                                let jj = if j < j0 {
                                    j
                                } else {
                                    j - 1
                                };
                                assert(es[jj] == es0[j]);
                                lemma_key_pos(es, n + 1, key, jj);
                            },
                            None => {
                                assert(es[j] == es0[j]);
                                lemma_key_pos(es, n + 1, key, j);
                            },
                        }
                    },
                    None => {
                        if exists|j: int| 0 <= j < es.len() && (#[trigger] es[j]).short_name == key {
                            let j = choose|j: int| 0 <= j < es.len() && (#[trigger] es[j]).short_name == key;
                            match key_pos(es0, e.short_name) {
                                Some(j0) => {
                                    if j < es.len() - 1 {
                                        let jj = if j < j0 {
                                            j
                                        } else {
                                            j + 1
                                        };
                                        assert(es[j] == es0[jj]);
                                    }
                                },
                                None => {
                                    if j < es.len() - 1 {
                                        assert(es[j] == es0[j]);
                                    }
                                },
                            }
                        }
                    },
                }
            }
        } else {
            match last_line_named(prev, key) {
                Some(k) => {
                    assert(prev[k] == recs[k]);
                },
                None => {},
            }
        }
    }
}

/// A transform that matched a request, what it scored and what it made of
/// the request's text.
pub struct FuzzyMatchResult<'a> {
    pub transform: &'a TransformEntry,
    pub score: i64,
    pub result: String,
}

/// What `fuzzy_matcher`'s `SkimMatcherV2` (default settings) scores for
/// `pattern` against `choice`, `None` when it does not match.
pub uninterp spec fn skim_score(choice: Seq<char>, pattern: Seq<char>) -> Option<i64>;

/// Calls `FuzzyMatcher::fuzzy_match` of a default `SkimMatcherV2` on
/// `choice` and `pattern`. The result is taken to be `skim_score` of the two
/// texts; how the matcher scores is left to `fuzzy_matcher` and stated
/// nowhere here.
#[verifier::external_body]
fn fuzzy_score(choice: &str, pattern: &str) -> (r: Option<i64>)
    ensures
        r == skim_score(choice@, pattern@),
{
    SkimMatcherV2::default().fuzzy_match(choice, pattern)
}

/// The transform of `e` applied to `src`.
pub open spec fn entry_image(e: TransformEntry, src: Seq<char>) -> Seq<char> {
    marked_image(src, |c: char| e.transform.char_image(c))
}

/// Result `a` comes before result `b`: lower score first, then lower position.
pub open spec fn ranks_before(a: FuzzyMatchResult, b: FuzzyMatchResult) -> bool {
    a.score < b.score || (a.score == b.score && a.transform.idx < b.transform.idx)
}

/// The transforms of an alphabet table, by name.
#[derive(Debug)]
pub struct TransformList {
    transforms: Vec<TransformEntry>,
}

impl TransformList {
    /// The entries, in the order in which they were last added.
    pub closed spec fn entries(&self) -> Seq<TransformEntry> {
        self.transforms@
    }

    pub open spec fn models(&self) -> Seq<EntryModel> {
        self.entries().map_values(|e: TransformEntry| e.model())
    }

    #[verifier::type_invariant]
    closed spec fn wf(&self) -> bool {
        &&& entries_wf(self.models(), i64::MAX as int)
        &&& names_lowercase(self.models())
    }

    /// Reads an alphabet table: each line holds a transform's name, a tab and
    /// the substitutes for `!` up to `~` (carriage returns are ignored). Lines
    /// whose name starts with `#` are skipped; a name containing "Regional"
    /// makes its map add no-break spaces. A later line replaces an earlier one
    /// of the same short name.
    pub fn new(table: &str) -> (r: Self)
        requires
            table_fits(table@),
            table@.len() <= isize::MAX,
        ensures
            r.models() == table_entries(records(table@)),
    {
        let chars = chars_of(table);
        let n = chars.len();
        let ghost s = table@;

        let mut list: Vec<TransformEntry> = Vec::new();
        let mut current_line = CharMap::new();
        let mut current_name = String::new();
        let mut parsing_map = false;
        let mut current_index: usize = 0;
        let mut current_map_idx: usize = 0;

        let ghost mut recs: Seq<Record> = Seq::empty();
        let ghost mut line_start: int = 0;
        let ghost mut tab: int = 0;

        proof {
            assert(s.skip(0) =~= s);
            assert(drop_cr(Seq::<char>::empty()) =~= Seq::<char>::empty());
            assert(current_line.table() =~= filled_table(Seq::<char>::empty()));
        }

        for i in 0..n
            invariant
                n <= isize::MAX,
                chars@ == s,
                s == table@,
                n == s.len(),
                0 <= line_start <= i,
                current_map_idx <= line_start,
                current_map_idx == recs.len(),
                records(s) == recs + records(s.skip(line_start)),
                table_fits(s.skip(line_start)),
                list@.map_values(|e: TransformEntry| e.model()) == table_entries(recs),
                entries_wf(table_entries(recs), recs.len() as int),
                names_lowercase(table_entries(recs)),
                !current_line.nonbreak(),
                !parsing_map ==> {
                    &&& current_name@ == s.subrange(line_start, i as int)
                    &&& forall|j: int| line_start <= j < i ==> s[j] != '\t'
                    &&& current_line.table() == filled_table(Seq::empty())
                },
                parsing_map ==> {
                    &&& line_start <= tab < i
                    &&& s[tab] == '\t'
                    &&& forall|j: int| line_start <= j < tab ==> s[j] != '\t'
                    &&& current_name@ == s.subrange(line_start, tab)
                    &&& forall|j: int| tab < j < i ==> s[j] != '\n'
                    &&& current_line.table() == filled_table(drop_cr(s.subrange(tab + 1, i as int)))
                    &&& current_index == drop_cr(s.subrange(tab + 1, i as int)).len()
                },
        {
            let c = chars[i];
            if !parsing_map {
                if c == '\t' {
                    parsing_map = true;
                    current_index = 0;
                    proof {
                        tab = i as int;
                        assert(s.subrange(tab + 1, i + 1) =~= Seq::<char>::empty());
                        assert(drop_cr(Seq::<char>::empty()) =~= Seq::<char>::empty());
                    }
                } else {
                    push_char(&mut current_name, c);
                    assert(current_name@ =~= s.subrange(line_start, i + 1));
                }
            } else {
                proof { lemma_drop_cr_step(s, tab + 1, i as int); }
                if c == '\r' {
                    assert(drop_cr(s.subrange(tab + 1, i + 1)) =~= drop_cr(s.subrange(tab + 1, i as int)));
                } else if c == '\n' {
                    let ghost sl = s.skip(line_start);
                    let ghost rec = Record {
                        name: s.subrange(line_start, tab),
                        body: drop_cr(s.subrange(tab + 1, i as int)),
                    };
                    proof {
                        assert forall|j: int| 0 <= j < tab - line_start implies sl[j] != '\t' by {
                            assert(sl[j] == s[line_start + j]);
                        }
                        assert forall|j: int| tab - line_start < j < i - line_start implies sl[j]
                            != '\n' by {
                            assert(sl[j] == s[line_start + j]);
                        }
                        lemma_records_line(sl, tab - line_start, i - line_start);
                        assert(sl.take(tab - line_start) =~= s.subrange(line_start, tab));
                        assert(sl.subrange(tab - line_start + 1, i - line_start) =~= s.subrange(
                            tab + 1,
                            i as int,
                        ));
                        assert(sl.skip(i - line_start + 1) =~= s.skip(i + 1));
                    }
                    // Check if it needs the fix for combining chars
                    if contains_text(current_name.as_str(), "Regional") {
                        current_line.set_nonbreak(true);
                    }
                    // Create map object
                    let map = MapTransform::new(current_line);
                    // Create transform entry
                    let entry = TransformEntry::new(
                        current_map_idx,
                        current_name.as_str(),
                        TransformKind::CharMap(map),
                    );
                    assert(entry.model() == record_model(recs.len() as int, rec));
                    let comment = Self::starts_with_hash(entry.full_name.as_str());
                    if !comment {
                        Self::upsert_entry(&mut list, entry, Ghost(recs.len() as int));
                    }
                    proof {
                        lemma_upsert_wf(table_entries(recs), recs.len() as int, record_model(recs.len() as int, rec));
                        if !is_comment(rec.name) {
                            lemma_upsert_lowercase(table_entries(recs), record_model(recs.len() as int, rec));
                        }
                        let recs2 = recs.push(rec);
                        assert(recs2.drop_last() =~= recs);
                        assert(records(s) =~= recs2 + records(s.skip(i + 1)));
                        recs = recs2;
                        line_start = i + 1;
                    }
                    current_name = String::new();
                    current_line = CharMap::new();
                    parsing_map = false;
                    current_map_idx = current_map_idx + 1;
                    proof {
                        assert(current_name@ =~= s.subrange(line_start, i + 1));
                        assert(current_line.table() =~= filled_table(Seq::<char>::empty()));
                    }
                } else {
                    proof {
                        let sl = s.skip(line_start);
                        assert forall|j: int| 0 <= j < tab - line_start implies sl[j] != '\t' by {
                            assert(sl[j] == s[line_start + j]);
                        }
                        assert forall|j: int| tab - line_start < j <= i - line_start implies sl[j]
                            != '\n' by {
                            assert(sl[j] == s[line_start + j]);
                        }
                        lemma_fits_prefix(sl, tab - line_start, i - line_start);
                        assert(sl.subrange(tab - line_start + 1, i - line_start + 1) =~= s.subrange(
                            tab + 1,
                            i + 1,
                        ));
                    }
                    current_line.set_idx(current_index, c);
                    current_index = current_index + 1;
                    assert(current_line.table() =~= filled_table(
                        drop_cr(s.subrange(tab + 1, i + 1)),
                    ));
                }
            }
        }
        proof {
            let sl = s.skip(line_start);
            if parsing_map {
                assert forall|j: int| 0 <= j < tab - line_start implies sl[j] != '\t' by {
                    assert(sl[j] == s[line_start + j]);
                }
                assert forall|j: int| tab - line_start < j < sl.len() implies sl[j] != '\n' by {
                    assert(sl[j] == s[line_start + j]);
                }
                lemma_records_unfinished(sl, tab - line_start);
            } else {
                assert forall|j: int| 0 <= j < sl.len() implies sl[j] != '\t' by {
                    assert(sl[j] == s[line_start + j]);
                }
                lemma_records_none(sl);
            }
            assert(records(s) =~= recs);
        }
        TransformList { transforms: list }
    }

    /// Position of the entry named `name`, if any.
    fn find(&self, name: &str) -> (r: Option<usize>)
        ensures
            r matches Some(j) ==> key_pos(self.models(), name@) == Some(j as int) && j
                < self.entries().len(),
            r is None ==> key_pos(self.models(), name@) is None,
    {
        proof { use_type_invariant(self); }
        let ghost es = self.models();
        let mut j: usize = 0;
        while j < self.transforms.len()
            invariant
                es == self.models(),
                entries_wf(es, i64::MAX as int),
                j <= self.entries().len(),
                forall|k: int| 0 <= k < j ==> (#[trigger] es[k]).short_name != name@,
            decreases self.entries().len() - j,
        {
            if same_text(self.transforms[j].short_name.as_str(), name) {
                proof {
                    assert(es[j as int] == self.entries()[j as int].model());
                    lemma_key_pos(es, i64::MAX as int, name@, j as int);
                }
                return Some(j);
            }
            j = j + 1;
        }
        assert(!exists|k: int| 0 <= k < es.len() && (#[trigger] es[k]).short_name == name@);
        None
    }

    /// Applies the transform named `map_name` to `src`.
    pub fn transform_string(&self, map_name: &str, src: &str) -> (r: Result<String, TransformError>)
        ensures
            match key_pos(self.models(), map_name@) {
                Some(j) => r matches Ok(out) && out@ == entry_image(self.entries()[j], src@),
                None => r matches Err(TransformError::TransformNotFound(name)) && name@
                    == map_name@,
            },
    {
        match self.find(map_name) {
            Some(j) => Ok(self.transforms[j].transform.map_string(src)),
            None => Err(TransformError::TransformNotFound(String::from_str(map_name))),
        }
    }

    /// Every transform applied to `src`, scored by its position in the table,
    /// lowest first.
    pub fn get_all_matches<'a>(&'a self, src: &str) -> (r: Vec<FuzzyMatchResult<'a>>)
        ensures
            self.all_matches_of(r@, src@),
            forall|a: int, b: int| 0 <= a < b < r@.len() ==> (#[trigger] r@[a]).score < (#[trigger] r@[b]).score,
    {
        proof { use_type_invariant(self); }
        let mut v: Vec<FuzzyMatchResult<'a>> = Vec::new();
        for i in 0..self.transforms.len()
            invariant
                entries_wf(self.models(), i64::MAX as int),
                v@.len() == i,
                forall|k: int|
                    0 <= k < i ==> *(#[trigger] v@[k]).transform == self.entries()[k]
                        && v@[k].score as int == self.entries()[k].idx as int && v@[k].result@
                        == entry_image(self.entries()[k], src@),
        {
            let e = &self.transforms[i];
            assert(self.models()[i as int] == e.model());
            let result = e.transform.map_string(src);
            v.push(FuzzyMatchResult { transform: e, score: e.idx as i64, result });
        }
        assert forall|a: int, b: int| 0 <= a < b < v@.len() implies (#[trigger] v@[a]).score
            < (#[trigger] v@[b]).score by {
            assert(self.models()[a] == self.entries()[a].model());
            assert(self.models()[b] == self.entries()[b].model());
        }
        v
    }

    /// Whether `r` is what `get_fuzzy_matches` answers for `pattern` and
    /// `src`: the transforms whose short name matches `pattern`, each once,
    /// with its score and its result on `src`, from lowest score to highest
    /// (ties in table order).
    pub open spec fn fuzzy_matches_of(
        &self,
        r: Seq<FuzzyMatchResult>,
        pattern: Seq<char>,
        src: Seq<char>,
    ) -> bool {
        &&& forall|i: int|
            0 <= i < r.len() ==> exists|j: int|
                0 <= j < self.entries().len() && *(#[trigger] r[i]).transform == #[trigger] self.entries()[j]
                    && skim_score(self.entries()[j].short_name@, pattern) == Some(r[i].score)
                    && r[i].result@ == entry_image(self.entries()[j], src)
        &&& forall|j: int|
            0 <= j < self.entries().len() && (skim_score(
                (#[trigger] self.entries()[j]).short_name@,
                pattern,
            ) is Some) ==> exists|i: int| 0 <= i < r.len() && *(#[trigger] r[i]).transform == self.entries()[j]
        &&& forall|a: int, b: int| 0 <= a < b < r.len() ==> ranks_before(#[trigger] r[a], #[trigger] r[b])
    }

    /// Whether `r` is what `get_all_matches` answers for `src`.
    pub open spec fn all_matches_of(&self, r: Seq<FuzzyMatchResult>, src: Seq<char>) -> bool {
        &&& r.len() == self.entries().len()
        &&& forall|i: int|
            0 <= i < r.len() ==> *(#[trigger] r[i]).transform == self.entries()[i] && r[i].score as int
                == self.entries()[i].idx as int && r[i].result@ == entry_image(self.entries()[i], src)
    }

    /// The transforms whose short name matches `partial_map_name`, applied to
    /// `src`, from lowest score to highest.
    pub fn get_fuzzy_matches<'a>(&'a self, partial_map_name: &str, src: &str) -> (r: Vec<
        FuzzyMatchResult<'a>,
    >)
        ensures
            self.fuzzy_matches_of(r@, partial_map_name@, src@),
            r@.len() <= self.entries().len(),
    {
        proof { use_type_invariant(self); }
        let ghost pattern = partial_map_name@;
        let ghost es = self.entries();
        let mut v: Vec<FuzzyMatchResult<'a>> = Vec::new();
        let ghost mut pos: Seq<int> = Seq::empty();
        for j in 0..self.transforms.len()
            invariant
                es == self.entries(),
                pattern == partial_map_name@,
                entries_wf(self.models(), i64::MAX as int),
                v@.len() <= j,
                v@.len() == pos.len(),
                forall|i: int|
                    0 <= i < v@.len() ==> 0 <= #[trigger] pos[i] < j && *v@[i].transform == es[pos[i]]
                        && skim_score(es[pos[i]].short_name@, pattern) == Some(v@[i].score)
                        && v@[i].result@ == entry_image(es[pos[i]], src@),
                forall|jj: int|
                    0 <= jj < j && (skim_score((#[trigger] es[jj]).short_name@, pattern) is Some)
                        ==> exists|i: int| 0 <= i < pos.len() && pos[i] == jj,
                forall|a: int, b: int| 0 <= a < b < v@.len() ==> ranks_before(#[trigger] v@[a], #[trigger] v@[b]),
        {
            let e = &self.transforms[j];
            match fuzzy_score(e.short_name.as_str(), partial_map_name) {
                Some(score) => {
                    let mut p: usize = 0;
                    while p < v.len() && v[p].score <= score
                        invariant
                            p <= v@.len(),
                            forall|q: int| 0 <= q < p ==> (#[trigger] v@[q]).score <= score,
                        decreases v@.len() - p,
                    {
                        p = p + 1;
                    }
                    let result = e.transform.map_string(src);
                    let item = FuzzyMatchResult { transform: e, score, result };
                    let ghost old_v = v@;
                    let ghost old_pos = pos;
                    v.insert(p, item);
                    proof {
                        pos = old_pos.insert(p as int, j as int);
                        assert forall|i: int| 0 <= i < v@.len() implies 0 <= #[trigger] pos[i] < j + 1
                            && *v@[i].transform == es[pos[i]] && skim_score(
                            es[pos[i]].short_name@,
                            pattern,
                        ) == Some(v@[i].score) && v@[i].result@ == entry_image(es[pos[i]], src@) by {
                            if i < p {
                                assert(v@[i] == old_v[i] && pos[i] == old_pos[i]);
                            } else if i > p {
                                assert(v@[i] == old_v[i - 1] && pos[i] == old_pos[i - 1]);
                            }
                        }
                        assert forall|jj: int|
                            0 <= jj < j + 1 && (skim_score((#[trigger] es[jj]).short_name@, pattern) is Some)
                            implies exists|i: int| 0 <= i < pos.len() && pos[i] == jj by {
                            if jj == j {
                                assert(pos[p as int] == j);
                            } else {
                                let i0 = choose|i: int| 0 <= i < old_pos.len() && old_pos[i] == jj;
                                if i0 < p {
                                    assert(pos[i0] == jj);
                                } else {
                                    assert(pos[i0 + 1] == jj);
                                }
                            }
                        }
                        assert forall|a: int, b: int| 0 <= a < b < v@.len() implies ranks_before(
                            #[trigger] v@[a],
                            #[trigger] v@[b],
                        ) by {
                            if b < p {
                                assert(v@[a] == old_v[a] && v@[b] == old_v[b]);
                            } else if b == p {
                                assert(v@[a] == old_v[a]);
                                assert(old_v[a].score <= score);
                                assert(self.models()[old_pos[a]] == es[old_pos[a]].model());
                                assert(self.models()[j as int] == es[j as int].model());
                            } else if a < p {
                                assert(v@[a] == old_v[a] && v@[b] == old_v[b - 1]);
                            } else if a == p {
                                assert(v@[b] == old_v[b - 1]);
                                if p < b - 1 {
                                    assert(ranks_before(old_v[p as int], old_v[b - 1]));
                                }
                            } else {
                                assert(v@[a] == old_v[a - 1] && v@[b] == old_v[b - 1]);
                            }
                        }
                    }
                },
                None => {},
            }
        }
        proof {
            assert forall|i: int| 0 <= i < v@.len() implies exists|j: int|
                0 <= j < es.len() && *(#[trigger] v@[i]).transform == #[trigger] es[j]
                    && skim_score(es[j].short_name@, pattern) == Some(v@[i].score)
                    && v@[i].result@ == entry_image(es[j], src@) by {
                let j = pos[i];
                assert(*v@[i].transform == es[j]);
            }
            assert forall|j: int| 0 <= j < es.len() && (skim_score(
                (#[trigger] es[j]).short_name@,
                pattern,
            ) is Some) implies exists|i: int| 0 <= i < v@.len() && *(#[trigger] v@[i]).transform == es[j] by {
                let i = choose|i: int| 0 <= i < pos.len() && pos[i] == j;
                assert(*v@[i].transform == es[j]);
            }
        }
        v
    }

    /// The entries, in the order in which they were last added.
    pub fn transforms(&self) -> (r: &Vec<TransformEntry>)
        ensures
            r@ == self.entries(),
            forall|a: int, b: int|
                0 <= a < b < r@.len() ==> (#[trigger] r@[a]).short_name@ != (#[trigger] r@[b]).short_name@
                    && r@[a].idx < r@[b].idx,
            forall|a: int| 0 <= a < r@.len() ==> no_ascii_upper((#[trigger] r@[a]).short_name@),
    {
        proof {
            use_type_invariant(self);
            assert forall|a: int| 0 <= a < self.entries().len() implies no_ascii_upper(
                (#[trigger] self.entries()[a]).short_name@,
            ) by {
                assert(self.models()[a] == self.entries()[a].model());
            }
            assert forall|a: int, b: int| 0 <= a < b < self.entries().len() implies (#[trigger] self.entries()[a]).short_name@
                != (#[trigger] self.entries()[b]).short_name@ && self.entries()[a].idx < self.entries()[b].idx by {
                assert(self.models()[a] == self.entries()[a].model());
                assert(self.models()[b] == self.entries()[b].model());
            }
        }
        &self.transforms
    }

    /// Whether `TransformList::new` can read `table`: no line, the
    /// unfinished last one included, has more than 94 substitutes.
    pub fn fits(table: &str) -> (r: bool)
        ensures
            r == table_fits(table@),
    {
        let chars = chars_of(table);
        let n = chars.len();
        let ghost s = table@;
        let mut ok = true;
        let mut parsing_map = false;
        let mut count: usize = 0;
        let ghost mut line_start: int = 0;
        let ghost mut tab: int = 0;
        assert(s.skip(0) =~= s);
        for i in 0..n
            invariant
                chars@ == s,
                s == table@,
                n == s.len(),
                0 <= line_start <= i,
                table_fits(s) == (ok && table_fits(s.skip(line_start))),
                !parsing_map ==> forall|j: int| line_start <= j < i ==> s[j] != '\t',
                parsing_map ==> {
                    &&& line_start <= tab < i
                    &&& s[tab] == '\t'
                    &&& forall|j: int| line_start <= j < tab ==> s[j] != '\t'
                    &&& forall|j: int| tab < j < i ==> s[j] != '\n'
                    &&& count == drop_cr(s.subrange(tab + 1, i as int)).len()
                },
                count <= i,
        {
            let c = chars[i];
            if !parsing_map {
                if c == '\t' {
                    parsing_map = true;
                    count = 0;
                    proof {
                        tab = i as int;
                        assert(s.subrange(tab + 1, i + 1) =~= Seq::<char>::empty());
                        assert(drop_cr(Seq::<char>::empty()) =~= Seq::<char>::empty());
                    }
                }
            } else {
                proof { lemma_drop_cr_step(s, tab + 1, i as int); }
                if c == '\n' {
                    proof {
                        let sl = s.skip(line_start);
                        assert forall|j: int| 0 <= j < tab - line_start implies sl[j] != '\t' by {
                            assert(sl[j] == s[line_start + j]);
                        }
                        assert forall|j: int| tab - line_start < j < i - line_start implies sl[j]
                            != '\n' by {
                            assert(sl[j] == s[line_start + j]);
                        }
                        lemma_records_line(sl, tab - line_start, i - line_start);
                        assert(sl.subrange(tab - line_start + 1, i - line_start) =~= s.subrange(
                            tab + 1,
                            i as int,
                        ));
                        assert(sl.skip(i - line_start + 1) =~= s.skip(i + 1));
                        line_start = i + 1;
                    }
                    ok = ok && count <= 94;
                    parsing_map = false;
                } else if c != '\r' {
                    count = count + 1;
                }
            }
        }
        proof {
            let sl = s.skip(line_start);
            if parsing_map {
                assert forall|j: int| 0 <= j < tab - line_start implies sl[j] != '\t' by {
                    assert(sl[j] == s[line_start + j]);
                }
                assert forall|j: int| tab - line_start < j < sl.len() implies sl[j] != '\n' by {
                    assert(sl[j] == s[line_start + j]);
                }
                lemma_records_unfinished(sl, tab - line_start);
                assert(sl.skip(tab - line_start + 1) =~= s.subrange(tab + 1, n as int));
            } else {
                assert forall|j: int| 0 <= j < sl.len() implies sl[j] != '\t' by {
                    assert(sl[j] == s[line_start + j]);
                }
                lemma_records_none(sl);
            }
        }
        if parsing_map {
            ok && count <= 94
        } else {
            ok
        }
    }

    fn starts_with_hash(name: &str) -> (r: bool)
        ensures
            r == is_comment(name@),
    {
        let cs = chars_of(name);
        cs.len() > 0 && cs[0] == '#'
    }

    /// Adds `entry` last, in place of the entry of the same name if any.
    fn upsert_entry(list: &mut Vec<TransformEntry>, entry: TransformEntry, Ghost(n): Ghost<int>)
        requires
            entries_wf(old(list)@.map_values(|e: TransformEntry| e.model()), n),
            entry.model().idx == n,
        ensures
            final(list)@.map_values(|e: TransformEntry| e.model()) == upsert(
                old(list)@.map_values(|e: TransformEntry| e.model()),
                entry.model(),
            ),
    {
        let ghost es = old(list)@.map_values(|e: TransformEntry| e.model());
        let mut j: usize = 0;
        while j < list.len()
            invariant
                list@ == old(list)@,
                es == old(list)@.map_values(|e: TransformEntry| e.model()),
                entries_wf(es, n),
                j <= list@.len(),
                forall|k: int| 0 <= k < j ==> (#[trigger] es[k]).short_name != entry.short_name@,
            decreases list@.len() - j,
        {
            if same_text(list[j].short_name.as_str(), entry.short_name.as_str()) {
                proof {
                    assert(es[j as int] == list@[j as int].model());
                    lemma_key_pos(es, n, entry.short_name@, j as int);
                }
                list.remove(j);
                list.push(entry);
                assert(list@.map_values(|e: TransformEntry| e.model()) =~= es.remove(j as int).push(
                    entry.model(),
                ));
                return;
            }
            j = j + 1;
        }
        assert(!exists|k: int| 0 <= k < es.len() && (#[trigger] es[k]).short_name == entry.short_name@);
        list.push(entry);
        assert(list@.map_values(|e: TransformEntry| e.model()) =~= es.push(entry.model()));
    }
}

} // verus!
