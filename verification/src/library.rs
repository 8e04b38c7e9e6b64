//! The label library: how often each label was used, language by language. The
//! most-used labels are shown to the model, so that it reuses existing wording
//! instead of inventing variants; labels actually used are recorded back.
use vstd::prelude::*;
use vstd::string::*;

use crate::json;
use crate::json::{parse_json, read_table, write_table, Json, JsonTree, TableList};
use crate::text;
use crate::text::{precedes, same_text};

verus! {

/// How often each label of one language was used.
#[derive(Debug)]
pub struct Tally {
    entries: Vec<(String, u64)>,
}

/// What the list says of one label.
proof fn lemma_tally_entry(entries: Seq<(String, u64)>, label: Seq<char>)
    requires
        json::distinct_labels(entries),
    ensures
        json::count_map(entries).dom().finite(),
        forall|i: int|
            0 <= i < entries.len() && (#[trigger] entries[i]).0@ == label ==> json::count_map(
                entries,
            ).contains_key(label) && json::count_map(entries)[label] == entries[i].1,
        json::count_map(entries).contains_key(label) ==> exists|i: int|
            0 <= i < entries.len() && (#[trigger] entries[i]).0@ == label,
    decreases entries.len(),
{
    if entries.len() > 0 {
        let rest = entries.drop_last();
        assert(json::distinct_labels(rest)) by {
            assert forall|i: int, j: int| 0 <= i < j < rest.len() implies (#[trigger] rest[i]).0@
                != (#[trigger] rest[j]).0@ by {
                assert(entries[i].0@ != entries[j].0@);
            }
        }
        lemma_tally_entry(rest, label);
        assert forall|i: int| 0 <= i < entries.len() && (#[trigger] entries[i]).0@ == label implies
            json::count_map(entries).contains_key(label) && json::count_map(entries)[label]
            == entries[i].1 by {
            if i < rest.len() {
                assert(rest[i].0@ == label);
                assert(entries[i].0@ != entries[entries.len() - 1].0@);
            }
        }
        if json::count_map(entries).contains_key(label) {
            if entries.last().0@ == label {
                assert(entries[entries.len() - 1].0@ == label);
            } else {
                let i = choose|i: int| 0 <= i < rest.len() && (#[trigger] rest[i]).0@ == label;
                assert(entries[i].0@ == label);
            }
        }
    }
}

/// Changing a count in the list changes it in the map.
proof fn lemma_tally_update(entries: Seq<(String, u64)>, i: int, new: (String, u64))
    requires
        json::distinct_labels(entries),
        0 <= i < entries.len(),
        new.0@ == entries[i].0@,
    ensures
        json::count_map(entries.update(i, new)) == json::count_map(entries).insert(new.0@, new.1),
        json::distinct_labels(entries.update(i, new)),
    decreases entries.len(),
{
    let rest = entries.drop_last();
    let changed = entries.update(i, new);
    assert(json::distinct_labels(rest)) by {
        assert forall|a: int, b: int| 0 <= a < b < rest.len() implies (#[trigger] rest[a]).0@ != (
        #[trigger] rest[b]).0@ by {
            assert(entries[a].0@ != entries[b].0@);
        }
    }
    assert forall|a: int, b: int| 0 <= a < b < changed.len() implies (#[trigger] changed[a]).0@
        != (#[trigger] changed[b]).0@ by {
        assert(entries[a].0@ != entries[b].0@);
    }
    if i == entries.len() - 1 {
        assert(changed.drop_last() =~= rest);
        assert(json::count_map(changed) =~= json::count_map(entries).insert(new.0@, new.1));
    } else {
        lemma_tally_update(rest, i, new);
        assert(changed.drop_last() =~= rest.update(i, new));
        assert(entries[i].0@ != entries[entries.len() - 1].0@);
        assert(json::count_map(changed) =~= json::count_map(entries).insert(new.0@, new.1));
    }
}

impl Tally {
    /// The count of each label.
    pub closed spec fn view(&self) -> Map<Seq<char>, u64> {
        json::count_map(self.entries@)
    }

    /// No label is listed twice.
    pub closed spec fn wf(&self) -> bool {
        json::distinct_labels(self.entries@)
    }

    /// No label.
    pub fn new() -> (r: Self)
        ensures
            r.wf(),
            r@ == Map::<Seq<char>, u64>::empty(),
    {
        Tally { entries: Vec::new() }
    }

    fn find(&self, label: &str) -> (r: Option<usize>)
        requires
            self.wf(),
        ensures
            match r {
                Some(i) => i < self.entries@.len() && self.entries@[i as int].0@ == label@
                    && self@.contains_key(label@) && self@[label@] == self.entries@[i as int].1,
                None => !self@.contains_key(label@),
            },
    {
        proof {
            lemma_tally_entry(self.entries@, label@);
        }
        for i in 0..self.entries.len()
            invariant
                forall|j: int| 0 <= j < i ==> (#[trigger] self.entries@[j]).0@ != label@,
                self.wf(),
                forall|j: int|
                    0 <= j < self.entries@.len() && (#[trigger] self.entries@[j]).0@ == label@
                        ==> self@.contains_key(label@) && self@[label@] == self.entries@[j].1,
        {
            if same_text(self.entries[i].0.as_str(), label) {
                return Some(i);
            }
        }
        None
    }

    /// The count of one label; zero for a label that is not known.
    pub fn get(&self, label: &str) -> (r: u64)
        requires
            self.wf(),
        ensures
            r == count(self@, label@),
            r == (if self@.contains_key(label@) {
                self@[label@]
            } else {
                0
            }),
    {
        match self.find(label) {
            Some(i) => self.entries[i].1,
            None => 0,
        }
    }

    /// Sets the count of one label.
    pub fn set(&mut self, label: &str, n: u64)
        requires
            old(self).wf(),
        ensures
            final(self).wf(),
            final(self)@ == old(self)@.insert(label@, n),
    {
        let ghost before = self.entries@;
        match self.find(label) {
            Some(i) => {
                let new = (label.to_owned(), n);
                proof {
                    lemma_tally_update(before, i as int, new);
                }
                self.entries.set(i, new);
            },
            None => {
                proof {
                    lemma_tally_entry(before, label@);
                }
                self.entries.push((label.to_owned(), n));
                assert(self.entries@.drop_last() =~= before);
            },
        }
    }
}

/// The count of one label; zero for a label that is not known.
pub open spec fn count(counts: Map<Seq<char>, u64>, label: Seq<char>) -> u64 {
    if counts.contains_key(label) {
        counts[label]
    } else {
        0
    }
}

/// A label with count `m` stands before one with count `n`: the more used one
/// first, and in the order of strings where both are used as often.
pub open spec fn ranks_before(a: Seq<char>, m: u64, b: Seq<char>, n: u64) -> bool {
    m > n || (m == n && text::less(a, b))
}

/// `ranked` lists the labels of `counts`, most-used first.
pub open spec fn is_ranking(counts: Map<Seq<char>, u64>, ranked: Seq<Seq<char>>) -> bool {
    &&& forall|label: Seq<char>| #[trigger]
        ranked.contains(label) == counts.contains_key(label)
    &&& forall|i: int, j: int|
        0 <= i < j < ranked.len() ==> ranks_before(
            #[trigger] ranked[i],
            counts[ranked[i]],
            #[trigger] ranked[j],
            counts[ranked[j]],
        )
}

/// The labels, most-used first.
pub open spec fn ranking(counts: Map<Seq<char>, u64>) -> Seq<Seq<char>> {
    choose|ranked: Seq<Seq<char>>| is_ranking(counts, ranked)
}

/// The first `n` of a list, or all of it.
pub open spec fn first_of(list: Seq<Seq<char>>, n: int) -> Seq<Seq<char>> {
    if list.len() <= n {
        list
    } else {
        list.take(n)
    }
}

/// There is only one way to list labels most-used first.
pub proof fn law_ranking_is_unique(
    counts: Map<Seq<char>, u64>,
    a: Seq<Seq<char>>,
    b: Seq<Seq<char>>,
)
    requires
        is_ranking(counts, a),
        is_ranking(counts, b),
    ensures
        a == b,
{
    lemma_ranking_prefix(counts, a, b, a.len() as int);
    lemma_ranking_prefix(counts, b, a, b.len() as int);
    assert(a =~= b);
}

proof fn lemma_ranking_prefix(
    counts: Map<Seq<char>, u64>,
    a: Seq<Seq<char>>,
    b: Seq<Seq<char>>,
    n: int,
)
    requires
        is_ranking(counts, a),
        is_ranking(counts, b),
        0 <= n <= a.len(),
    ensures
        n <= b.len(),
        forall|i: int| 0 <= i < n ==> a[i] == b[i],
    decreases n,
{
    if n > 0 {
        let k = n - 1;
        lemma_ranking_prefix(counts, a, b, k);
        assert(a.contains(a[k]));
        assert(b.contains(a[k]));
        let p = choose|p: int| 0 <= p < b.len() && b[p] == a[k];
        if p < k {
            assert(a[p] == a[k]);
            text::law_less_is_total(a[p], a[k]);
            assert(ranks_before(a[p], counts[a[p]], a[k], counts[a[k]]));
            assert(false);
        }
        if p > k {
            assert(b.contains(b[k]));
            assert(a.contains(b[k]));
            let q = choose|q: int| 0 <= q < a.len() && a[q] == b[k];
            assert(ranks_before(b[k], counts[b[k]], b[p], counts[b[p]]));
            text::law_less_is_total(b[k], a[k]);
            if q < k {
                assert(b[q] == a[q]);
                assert(ranks_before(b[q], counts[b[q]], b[k], counts[b[k]]));
                text::law_less_is_total(b[q], b[k]);
            } else if q > k {
                assert(ranks_before(a[k], counts[a[k]], a[q], counts[a[q]]));
            }
            assert(false);
        }
    }
}

/// An entry for that label with that count is listed.
spec fn has_entry(entries: Seq<(String, u64)>, label: Seq<char>, n: u64) -> bool {
    exists|i: int| 0 <= i < entries.len() && (#[trigger] entries[i]).0@ == label && entries[i].1 == n
}

spec fn entries_ranked(entries: Seq<(String, u64)>) -> bool {
    forall|i: int, j: int|
        0 <= i < j < entries.len() ==> ranks_before(
            (#[trigger] entries[i]).0@,
            entries[i].1,
            (#[trigger] entries[j]).0@,
            entries[j].1,
        )
}

proof fn lemma_rank_transitive(
    a: Seq<char>,
    m: u64,
    b: Seq<char>,
    n: u64,
    c: Seq<char>,
    k: u64,
)
    requires
        ranks_before(a, m, b, n),
        ranks_before(b, n, c, k),
    ensures
        ranks_before(a, m, c, k),
{
    if m == n && n == k {
        text::law_less_is_transitive(a, b, c);
    }
}

proof fn lemma_has_entry_insert(
    entries: Seq<(String, u64)>,
    at: int,
    new: (String, u64),
    label: Seq<char>,
    n: u64,
)
    requires
        0 <= at <= entries.len(),
    ensures
        has_entry(entries.insert(at, new), label, n) == (has_entry(entries, label, n) || (new.0@
            == label && new.1 == n)),
{
    let more = entries.insert(at, new);
    if has_entry(entries, label, n) {
        let i = choose|i: int|
            0 <= i < entries.len() && (#[trigger] entries[i]).0@ == label && entries[i].1 == n;
        if i < at {
            assert(more[i] == entries[i]);
        } else {
            assert(more[i + 1] == entries[i]);
        }
    }
    if new.0@ == label && new.1 == n {
        assert(more[at] == new);
    }
    if has_entry(more, label, n) {
        let i = choose|i: int|
            0 <= i < more.len() && (#[trigger] more[i]).0@ == label && more[i].1 == n;
        if i < at {
            assert(entries[i] == more[i]);
        } else if i > at {
            assert(entries[i - 1] == more[i]);
        }
    }
}

impl Tally {
    /// The entries, most-used first.
    fn sorted(&self) -> (r: Vec<(String, u64)>)
        requires
            self.wf(),
        ensures
            entries_ranked(r@),
            forall|label: Seq<char>, n: u64| #[trigger]
                has_entry(r@, label, n) == has_entry(self.entries@, label, n),
    {
        let mut out: Vec<(String, u64)> = Vec::new();
        for k in 0..self.entries.len()
            invariant
                self.wf(),
                entries_ranked(out@),
                forall|label: Seq<char>, n: u64| #[trigger]
                    has_entry(out@, label, n) == has_entry(self.entries@.take(k as int), label, n),
        {
            let entry = &self.entries[k];
            let mut at: usize = 0;
            while at < out.len() && (out[at].1 > entry.1 || (out[at].1 == entry.1 && precedes(
                out[at].0.as_str(),
                entry.0.as_str(),
            )))
                invariant
                    at <= out@.len(),
                    forall|i: int|
                        0 <= i < at ==> ranks_before(
                            (#[trigger] out@[i]).0@,
                            out@[i].1,
                            entry.0@,
                            entry.1,
                        ),
                decreases out@.len() - at,
            {
                at += 1;
            }
            let ghost before = out@;
            let new = (entry.0.clone(), entry.1);
            proof {
                assert forall|i: int| at <= i < before.len() implies ranks_before(
                    entry.0@,
                    entry.1,
                    (#[trigger] before[i]).0@,
                    before[i].1,
                ) by {
                    let first = before[at as int];
                    assert(has_entry(before, first.0@, first.1));
                    assert(has_entry(self.entries@.take(k as int), first.0@, first.1));
                    let p = choose|p: int|
                        0 <= p < k && (#[trigger] self.entries@.take(k as int)[p]).0@ == first.0@
                            && self.entries@.take(k as int)[p].1 == first.1;
                    assert(self.entries@[p].0@ != self.entries@[k as int].0@);
                    text::law_less_is_total(first.0@, entry.0@);
                    assert(ranks_before(entry.0@, entry.1, first.0@, first.1));
                    if i > at {
                        assert(ranks_before(first.0@, first.1, before[i].0@, before[i].1));
                        lemma_rank_transitive(
                            entry.0@,
                            entry.1,
                            first.0@,
                            first.1,
                            before[i].0@,
                            before[i].1,
                        );
                    }
                }
            }
            out.insert(at, new);
            proof {
                assert(out@ =~= before.insert(at as int, new));
                assert forall|i: int, j: int| 0 <= i < j < out@.len() implies ranks_before(
                    (#[trigger] out@[i]).0@,
                    out@[i].1,
                    (#[trigger] out@[j]).0@,
                    out@[j].1,
                ) by {
                    let bi = if i < at { i } else { i - 1 };
                    let bj = if j < at { j } else { j - 1 };
                    if i == at {
                        assert(out@[j] == before[bj]);
                    } else if j == at {
                        assert(out@[i] == before[bi]);
                    } else {
                        assert(out@[i] == before[bi]);
                        assert(out@[j] == before[bj]);
                    }
                }
                let now = self.entries@.take(k + 1);
                let then_ = self.entries@.take(k as int);
                assert(now =~= then_.insert(k as int, *entry));
                assert forall|label: Seq<char>, n: u64| #[trigger]
                    has_entry(out@, label, n) == has_entry(now, label, n) by {
                    lemma_has_entry_insert(before, at as int, new, label, n);
                    lemma_has_entry_insert(then_, k as int, *entry, label, n);
                    assert(has_entry(before, label, n) == has_entry(then_, label, n));
                }
            }
        }
        assert(self.entries@.take(self.entries@.len() as int) =~= self.entries@);
        out
    }

    /// The labels, most-used first, at most `max` of them.
    pub fn most_used(&self, max: usize) -> (r: Vec<String>)
        requires
            self.wf(),
        ensures
            is_ranking(self@, ranking(self@)),
            r@.map_values(|l: String| l@) == first_of(ranking(self@), max as int),
            r@.len() <= max,
            are_most_used(self@, max as nat, r@.map_values(|l: String| l@)),
    {
        proof {
            lemma_count_map_finite(self.entries@);
            lemma_most_used(self@, max as nat);
        }
        let sorted = self.sorted();
        let ghost ranked = sorted@.map_values(|e: (String, u64)| e.0@);
        proof {
            assert forall|label: Seq<char>| #[trigger]
                ranked.contains(label) == self@.contains_key(label) by {
                lemma_tally_entry(self.entries@, label);
                if ranked.contains(label) {
                    let i = choose|i: int| 0 <= i < ranked.len() && ranked[i] == label;
                    assert(has_entry(sorted@, sorted@[i].0@, sorted@[i].1));
                    assert(has_entry(self.entries@, label, sorted@[i].1));
                }
                if self@.contains_key(label) {
                    let i = choose|i: int|
                        0 <= i < self.entries@.len() && (#[trigger] self.entries@[i]).0@ == label;
                    assert(has_entry(self.entries@, label, self.entries@[i].1));
                    assert(has_entry(sorted@, label, self.entries@[i].1));
                    let j = choose|j: int|
                        0 <= j < sorted@.len() && (#[trigger] sorted@[j]).0@ == label && sorted@[j].1
                            == self.entries@[i].1;
                    assert(ranked[j] == label);
                }
            }
            assert forall|i: int| 0 <= i < ranked.len() implies self@[#[trigger] ranked[i]]
                == sorted@[i].1 by {
                lemma_tally_entry(self.entries@, ranked[i]);
                assert(has_entry(sorted@, sorted@[i].0@, sorted@[i].1));
                assert(has_entry(self.entries@, ranked[i], sorted@[i].1));
            }
            assert(is_ranking(self@, ranked));
            law_ranking_is_unique(self@, ranked, ranking(self@));
        }
        let n: usize = if sorted.len() <= max {
            sorted.len()
        } else {
            max
        };
        let mut out: Vec<String> = Vec::new();
        for i in 0..n
            invariant
                n <= sorted@.len(),
                out@.len() == i,
                forall|j: int| 0 <= j < i ==> (#[trigger] out@[j])@ == sorted@[j].0@,
        {
            out.push(sorted[i].0.clone());
        }
        assert(out@.map_values(|l: String| l@) =~= first_of(ranked, max as int));
        out
    }
}

/// The label library: a JSON file mapping language to label to usage count.
///
/// File format:
/// ```json
/// {"de": {"Lebensmittel": 12, "Miete": 3}, "en": {"Groceries": 1}}
/// ```
#[derive(Debug)]
pub struct LabelLibrary {
    path: String,
    max_in_prompt: usize,
    languages: Vec<(String, Tally)>,
}

spec fn held_map(languages: Seq<(String, Tally)>) -> Map<Seq<char>, Map<Seq<char>, u64>>
    decreases languages.len(),
{
    if languages.len() == 0 {
        Map::empty()
    } else {
        held_map(languages.drop_last()).insert(languages.last().0@, languages.last().1@)
    }
}

spec fn distinct_languages(languages: Seq<(String, Tally)>) -> bool {
    forall|i: int, j: int|
        0 <= i < j < languages.len() ==> (#[trigger] languages[i]).0@ != (
        #[trigger] languages[j]).0@
}

proof fn lemma_distinct_languages_remove(languages: Seq<(String, Tally)>, i: int)
    requires
        distinct_languages(languages),
        0 <= i < languages.len(),
    ensures
        distinct_languages(languages.remove(i)),
        distinct_languages(languages.drop_last()),
{
    let rest = languages.remove(i);
    assert forall|a: int, b: int| 0 <= a < b < rest.len() implies (#[trigger] rest[a]).0@ != (
    #[trigger] rest[b]).0@ by {
        let x = if a < i { a } else { a + 1 };
        let y = if b < i { b } else { b + 1 };
        assert(rest[a] == languages[x]);
        assert(rest[b] == languages[y]);
    }
    let rest = languages.drop_last();
    assert forall|a: int, b: int| 0 <= a < b < rest.len() implies (#[trigger] rest[a]).0@ != (
    #[trigger] rest[b]).0@ by {
        assert(rest[a] == languages[a]);
        assert(rest[b] == languages[b]);
    }
}

/// What the list says of one language.
proof fn lemma_table_entry(languages: Seq<(String, Tally)>, language: Seq<char>)
    requires
        distinct_languages(languages),
    ensures
        forall|i: int|
            0 <= i < languages.len() && (#[trigger] languages[i]).0@ == language ==> held_map(
                languages,
            ).contains_key(language) && held_map(languages)[language] == languages[i].1@,
        held_map(languages).contains_key(language) ==> exists|i: int|
            0 <= i < languages.len() && (#[trigger] languages[i]).0@ == language,
    decreases languages.len(),
{
    if languages.len() > 0 {
        let rest = languages.drop_last();
        let last = languages.len() - 1;
        lemma_distinct_languages_remove(languages, last);
        lemma_table_entry(rest, language);
        assert forall|i: int|
            0 <= i < languages.len() && (#[trigger] languages[i]).0@ == language implies held_map(
            languages,
        ).contains_key(language) && held_map(languages)[language] == languages[i].1@ by {
            if i < rest.len() {
                assert(rest[i].0@ == language);
                assert(languages[i].0@ != languages[last].0@);
            }
        }
        if held_map(languages).contains_key(language) {
            if languages.last().0@ == language {
                assert(languages[last].0@ == language);
            } else {
                let i = choose|i: int| 0 <= i < rest.len() && (#[trigger] rest[i]).0@ == language;
                assert(languages[i].0@ == language);
            }
        }
    }
}

/// Taking a language off the list takes it out of the map.
proof fn lemma_table_remove(languages: Seq<(String, Tally)>, i: int)
    requires
        distinct_languages(languages),
        0 <= i < languages.len(),
    ensures
        held_map(languages.remove(i)) == held_map(languages).remove(languages[i].0@),
    decreases languages.len(),
{
    let rest = languages.drop_last();
    let last = languages.len() - 1;
    lemma_distinct_languages_remove(languages, i);
    if i == last {
        assert(languages.remove(i) =~= rest);
        lemma_table_entry(rest, languages[i].0@);
        assert(!held_map(rest).contains_key(languages[i].0@)) by {
            if held_map(rest).contains_key(languages[i].0@) {
                let k = choose|k: int|
                    0 <= k < rest.len() && (#[trigger] rest[k]).0@ == languages[i].0@;
                assert(languages[k].0@ != languages[i].0@);
            }
        }
        assert(held_map(rest) =~= held_map(languages).remove(languages[i].0@));
    } else {
        lemma_table_remove(rest, i);
        assert(rest[i] == languages[i]);
        assert(languages.remove(i).drop_last() =~= rest.remove(i));
        assert(languages[i].0@ != languages[last].0@);
        assert(held_map(languages.remove(i)) =~= held_map(languages).remove(languages[i].0@));
    }
}

/// The counts of one language; none for a language that is not known.
pub open spec fn counts_of(
    table: Map<Seq<char>, Map<Seq<char>, u64>>,
    language: Seq<char>,
) -> Map<Seq<char>, u64> {
    if table.contains_key(language) {
        table[language]
    } else {
        Map::empty()
    }
}

/// How often `x` stands in a list.
pub open spec fn occurrences(list: Seq<Seq<char>>, x: Seq<char>) -> nat
    decreases list.len(),
{
    if list.len() == 0 {
        0
    } else {
        occurrences(list.drop_last(), x) + if list.last() == x {
            1nat
        } else {
            0nat
        }
    }
}

/// `after` is `before` with every one of `labels` counted once more.
pub open spec fn counted(
    before: Map<Seq<char>, u64>,
    labels: Seq<Seq<char>>,
    after: Map<Seq<char>, u64>,
) -> bool {
    forall|label: Seq<char>|
        {
            &&& #[trigger] after.contains_key(label) == (before.contains_key(label) || occurrences(
                labels,
                label,
            ) > 0)
            &&& count(after, label) == count(before, label) + occurrences(labels, label)
        }
}

/// `after` is `before` with `labels` recorded for `language`: every one of them
/// is counted once more there, and the other languages are left alone.
pub open spec fn recorded(
    before: Map<Seq<char>, Map<Seq<char>, u64>>,
    language: Seq<char>,
    labels: Seq<Seq<char>>,
    after: Map<Seq<char>, Map<Seq<char>, u64>>,
) -> bool {
    if labels.len() == 0 {
        after == before
    } else {
        &&& after.remove(language) == before.remove(language)
        &&& after.contains_key(language)
        &&& counted(counts_of(before, language), labels, counts_of(after, language))
    }
}

/// How often a label of a language was used.
pub open spec fn uses(
    table: Map<Seq<char>, Map<Seq<char>, u64>>,
    language: Seq<char>,
    label: Seq<char>,
) -> int {
    if table.contains_key(language) && table[language].contains_key(label) {
        table[language][label] as int
    } else {
        0
    }
}

/// No count would leave the range of machine numbers.
pub open spec fn room_for(counts: Map<Seq<char>, u64>, labels: Seq<Seq<char>>) -> bool {
    forall|label: Seq<char>| count(counts, label) + #[trigger] occurrences(labels, label)
        <= u64::MAX
}

proof fn lemma_occurrences_grow(list: Seq<Seq<char>>, n: int, x: Seq<char>)
    requires
        0 <= n <= list.len(),
    ensures
        occurrences(list.take(n), x) <= occurrences(list, x),
    decreases list.len(),
{
    if n == list.len() {
        assert(list.take(n) =~= list);
    } else {
        lemma_occurrences_grow(list.drop_last(), n, x);
        assert(list.drop_last().take(n) =~= list.take(n));
    }
}

impl LabelLibrary {
    /// The count of each label, language by language.
    pub closed spec fn view(&self) -> Map<Seq<char>, Map<Seq<char>, u64>> {
        held_map(self.languages@)
    }

    /// Where the library is kept; empty where it is kept in memory only.
    pub closed spec fn file(&self) -> Seq<char> {
        self.path@
    }

    /// How many labels of a language are shown to the model.
    pub closed spec fn limit(&self) -> usize {
        self.max_in_prompt
    }

    /// No language is listed twice, and no label of a language.
    pub closed spec fn wf(&self) -> bool {
        &&& distinct_languages(self.languages@)
        &&& forall|i: int| 0 <= i < self.languages@.len() ==> (#[trigger] self.languages@[i]).1.wf()
    }

    /// The counts of one language are taken out of the library.
    fn take_language(&mut self, language: &str) -> (r: Tally)
        requires
            old(self).wf(),
        ensures
            final(self).wf(),
            final(self)@ == old(self)@.remove(language@),
            final(self).file() == old(self).file(),
            final(self).limit() == old(self).limit(),
            r.wf(),
            r@ == counts_of(old(self)@, language@),
    {
        proof {
            lemma_table_entry(self.languages@, language@);
        }
        let n = self.languages.len();
        let mut i: usize = 0;
        while i < n
            invariant
                i <= n,
                n == self.languages@.len(),
                *self == *old(self),
                self.wf(),
                forall|j: int| 0 <= j < i ==> (#[trigger] self.languages@[j]).0@ != language@,
                forall|j: int|
                    0 <= j < self.languages@.len() && (#[trigger] self.languages@[j]).0@
                        == language@ ==> self@.contains_key(language@) && self@[language@]
                        == self.languages@[j].1@,
            decreases n - i,
        {
            if same_text(self.languages[i].0.as_str(), language) {
                proof {
                    lemma_table_remove(self.languages@, i as int);
                    lemma_distinct_languages_remove(self.languages@, i as int);
                }
                let (_, tally) = self.languages.remove(i);
                return tally;
            }
            i += 1;
        }
        assert(self@.remove(language@) =~= self@);
        Tally::new()
    }

    /// The counts of one language are put into the library.
    fn put_language(&mut self, language: &str, tally: Tally)
        requires
            old(self).wf(),
            !old(self)@.contains_key(language@),
            tally.wf(),
        ensures
            final(self).wf(),
            final(self)@ == old(self)@.insert(language@, tally@),
            final(self).file() == old(self).file(),
            final(self).limit() == old(self).limit(),
    {
        proof {
            lemma_table_entry(self.languages@, language@);
        }
        let ghost before = self.languages@;
        self.languages.push((language.to_owned(), tally));
        assert(self.languages@.drop_last() =~= before);
    }

    /// The labels that the library offers for `language`: the most-used ones.
    pub open spec fn known(&self, language: Seq<char>) -> Seq<Seq<char>> {
        first_of(ranking(counts_of(self@, language)), self.limit() as int)
    }

    /// Existing labels for `language`, most-used first, capped at
    /// `max_in_prompt`. Empty when the library is disabled
    /// (`TL_LABEL_LIBRARY=""` or `TL_LIBRARY_PROMPT_MAX=0`).
    pub fn labels_for(&self, language: &str) -> (r: Vec<String>)
        requires
            self.wf(),
        ensures
            is_ranking(counts_of(self@, language@), ranking(counts_of(self@, language@))),
            r@.map_values(|l: String| l@) == self.known(language@),
            r@.len() <= self.limit(),
            are_most_used(
                if self@.contains_key(language@) {
                    self@[language@]
                } else {
                    Map::empty()
                },
                self.limit() as nat,
                r@.map_values(|l: String| l@),
            ),
    {
        proof {
            lemma_table_entry(self.languages@, language@);
            law_most_used_are_offered(*self, language@);
        }
        for i in 0..self.languages.len()
            invariant
                self.wf(),
                are_most_used(
                    if self@.contains_key(language@) {
                        self@[language@]
                    } else {
                        Map::empty()
                    },
                    self.limit() as nat,
                    self.known(language@),
                ),
                forall|j: int| 0 <= j < i ==> (#[trigger] self.languages@[j]).0@ != language@,
                forall|j: int|
                    0 <= j < self.languages@.len() && (#[trigger] self.languages@[j]).0@
                        == language@ ==> self@.contains_key(language@) && self@[language@]
                        == self.languages@[j].1@,
        {
            if same_text(self.languages[i].0.as_str(), language) {
                return self.languages[i].1.most_used(self.max_in_prompt);
            }
        }
        Tally::new().most_used(self.max_in_prompt)
    }

    /// Whether all of `labels` can be counted once more.
    pub fn has_room(&self, language: &str, labels: &[String]) -> (r: bool)
        requires
            self.wf(),
        ensures
            r == room_for(counts_of(self@, language@), labels@.map_values(|l: String| l@)),
            r <==> forall|l: Seq<char>|
                #[trigger] uses(self@, language@, l) + labels@.map_values(
                    |l: String| l@,
                ).to_multiset().count(l) <= u64::MAX,
    {
        proof {
            law_room_is_counted(self@, language@, labels@.map_values(|l: String| l@));
            lemma_table_entry(self.languages@, language@);
        }
        for i in 0..self.languages.len()
            invariant
                self.wf(),
                room_for(counts_of(self@, language@), labels@.map_values(|l: String| l@))
                    <==> forall|l: Seq<char>|
                    #[trigger] uses(self@, language@, l) + labels@.map_values(
                        |l: String| l@,
                    ).to_multiset().count(l) <= u64::MAX,
                forall|j: int| 0 <= j < i ==> (#[trigger] self.languages@[j]).0@ != language@,
                forall|j: int|
                    0 <= j < self.languages@.len() && (#[trigger] self.languages@[j]).0@
                        == language@ ==> self@.contains_key(language@) && self@[language@]
                        == self.languages@[j].1@,
        {
            if same_text(self.languages[i].0.as_str(), language) {
                return self.languages[i].1.has_room(labels);
            }
        }
        Tally::new().has_room(labels)
    }

    /// How many labels of a language are shown to the model.
    pub fn max_in_prompt(&self) -> (r: usize)
        ensures
            r == self.limit(),
    {
        self.max_in_prompt
    }

    /// Where the library is kept.
    pub fn path(&self) -> (r: &str)
        ensures
            r@ == self.file(),
    {
        self.path.as_str()
    }

    /// An empty, in-memory-only library.
    pub fn disabled() -> (r: Self)
        ensures
            r.wf(),
            r@ == Map::<Seq<char>, Map<Seq<char>, u64>>::empty(),
            r.file() == Seq::<char>::empty(),
            r.limit() == 0,
    {
        LabelLibrary { path: String::new(), max_in_prompt: 0, languages: Vec::new() }
    }
}

impl Tally {
    /// Whether all of `labels` can be counted once more.
    pub fn has_room(&self, labels: &[String]) -> (r: bool)
        requires
            self.wf(),
        ensures
            r == room_for(self@, labels@.map_values(|l: String| l@)),
    {
        let ghost views = labels@.map_values(|l: String| l@);
        for i in 0..labels.len()
            invariant
                self.wf(),
                views == labels@.map_values(|l: String| l@),
                forall|j: int|
                    0 <= j < i ==> count(self@, #[trigger] views[j]) + occurrences(views, views[j])
                        <= u64::MAX,
        {
            let mut n: u64 = self.get(labels[i].as_str());
            assert(views[i as int] == labels@[i as int]@);
            assert(views.take(0) =~= Seq::empty());
            for k in 0..labels.len()
                invariant
                    i < labels@.len(),
                    views == labels@.map_values(|l: String| l@),
                    n == count(self@, views[i as int]) + occurrences(
                        views.take(k as int),
                        views[i as int],
                    ),
            {
                assert(views.take(k + 1).drop_last() =~= views.take(k as int));
                if same_text(labels[k].as_str(), labels[i].as_str()) {
                    if n == u64::MAX {
                        proof {
                            lemma_occurrences_grow(views, k + 1, views[i as int]);
                        }
                        return false;
                    }
                    n += 1;
                }
            }
            assert(views.take(labels@.len() as int) =~= views);
        }
        proof {
            assert forall|label: Seq<char>| count(self@, label) + #[trigger] occurrences(
                views,
                label,
            ) <= u64::MAX by {
                if occurrences(views, label) > 0 {
                    lemma_occurs(views, label);
                }
            }
        }
        true
    }
}

proof fn lemma_occurs(list: Seq<Seq<char>>, x: Seq<char>)
    requires
        occurrences(list, x) > 0,
    ensures
        exists|i: int| 0 <= i < list.len() && #[trigger] list[i] == x,
    decreases list.len(),
{
    if list.last() == x {
        assert(list[list.len() - 1] == x);
    } else {
        lemma_occurs(list.drop_last(), x);
        let i = choose|i: int|
            0 <= i < list.drop_last().len() && #[trigger] list.drop_last()[i] == x;
        assert(list[i] == x);
    }
}

/// The counts that a JSON object states: a member that is no count is left out.
pub open spec fn counts_in(tree: JsonTree) -> Map<Seq<char>, u64> {
    Map::new(
        |label: Seq<char>| json::unsigned_member(tree, label) is Some,
        |label: Seq<char>| json::unsigned_member(tree, label)->0,
    )
}

/// A member of a JSON object that is itself an object.
pub open spec fn has_object(tree: JsonTree, name: Seq<char>) -> bool {
    tree is Object && tree->Object_0.contains_key(name) && tree->Object_0[name] is Object
}

/// The library that a JSON value states: a member that is no object of counts
/// is left out, and the rest is kept.
pub open spec fn table_in(tree: JsonTree) -> Map<Seq<char>, Map<Seq<char>, u64>> {
    Map::new(
        |language: Seq<char>| has_object(tree, language),
        |language: Seq<char>| counts_in(tree->Object_0[language]),
    )
}

/// The library that a file states: the table that it holds; where it holds
/// something else, what can be made of it entry by entry; nothing where there is
/// no file or where it is not JSON.
pub open spec fn loaded(content: Option<Seq<char>>) -> Map<Seq<char>, Map<Seq<char>, u64>> {
    match content {
        Some(content) => match json::table_of(content) {
            Ok(table) => table,
            Err(_) => match json::json_of(content) {
                Ok(tree) => table_in(tree),
                Err(_) => Map::empty(),
            },
        },
        None => Map::empty(),
    }
}

/// `text` is what is written of a table: it is read back as that table.
pub open spec fn is_file_text(
    text: Seq<char>,
    table: Map<Seq<char>, Map<Seq<char>, u64>>,
) -> bool {
    text == json::pretty_table(table) && json::reads_as(text, table)
}

/// A library survives a restart: what is opened from the text that was written
/// of it holds the same counts and, with the same cap, offers the same labels.
pub proof fn law_library_survives_restart(
    written: LabelLibrary,
    text: Seq<char>,
    opened: LabelLibrary,
)
    requires
        is_file_text(text, written@),
        opened@ == loaded(Some(text)),
        opened.limit() == written.limit(),
    ensures
        opened@ == written@,
        forall|language: Seq<char>| #[trigger]
            opened.known(language) == written.known(language),
{
}

impl Tally {
    /// The counts as a list.
    fn to_list(&self) -> (r: Vec<(String, u64)>)
        ensures
            r@ == self.entries@,
    {
        let mut list: Vec<(String, u64)> = Vec::new();
        for i in 0..self.entries.len()
            invariant
                list@ == self.entries@.take(i as int),
        {
            let entry = &self.entries[i];
            list.push((entry.0.clone(), entry.1));
            assert(list@ =~= self.entries@.take(i + 1));
        }
        assert(self.entries@.take(self.entries@.len() as int) =~= self.entries@);
        list
    }

    /// The counts that a JSON object states.
    fn from_json(object: &Json) -> (r: Self)
        ensures
            r.wf(),
            r@ == counts_in(object.tree()),
    {
        let names = object.names();
        let mut tally = Tally::new();
        let ghost tree = object.tree();
        for i in 0..names.len()
            invariant
                tree == object.tree(),
                tally.wf(),
                forall|a: int, b: int|
                    0 <= a < b < names@.len() ==> (#[trigger] names@[a])@ != (
                    #[trigger] names@[b])@,
                forall|label: Seq<char>| #[trigger]
                    tally@.contains_key(label) == (json::lists(names@.take(i as int), label)
                        && json::unsigned_member(tree, label) is Some),
                forall|label: Seq<char>| #[trigger]
                    tally@.contains_key(label) ==> tally@[label] == json::unsigned_member(
                        tree,
                        label,
                    )->0,
        {
            let name = names[i].as_str();
            let ghost before = tally@;
            assert(names@.take(i + 1) =~= names@.take(i as int).push(names@[i as int]));
            let found = object.get_unsigned(name);
            if let Some(n) = found {
                tally.set(name, n);
            }
            proof {
                assert forall|label: Seq<char>| #[trigger]
                    tally@.contains_key(label) == (json::lists(names@.take(i + 1), label)
                        && json::unsigned_member(tree, label) is Some) by {
                    json::lemma_lists_push(names@.take(i as int), names@[i as int], label);
                    assert(before.contains_key(label) == (json::lists(
                        names@.take(i as int),
                        label,
                    ) && json::unsigned_member(tree, label) is Some));
                }
                assert forall|label: Seq<char>| #[trigger]
                    tally@.contains_key(label) implies tally@[label] == json::unsigned_member(
                    tree,
                    label,
                )->0 by {
                    if label != name@ {
                        assert(before.contains_key(label));
                    } else if found is None {
                        assert(before.contains_key(label));
                    }
                }
            }
        }
        proof {
            assert(names@.take(names@.len() as int) =~= names@);
            assert forall|label: Seq<char>| #[trigger]
                tally@.contains_key(label) == counts_in(tree).contains_key(label) by {
                assert(json::lists(names@, label) == (tree is Object
                    && tree->Object_0.contains_key(label)));
            }
            assert(tally@ =~= counts_in(tree));
        }
        tally
    }
}

impl LabelLibrary {
    /// The library as a list.
    fn to_list(&self) -> (r: TableList)
        requires
            self.wf(),
        ensures
            json::is_table(r@),
            json::table_map(r@) == self@,
    {
        let mut list: TableList = Vec::new();
        assert(self.languages@.take(0) =~= Seq::empty());
        for i in 0..self.languages.len()
            invariant
                self.wf(),
                list@.len() == i,
                json::table_map(list@) == held_map(self.languages@.take(i as int)),
                forall|j: int|
                    0 <= j < i ==> (#[trigger] list@[j]).0@ == self.languages@[j].0@
                        && list@[j].1@ == self.languages@[j].1.entries@,
        {
            let entry = &self.languages[i];
            let ghost before = list@;
            list.push((entry.0.clone(), entry.1.to_list()));
            assert(list@.drop_last() =~= before);
            assert(self.languages@.take(i + 1).drop_last() =~= self.languages@.take(i as int));
        }
        assert(self.languages@.take(self.languages@.len() as int) =~= self.languages@);
        list
    }

    /// The library that holds a table.
    pub fn of_table(path: &str, table: TableList, max_in_prompt: usize) -> (r: Self)
        requires
            json::is_table(table@),
        ensures
            r.wf(),
            r@ == json::table_map(table@),
            r.file() == path@,
            r.limit() == max_in_prompt,
    {
        let mut languages: Vec<(String, Tally)> = Vec::new();
        let ghost all = table@;
        assert(all.take(0) =~= Seq::empty());
        for entry in it: table
            invariant
                it.seq() == all,
                json::is_table(all),
                languages@.len() == it.index(),
                held_map(languages@) == json::table_map(all.take(it.index() as int)),
                forall|j: int|
                    0 <= j < languages@.len() ==> (#[trigger] languages@[j]).0@ == all[j].0@
                        && languages@[j].1.entries@ == all[j].1@,
        {
            let ghost i = it.index() as int;
            let ghost before = languages@;
            assert(entry == all[i]);
            languages.push((entry.0, Tally { entries: entry.1 }));
            assert(languages@.drop_last() =~= before);
            assert(all.take(i + 1).drop_last() =~= all.take(i));
        }
        assert(all.take(all.len() as int) =~= all);
        assert(distinct_languages(languages@)) by {
            assert forall|i: int, j: int| 0 <= i < j < languages@.len() implies (
            #[trigger] languages@[i]).0@ != (#[trigger] languages@[j]).0@ by {
                assert(all[i].0@ != all[j].0@);
            }
        }
        LabelLibrary { path: path.to_owned(), max_in_prompt, languages }
    }

    /// The library that a JSON value states, entry by entry: what is no count and
    /// what is no object of counts is skipped, and the rest is kept.
    pub fn of_entries(path: &str, stated: &Json, max_in_prompt: usize) -> (r: Self)
        ensures
            r.wf(),
            r@ == table_in(stated.tree()),
            r.file() == path@,
            r.limit() == max_in_prompt,
    {
        let mut library = LabelLibrary {
            path: path.to_owned(),
            max_in_prompt,
            languages: Vec::new(),
        };
        library.fill(stated);
        library
    }

    /// Fills an empty library with what a JSON value states.
    fn fill(&mut self, content: &Json)
        requires
            old(self).wf(),
            old(self)@ == Map::<Seq<char>, Map<Seq<char>, u64>>::empty(),
        ensures
            final(self).wf(),
            final(self)@ == table_in(content.tree()),
            final(self).file() == old(self).file(),
            final(self).limit() == old(self).limit(),
    {
        let names = content.names();
        let ghost tree = content.tree();
        let ghost file = self.file();
        let ghost limit = self.limit();
        for i in 0..names.len()
            invariant
                tree == content.tree(),
                self.wf(),
                self.file() == file,
                self.limit() == limit,
                forall|a: int, b: int|
                    0 <= a < b < names@.len() ==> (#[trigger] names@[a])@ != (
                    #[trigger] names@[b])@,
                forall|language: Seq<char>| #[trigger]
                    self@.contains_key(language) == (json::lists(names@.take(i as int), language)
                        && has_object(tree, language)),
                forall|language: Seq<char>| #[trigger]
                    self@.contains_key(language) ==> self@[language] == counts_in(
                        tree->Object_0[language],
                    ),
        {
            let name = names[i].as_str();
            let ghost before = self@;
            assert(names@.take(i + 1) =~= names@.take(i as int).push(names@[i as int]));
            assert(!json::lists(names@.take(i as int), name@)) by {
                if json::lists(names@.take(i as int), name@) {
                    let a = choose|a: int|
                        0 <= a < i && (#[trigger] names@.take(i as int)[a])@ == name@;
                    assert(names@[a]@ != names@[i as int]@);
                }
            }
            let mut stated = false;
            if let Some(object) = content.get(name) {
                if let Json::Object(_) = object {
                    let tally = Tally::from_json(object);
                    self.put_language(name, tally);
                    stated = true;
                }
            }
            proof {
                assert(stated == has_object(tree, name@));
                assert forall|language: Seq<char>| #[trigger]
                    self@.contains_key(language) == (json::lists(names@.take(i + 1), language)
                        && has_object(tree, language)) by {
                    json::lemma_lists_push(names@.take(i as int), names@[i as int], language);
                    assert(before.contains_key(language) == (json::lists(
                        names@.take(i as int),
                        language,
                    ) && has_object(tree, language)));
                }
                assert forall|language: Seq<char>| #[trigger]
                    self@.contains_key(language) implies self@[language] == counts_in(
                    tree->Object_0[language],
                ) by {
                    if language != name@ {
                        assert(before.contains_key(language));
                    }
                }
            }
        }
        proof {
            assert(names@.take(names@.len() as int) =~= names@);
            assert forall|language: Seq<char>| #[trigger]
                self@.contains_key(language) == table_in(tree).contains_key(language) by {
                assert(json::lists(names@, language) == (tree is Object
                    && tree->Object_0.contains_key(language)));
            }
            assert(self@ =~= table_in(tree));
        }
    }

    /// Opens the library kept at `path`, with the content of that file where it
    /// could be read. A missing file is fine (start empty), and so is a corrupt
    /// one; malformed entries are skipped: labelling must keep working.
    pub fn open(path: &str, content: Option<&str>, max_in_prompt: usize) -> (r: Self)
        ensures
            r.wf(),
            r@ == loaded(
                match content {
                    Some(content) => Some(content@),
                    None => None,
                },
            ),
            r.file() == path@,
            r.limit() == max_in_prompt,
    {
        if let Some(content) = content {
            if let Ok(table) = read_table(content) {
                return Self::of_table(path, table, max_in_prompt);
            }
            if let Ok(stated) = parse_json(content) {
                return Self::of_entries(path, &stated, max_in_prompt);
            }
        }
        LabelLibrary { path: path.to_owned(), max_in_prompt, languages: Vec::new() }
    }

    /// The text of the library file.
    fn file_text(&self) -> (r: String)
        requires
            self.wf(),
        ensures
            is_file_text(r@, self@),
    {
        match write_table(self.to_list()) {
            Ok(text) => text,
            Err(_) => vstd::pervasive::unreached(),
        }
    }

    /// What is to be written to the library file: nothing where the library is
    /// kept in memory only.
    fn persist(&self) -> (r: Option<String>)
        requires
            self.wf(),
        ensures
            match r {
                Some(text) => self.file().len() > 0 && is_file_text(text@, self@),
                None => self.file().len() == 0,
            },
    {
        if self.path.as_str().is_empty() {
            return None;
        }
        Some(self.file_text())
    }

    /// What is to be written to the library file once more on shutdown.
    pub fn flush(&self) -> (r: Option<String>)
        requires
            self.wf(),
        ensures
            match r {
                Some(text) => self.file().len() > 0 && self.limit() != 0 && is_file_text(
                    text@,
                    self@,
                ),
                None => self.file().len() == 0 || self.limit() == 0,
            },
    {
        if self.max_in_prompt != 0 && !self.path.as_str().is_empty() {
            self.persist()
        } else {
            None
        }
    }

    /// Records labels that were actually returned for `language`: increments
    /// the usage count of known labels, inserts new ones. Returns what is to be
    /// written to the library file. No-op when the library is disabled
    /// (`max_in_prompt == 0`), so `TL_LIBRARY_PROMPT_MAX=0` disables the
    /// library entirely, like `TL_LABEL_LIBRARY=""`.
    pub fn record(&mut self, language: &str, labels: &[String]) -> (r: Option<String>)
        requires
            old(self).wf(),
            old(self).limit() != 0 ==> room_for(
                counts_of(old(self)@, language@),
                labels@.map_values(|l: String| l@),
            ),
        ensures
            final(self).wf(),
            final(self).file() == old(self).file(),
            final(self).limit() == old(self).limit(),
            if old(self).limit() == 0 || labels@.len() == 0 {
                final(self)@ == old(self)@ && r is None
            } else {
                &&& recorded(
                    old(self)@,
                    language@,
                    labels@.map_values(|l: String| l@),
                    final(self)@,
                )
                &&& forall|m: Seq<char>, l: Seq<char>| #[trigger]
                    uses(final(self)@, m, l) == uses(old(self)@, m, l) + (if m == language@ {
                        labels@.map_values(|l: String| l@).to_multiset().count(l)
                    } else {
                        0
                    })
                &&& match r {
                    Some(text) => final(self).file().len() > 0 && is_file_text(
                        text@,
                        final(self)@,
                    ),
                    None => final(self).file().len() == 0,
                }
            },
    {
        if self.max_in_prompt == 0 || labels.len() == 0 {
            return None;
        }
        let ghost views = labels@.map_values(|l: String| l@);
        let ghost before = counts_of(self@, language@);
        let ghost others = self@.remove(language@);
        let mut tally = self.take_language(language);
        assert(views.take(0) =~= Seq::empty());
        for i in 0..labels.len()
            invariant
                views == labels@.map_values(|l: String| l@),
                room_for(before, views),
                tally.wf(),
                counted(before, views.take(i as int), tally@),
        {
            let label = labels[i].as_str();
            let ghost now = tally@;
            proof {
                assert(views.take(i + 1).drop_last() =~= views.take(i as int));
                assert(views.take(i + 1).last() == label@);
                lemma_occurrences_grow(views, i + 1, label@);
                assert(now.contains_key(label@) == (before.contains_key(label@) || occurrences(
                    views.take(i as int),
                    label@,
                ) > 0));
            }
            let n = tally.get(label);
            assert(count(before, label@) + occurrences(views, label@) <= u64::MAX);
            tally.set(label, n + 1);
            assert(counted(before, views.take(i + 1), tally@)) by {
                assert forall|l: Seq<char>|
                    {
                        &&& #[trigger] tally@.contains_key(l) == (before.contains_key(l)
                            || occurrences(views.take(i + 1), l) > 0)
                        &&& count(tally@, l) == count(before, l) + occurrences(
                            views.take(i + 1),
                            l,
                        )
                    } by {
                    assert(now.contains_key(l) == (before.contains_key(l) || occurrences(
                        views.take(i as int),
                        l,
                    ) > 0));
                }
            }
        }
        assert(views.take(labels@.len() as int) =~= views);
        self.put_language(language, tally);
        assert(self@.remove(language@) =~= others);
        proof {
            law_recording_counts_each_use(old(self)@, language@, views, self@);
        }
        self.persist()
    }
}

/// A library that shows no labels in the prompt offers none at all, and none
/// offers more than it may show.
pub proof fn law_library_is_capped(library: LabelLibrary, language: Seq<char>)
    ensures
        library.known(language).len() <= library.limit(),
        library.limit() == 0 ==> library.known(language) == Seq::<Seq<char>>::empty(),
{
    if library.limit() == 0 {
        assert(library.known(language) =~= Seq::empty());
    }
}

/// Counting is exact: what was counted before and the labels that were used
/// leave one table only.
pub proof fn law_counting_is_exact(
    before: Map<Seq<char>, u64>,
    labels: Seq<Seq<char>>,
    one: Map<Seq<char>, u64>,
    other: Map<Seq<char>, u64>,
)
    requires
        counted(before, labels, one),
        counted(before, labels, other),
    ensures
        one == other,
{
    assert forall|l: Seq<char>| #[trigger] one.contains_key(l) == other.contains_key(l) by {
        assert(one.contains_key(l) == (before.contains_key(l) || occurrences(labels, l) > 0));
        assert(other.contains_key(l) == (before.contains_key(l) || occurrences(labels, l) > 0));
    }
    assert forall|l: Seq<char>| #[trigger] one.contains_key(l) implies one[l] == other[l] by {
        assert(count(one, l) == count(before, l) + occurrences(labels, l));
        assert(other.contains_key(l));
        assert(count(other, l) == count(before, l) + occurrences(labels, l));
    }
    assert(one =~= other);
}

proof fn lemma_occurrences_add(a: Seq<Seq<char>>, b: Seq<Seq<char>>, x: Seq<char>)
    ensures
        occurrences(a + b, x) == occurrences(a, x) + occurrences(b, x),
    decreases b.len(),
{
    if b.len() == 0 {
        assert(a + b =~= a);
    } else {
        lemma_occurrences_add(a, b.drop_last(), x);
        assert((a + b).drop_last() =~= a + b.drop_last());
        assert((a + b).last() == b.last());
    }
}

/// Recording in two steps comes to the same as recording at once.
pub proof fn law_recording_adds_up(
    before: Map<Seq<char>, u64>,
    first: Seq<Seq<char>>,
    between: Map<Seq<char>, u64>,
    second: Seq<Seq<char>>,
    after: Map<Seq<char>, u64>,
)
    requires
        counted(before, first, between),
        counted(between, second, after),
    ensures
        counted(before, first + second, after),
{
    assert forall|l: Seq<char>|
        {
            &&& #[trigger] after.contains_key(l) == (before.contains_key(l) || occurrences(
                first + second,
                l,
            ) > 0)
            &&& count(after, l) == count(before, l) + occurrences(first + second, l)
        } by {
        lemma_occurrences_add(first, second, l);
        assert(between.contains_key(l) == (before.contains_key(l) || occurrences(first, l) > 0));
        assert(after.contains_key(l) == (between.contains_key(l) || occurrences(second, l) > 0));
    }
}

proof fn lemma_occurrences_count(list: Seq<Seq<char>>, x: Seq<char>)
    ensures
        occurrences(list, x) == list.to_multiset().count(x),
    decreases list.len(),
{
    broadcast use vstd::seq_lib::group_to_multiset_ensures;

    if list.len() > 0 {
        lemma_occurrences_count(list.drop_last(), x);
        assert(list =~= list.drop_last().push(list.last()));
    }
}

/// The order of the labels does not matter: recording them in any other order,
/// at once or in two steps, leaves the same counts and offers the same labels.
pub proof fn law_order_does_not_matter(
    before: LabelLibrary,
    language: Seq<char>,
    first: Seq<Seq<char>>,
    between: LabelLibrary,
    second: Seq<Seq<char>>,
    after: LabelLibrary,
    shuffled: Seq<Seq<char>>,
    at_once: LabelLibrary,
)
    requires
        recorded(before@, language, first, between@),
        recorded(between@, language, second, after@),
        shuffled.to_multiset() == (first + second).to_multiset(),
        recorded(before@, language, shuffled, at_once@),
        at_once.limit() == after.limit(),
    ensures
        at_once@ == after@,
        forall|x: Seq<char>| #[trigger] at_once.known(x) == after.known(x),
{
    lemma_order_does_not_matter(
        before@,
        language,
        first,
        between@,
        second,
        after@,
        shuffled,
        at_once@,
    );
}

proof fn lemma_order_does_not_matter(
    before: Map<Seq<char>, Map<Seq<char>, u64>>,
    language: Seq<char>,
    first: Seq<Seq<char>>,
    between: Map<Seq<char>, Map<Seq<char>, u64>>,
    second: Seq<Seq<char>>,
    after: Map<Seq<char>, Map<Seq<char>, u64>>,
    shuffled: Seq<Seq<char>>,
    at_once: Map<Seq<char>, Map<Seq<char>, u64>>,
)
    requires
        recorded(before, language, first, between),
        recorded(between, language, second, after),
        shuffled.to_multiset() == (first + second).to_multiset(),
        recorded(before, language, shuffled, at_once),
    ensures
        at_once == after,
{
    broadcast use vstd::seq_lib::group_to_multiset_ensures;

    let old_counts = counts_of(before, language);
    let new_counts = counts_of(after, language);
    assert(shuffled.len() == shuffled.to_multiset().len());
    assert((first + second).len() == (first + second).to_multiset().len());
    if shuffled.len() > 0 {
        lemma_recorded_counts(before, language, first, between);
        lemma_recorded_counts(between, language, second, after);
        law_recording_adds_up(
            old_counts,
            first,
            counts_of(between, language),
            second,
            new_counts,
        );
        let counts = counts_of(at_once, language);
        assert forall|l: Seq<char>|
            {
                &&& #[trigger] counts.contains_key(l) == (old_counts.contains_key(l)
                    || occurrences(first + second, l) > 0)
                &&& count(counts, l) == count(old_counts, l) + occurrences(first + second, l)
            } by {
            lemma_occurrences_count(shuffled, l);
            lemma_occurrences_count(first + second, l);
            assert(counts.contains_key(l) == (old_counts.contains_key(l) || occurrences(
                shuffled,
                l,
            ) > 0));
        }
        law_counting_is_exact(old_counts, first + second, counts, new_counts);
        assert(after.contains_key(language));
        assert(at_once.remove(language) == after.remove(language));
        assert forall|l: Seq<char>| #[trigger]
            at_once.contains_key(l) == after.contains_key(l) by {
            if l != language {
                assert(at_once.remove(language).contains_key(l) == at_once.contains_key(l));
                assert(after.remove(language).contains_key(l) == after.contains_key(l));
            }
        }
        assert forall|l: Seq<char>| #[trigger] at_once.contains_key(l) implies at_once[l]
            == after[l] by {
            if l != language {
                assert(at_once.remove(language)[l] == at_once[l]);
                assert(after.remove(language)[l] == after[l]);
            }
        }
        assert(at_once =~= after);
    }
}

/// Recording counts, also where there was nothing to record.
proof fn lemma_recorded_counts(
    before: Map<Seq<char>, Map<Seq<char>, u64>>,
    language: Seq<char>,
    labels: Seq<Seq<char>>,
    after: Map<Seq<char>, Map<Seq<char>, u64>>,
)
    requires
        recorded(before, language, labels, after),
    ensures
        counted(counts_of(before, language), labels, counts_of(after, language)),
        after.remove(language) == before.remove(language),
{
}

/// Recording counts each use: the count of every label of the language grows by
/// the number of times that the label stands in the list, no other count changes,
/// and exactly the labels that were known or stand in the list are known after.
pub proof fn law_recording_counts_each_use(
    before: Map<Seq<char>, Map<Seq<char>, u64>>,
    language: Seq<char>,
    labels: Seq<Seq<char>>,
    after: Map<Seq<char>, Map<Seq<char>, u64>>,
)
    requires
        recorded(before, language, labels, after),
    ensures
        forall|m: Seq<char>, l: Seq<char>| #[trigger]
            uses(after, m, l) == uses(before, m, l) + (if m == language {
                labels.to_multiset().count(l)
            } else {
                0
            }),
        forall|m: Seq<char>|
            m != language ==> #[trigger] after.contains_key(m) == before.contains_key(m),
        forall|m: Seq<char>|
            m != language && #[trigger] after.contains_key(m) ==> after[m] == before[m],
        labels.len() > 0 ==> after.contains_key(language) && forall|l: Seq<char>| #[trigger]
            after[language].contains_key(l) == (labels.contains(l) || (before.contains_key(
                language,
            ) && before[language].contains_key(l))),
{
    lemma_recorded_counts(before, language, labels, after);
    assert forall|m: Seq<char>| m != language implies #[trigger] after.contains_key(m)
        == before.contains_key(m) by {
        assert(after.remove(language).contains_key(m) == after.contains_key(m));
        assert(before.remove(language).contains_key(m) == before.contains_key(m));
    }
    assert forall|m: Seq<char>| m != language && #[trigger] after.contains_key(m) implies after[m]
        == before[m] by {
        assert(after.remove(language)[m] == after[m]);
        assert(before.remove(language)[m] == before[m]);
    }
    assert forall|m: Seq<char>, l: Seq<char>| #[trigger]
        uses(after, m, l) == uses(before, m, l) + (if m == language {
            labels.to_multiset().count(l)
        } else {
            0
        }) by {
        lemma_occurrences_count(labels, l);
        if m == language {
            assert(counts_of(after, language).contains_key(l) == (counts_of(
                before,
                language,
            ).contains_key(l) || occurrences(labels, l) > 0));
        } else {
            assert(after.contains_key(m) == before.contains_key(m));
        }
    }
    if labels.len() > 0 {
        assert forall|l: Seq<char>| #[trigger] after[language].contains_key(l) == (labels.contains(
            l,
        ) || (before.contains_key(language) && before[language].contains_key(l))) by {
            assert(counts_of(after, language).contains_key(l) == (counts_of(
                before,
                language,
            ).contains_key(l) || occurrences(labels, l) > 0));
            if occurrences(labels, l) > 0 {
                lemma_occurs(labels, l);
                assert(labels.contains(l));
            }
            if labels.contains(l) {
                broadcast use vstd::seq_lib::group_to_multiset_ensures;

                lemma_occurrences_count(labels, l);
                assert(labels.to_multiset().contains(l));
            }
        }
    }
}

/// `shown` are the most-used labels, at most `cap` of them: as many as there are
/// and may be shown, each once, in the order of their counts and, where those are
/// equal, of the strings; no label that is left out comes before one that is
/// shown.
pub open spec fn are_most_used(
    counts: Map<Seq<char>, u64>,
    cap: nat,
    shown: Seq<Seq<char>>,
) -> bool {
    &&& shown.len() == (if counts.dom().len() <= cap {
        counts.dom().len()
    } else {
        cap
    })
    &&& forall|i: int| 0 <= i < shown.len() ==> counts.contains_key(#[trigger] shown[i])
    &&& forall|i: int, j: int|
        0 <= i < j < shown.len() ==> {
            &&& #[trigger] shown[i] != #[trigger] shown[j]
            &&& counts[shown[i]] >= counts[shown[j]]
            &&& counts[shown[i]] == counts[shown[j]] ==> text::less(shown[i], shown[j])
        }
    &&& forall|label: Seq<char>, i: int|
        counts.contains_key(label) && !shown.contains(label) && 0 <= i < shown.len() ==> {
            &&& counts[#[trigger] shown[i]] >= #[trigger] counts[label]
            &&& counts[shown[i]] == counts[label] ==> text::less(shown[i], label)
        }
    &&& counts.dom().len() <= cap ==> forall|label: Seq<char>|
        counts.contains_key(label) ==> #[trigger] shown.contains(label)
}

proof fn lemma_count_map_finite(entries: Seq<(String, u64)>)
    ensures
        json::count_map(entries).dom().finite(),
    decreases entries.len(),
{
    if entries.len() > 0 {
        lemma_count_map_finite(entries.drop_last());
    }
}

proof fn lemma_counts_finite(languages: Seq<(String, Tally)>, language: Seq<char>)
    ensures
        held_map(languages).contains_key(language) ==> held_map(
            languages,
        )[language].dom().finite(),
    decreases languages.len(),
{
    if languages.len() > 0 {
        lemma_counts_finite(languages.drop_last(), language);
        lemma_count_map_finite(languages.last().1.entries@);
    }
}

/// Where `a` belongs in a list, most-used first.
spec fn rank_position(counts: Map<Seq<char>, u64>, ranked: Seq<Seq<char>>, a: Seq<char>) -> int
    decreases ranked.len(),
{
    if ranked.len() == 0 || ranks_before(a, counts[a], ranked[0], counts[ranked[0]]) {
        0
    } else {
        1 + rank_position(counts, ranked.drop_first(), a)
    }
}

proof fn lemma_rank_position(counts: Map<Seq<char>, u64>, ranked: Seq<Seq<char>>, a: Seq<char>)
    ensures
        0 <= rank_position(counts, ranked, a) <= ranked.len(),
        forall|i: int|
            0 <= i < rank_position(counts, ranked, a) ==> !ranks_before(
                a,
                counts[a],
                #[trigger] ranked[i],
                counts[ranked[i]],
            ),
        rank_position(counts, ranked, a) < ranked.len() ==> ranks_before(
            a,
            counts[a],
            ranked[rank_position(counts, ranked, a)],
            counts[ranked[rank_position(counts, ranked, a)]],
        ),
    decreases ranked.len(),
{
    if ranked.len() > 0 && !ranks_before(a, counts[a], ranked[0], counts[ranked[0]]) {
        let rest = ranked.drop_first();
        lemma_rank_position(counts, rest, a);
        assert forall|i: int| 0 <= i < rank_position(counts, ranked, a) implies !ranks_before(
            a,
            counts[a],
            #[trigger] ranked[i],
            counts[ranked[i]],
        ) by {
            if i > 0 {
                assert(ranked[i] == rest[i - 1]);
            }
        }
    }
}

proof fn lemma_ranking_exists(counts: Map<Seq<char>, u64>)
    requires
        counts.dom().finite(),
    ensures
        exists|ranked: Seq<Seq<char>>| is_ranking(counts, ranked),
    decreases counts.dom().len(),
{
    if counts.dom().len() == 0 {
        let none = Seq::<Seq<char>>::empty();
        assert forall|label: Seq<char>| #[trigger]
            none.contains(label) == counts.contains_key(label) by {
            if counts.contains_key(label) {
                assert(counts.dom().contains(label));
            }
        }
        assert(is_ranking(counts, none));
    } else {
        let a = counts.dom().choose();
        let fewer = counts.remove(a);
        lemma_ranking_exists(fewer);
        let ranked = choose|ranked: Seq<Seq<char>>| is_ranking(fewer, ranked);
        let p = rank_position(counts, ranked, a);
        let more = ranked.insert(p, a);
        assert forall|i: int| 0 <= i < ranked.len() implies counts.contains_key(
            #[trigger] ranked[i],
        ) && ranked[i] != a && counts[ranked[i]] == fewer[ranked[i]] by {
            assert(ranked.contains(ranked[i]));
        }
        lemma_rank_position(counts, ranked, a);
        assert forall|i: int| 0 <= i < p implies ranks_before(
            #[trigger] ranked[i],
            counts[ranked[i]],
            a,
            counts[a],
        ) by {
            text::law_less_is_total(ranked[i], a);
        }
        assert forall|i: int| p <= i < ranked.len() implies ranks_before(
            a,
            counts[a],
            #[trigger] ranked[i],
            counts[ranked[i]],
        ) by {
            if i > p {
                assert(ranks_before(ranked[p], fewer[ranked[p]], ranked[i], fewer[ranked[i]]));
                lemma_rank_transitive(
                    a,
                    counts[a],
                    ranked[p],
                    counts[ranked[p]],
                    ranked[i],
                    counts[ranked[i]],
                );
            }
        }
        assert forall|label: Seq<char>| #[trigger]
            more.contains(label) == counts.contains_key(label) by {
            if more.contains(label) {
                let i = choose|i: int| 0 <= i < more.len() && more[i] == label;
                if i < p {
                    assert(more[i] == ranked[i]);
                } else if i > p {
                    assert(more[i] == ranked[i - 1]);
                }
            }
            if counts.contains_key(label) {
                if label == a {
                    assert(more[p] == label);
                } else {
                    assert(fewer.contains_key(label));
                    assert(ranked.contains(label));
                    let i = choose|i: int| 0 <= i < ranked.len() && ranked[i] == label;
                    if i < p {
                        assert(more[i] == label);
                    } else {
                        assert(more[i + 1] == label);
                    }
                }
            }
        }
        assert forall|i: int, j: int| 0 <= i < j < more.len() implies ranks_before(
            #[trigger] more[i],
            counts[more[i]],
            #[trigger] more[j],
            counts[more[j]],
        ) by {
            let x = if i < p { i } else { i - 1 };
            let y = if j < p { j } else { j - 1 };
            if i != p && j != p {
                assert(more[i] == ranked[x] && more[j] == ranked[y]);
                assert(ranks_before(ranked[x], fewer[ranked[x]], ranked[y], fewer[ranked[y]]));
            } else if i == p {
                assert(more[j] == ranked[y]);
            } else {
                assert(more[i] == ranked[x]);
            }
        }
        assert(is_ranking(counts, more));
    }
}

/// The most-used labels are offered: as many as are known and may be shown, in
/// the order of their counts, and none is passed over.
pub proof fn law_most_used_are_offered(library: LabelLibrary, language: Seq<char>)
    ensures
        are_most_used(
            if library@.contains_key(language) {
                library@[language]
            } else {
                Map::empty()
            },
            library.limit() as nat,
            library.known(language),
        ),
{
    lemma_counts_finite(library.languages@, language);
    lemma_most_used(counts_of(library@, language), library.limit() as nat);
}

proof fn lemma_most_used(counts: Map<Seq<char>, u64>, cap: nat)
    requires
        counts.dom().finite(),
    ensures
        are_most_used(counts, cap, first_of(ranking(counts), cap as int)),
{
    lemma_ranking_exists(counts);
    let ranked = ranking(counts);
    let shown = first_of(ranked, cap as int);
    assert(ranked.no_duplicates()) by {
        assert forall|i: int, j: int|
            0 <= i < ranked.len() && 0 <= j < ranked.len() && i != j implies ranked[i]
            != ranked[j] by {
            let x = if i < j { i } else { j };
            let y = if i < j { j } else { i };
            assert(ranks_before(ranked[x], counts[ranked[x]], ranked[y], counts[ranked[y]]));
            text::law_less_is_total(ranked[x], ranked[y]);
        }
    }
    ranked.unique_seq_to_set();
    assert(ranked.to_set() =~= counts.dom()) by {
        assert forall|label: Seq<char>| #[trigger]
            ranked.to_set().contains(label) == counts.dom().contains(label) by {
            assert(ranked.contains(label) == counts.contains_key(label));
        }
    }
    assert forall|i: int| 0 <= i < ranked.len() implies counts.contains_key(
        #[trigger] ranked[i],
    ) by {
        assert(ranked.contains(ranked[i]));
    }
    assert forall|i: int| 0 <= i < shown.len() implies #[trigger] shown[i] == ranked[i] by {}
    assert forall|i: int, j: int| 0 <= i < j < shown.len() implies {
        &&& #[trigger] shown[i] != #[trigger] shown[j]
        &&& counts[shown[i]] >= counts[shown[j]]
        &&& counts[shown[i]] == counts[shown[j]] ==> text::less(shown[i], shown[j])
    } by {
        assert(ranks_before(ranked[i], counts[ranked[i]], ranked[j], counts[ranked[j]]));
    }
    assert forall|label: Seq<char>, i: int|
        counts.contains_key(label) && !shown.contains(label) && 0 <= i < shown.len() implies {
        &&& counts[#[trigger] shown[i]] >= #[trigger] counts[label]
        &&& counts[shown[i]] == counts[label] ==> text::less(shown[i], label)
    } by {
        assert(ranked.contains(label));
        let j = choose|j: int| 0 <= j < ranked.len() && ranked[j] == label;
        if j < shown.len() {
            assert(shown[j] == label);
        }
        assert(ranks_before(ranked[i], counts[ranked[i]], ranked[j], counts[ranked[j]]));
    }
    if counts.dom().len() <= cap {
        assert forall|label: Seq<char>| counts.contains_key(label) implies #[trigger] shown.contains(
            label,
        ) by {
            assert(ranked.contains(label));
            assert(shown =~= ranked);
        }
    }
}

/// A file that holds a table is that table; of one that does not, exactly the
/// counts of its objects are kept; any other file is an empty library.
pub proof fn law_loading_keeps_every_count(content: Seq<char>, language: Seq<char>)
    ensures
        json::table_of(content) matches Ok(table) ==> loaded(Some(content)) == table,
        json::table_of(content) is Err && json::json_of(content) is Err ==> loaded(Some(content))
            == Map::<Seq<char>, Map<Seq<char>, u64>>::empty(),
        json::table_of(content) is Err && json::json_of(content) is Ok && !(json::json_of(
            content,
        )->Ok_0 is Object) ==> loaded(Some(content)) == Map::<
            Seq<char>,
            Map<Seq<char>, u64>,
        >::empty(),
        json::table_of(content) is Err ==> (json::json_of(content) matches Ok(JsonTree::Object(m))
            ==> {
            &&& loaded(Some(content)).contains_key(language) == (m.contains_key(language)
                && m[language] is Object)
            &&& loaded(Some(content)).contains_key(language) ==> forall|label: Seq<char>| #[trigger]
                loaded(Some(content))[language].contains_key(label) == (
                m[language]->Object_0.contains_key(label)
                    && m[language]->Object_0[label] is Unsigned)
            &&& loaded(Some(content)).contains_key(language) ==> forall|label: Seq<char>| #[trigger]
                loaded(Some(content))[language].contains_key(label) ==> loaded(
                    Some(content),
                )[language][label] == m[language]->Object_0[label]->Unsigned_0
        }),
        loaded(None) == Map::<Seq<char>, Map<Seq<char>, u64>>::empty(),
{
    if json::table_of(content) is Err {
        if let Ok(tree) = json::json_of(content) {
            if !(tree is Object) {
                assert(loaded(Some(content)) =~= Map::empty());
            }
        }
    }
}

/// There is room for labels exactly where no count would leave the range of machine
/// numbers if each of them were counted as often as it stands in the list.
pub proof fn law_room_is_counted(
    table: Map<Seq<char>, Map<Seq<char>, u64>>,
    language: Seq<char>,
    labels: Seq<Seq<char>>,
)
    ensures
        room_for(counts_of(table, language), labels) <==> forall|l: Seq<char>|
            #[trigger] uses(table, language, l) + labels.to_multiset().count(l) <= u64::MAX,
{
    let counts = counts_of(table, language);
    assert forall|l: Seq<char>| #[trigger] uses(table, language, l) == count(counts, l)
        && occurrences(labels, l) == labels.to_multiset().count(l) by {
        lemma_occurrences_count(labels, l);
    }
    if room_for(counts, labels) {
        assert forall|l: Seq<char>|
            #[trigger] uses(table, language, l) + labels.to_multiset().count(l) <= u64::MAX by {
            assert(count(counts, l) + occurrences(labels, l) <= u64::MAX);
        }
    }
    if forall|l: Seq<char>|
        #[trigger] uses(table, language, l) + labels.to_multiset().count(l) <= u64::MAX {
        assert forall|l: Seq<char>| count(counts, l) + #[trigger] occurrences(labels, l)
            <= u64::MAX by {
            assert(uses(table, language, l) + labels.to_multiset().count(l) <= u64::MAX);
        }
    }
}

} // verus!
