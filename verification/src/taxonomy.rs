//! A fixed set of categories: canonical slugs with localized names.
use vstd::prelude::*;
use vstd::string::*;

use crate::model::Direction;
use crate::text;
use crate::text::{chars_of, debug_text, decimal_text, ends_with, same_text};

verus! {

/// Canonical ASCII slug; stable across languages. Used as the model-facing
/// enum value and the API `category` identifier.
pub type Slug = String;

/// A category as a taxonomy file states it.
#[derive(Debug, Clone)]
pub struct RawCategory {
    pub slug: String,
    pub direction: Option<String>,
    /// Localized display names with their ISO 639-1 codes, in the order in which
    /// they are stated.
    pub names: Vec<(String, String)>,
}

/// A category of a taxonomy.
#[derive(Debug)]
pub struct Category {
    pub slug: Slug,
    /// Taxonomic direction this category belongs to.
    pub direction: Direction,
    /// Localized display names with their ISO 639-1 codes, each code once.
    pub names: Vec<(String, String)>,
}

/// What is wrong with a taxonomy.
#[derive(Debug)]
pub enum TaxonomyError {
    Io(String),
    Parse(String),
    Invalid(String),
}

impl TaxonomyError {
    /// The error as it is shown to the operator.
    pub open spec fn shown(self) -> Seq<char> {
        match self {
            TaxonomyError::Io(e) => "taxonomy file read error: "@ + e@,
            TaxonomyError::Parse(e) => "taxonomy JSON parse error: "@ + e@,
            TaxonomyError::Invalid(m) => "invalid taxonomy: "@ + m@,
        }
    }

    /// The error as it is shown to the operator.
    pub fn message(&self) -> (r: String)
        ensures
            r@ == self.shown(),
            match *self {
                TaxonomyError::Io(e) => r@ == "taxonomy file read error: "@ + e@,
                TaxonomyError::Parse(e) => r@ == "taxonomy JSON parse error: "@ + e@,
                TaxonomyError::Invalid(m) => r@ == "invalid taxonomy: "@ + m@,
            },
    {
        match self {
            TaxonomyError::Io(e) => {
                let mut r = "taxonomy file read error: ".to_owned();
                r.append(e.as_str());
                r
            },
            TaxonomyError::Parse(e) => {
                let mut r = "taxonomy JSON parse error: ".to_owned();
                r.append(e.as_str());
                r
            },
            TaxonomyError::Invalid(m) => {
                let mut r = "invalid taxonomy: ".to_owned();
                r.append(m.as_str());
                r
            },
        }
    }
}

/// The position of the first name for `lang`, or the number of names where
/// there is none.
pub open spec fn name_index(names: Seq<(String, String)>, lang: Seq<char>) -> int
    decreases names.len(),
{
    if names.len() == 0 || names[0].0@ == lang {
        0
    } else {
        1 + name_index(names.drop_first(), lang)
    }
}

/// The display name for `lang`: the name in that language, else the German
/// one, else the first one, else the slug.
pub open spec fn display_text(
    slug: Seq<char>,
    names: Seq<(String, String)>,
    lang: Seq<char>,
) -> Seq<char> {
    if name_index(names, lang) < names.len() {
        names[name_index(names, lang)].1@
    } else if name_index(names, "de"@) < names.len() {
        names[name_index(names, "de"@)].1@
    } else if names.len() > 0 {
        names[0].1@
    } else {
        slug
    }
}

/// No language has two names.
pub open spec fn one_name_each(names: Seq<(String, String)>) -> bool {
    forall|a: int, b: int|
        0 <= a < b < names.len() ==> (#[trigger] names[a]).0@ != (#[trigger] names[b]).0@
}

/// `names` with `new` in the place of the name for its language, or behind the
/// others where there is none.
pub open spec fn with_name(names: Seq<(String, String)>, new: (String, String)) -> Seq<
    (String, String),
> {
    if name_index(names, new.0@) < names.len() {
        names.update(name_index(names, new.0@), new)
    } else {
        names.push(new)
    }
}

/// The names that count: one for each language, the last that is stated for it.
/// Languages stand in the order in which they are first named.
pub open spec fn latest_names(names: Seq<(String, String)>) -> Seq<(String, String)>
    decreases names.len(),
{
    if names.len() == 0 {
        Seq::empty()
    } else {
        with_name(latest_names(names.drop_last()), names.last())
    }
}

/// The last name that is stated for a language.
pub open spec fn last_name(names: Seq<(String, String)>, lang: Seq<char>) -> Option<Seq<char>>
    decreases names.len(),
{
    if names.len() == 0 {
        None
    } else if names.last().0@ == lang {
        Some(names.last().1@)
    } else {
        last_name(names.drop_last(), lang)
    }
}

/// The name that a list has for a language, if it has one.
pub open spec fn name_for(names: Seq<(String, String)>, lang: Seq<char>) -> Option<Seq<char>> {
    if name_index(names, lang) < names.len() {
        Some(names[name_index(names, lang)].1@)
    } else {
        None
    }
}

proof fn lemma_name_index(names: Seq<(String, String)>, lang: Seq<char>)
    ensures
        0 <= name_index(names, lang) <= names.len(),
        name_index(names, lang) < names.len() ==> names[name_index(names, lang)].0@ == lang,
        forall|j: int|
            0 <= j < name_index(names, lang) ==> (#[trigger] names[j]).0@ != lang,
    decreases names.len(),
{
    if names.len() > 0 && names[0].0@ != lang {
        let rest = names.drop_first();
        lemma_name_index(rest, lang);
        assert forall|j: int| 0 <= j < name_index(names, lang) implies (#[trigger] names[j]).0@
            != lang by {
            if j > 0 {
                assert(names[j] == rest[j - 1]);
            }
        }
    }
}

/// Where no language has two names, each name is found by its language.
proof fn lemma_name_at(names: Seq<(String, String)>, i: int)
    requires
        one_name_each(names),
        0 <= i < names.len(),
    ensures
        name_index(names, names[i].0@) == i,
{
    let k = name_index(names, names[i].0@);
    lemma_name_index(names, names[i].0@);
    if k < i {
        assert(names[k].0@ != names[i].0@);
    }
}

proof fn lemma_with_name(names: Seq<(String, String)>, new: (String, String), lang: Seq<char>)
    requires
        one_name_each(names),
    ensures
        one_name_each(with_name(names, new)),
        with_name(names, new).len() > 0,
        name_for(with_name(names, new), lang) == (if new.0@ == lang {
            Some(new.1@)
        } else {
            name_for(names, lang)
        }),
{
    let more = with_name(names, new);
    let at = name_index(names, new.0@);
    lemma_name_index(names, new.0@);
    assert forall|a: int, b: int| 0 <= a < b < more.len() implies (#[trigger] more[a]).0@ != (
    #[trigger] more[b]).0@ by {
        if b < names.len() {
            assert(names[a].0@ != names[b].0@);
        } else {
            assert(names[a].0@ != new.0@);
        }
    }
    lemma_name_index(names, lang);
    lemma_name_index(more, lang);
    let i = name_index(more, lang);
    if new.0@ == lang {
        lemma_name_at(more, at);
        assert(more[at] == new);
    } else {
        if i < more.len() {
            assert(more[i] == names[i]);
            lemma_name_at(names, i);
        }
        let j = name_index(names, lang);
        if j < names.len() {
            assert(more[j] == names[j]);
            lemma_name_at(more, j);
        }
    }
}

/// A category has one name for each language that is named, the last that is
/// stated for it, and no other.
pub proof fn law_last_name_counts(names: Seq<(String, String)>, lang: Seq<char>)
    ensures
        one_name_each(latest_names(names)),
        names.len() > 0 ==> latest_names(names).len() > 0,
        name_for(latest_names(names), lang) == last_name(names, lang),
    decreases names.len(),
{
    if names.len() > 0 {
        law_last_name_counts(names.drop_last(), lang);
        lemma_with_name(latest_names(names.drop_last()), names.last(), lang);
    }
}

/// Where no language is named twice, every name counts.
pub proof fn law_distinct_names_stay(names: Seq<(String, String)>)
    requires
        one_name_each(names),
    ensures
        latest_names(names) == names,
    decreases names.len(),
{
    if names.len() == 0 {
        assert(latest_names(names) =~= names);
    } else {
        let rest = names.drop_last();
        let last = names.len() - 1;
        assert forall|a: int, b: int| 0 <= a < b < rest.len() implies (#[trigger] rest[a]).0@ != (
        #[trigger] rest[b]).0@ by {
            assert(names[a].0@ != names[b].0@);
        }
        law_distinct_names_stay(rest);
        let k = name_index(rest, names[last].0@);
        lemma_name_index(rest, names[last].0@);
        if k < rest.len() {
            assert(names[k].0@ != names[last].0@);
        }
        assert(latest_names(names) =~= names);
    }
}

/// The position of the first name for `lang`, or the number of names.
fn name_position(names: &Vec<(String, String)>, lang: &str) -> (r: usize)
    ensures
        r == name_index(names@, lang@),
{
    let mut i: usize = 0;
    assert(names@.skip(0) =~= names@);
    while i < names.len() && !same_text(names[i].0.as_str(), lang)
        invariant
            i <= names@.len(),
            name_index(names@, lang@) == i + name_index(names@.skip(i as int), lang@),
        decreases names@.len() - i,
    {
        assert(names@.skip(i as int).drop_first() =~= names@.skip(i + 1));
        i += 1;
    }
    i
}

fn find_name<'a>(names: &'a Vec<(String, String)>, lang: &str) -> (r: Option<&'a String>)
    ensures
        match r {
            Some(name) => name_index(names@, lang@) < names@.len() && *name
                == names@[name_index(names@, lang@)].1,
            None => name_index(names@, lang@) >= names@.len(),
        },
{
    let i = name_position(names, lang);
    if i < names.len() {
        Some(&names[i].1)
    } else {
        None
    }
}

/// One name for each language, the last that is stated for it.
fn settle_names(names: Vec<(String, String)>) -> (r: Vec<(String, String)>)
    ensures
        r@ == latest_names(names@),
{
    let ghost all = names@;
    let mut out: Vec<(String, String)> = Vec::new();
    assert(all.take(0) =~= Seq::empty());
    for pair in it: names
        invariant
            it.seq() == all,
            out@ == latest_names(all.take(it.index() as int)),
    {
        let ghost k = it.index() as int;
        assert(pair == all[k]);
        assert(all.take(k + 1).drop_last() =~= all.take(k));
        let i = name_position(&out, pair.0.as_str());
        if i < out.len() {
            out.set(i, pair);
        } else {
            out.push(pair);
        }
    }
    assert(all.take(all.len() as int) =~= all);
    out
}

impl Category {
    /// Display name for `lang`; falls back to the German name, then to the first
    /// name, and finally to the slug itself.
    pub fn display_name(&self, lang: &str) -> (r: &str)
        ensures
            r@ == display_text(self.slug@, self.names@, lang@),
    {
        if let Some(name) = find_name(&self.names, lang) {
            return name.as_str();
        }
        if let Some(name) = find_name(&self.names, "de") {
            return name.as_str();
        }
        if self.names.len() > 0 {
            return self.names[0].1.as_str();
        }
        self.slug.as_str()
    }
}

/// A lower-case ASCII letter or an underscore.
pub open spec fn is_slug_char(c: char) -> bool {
    'a' <= c <= 'z' || c == '_'
}

/// Text that may stand as a slug: not empty, lower-case ASCII letters and
/// underscores only.
pub open spec fn is_slug(s: Seq<char>) -> bool {
    s.len() > 0 && all_slug_chars(s)
}

pub open spec fn all_slug_chars(s: Seq<char>) -> bool {
    forall|i: int| 0 <= i < s.len() ==> is_slug_char(#[trigger] s[i])
}

fn has_slug_chars(s: &str) -> (r: bool)
    ensures
        r == all_slug_chars(s@),
{
    let v = chars_of(s);
    for i in 0..v.len()
        invariant
            v@ == s@,
            forall|j: int| 0 <= j < i ==> is_slug_char(#[trigger] v@[j]),
    {
        let c = v[i];
        if !(('a' <= c && c <= 'z') || c == '_') {
            assert(!is_slug_char(s@[i as int]));
            return false;
        }
    }
    true
}

/// The slug that a raw category states.
pub open spec fn slug_of(raw: RawCategory) -> Seq<char> {
    text::trimmed(raw.slug@)
}

/// The direction that a raw category states, or that its slug gives away.
pub open spec fn direction_of(raw: RawCategory) -> Option<Direction> {
    match raw.direction {
        Some(d) => if d@ == "income"@ {
            Some(Direction::Income)
        } else if d@ == "expense"@ {
            Some(Direction::Expense)
        } else {
            None
        },
        None => if text::has_suffix(slug_of(raw), "_income"@) {
            Some(Direction::Income)
        } else if text::has_suffix(slug_of(raw), "_expense"@) {
            Some(Direction::Expense)
        } else {
            None
        },
    }
}

/// Some category before `i` has the slug of category `i`.
pub open spec fn repeats_slug(raw: Seq<RawCategory>, i: int) -> bool {
    exists|j: int| 0 <= j < i && slug_of(#[trigger] raw[j]) == slug_of(raw[i])
}

/// What is wrong with category `i`, if anything.
pub open spec fn category_fault(raw: Seq<RawCategory>, i: int) -> Option<Seq<char>> {
    let slug = slug_of(raw[i]);
    let at = "category "@ + text::decimal(i as nat);
    let named = at + " (`"@ + slug;
    if slug.len() == 0 {
        Some(at + ": empty slug"@)
    } else if !all_slug_chars(slug) {
        Some(at + ": slug `"@ + slug + "` must be lowercase ASCII with underscores"@)
    } else if repeats_slug(raw, i) {
        Some(at + ": duplicate slug `"@ + slug + "`"@)
    } else if raw[i].names@.len() == 0 {
        Some(named + "`): no names provided"@)
    } else if direction_of(raw[i]) is Some {
        None
    } else if raw[i].direction is Some {
        Some(
            named + "`): direction must be \"income\" or \"expense\", got "@ + text::debug_of(
                raw[i].direction->0@,
            ),
        )
    } else {
        Some(
            named
                + "`): missing `direction` (income|expense); it cannot be inferred from the slug"@,
        )
    }
}

/// What is wrong with the first faulty category from `i` on, if there is one.
pub open spec fn fault_from(raw: Seq<RawCategory>, i: int) -> Option<Seq<char>>
    decreases raw.len() - i,
{
    if i >= raw.len() {
        None
    } else if category_fault(raw, i) is Some {
        category_fault(raw, i)
    } else {
        fault_from(raw, i + 1)
    }
}

/// What is wrong with a taxonomy, if anything.
pub open spec fn taxonomy_fault(raw: Seq<RawCategory>) -> Option<Seq<char>> {
    if raw.len() == 0 {
        Some("no categories"@)
    } else {
        fault_from(raw, 0)
    }
}

/// A sound taxonomy: at least one category, each with a slug of its own and
/// with a name, and no language with two names.
pub open spec fn sound(categories: Seq<Category>) -> bool {
    &&& categories.len() > 0
    &&& forall|i: int|
        0 <= i < categories.len() ==> is_slug((#[trigger] categories[i]).slug@)
            && categories[i].names@.len() > 0 && one_name_each(categories[i].names@)
    &&& forall|i: int, j: int|
        0 <= i < j < categories.len() ==> (#[trigger] categories[i]).slug@ != (
        #[trigger] categories[j]).slug@
}

/// The categories that labels may be drawn from.
#[derive(Debug)]
pub struct Taxonomy {
    categories: Vec<Category>,
}

impl Category {
    /// This category and `other` say the same.
    pub open spec fn same(self, other: Category) -> bool {
        &&& self.slug@ == other.slug@
        &&& self.direction == other.direction
        &&& self.names@ == other.names@
    }
}

impl Clone for Category {
    fn clone(&self) -> (r: Self)
        ensures
            r.same(*self),
    {
        let mut names: Vec<(String, String)> = Vec::new();
        for i in 0..self.names.len()
            invariant
                names@ == self.names@.take(i as int),
        {
            names.push((self.names[i].0.clone(), self.names[i].1.clone()));
            assert(names@ =~= self.names@.take(i + 1));
        }
        assert(self.names@.take(self.names@.len() as int) =~= self.names@);
        Category { slug: self.slug.clone(), direction: self.direction, names }
    }
}

impl Clone for Taxonomy {
    fn clone(&self) -> (r: Self)
        ensures
            r@.len() == self@.len(),
            forall|i: int| 0 <= i < r@.len() ==> (#[trigger] r@[i]).same(self@[i]),
    {
        proof {
            use_type_invariant(self);
        }
        let mut categories: Vec<Category> = Vec::new();
        for i in 0..self.categories.len()
            invariant
                categories@.len() == i,
                forall|j: int|
                    0 <= j < i ==> (#[trigger] categories@[j]).same(self.categories@[j]),
        {
            categories.push(self.categories[i].clone());
        }
        assert(sound(categories@)) by {
            assert forall|i: int, j: int| 0 <= i < j < categories@.len() implies (
            #[trigger] categories@[i]).slug@ != (#[trigger] categories@[j]).slug@ by {
                assert(self.categories@[i].slug@ != self.categories@[j].slug@);
            }
        }
        Taxonomy { categories }
    }
}

/// `c` is the category that `raw` states.
pub open spec fn states(raw: RawCategory, c: Category) -> bool {
    c.slug@ == slug_of(raw) && Some(c.direction) == direction_of(raw) && c.names@ == latest_names(
        raw.names@,
    )
}

impl Taxonomy {
    /// The categories, in the order in which they were stated.
    pub closed spec fn view(&self) -> Seq<Category> {
        self.categories@
    }

    #[verifier::type_invariant]
    spec fn inv(self) -> bool {
        sound(self.categories@)
    }

    /// The taxonomy that a list of categories states, or what is wrong with
    /// the first faulty one.
    pub fn build(raw: Vec<RawCategory>) -> (r: Result<Self, TaxonomyError>)
        ensures
            match r {
                Ok(t) => {
                    &&& taxonomy_fault(raw@) is None
                    &&& t@.len() == raw@.len()
                    &&& forall|i: int| 0 <= i < t@.len() ==> states(raw@[i], #[trigger] t@[i])
                    &&& sound(t@)
                },
                Err(e) => e is Invalid && taxonomy_fault(raw@) == Some(e->Invalid_0@),
            },
            r is Ok <==> raw@.len() > 0 && forall|i: int|
                0 <= i < raw@.len() ==> #[trigger] is_well_stated(raw@, i),
            r matches Ok(t) ==> forall|i: int|
                0 <= i < t@.len() ==> (#[trigger] t@[i]).slug@ == text::trimmed(raw@[i].slug@)
                    && is_directed(raw@[i], t@[i].direction),
    {
        proof {
            law_accepted_taxonomies(raw@);
        }
        if raw.len() == 0 {
            return Err(TaxonomyError::Invalid("no categories".to_owned()));
        }
        let mut categories: Vec<Category> = Vec::new();
        let ghost all = raw@;
        let mut i: usize = 0;
        for rc in it: raw
            invariant
                it.seq() == all,
                i == it.index(),
                all.len() <= usize::MAX,
                categories@.len() == i,
                taxonomy_fault(all) == fault_from(all, i as int),
                taxonomy_fault(all) is None <==> all.len() > 0 && forall|j: int|
                    0 <= j < all.len() ==> #[trigger] is_well_stated(all, j),
                forall|j: int, d: Direction|
                    0 <= j < all.len() ==> (#[trigger] direction_of(all[j]) == Some(d)
                        <==> #[trigger] is_directed(all[j], d)),
                forall|j: int|
                    0 <= j < categories@.len() ==> states(all[j], #[trigger] categories@[j])
                        && is_slug(categories@[j].slug@) && categories@[j].names@.len() > 0
                        && one_name_each(categories@[j].names@),
                forall|j: int, k: int|
                    0 <= j < k < categories@.len() ==> (#[trigger] categories@[j]).slug@ != (
                    #[trigger] categories@[k]).slug@,
        {
            assert(rc == all[i as int]);
            let slug = rc.slug.trim().to_owned();
            let mut at = "category ".to_owned();
            at.append(decimal_text(i as u64).as_str());
            if slug.as_str().is_empty() {
                at.append(": empty slug");
                return Err(TaxonomyError::Invalid(at));
            }
            if !has_slug_chars(slug.as_str()) {
                at.append(": slug `");
                at.append(slug.as_str());
                at.append("` must be lowercase ASCII with underscores");
                return Err(TaxonomyError::Invalid(at));
            }
            let found = find_slug(&categories, slug.as_str());
            proof {
                if found is Some {
                    assert(slug_of(all[found->0 as int]) == slug_of(all[i as int]));
                } else {
                    assert forall|j: int| 0 <= j < i implies slug_of(#[trigger] all[j]) != slug_of(
                        all[i as int],
                    ) by {
                        assert(states(all[j], categories@[j]));
                    }
                }
            }
            if found.is_some() {
                at.append(": duplicate slug `");
                at.append(slug.as_str());
                at.append("`");
                return Err(TaxonomyError::Invalid(at));
            }
            at.append(" (`");
            at.append(slug.as_str());
            if rc.names.len() == 0 {
                at.append("`): no names provided");
                return Err(TaxonomyError::Invalid(at));
            }
            let direction = match &rc.direction {
                Some(d) => if same_text(d.as_str(), "income") {
                    Direction::Income
                } else if same_text(d.as_str(), "expense") {
                    Direction::Expense
                } else {
                    at.append("`): direction must be \"income\" or \"expense\", got ");
                    at.append(debug_text(d.as_str()).as_str());
                    return Err(TaxonomyError::Invalid(at));
                },
                None => if ends_with(slug.as_str(), "_income") {
                    Direction::Income
                } else if ends_with(slug.as_str(), "_expense") {
                    Direction::Expense
                } else {
                    at.append(
                        "`): missing `direction` (income|expense); it cannot be inferred from the slug",
                    );
                    return Err(TaxonomyError::Invalid(at));
                },
            };
            proof {
                law_last_name_counts(rc.names@, Seq::empty());
            }
            let names = settle_names(rc.names);
            categories.push(Category { slug, direction, names });
            i += 1;
        }
        Ok(Taxonomy { categories })
    }
}

impl Taxonomy {
    /// The taxonomy that a list of categories states, or the built-in one where
    /// there is no list.
    pub fn load(raw: Option<Vec<RawCategory>>) -> (r: Result<Self, TaxonomyError>)
        ensures
            match (raw, r) {
                (Some(raw), Ok(t)) => {
                    &&& taxonomy_fault(raw@) is None
                    &&& t@.len() == raw@.len()
                    &&& forall|i: int| 0 <= i < t@.len() ==> states(raw@[i], #[trigger] t@[i])
                    &&& sound(t@)
                },
                (Some(raw), Err(e)) => e is Invalid && taxonomy_fault(raw@) == Some(
                    e->Invalid_0@,
                ),
                (None, Ok(t)) => {
                    &&& t@.len() == builtin_entries().len()
                    &&& forall|i: int|
                        0 <= i < t@.len() ==> is_entry(#[trigger] t@[i], builtin_entries()[i])
                },
                (None, Err(_)) => false,
            },
    {
        match raw {
            Some(raw) => Self::build(raw),
            None => Ok(builtin()),
        }
    }

    /// The number of categories; there is at least one.
    pub fn len(&self) -> (r: usize)
        ensures
            r == self@.len(),
            r > 0,
    {
        proof {
            use_type_invariant(self);
        }
        self.categories.len()
    }

    /// Whether there is no category: never.
    pub fn is_empty(&self) -> (r: bool)
        ensures
            r == (self@.len() == 0),
            !r,
    {
        proof {
            use_type_invariant(self);
        }
        self.categories.len() == 0
    }

    /// The categories, in the order in which they were stated.
    pub fn iter(&self) -> (r: &[Category])
        ensures
            r@ == self@,
            sound(r@),
    {
        proof {
            use_type_invariant(self);
        }
        self.categories.as_slice()
    }

    /// Enum values for the JSON schema (canonical slugs): one for each
    /// category, in order, no two alike.
    pub fn slugs(&self) -> (r: Vec<String>)
        ensures
            r@.len() == self@.len(),
            forall|i: int| 0 <= i < r@.len() ==> #[trigger] r@[i] == self@[i].slug,
            forall|i: int| 0 <= i < r@.len() ==> is_slug((#[trigger] r@[i])@),
            forall|i: int, j: int|
                0 <= i < j < r@.len() ==> (#[trigger] r@[i])@ != (#[trigger] r@[j])@,
    {
        proof {
            use_type_invariant(self);
        }
        let mut r: Vec<String> = Vec::new();
        for i in 0..self.categories.len()
            invariant
                r@.len() == i,
                forall|j: int| 0 <= j < i ==> #[trigger] r@[j] == self.categories@[j].slug,
        {
            r.push(self.categories[i].slug.clone());
        }
        r
    }

    /// The category with that slug.
    pub fn lookup(&self, slug: &str) -> (r: Option<&Category>)
        ensures
            found(r) == category_of(self@, slug@),
            r matches Some(c) ==> c.slug@ == slug@ && self@.contains(*c),
            r is None <==> forall|i: int|
                0 <= i < self@.len() ==> (#[trigger] self@[i]).slug@ != slug@,
            sound(self@),
    {
        proof {
            use_type_invariant(self);
        }
        match find_slug(&self.categories, slug) {
            Some(i) => {
                proof {
                    lemma_category_of(self@, i as int);
                }
                Some(&self.categories[i])
            },
            None => None,
        }
    }

    /// Case-insensitive slug match (the model may capitalise): the category whose
    /// slug is the text in lower case, without the white space around it. Any
    /// text that differs in the case of ASCII letters, and in the white space
    /// around it, finds the same.
    pub fn lookup_ci(&self, slug: &str) -> (r: Option<&Category>)
        ensures
            found(r) == category_of(self@, text::lowercase_of(text::trimmed(slug@))),
            r matches Some(c) ==> c.slug@ == text::lowercase_of(text::trimmed(slug@))
                && self@.contains(*c),
            r is None <==> forall|i: int|
                0 <= i < self@.len() ==> (#[trigger] self@[i]).slug@ != text::lowercase_of(
                    text::trimmed(slug@),
                ),
            forall|before: Seq<char>, other: Seq<char>, after: Seq<char>|
                text::all_white(before) && text::all_white(after) && text::same_but_case(
                    other,
                    slug@,
                ) ==> category_of(
                    self@,
                    text::lowercase_of(#[trigger] text::trimmed(before + other + after)),
                ) == found(r),
            vstd::utf8::is_ascii_chars(text::trimmed(slug@)) ==> found(r) == category_of(
                self@,
                text::ascii_lowercase(text::trimmed(slug@)),
            ),
            sound(self@),
    {
        let lowered = slug.trim().to_lowercase();
        proof {
            assert forall|before: Seq<char>, other: Seq<char>, after: Seq<char>|
                text::all_white(before) && text::all_white(after) && text::same_but_case(
                    other,
                    slug@,
                ) implies text::lowercase_of(#[trigger] text::trimmed(before + other + after))
                == lowered@ by {
                text::law_outer_white_space_is_ignored(before, other, after);
                text::law_case_survives_trimming(other, slug@);
            }
        }
        self.lookup(lowered.as_str())
    }
}

/// The category with that slug, if there is one.
pub open spec fn category_of(categories: Seq<Category>, slug: Seq<char>) -> Option<Category> {
    if exists|i: int| 0 <= i < categories.len() && (#[trigger] categories[i]).slug@ == slug {
        Some(
            categories[choose|i: int|
                0 <= i < categories.len() && (#[trigger] categories[i]).slug@ == slug],
        )
    } else {
        None
    }
}

/// What a lookup found.
pub open spec fn found(r: Option<&Category>) -> Option<Category> {
    match r {
        Some(c) => Some(*c),
        None => None,
    }
}

proof fn lemma_category_of(categories: Seq<Category>, i: int)
    requires
        sound(categories),
        0 <= i < categories.len(),
    ensures
        category_of(categories, categories[i].slug@) == Some(categories[i]),
{
    let slug = categories[i].slug@;
    let k = choose|k: int| 0 <= k < categories.len() && (#[trigger] categories[k]).slug@ == slug;
    assert(categories[k].slug@ == slug);
    if k < i {
        assert(categories[k].slug@ != categories[i].slug@);
    } else if i < k {
        assert(categories[i].slug@ != categories[k].slug@);
    }
}

/// Every category is found by its slug, and by nothing else.
pub proof fn law_lookup_finds_each_category(categories: Seq<Category>, i: int, slug: Seq<char>)
    requires
        sound(categories),
        0 <= i < categories.len(),
    ensures
        category_of(categories, slug) == Some(categories[i]) <==> slug == categories[i].slug@,
{
    lemma_category_of(categories, i);
    if category_of(categories, slug) == Some(categories[i]) {
        let k = choose|k: int|
            0 <= k < categories.len() && (#[trigger] categories[k]).slug@ == slug;
        assert(categories[k] == categories[i]);
    }
}

/// White space around any text makes no difference to what it finds.
pub proof fn law_lookup_ignores_outer_white_space(
    categories: Seq<Category>,
    before: Seq<char>,
    s: Seq<char>,
    after: Seq<char>,
)
    requires
        text::all_white(before),
        text::all_white(after),
    ensures
        category_of(categories, text::lowercase_of(text::trimmed(before + s + after)))
            == category_of(categories, text::lowercase_of(text::trimmed(s))),
{
    text::law_outer_white_space_is_ignored(before, s, after);
}

/// What an exact lookup finds, a case-insensitive one finds too.
pub proof fn law_exact_matches_stand(categories: Seq<Category>, s: Seq<char>)
    requires
        sound(categories),
        category_of(categories, s) is Some,
    ensures
        vstd::utf8::is_ascii_chars(text::trimmed(s)),
        category_of(categories, text::ascii_lowercase(text::trimmed(s))) == category_of(
            categories,
            s,
        ),
{
    let k = choose|k: int| 0 <= k < categories.len() && (#[trigger] categories[k]).slug@ == s;
    assert(is_slug(categories[k].slug@));
    assert(is_slug_char(s[0]));
    assert(is_slug_char(s[s.len() - 1]));
    assert(text::trimmed(s) == s);
    assert forall|i: int| 0 <= i < s.len() implies '\0' <= #[trigger] s[i] <= '\u{7f}' by {
        assert(is_slug_char(s[i]));
    }
    assert(text::ascii_lowercase(s) =~= s) by {
        assert forall|i: int| 0 <= i < s.len() implies text::ascii_lowercase(s)[i] == s[i] by {
            assert(is_slug_char(s[i]));
        }
    }
}

/// The position of the category with that slug.
fn find_slug(categories: &Vec<Category>, slug: &str) -> (r: Option<usize>)
    ensures
        match r {
            Some(i) => i < categories@.len() && categories@[i as int].slug@ == slug@,
            None => forall|i: int|
                0 <= i < categories@.len() ==> (#[trigger] categories@[i]).slug@ != slug@,
        },
{
    for i in 0..categories.len()
        invariant
            forall|j: int| 0 <= j < i ==> (#[trigger] categories@[j]).slug@ != slug@,
    {
        if same_text(categories[i].slug.as_str(), slug) {
            return Some(i);
        }
    }
    None
}

/// The built-in categories: slug, direction, German name, English name.
pub open spec fn builtin_entries() -> Seq<(Seq<char>, Direction, Seq<char>, Seq<char>)> {
    seq![
        ("salary_income"@, Direction::Income, "Einkommen"@, "Salary & Wages"@),
        ("refund"@, Direction::Income, "Erstattung"@, "Refunds"@),
        ("transfer"@, Direction::Income, "Übertragung"@, "Transfer"@),
        ("other_income"@, Direction::Income, "Sonstige Einnahmen"@, "Other Income"@),
        ("housing"@, Direction::Expense, "Wohnen"@, "Housing"@),
        ("groceries"@, Direction::Expense, "Lebensmittel"@, "Groceries"@),
        ("dining"@, Direction::Expense, "Restaurant & Café"@, "Dining & Cafés"@),
        ("transport"@, Direction::Expense, "Transport & Mobilität"@, "Transport & Mobility"@),
        ("shopping"@, Direction::Expense, "Shopping"@, "Shopping"@),
        ("health"@, Direction::Expense, "Gesundheit"@, "Health"@),
        ("leisure"@, Direction::Expense, "Freizeit & Unterhaltung"@, "Leisure & Entertainment"@),
        ("subscriptions"@, Direction::Expense, "Abos & Dienstleistungen"@, "Subscriptions & Services"@),
        ("insurance"@, Direction::Expense, "Versicherungen"@, "Insurance"@),
        ("savings_investing"@, Direction::Expense, "Sparen & Investieren"@, "Savings & Investing"@),
        ("education"@, Direction::Expense, "Bildung"@, "Education"@),
        ("donations"@, Direction::Expense, "Spenden"@, "Donations"@),
        ("taxes_fees"@, Direction::Expense, "Steuern & Gebühren"@, "Taxes & Fees"@),
        ("cash_withdrawal"@, Direction::Expense, "Bargeld"@, "Cash Withdrawal"@),
        ("credit_card_settlement"@, Direction::Expense, "Kreditkartenabrechnung"@, "Credit Card Settlement"@),
        ("other_expense"@, Direction::Expense, "Sonstige Ausgaben"@, "Other Expenses"@),
    ]
}

/// `c` is the built-in category that `entry` describes.
pub open spec fn is_entry(
    c: Category,
    entry: (Seq<char>, Direction, Seq<char>, Seq<char>),
) -> bool {
    &&& c.slug@ == entry.0
    &&& c.direction == entry.1
    &&& c.names@.len() == 2
    &&& c.names@[0].0@ == "de"@
    &&& c.names@[0].1@ == entry.2
    &&& c.names@[1].0@ == "en"@
    &&& c.names@[1].1@ == entry.3
}

/// A raw category with a German and an English name.
fn raw_category(slug: &str, direction: &str, de: &str, en: &str) -> (r: RawCategory)
    ensures
        r.slug@ == slug@,
        r.direction is Some,
        r.direction->0@ == direction@,
        r.names@.len() == 2,
        r.names@[0].0@ == "de"@,
        r.names@[0].1@ == de@,
        r.names@[1].0@ == "en"@,
        r.names@[1].1@ == en@,
{
    let mut names: Vec<(String, String)> = Vec::new();
    names.push(("de".to_owned(), de.to_owned()));
    names.push(("en".to_owned(), en.to_owned()));
    RawCategory { slug: slug.to_owned(), direction: Some(direction.to_owned()), names }
}

/// A slug has no white space to trim.
proof fn lemma_slug_is_trimmed(s: Seq<char>)
    requires
        is_slug(s),
    ensures
        text::trimmed(s) == s,
{
    assert(is_slug_char(s[0]));
    assert(is_slug_char(s[s.len() - 1]));
}

/// What tells the built-in slugs apart: their length and first two letters.
spec fn fingerprint(s: Seq<char>) -> (nat, char, char) {
    (s.len(), s[0], s[1])
}

spec fn builtin_fingerprint(i: int) -> (nat, char, char) {
    if i == 0 {
        (13, 's', 'a')
    } else if i == 1 {
        (6, 'r', 'e')
    } else if i == 2 {
        (8, 't', 'r')
    } else if i == 3 {
        (12, 'o', 't')
    } else if i == 4 {
        (7, 'h', 'o')
    } else if i == 5 {
        (9, 'g', 'r')
    } else if i == 6 {
        (6, 'd', 'i')
    } else if i == 7 {
        (9, 't', 'r')
    } else if i == 8 {
        (8, 's', 'h')
    } else if i == 9 {
        (6, 'h', 'e')
    } else if i == 10 {
        (7, 'l', 'e')
    } else if i == 11 {
        (13, 's', 'u')
    } else if i == 12 {
        (9, 'i', 'n')
    } else if i == 13 {
        (17, 's', 'a')
    } else if i == 14 {
        (9, 'e', 'd')
    } else if i == 15 {
        (9, 'd', 'o')
    } else if i == 16 {
        (10, 't', 'a')
    } else if i == 17 {
        (15, 'c', 'a')
    } else if i == 18 {
        (22, 'c', 'r')
    } else if i == 19 {
        (13, 'o', 't')
    } else {
        (0, ' ', ' ')
    }
}

proof fn lemma_builtin_entry(i: int)
    requires
        0 <= i < builtin_entries().len(),
    ensures
        is_slug(builtin_entries()[i].0),
        fingerprint(builtin_entries()[i].0) == builtin_fingerprint(i),
{
    if i == 0 {
        reveal_strlit("salary_income");
    } else if i == 1 {
        reveal_strlit("refund");
    } else if i == 2 {
        reveal_strlit("transfer");
    } else if i == 3 {
        reveal_strlit("other_income");
    } else if i == 4 {
        reveal_strlit("housing");
    } else if i == 5 {
        reveal_strlit("groceries");
    } else if i == 6 {
        reveal_strlit("dining");
    } else if i == 7 {
        reveal_strlit("transport");
    } else if i == 8 {
        reveal_strlit("shopping");
    } else if i == 9 {
        reveal_strlit("health");
    } else if i == 10 {
        reveal_strlit("leisure");
    } else if i == 11 {
        reveal_strlit("subscriptions");
    } else if i == 12 {
        reveal_strlit("insurance");
    } else if i == 13 {
        reveal_strlit("savings_investing");
    } else if i == 14 {
        reveal_strlit("education");
    } else if i == 15 {
        reveal_strlit("donations");
    } else if i == 16 {
        reveal_strlit("taxes_fees");
    } else if i == 17 {
        reveal_strlit("cash_withdrawal");
    } else if i == 18 {
        reveal_strlit("credit_card_settlement");
    } else if i == 19 {
        reveal_strlit("other_expense");
    }
}

proof fn lemma_no_fault_from(raw: Seq<RawCategory>, i: int)
    requires
        0 <= i,
        forall|k: int| 0 <= k < raw.len() ==> #[trigger] category_fault(raw, k) is None,
    ensures
        fault_from(raw, i) is None,
    decreases raw.len() - i,
{
    if i < raw.len() {
        lemma_no_fault_from(raw, i + 1);
    }
}

/// `raw` states what `entry` describes.
spec fn states_entry(
    raw: RawCategory,
    entry: (Seq<char>, Direction, Seq<char>, Seq<char>),
) -> bool {
    &&& raw.slug@ == entry.0
    &&& raw.direction is Some
    &&& raw.direction->0@ == (if entry.1 is Income {
        "income"@
    } else {
        "expense"@
    })
    &&& raw.names@.len() == 2
    &&& raw.names@[0].0@ == "de"@
    &&& raw.names@[0].1@ == entry.2
    &&& raw.names@[1].0@ == "en"@
    &&& raw.names@[1].1@ == entry.3
}

proof fn lemma_builtin_is_sound(raw: Seq<RawCategory>)
    requires
        raw.len() == builtin_entries().len(),
        forall|i: int| 0 <= i < raw.len() ==> states_entry(#[trigger] raw[i], builtin_entries()[i]),
    ensures
        taxonomy_fault(raw) is None,
        forall|i: int|
            0 <= i < raw.len() ==> slug_of(#[trigger] raw[i]) == builtin_entries()[i].0
                && direction_of(raw[i]) == Some(builtin_entries()[i].1),
{
    reveal_strlit("income");
    reveal_strlit("expense");
    assert("income"@.len() != "expense"@.len());
    assert forall|i: int| 0 <= i < raw.len() implies slug_of(#[trigger] raw[i])
        == builtin_entries()[i].0 && is_slug(slug_of(raw[i])) && direction_of(raw[i]) == Some(
        builtin_entries()[i].1,
    ) && fingerprint(slug_of(raw[i])) == builtin_fingerprint(i) by {
        assert(states_entry(raw[i], builtin_entries()[i]));
        lemma_builtin_entry(i);
        lemma_slug_is_trimmed(builtin_entries()[i].0);
    }
    assert forall|i: int| 0 <= i < raw.len() implies #[trigger] category_fault(raw, i) is None by {
        assert(states_entry(raw[i], builtin_entries()[i]));
        assert(slug_of(raw[i]) == builtin_entries()[i].0);
        if repeats_slug(raw, i) {
            let j = choose|j: int| 0 <= j < i && slug_of(#[trigger] raw[j]) == slug_of(raw[i]);
            assert(builtin_fingerprint(j) == builtin_fingerprint(i));
        }
    }
    lemma_no_fault_from(raw, 0);
}

/// Built-in default taxonomy (canonical display names in German, `en` provided).
/// Every category carries an explicit direction.
pub fn builtin() -> (r: Taxonomy)
    ensures
        r@.len() == builtin_entries().len(),
        forall|i: int| 0 <= i < r@.len() ==> is_entry(#[trigger] r@[i], builtin_entries()[i]),
        sound(r@),
{
    let mut raw: Vec<RawCategory> = Vec::new();
    raw.push(raw_category("salary_income", "income", "Einkommen", "Salary & Wages"));
    raw.push(raw_category("refund", "income", "Erstattung", "Refunds"));
    raw.push(raw_category("transfer", "income", "Übertragung", "Transfer"));
    raw.push(raw_category("other_income", "income", "Sonstige Einnahmen", "Other Income"));
    raw.push(raw_category("housing", "expense", "Wohnen", "Housing"));
    raw.push(raw_category("groceries", "expense", "Lebensmittel", "Groceries"));
    raw.push(raw_category("dining", "expense", "Restaurant & Café", "Dining & Cafés"));
    raw.push(raw_category("transport", "expense", "Transport & Mobilität", "Transport & Mobility"));
    raw.push(raw_category("shopping", "expense", "Shopping", "Shopping"));
    raw.push(raw_category("health", "expense", "Gesundheit", "Health"));
    raw.push(raw_category("leisure", "expense", "Freizeit & Unterhaltung", "Leisure & Entertainment"));
    raw.push(raw_category("subscriptions", "expense", "Abos & Dienstleistungen", "Subscriptions & Services"));
    raw.push(raw_category("insurance", "expense", "Versicherungen", "Insurance"));
    raw.push(raw_category("savings_investing", "expense", "Sparen & Investieren", "Savings & Investing"));
    raw.push(raw_category("education", "expense", "Bildung", "Education"));
    raw.push(raw_category("donations", "expense", "Spenden", "Donations"));
    raw.push(raw_category("taxes_fees", "expense", "Steuern & Gebühren", "Taxes & Fees"));
    raw.push(raw_category("cash_withdrawal", "expense", "Bargeld", "Cash Withdrawal"));
    raw.push(raw_category("credit_card_settlement", "expense", "Kreditkartenabrechnung", "Credit Card Settlement"));
    raw.push(raw_category("other_expense", "expense", "Sonstige Ausgaben", "Other Expenses"));
    proof {
        assert forall|i: int| 0 <= i < raw@.len() implies states_entry(
            #[trigger] raw@[i],
            builtin_entries()[i],
        ) by {
        }
        lemma_builtin_is_sound(raw@);
    }
    match Taxonomy::build(raw) {
        Ok(t) => {
            proof {
                assert forall|i: int| 0 <= i < t@.len() implies is_entry(
                    #[trigger] t@[i],
                    builtin_entries()[i],
                ) by {
                    assert(states(raw@[i], t@[i]));
                    assert(states_entry(raw@[i], builtin_entries()[i]));
                    assert("de"@ != "en"@) by {
                        reveal_strlit("de");
                        reveal_strlit("en");
                        assert("de"@[0] == 'd');
                        assert("en"@[0] == 'e');
                    }
                    law_distinct_names_stay(raw@[i].names@);
                }
            }
            t
        },
        Err(_) => vstd::pervasive::unreached(),
    }
}

/// A category is shown in the language asked for where it has a name in it, else in
/// German, else by its first name, else by its slug.
pub proof fn law_names_are_chosen_in_order(
    slug: Seq<char>,
    names: Seq<(String, String)>,
    lang: Seq<char>,
    i: int,
)
    requires
        one_name_each(names),
    ensures
        0 <= i < names.len() && names[i].0@ == lang ==> display_text(slug, names, lang)
            == names[i].1@,
        (forall|j: int| 0 <= j < names.len() ==> (#[trigger] names[j]).0@ != lang) && 0 <= i
            < names.len() && names[i].0@ == "de"@ ==> display_text(slug, names, lang)
            == names[i].1@,
        (forall|j: int|
            0 <= j < names.len() ==> (#[trigger] names[j]).0@ != lang && names[j].0@ != "de"@)
            && names.len() > 0 ==> display_text(slug, names, lang) == names[0].1@,
        names.len() == 0 ==> display_text(slug, names, lang) == slug,
{
    lemma_name_index(names, lang);
    lemma_name_index(names, "de"@);
    if 0 <= i < names.len() {
        lemma_name_at(names, i);
    }
}

/// Languages keep the order in which they are first named: a further name goes into
/// the place of its language, and behind the others only where its language is new.
pub proof fn law_languages_keep_their_order(names: Seq<(String, String)>, new: (String, String))
    ensures
        forall|j: int|
            0 <= j < latest_names(names).len() ==> (#[trigger] latest_names(names)[j]).0@
                == latest_names(names.push(new))[j].0@,
        (exists|k: int| 0 <= k < names.len() && (#[trigger] names[k]).0@ == new.0@) ==> latest_names(
            names.push(new),
        ).len() == latest_names(names).len(),
        (forall|k: int| 0 <= k < names.len() ==> (#[trigger] names[k]).0@ != new.0@)
            ==> latest_names(names.push(new)) == latest_names(names).push(new),
{
    assert(names.push(new).drop_last() =~= names);
    assert(names.push(new).last() == new);
    let old_names = latest_names(names);
    lemma_name_index(old_names, new.0@);
    law_last_name_counts(names, new.0@);
    lemma_last_name(names, new.0@);
    if exists|k: int| 0 <= k < names.len() && (#[trigger] names[k]).0@ == new.0@ {
        assert(name_for(old_names, new.0@) is Some);
    } else {
        assert(name_for(old_names, new.0@) is None);
    }
}

proof fn lemma_last_name(names: Seq<(String, String)>, lang: Seq<char>)
    ensures
        last_name(names, lang) is Some <==> exists|k: int|
            0 <= k < names.len() && (#[trigger] names[k]).0@ == lang,
    decreases names.len(),
{
    if names.len() > 0 {
        let rest = names.drop_last();
        lemma_last_name(rest, lang);
        if names.last().0@ == lang {
            assert(names[names.len() - 1].0@ == lang);
        } else {
            if exists|k: int| 0 <= k < names.len() && (#[trigger] names[k]).0@ == lang {
                let k = choose|k: int| 0 <= k < names.len() && (#[trigger] names[k]).0@ == lang;
                assert(rest[k] == names[k]);
            }
            if exists|k: int| 0 <= k < rest.len() && (#[trigger] rest[k]).0@ == lang {
                let k = choose|k: int| 0 <= k < rest.len() && (#[trigger] rest[k]).0@ == lang;
                assert(names[k] == rest[k]);
            }
        }
    }
}

/// `direction` is what a raw category says of itself, or, where it says nothing, what
/// the end of its slug says.
pub open spec fn is_directed(raw: RawCategory, direction: Direction) -> bool {
    let word = match direction {
        Direction::Income => "income"@,
        Direction::Expense => "expense"@,
    };
    match raw.direction {
        Some(d) => d@ == word,
        None => ends_in(text::trimmed(raw.slug@), word),
    }
}

/// `s` is some text, an underscore and `word`.
pub open spec fn ends_in(s: Seq<char>, word: Seq<char>) -> bool {
    exists|front: Seq<char>| #[trigger] (front + "_"@ + word) == s
}

/// Category `i` states all that it needs: a slug of its own in lower-case letters and
/// underscores, a name, and a direction.
pub open spec fn is_well_stated(raw: Seq<RawCategory>, i: int) -> bool {
    let slug = text::trimmed(raw[i].slug@);
    &&& slug.len() > 0
    &&& forall|k: int| 0 <= k < slug.len() ==> 'a' <= #[trigger] slug[k] <= 'z' || slug[k] == '_'
    &&& forall|j: int| 0 <= j < i ==> text::trimmed((#[trigger] raw[j]).slug@) != slug
    &&& raw[i].names@.len() > 0
    &&& is_directed(raw[i], Direction::Income) || is_directed(raw[i], Direction::Expense)
}

proof fn lemma_ends(s: Seq<char>, word: Seq<char>, suffix: Seq<char>)
    requires
        suffix == "_"@ + word,
    ensures
        text::has_suffix(s, suffix) <==> ends_in(s, word),
{
    if text::has_suffix(s, suffix) {
        let front = s.take(s.len() - suffix.len());
        assert(s =~= front + suffix);
        assert(front + "_"@ + word =~= s);
    }
    if ends_in(s, word) {
        let front = choose|front: Seq<char>| #[trigger] (front + "_"@ + word) == s;
        assert(s =~= front + suffix);
        assert(s.subrange(s.len() - suffix.len(), s.len() as int) =~= suffix);
    }
}

/// The direction of a category is the one that it states.
pub proof fn law_directions_are_stated(raw: RawCategory, direction: Direction)
    ensures
        direction_of(raw) == Some(direction) <==> is_directed(raw, direction),
{
    reveal_strlit("income");
    reveal_strlit("expense");
    reveal_strlit("_");
    reveal_strlit("_income");
    reveal_strlit("_expense");
    assert("income"@[0] == 'i' && "expense"@[0] == 'e');
    assert("_income"@ =~= "_"@ + "income"@);
    assert("_expense"@ =~= "_"@ + "expense"@);
    let slug = text::trimmed(raw.slug@);
    lemma_ends(slug, "income"@, "_income"@);
    lemma_ends(slug, "expense"@, "_expense"@);
    if text::has_suffix(slug, "_income"@) && text::has_suffix(slug, "_expense"@) {
        let n = slug.len() as int;
        assert(slug.subrange(n - 7, n)[2] == 'n');
        assert(slug.subrange(n - 8, n)[3] == 'p');
        assert(slug.subrange(n - 7, n)[2] == slug[n - 5]);
        assert(slug.subrange(n - 8, n)[3] == slug[n - 5]);
    }
}

proof fn lemma_category_fault(raw: Seq<RawCategory>, i: int)
    requires
        0 <= i < raw.len(),
    ensures
        category_fault(raw, i) is None <==> is_well_stated(raw, i),
{
    let slug = text::trimmed(raw[i].slug@);
    law_directions_are_stated(raw[i], Direction::Income);
    law_directions_are_stated(raw[i], Direction::Expense);
    assert(all_slug_chars(slug) <==> forall|k: int|
        0 <= k < slug.len() ==> 'a' <= #[trigger] slug[k] <= 'z' || slug[k] == '_') by {
        if all_slug_chars(slug) {
            assert forall|k: int| 0 <= k < slug.len() implies 'a' <= #[trigger] slug[k] <= 'z'
                || slug[k] == '_' by {
                assert(is_slug_char(slug[k]));
            }
        }
    }
    if repeats_slug(raw, i) {
        let j = choose|j: int| 0 <= j < i && slug_of(#[trigger] raw[j]) == slug_of(raw[i]);
        assert(text::trimmed(raw[j].slug@) == slug);
    } else {
        assert forall|j: int| 0 <= j < i implies text::trimmed((#[trigger] raw[j]).slug@)
            != slug by {
            assert(slug_of(raw[j]) != slug_of(raw[i]));
        }
    }
}

proof fn lemma_fault_from(raw: Seq<RawCategory>, i: int)
    requires
        0 <= i <= raw.len(),
    ensures
        fault_from(raw, i) is None <==> forall|k: int|
            i <= k < raw.len() ==> #[trigger] is_well_stated(raw, k),
    decreases raw.len() - i,
{
    if i < raw.len() {
        lemma_category_fault(raw, i);
        lemma_fault_from(raw, i + 1);
        if fault_from(raw, i) is None {
            assert forall|k: int| i <= k < raw.len() implies #[trigger] is_well_stated(
                raw,
                k,
            ) by {}
        } else if category_fault(raw, i) is Some {
            assert(!is_well_stated(raw, i));
        }
    }
}

/// A taxonomy is accepted exactly where it has a category and each is well stated.
pub proof fn law_accepted_taxonomies(raw: Seq<RawCategory>)
    ensures
        taxonomy_fault(raw) is None <==> raw.len() > 0 && forall|i: int|
            0 <= i < raw.len() ==> #[trigger] is_well_stated(raw, i),
        raw.len() == 0 ==> taxonomy_fault(raw) == Some("no categories"@),
        forall|i: int, d: Direction|
            0 <= i < raw.len() ==> (#[trigger] direction_of(raw[i]) == Some(d)
                <==> #[trigger] is_directed(raw[i], d)),
{
    lemma_fault_from(raw, 0);
    assert forall|i: int, d: Direction| 0 <= i < raw.len() implies (#[trigger] direction_of(raw[i])
        == Some(d) <==> #[trigger] is_directed(raw[i], d)) by {
        law_directions_are_stated(raw[i], d);
    }
}

/// The first faulty category is reported by its place, and by what it is at fault
/// for: its slug, a slug that was used before, its names, its direction.
#[verifier::rlimit(50)]
pub proof fn law_first_faulty_category_is_named(raw: Seq<RawCategory>, i: int)
    requires
        0 <= i < raw.len(),
        !is_well_stated(raw, i),
        forall|k: int| 0 <= k < i ==> #[trigger] is_well_stated(raw, k),
    ensures
        ({
            let slug = text::trimmed(raw[i].slug@);
            let at = "category "@ + text::decimal(i as nat);
            let spelled = forall|k: int|
                0 <= k < slug.len() ==> 'a' <= #[trigger] slug[k] <= 'z' || slug[k] == '_';
            let used = exists|j: int|
                0 <= j < i && text::trimmed((#[trigger] raw[j]).slug@) == slug;
            let fault = taxonomy_fault(raw);
            &&& slug.len() == 0 ==> fault == Some(at + ": empty slug"@)
            &&& !spelled ==> fault == Some(
                at + ": slug `"@ + slug + "` must be lowercase ASCII with underscores"@,
            )
            &&& slug.len() > 0 && spelled && used ==> fault == Some(
                at + ": duplicate slug `"@ + slug + "`"@,
            )
            &&& slug.len() > 0 && spelled && !used && raw[i].names@.len() == 0 ==> fault == Some(
                at + " (`"@ + slug + "`): no names provided"@,
            )
            &&& slug.len() > 0 && spelled && !used && raw[i].names@.len() > 0
                && raw[i].direction is Some ==> fault == Some(
                at + " (`"@ + slug + "`): direction must be \"income\" or \"expense\", got "@
                    + text::debug_of(raw[i].direction->0@),
            )
            &&& slug.len() > 0 && spelled && !used && raw[i].names@.len() > 0
                && raw[i].direction is None ==> fault == Some(
                at + " (`"@ + slug
                    + "`): missing `direction` (income|expense); it cannot be inferred from the slug"@,
            )
        }),
{
    lemma_reaches_fault(raw, 0, i);
    lemma_category_fault(raw, i);
    law_directions_are_stated(raw[i], Direction::Income);
    law_directions_are_stated(raw[i], Direction::Expense);
    let slug = text::trimmed(raw[i].slug@);
    assert(all_slug_chars(slug) <==> forall|k: int|
        0 <= k < slug.len() ==> 'a' <= #[trigger] slug[k] <= 'z' || slug[k] == '_') by {
        if all_slug_chars(slug) {
            assert forall|k: int| 0 <= k < slug.len() implies 'a' <= #[trigger] slug[k] <= 'z'
                || slug[k] == '_' by {
                assert(is_slug_char(slug[k]));
            }
        }
    }
    if exists|j: int| 0 <= j < i && text::trimmed((#[trigger] raw[j]).slug@) == slug {
        let j = choose|j: int| 0 <= j < i && text::trimmed((#[trigger] raw[j]).slug@) == slug;
        assert(slug_of(raw[j]) == slug_of(raw[i]));
        assert(repeats_slug(raw, i));
    } else {
        assert(!repeats_slug(raw, i));
    }
}

proof fn lemma_reaches_fault(raw: Seq<RawCategory>, i: int, k: int)
    requires
        0 <= i <= k < raw.len(),
        !is_well_stated(raw, k),
        forall|j: int| i <= j < k ==> #[trigger] is_well_stated(raw, j),
    ensures
        fault_from(raw, i) == category_fault(raw, k),
        category_fault(raw, k) is Some,
    decreases k - i,
{
    lemma_category_fault(raw, i);
    if i < k {
        assert(is_well_stated(raw, i));
        lemma_reaches_fault(raw, i + 1, k);
    }
}

/// What the built-in categories are called in German and in English, and which way
/// their money goes.
#[verifier::rlimit(50)]
pub proof fn law_builtin_names(categories: Seq<Category>)
    requires
        categories.len() == builtin_entries().len(),
        forall|i: int|
            0 <= i < categories.len() ==> is_entry(#[trigger] categories[i], builtin_entries()[i]),
    ensures
        categories.len() == 20,
        is_called(categories[0], "salary_income"@, Direction::Income, "Einkommen"@, "Salary & Wages"@),
        is_called(categories[1], "refund"@, Direction::Income, "Erstattung"@, "Refunds"@),
        is_called(categories[2], "transfer"@, Direction::Income, "Übertragung"@, "Transfer"@),
        is_called(categories[3], "other_income"@, Direction::Income, "Sonstige Einnahmen"@, "Other Income"@),
        is_called(categories[4], "housing"@, Direction::Expense, "Wohnen"@, "Housing"@),
        is_called(categories[5], "groceries"@, Direction::Expense, "Lebensmittel"@, "Groceries"@),
        is_called(categories[6], "dining"@, Direction::Expense, "Restaurant & Café"@, "Dining & Cafés"@),
        is_called(categories[7], "transport"@, Direction::Expense, "Transport & Mobilität"@, "Transport & Mobility"@),
        is_called(categories[8], "shopping"@, Direction::Expense, "Shopping"@, "Shopping"@),
        is_called(categories[9], "health"@, Direction::Expense, "Gesundheit"@, "Health"@),
        is_called(categories[10], "leisure"@, Direction::Expense, "Freizeit & Unterhaltung"@, "Leisure & Entertainment"@),
        is_called(categories[11], "subscriptions"@, Direction::Expense, "Abos & Dienstleistungen"@, "Subscriptions & Services"@),
        is_called(categories[12], "insurance"@, Direction::Expense, "Versicherungen"@, "Insurance"@),
        is_called(categories[13], "savings_investing"@, Direction::Expense, "Sparen & Investieren"@, "Savings & Investing"@),
        is_called(categories[14], "education"@, Direction::Expense, "Bildung"@, "Education"@),
        is_called(categories[15], "donations"@, Direction::Expense, "Spenden"@, "Donations"@),
        is_called(categories[16], "taxes_fees"@, Direction::Expense, "Steuern & Gebühren"@, "Taxes & Fees"@),
        is_called(categories[17], "cash_withdrawal"@, Direction::Expense, "Bargeld"@, "Cash Withdrawal"@),
        is_called(categories[18], "credit_card_settlement"@, Direction::Expense, "Kreditkartenabrechnung"@, "Credit Card Settlement"@),
        is_called(categories[19], "other_expense"@, Direction::Expense, "Sonstige Ausgaben"@, "Other Expenses"@),
{
    reveal_strlit("de");
    reveal_strlit("en");
    assert("de"@[0] == 'd' && "en"@[0] == 'e');
    assert(builtin_entries().len() == 20);
    assert forall|i: int| 0 <= i < categories.len() implies is_called(
        #[trigger] categories[i],
        builtin_entries()[i].0,
        builtin_entries()[i].1,
        builtin_entries()[i].2,
        builtin_entries()[i].3,
    ) by {
        let c = categories[i];
        assert(is_entry(c, builtin_entries()[i]));
        law_names_are_chosen_in_order(c.slug@, c.names@, "de"@, 0);
        law_names_are_chosen_in_order(c.slug@, c.names@, "en"@, 1);
    }
    assert(is_called(
        categories[0],
        builtin_entries()[0].0,
        builtin_entries()[0].1,
        builtin_entries()[0].2,
        builtin_entries()[0].3,
    ));
    assert(is_called(
        categories[1],
        builtin_entries()[1].0,
        builtin_entries()[1].1,
        builtin_entries()[1].2,
        builtin_entries()[1].3,
    ));
    assert(is_called(
        categories[2],
        builtin_entries()[2].0,
        builtin_entries()[2].1,
        builtin_entries()[2].2,
        builtin_entries()[2].3,
    ));
    assert(is_called(
        categories[3],
        builtin_entries()[3].0,
        builtin_entries()[3].1,
        builtin_entries()[3].2,
        builtin_entries()[3].3,
    ));
    assert(is_called(
        categories[4],
        builtin_entries()[4].0,
        builtin_entries()[4].1,
        builtin_entries()[4].2,
        builtin_entries()[4].3,
    ));
    assert(is_called(
        categories[5],
        builtin_entries()[5].0,
        builtin_entries()[5].1,
        builtin_entries()[5].2,
        builtin_entries()[5].3,
    ));
    assert(is_called(
        categories[6],
        builtin_entries()[6].0,
        builtin_entries()[6].1,
        builtin_entries()[6].2,
        builtin_entries()[6].3,
    ));
    assert(is_called(
        categories[7],
        builtin_entries()[7].0,
        builtin_entries()[7].1,
        builtin_entries()[7].2,
        builtin_entries()[7].3,
    ));
    assert(is_called(
        categories[8],
        builtin_entries()[8].0,
        builtin_entries()[8].1,
        builtin_entries()[8].2,
        builtin_entries()[8].3,
    ));
    assert(is_called(
        categories[9],
        builtin_entries()[9].0,
        builtin_entries()[9].1,
        builtin_entries()[9].2,
        builtin_entries()[9].3,
    ));
    assert(is_called(
        categories[10],
        builtin_entries()[10].0,
        builtin_entries()[10].1,
        builtin_entries()[10].2,
        builtin_entries()[10].3,
    ));
    assert(is_called(
        categories[11],
        builtin_entries()[11].0,
        builtin_entries()[11].1,
        builtin_entries()[11].2,
        builtin_entries()[11].3,
    ));
    assert(is_called(
        categories[12],
        builtin_entries()[12].0,
        builtin_entries()[12].1,
        builtin_entries()[12].2,
        builtin_entries()[12].3,
    ));
    assert(is_called(
        categories[13],
        builtin_entries()[13].0,
        builtin_entries()[13].1,
        builtin_entries()[13].2,
        builtin_entries()[13].3,
    ));
    assert(is_called(
        categories[14],
        builtin_entries()[14].0,
        builtin_entries()[14].1,
        builtin_entries()[14].2,
        builtin_entries()[14].3,
    ));
    assert(is_called(
        categories[15],
        builtin_entries()[15].0,
        builtin_entries()[15].1,
        builtin_entries()[15].2,
        builtin_entries()[15].3,
    ));
    assert(is_called(
        categories[16],
        builtin_entries()[16].0,
        builtin_entries()[16].1,
        builtin_entries()[16].2,
        builtin_entries()[16].3,
    ));
    assert(is_called(
        categories[17],
        builtin_entries()[17].0,
        builtin_entries()[17].1,
        builtin_entries()[17].2,
        builtin_entries()[17].3,
    ));
    assert(is_called(
        categories[18],
        builtin_entries()[18].0,
        builtin_entries()[18].1,
        builtin_entries()[18].2,
        builtin_entries()[18].3,
    ));
    assert(is_called(
        categories[19],
        builtin_entries()[19].0,
        builtin_entries()[19].1,
        builtin_entries()[19].2,
        builtin_entries()[19].3,
    ));
}

/// `c` has that slug and direction, and is shown by these names in German and in
/// English.
pub open spec fn is_called(
    c: Category,
    slug: Seq<char>,
    direction: Direction,
    german: Seq<char>,
    english: Seq<char>,
) -> bool {
    &&& c.slug@ == slug
    &&& c.direction == direction
    &&& display_text(c.slug@, c.names@, "de"@) == german
    &&& display_text(c.slug@, c.names@, "en"@) == english
}

} // verus!
