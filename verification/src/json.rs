//! JSON values as the library holds them, and the way to and from JSON text
//! through `serde_json`.
use serde_json::Value;
use std::collections::BTreeMap;
use vstd::prelude::*;

use crate::text::same_text;

verus! {

/// `serde_json::Value`, opaque here: it is taken apart by `open_value` and put
/// together by `close_value`.
#[verifier::external_type_specification]
#[verifier::external_body]
pub struct ExValue(serde_json::Value);

/// `serde_json::Number`, opaque: it is carried through unread.
#[verifier::external_type_specification]
#[verifier::external_body]
pub struct ExNumber(serde_json::Number);

/// What `serde_json::Number::as_u64` makes of a number: its value where it is
/// an integer from 0 to `u64::MAX`.
pub uninterp spec fn unsigned_of(number: serde_json::Number) -> Option<u64>;

/// `serde_json::Number::as_u64`: a function of the number, named.
pub assume_specification[ serde_json::Number::as_u64 ](number: &serde_json::Number) -> (r: Option<
    u64,
>)
    ensures
        r == unsigned_of(*number),
;

/// The JSON value of a number.
pub open spec fn number_tree(number: serde_json::Number) -> JsonTree {
    match unsigned_of(number) {
        Some(n) => JsonTree::Unsigned(n),
        None => JsonTree::Decimal(number),
    }
}

/// What a JSON value is: an object is a map, so that neither the order of its
/// members nor a member that was overwritten counts.
pub enum JsonTree {
    Null,
    Bool(bool),
    /// A number that is an integer from 0 to `u64::MAX`.
    Unsigned(u64),
    /// Any other number.
    Decimal(serde_json::Number),
    Text(Seq<char>),
    Array(Seq<JsonTree>),
    Object(Map<Seq<char>, JsonTree>),
}

/// A JSON value in memory. In an object the last of several members with one
/// name counts.
pub enum Json {
    Null,
    Bool(bool),
    Unsigned(u64),
    Number(serde_json::Number),
    Text(String),
    Array(Vec<Json>),
    Object(Vec<(String, Json)>),
}

/// One level of a `serde_json::Value`.
pub enum Level {
    Null,
    Bool(bool),
    Unsigned(u64),
    Number(serde_json::Number),
    Text(String),
    Array(Vec<Value>),
    Object(Vec<(String, Value)>),
}

/// The JSON value that a `serde_json::Value` holds.
pub uninterp spec fn value_tree(value: serde_json::Value) -> JsonTree;

/// What `serde_json::from_str` makes of a text: the value, or the error's text.
pub uninterp spec fn json_of(text: Seq<char>) -> Result<JsonTree, Seq<char>>;

/// `text` is JSON text for `tree`.
pub open spec fn spells(text: Seq<char>, tree: JsonTree) -> bool {
    json_of(text) == Ok::<JsonTree, Seq<char>>(tree)
}

/// The members of an object from a list of them, a later one over an earlier
/// one of the same name.
pub open spec fn level_members(pairs: Seq<(String, Value)>) -> Map<Seq<char>, JsonTree>
    decreases pairs.len(),
{
    if pairs.len() == 0 {
        Map::empty()
    } else {
        level_members(pairs.drop_last()).insert(pairs.last().0@, value_tree(pairs.last().1))
    }
}

/// No two members bear one name.
pub open spec fn distinct_names(pairs: Seq<(String, Value)>) -> bool {
    forall|a: int, b: int| 0 <= a < b < pairs.len() ==> pairs[a].0@ != pairs[b].0@
}

impl Level {
    /// The JSON value of which this is the top level.
    pub open spec fn tree(self) -> JsonTree {
        match self {
            Level::Null => JsonTree::Null,
            Level::Bool(b) => JsonTree::Bool(b),
            Level::Unsigned(n) => JsonTree::Unsigned(n),
            Level::Number(n) => number_tree(n),
            Level::Text(s) => JsonTree::Text(s@),
            Level::Array(items) => JsonTree::Array(items@.map_values(|v: Value| value_tree(v))),
            Level::Object(pairs) => JsonTree::Object(level_members(pairs@)),
        }
    }
}

/// `serde_json::from_str` into a `serde_json::Value`: the value is a function
/// of the text, and so is the text of the error.
#[verifier::external_body]
fn read_value(text: &str) -> (r: Result<Value, String>)
    ensures
        match r {
            Ok(value) => json_of(text@) == Ok::<JsonTree, Seq<char>>(value_tree(value)),
            Err(message) => json_of(text@) == Err::<JsonTree, Seq<char>>(message@),
        },
{
    serde_json::from_str::<Value>(text).map_err(|e| e.to_string())
}

/// The variants of `serde_json::Value` told apart; `serde_json::Map` hands out
/// its members, each name once.
#[verifier::external_body]
fn open_value(value: Value) -> (r: Level)
    ensures
        r.tree() == value_tree(value),
        r matches Level::Object(pairs) ==> distinct_names(pairs@),
{
    match value {
        Value::Null => Level::Null,
        Value::Bool(b) => Level::Bool(b),
        Value::Number(n) => Level::Number(n),
        Value::String(s) => Level::Text(s),
        Value::Array(items) => Level::Array(items),
        Value::Object(members) => Level::Object(members.into_iter().collect()),
    }
}

impl Json {
    /// The JSON value that this stands for.
    pub open spec fn tree(self) -> JsonTree
        decreases self,
    {
        match self {
            Json::Null => JsonTree::Null,
            Json::Bool(b) => JsonTree::Bool(b),
            Json::Unsigned(n) => JsonTree::Unsigned(n),
            Json::Number(n) => number_tree(n),
            Json::Text(s) => JsonTree::Text(s@),
            Json::Array(items) => JsonTree::Array(
                Seq::new(
                    items@.len(),
                    |i: int|
                        if 0 <= i < items@.len() {
                            items@[i].tree()
                        } else {
                            JsonTree::Null
                        },
                ),
            ),
            Json::Object(pairs) => JsonTree::Object(members(pairs@)),
        }
    }
}

/// The members of an object from a list of them, a later one over an earlier
/// one of the same name.
pub open spec fn members(pairs: Seq<(String, Json)>) -> Map<Seq<char>, JsonTree>
    decreases pairs,
{
    if pairs.len() == 0 {
        Map::empty()
    } else {
        members(pairs.drop_last()).insert(pairs.last().0@, pairs.last().1.tree())
    }
}

/// The members of `Level::Object(pairs)` lie below the object itself.
proof fn lemma_level_member_smaller(pairs: Seq<(String, Value)>, i: int)
    requires
        0 <= i < pairs.len(),
        distinct_names(pairs),
    ensures
        level_members(pairs).dom().finite(),
        level_members(pairs).contains_key(pairs[i].0@),
        level_members(pairs)[pairs[i].0@] == value_tree(pairs[i].1),
    decreases pairs.len(),
{
    lemma_level_members_finite(pairs.drop_last());
    if i < pairs.len() - 1 {
        lemma_level_member_smaller(pairs.drop_last(), i);
    }
}

proof fn lemma_level_members_finite(pairs: Seq<(String, Value)>)
    ensures
        level_members(pairs).dom().finite(),
    decreases pairs.len(),
{
    if pairs.len() > 0 {
        lemma_level_members_finite(pairs.drop_last());
    }
}

/// The whole value, level by level.
fn build_json(value: Value) -> (r: Json)
    ensures
        r.tree() == value_tree(value),
    decreases value_tree(value),
{
    match open_value(value) {
        Level::Null => Json::Null,
        Level::Bool(b) => Json::Bool(b),
        Level::Unsigned(n) => Json::Unsigned(n),
        Level::Number(n) => match n.as_u64() {
            Some(u) => Json::Unsigned(u),
            None => Json::Number(n),
        },
        Level::Text(s) => Json::Text(s),
        Level::Array(items) => {
            let ghost whole = items@.map_values(|v: Value| value_tree(v));
            let mut out: Vec<Json> = Vec::new();
            for item in it: items
                invariant
                    it.seq() == items@,
                    whole == items@.map_values(|v: Value| value_tree(v)),
                    value_tree(value) == JsonTree::Array(whole),
                    out@.len() == it.index(),
                    forall|j: int| 0 <= j < out@.len() ==> (#[trigger] out@[j]).tree() == whole[j],
            {
                assert(whole[it.index() as int] == value_tree(item));
                assert(decreases_to!(value_tree(value) => value_tree(value)->Array_0));
                assert(decreases_to!(whole => whole[it.index() as int]));
                out.push(build_json(item));
            }
            assert(Json::Array(out).tree()->Array_0 =~= whole);
            Json::Array(out)
        },
        Level::Object(pairs) => {
            let mut out: Vec<(String, Json)> = Vec::new();
            for pair in it: pairs
                invariant
                    it.seq() == pairs@,
                    value_tree(value) == JsonTree::Object(level_members(pairs@)),
                    distinct_names(pairs@),
                    out@.len() == it.index(),
                    members(out@) == level_members(pairs@.take(it.index() as int)),
            {
                proof {
                    let i = it.index() as int;
                    lemma_level_member_smaller(pairs@, i);
                    let whole = level_members(pairs@);
                    vstd::map::axiom_map_index_decreases_finite(whole, pairs@[i].0@);
                    assert(decreases_to!(value_tree(value) => value_tree(value)->Object_0));
                    assert(pairs@.take(i + 1).drop_last() =~= pairs@.take(i));
                }
                let ghost before = out@;
                out.push((pair.0, build_json(pair.1)));
                assert(out@.drop_last() =~= before);
            }
            assert(pairs@.take(pairs@.len() as int) =~= pairs@);
            Json::Object(out)
        },
    }
}

/// The JSON value that `text` spells, or the message that says why it spells
/// none.
pub fn parse_json(text: &str) -> (r: Result<Json, String>)
    ensures
        match r {
            Ok(json) => spells(text@, json.tree()),
            Err(message) => json_of(text@) == Err::<JsonTree, Seq<char>>(message@),
        },
{
    match read_value(text) {
        Ok(value) => Ok(build_json(value)),
        Err(message) => Err(message),
    }
}

/// `serde_json::Value` built from one level: `Number::from` holds an unsigned
/// integer as it is, and `serde_json::Map` collects the members, each name once.
#[verifier::external_body]
fn close_value(level: Level) -> (r: Value)
    requires
        level matches Level::Object(pairs) ==> distinct_names(pairs@),
    ensures
        value_tree(r) == level.tree(),
{
    match level {
        Level::Null => Value::Null,
        Level::Bool(b) => Value::Bool(b),
        Level::Unsigned(n) => Value::Number(n.into()),
        Level::Number(n) => Value::Number(n),
        Level::Text(s) => Value::String(s),
        Level::Array(items) => Value::Array(items),
        Level::Object(pairs) => Value::Object(pairs.into_iter().collect()),
    }
}

proof fn lemma_distinct_names_remove(pairs: Seq<(String, Value)>, i: int)
    requires
        distinct_names(pairs),
        0 <= i < pairs.len(),
    ensures
        distinct_names(pairs.remove(i)),
        distinct_names(pairs.drop_last()),
{
    let rest = pairs.remove(i);
    assert forall|a: int, b: int| 0 <= a < b < rest.len() implies rest[a].0@ != rest[b].0@ by {
        let x = if a < i {
            a
        } else {
            a + 1
        };
        let y = if b < i {
            b
        } else {
            b + 1
        };
        assert(rest[a] == pairs[x]);
        assert(rest[b] == pairs[y]);
        assert(pairs[x].0@ != pairs[y].0@);
    }
}

/// Taking a member off the list takes it out of the object.
proof fn lemma_level_members_remove(pairs: Seq<(String, Value)>, i: int)
    requires
        distinct_names(pairs),
        0 <= i < pairs.len(),
    ensures
        level_members(pairs.remove(i)) == level_members(pairs).remove(pairs[i].0@),
    decreases pairs.len(),
{
    let rest = pairs.drop_last();
    let last = pairs.len() - 1;
    lemma_distinct_names_remove(pairs, i);
    if i == last {
        assert(pairs.remove(i) =~= rest);
        lemma_level_members_dom(rest, pairs[i].0@);
        assert(level_members(rest) =~= level_members(pairs).remove(pairs[i].0@));
    } else {
        lemma_level_members_remove(rest, i);
        assert(pairs.remove(i).drop_last() =~= rest.remove(i));
        assert(pairs[i].0@ != pairs[last].0@);
        assert(level_members(pairs.remove(i)) =~= level_members(pairs).remove(pairs[i].0@));
    }
}

/// A name that no member bears is none of the object's.
proof fn lemma_level_members_dom(pairs: Seq<(String, Value)>, name: Seq<char>)
    requires
        forall|i: int| 0 <= i < pairs.len() ==> (#[trigger] pairs[i]).0@ != name,
    ensures
        !level_members(pairs).contains_key(name),
    decreases pairs.len(),
{
    if pairs.len() > 0 {
        lemma_level_members_dom(pairs.drop_last(), name);
        assert(pairs[pairs.len() - 1].0@ != name);
    }
}

/// Puts a member in the place of the one that bears its name, if there is one.
fn put_member(pairs: &mut Vec<(String, Value)>, name: String, value: Value)
    requires
        distinct_names(old(pairs)@),
    ensures
        distinct_names(final(pairs)@),
        level_members(final(pairs)@) == level_members(old(pairs)@).insert(
            name@,
            value_tree(value),
        ),
{
    let ghost all = pairs@;
    let n = pairs.len();
    let mut i: usize = 0;
    while i < n && !same_text(pairs[i].0.as_str(), name.as_str())
        invariant
            i <= n,
            n == pairs@.len(),
            pairs@ == all,
            forall|j: int| 0 <= j < i ==> (#[trigger] pairs@[j]).0@ != name@,
        decreases n - i,
    {
        i += 1;
    }
    if i < n {
        proof {
            lemma_level_members_remove(all, i as int);
            lemma_distinct_names_remove(all, i as int);
            let rest = all.remove(i as int);
            assert forall|j: int| 0 <= j < rest.len() implies (#[trigger] rest[j]).0@ != name@ by {
                if j < i {
                    assert(rest[j] == all[j]);
                    assert(all[j].0@ != all[i as int].0@);
                } else {
                    assert(rest[j] == all[j + 1]);
                    assert(all[i as int].0@ != all[j + 1].0@);
                }
            }
        }
        pairs.remove(i);
    }
    let ghost rest = pairs@;
    pairs.push((name, value));
    assert(pairs@.drop_last() =~= rest);
    assert(level_members(pairs@) =~= level_members(all).insert(name@, value_tree(value)));
}

impl Json {
    /// This value as a `serde_json::Value`.
    pub fn into_value(self) -> (r: Value)
        ensures
            value_tree(r) == self.tree(),
        decreases self,
    {
        match self {
            Json::Null => close_value(Level::Null),
            Json::Bool(b) => close_value(Level::Bool(b)),
            Json::Unsigned(n) => close_value(Level::Unsigned(n)),
            Json::Number(n) => close_value(Level::Number(n)),
            Json::Text(s) => close_value(Level::Text(s)),
            Json::Array(items) => {
                let mut out: Vec<Value> = Vec::new();
                for item in it: items
                    invariant
                        it.seq() == items@,
                        self == Json::Array(items),
                        out@.len() == it.index(),
                        forall|j: int|
                            0 <= j < out@.len() ==> value_tree(#[trigger] out@[j])
                                == items@[j].tree(),
                {
                    assert(decreases_to!(self => self->Array_0));
                    assert(decreases_to!(items => items@));
                    assert(decreases_to!(items@ => items@[it.index() as int]));
                    out.push(item.into_value());
                }
                assert(out@.map_values(|v: Value| value_tree(v)) =~= self.tree()->Array_0);
                close_value(Level::Array(out))
            },
            Json::Object(pairs) => {
                let mut out: Vec<(String, Value)> = Vec::new();
                for pair in it: pairs
                    invariant
                        it.seq() == pairs@,
                        self == Json::Object(pairs),
                        distinct_names(out@),
                        level_members(out@) == members(pairs@.take(it.index() as int)),
                {
                    let ghost i = it.index() as int;
                    assert(decreases_to!(self => self->Object_0));
                    assert(decreases_to!(pairs => pairs@));
                    assert(decreases_to!(pairs@ => pairs@[i]));
                    assert(decreases_to!(pairs@[i] => pairs@[i].1));
                    put_member(&mut out, pair.0, pair.1.into_value());
                    assert(pairs@.take(i + 1).drop_last() =~= pairs@.take(i));
                }
                assert(pairs@.take(pairs@.len() as int) =~= pairs@);
                close_value(Level::Object(out))
            },
        }
    }

    /// The member of that name, where this is an object that has it.
    pub fn get(&self, name: &str) -> (r: Option<&Json>)
        ensures
            match r {
                Some(json) => self.tree() is Object && self.tree()->Object_0.contains_key(name@)
                    && json.tree() == self.tree()->Object_0[name@],
                None => !(self.tree() is Object && self.tree()->Object_0.contains_key(name@)),
            },
    {
        match self {
            Json::Object(pairs) => {
                let mut i: usize = pairs.len();
                assert(pairs@.take(i as int) =~= pairs@);
                while i > 0
                    invariant
                        i <= pairs@.len(),
                        *self == Json::Object(*pairs),
                        members(pairs@).contains_key(name@) == members(
                            pairs@.take(i as int),
                        ).contains_key(name@),
                        members(pairs@).contains_key(name@) ==> members(pairs@)[name@]
                            == members(pairs@.take(i as int))[name@],
                    decreases i,
                {
                    i -= 1;
                    assert(pairs@.take(i + 1).drop_last() =~= pairs@.take(i as int));
                    if same_text(pairs[i].0.as_str(), name) {
                        return Some(&pairs[i].1);
                    }
                }
                None
            },
            _ => None,
        }
    }
}

/// `name` is the name of one of `pairs`.
pub open spec fn is_named(pairs: Seq<(String, Json)>, name: Seq<char>) -> bool {
    exists|i: int| 0 <= i < pairs.len() && (#[trigger] pairs[i]).0@ == name
}

proof fn lemma_members_dom(pairs: Seq<(String, Json)>, name: Seq<char>)
    ensures
        members(pairs).contains_key(name) == is_named(pairs, name),
    decreases pairs.len(),
{
    if pairs.len() > 0 {
        let rest = pairs.drop_last();
        lemma_members_dom(rest, name);
        if is_named(rest, name) {
            let i = choose|i: int| 0 <= i < rest.len() && (#[trigger] rest[i]).0@ == name;
            assert(pairs[i].0@ == name);
        }
        if is_named(pairs, name) && pairs.last().0@ != name {
            let i = choose|i: int| 0 <= i < pairs.len() && (#[trigger] pairs[i]).0@ == name;
            assert(rest[i].0@ == name);
        }
        if pairs.last().0@ == name {
            assert(pairs[pairs.len() - 1].0@ == name);
        }
    }
}

/// One of `names` is `name`.
pub open spec fn lists(names: Seq<String>, name: Seq<char>) -> bool {
    exists|i: int| 0 <= i < names.len() && (#[trigger] names[i])@ == name
}

pub proof fn lemma_lists_push(names: Seq<String>, new: String, name: Seq<char>)
    ensures
        lists(names.push(new), name) == (lists(names, name) || new@ == name),
{
    let more = names.push(new);
    if lists(names, name) {
        let i = choose|i: int| 0 <= i < names.len() && (#[trigger] names[i])@ == name;
        assert(more[i]@ == name);
    }
    if new@ == name {
        assert(more[names.len() as int]@ == name);
    }
    if lists(more, name) && new@ != name {
        let i = choose|i: int| 0 <= i < more.len() && (#[trigger] more[i])@ == name;
        assert(names[i]@ == name);
    }
}

/// Whether one of `names` is `name`.
fn is_listed(names: &Vec<String>, name: &str) -> (r: bool)
    ensures
        r == lists(names@, name@),
{
    for i in 0..names.len()
        invariant
            forall|j: int| 0 <= j < i ==> (#[trigger] names@[j])@ != name@,
    {
        if same_text(names[i].as_str(), name) {
            return true;
        }
    }
    false
}

impl Json {
    /// The names of the members, where this is an object: each once.
    pub fn names(&self) -> (r: Vec<String>)
        ensures
            forall|i: int, j: int|
                0 <= i < j < r@.len() ==> (#[trigger] r@[i])@ != (#[trigger] r@[j])@,
            forall|name: Seq<char>|
                #[trigger] lists(r@, name) == (self.tree() is Object
                    && self.tree()->Object_0.contains_key(name)),
    {
        let mut out: Vec<String> = Vec::new();
        match self {
            Json::Object(pairs) => {
                for k in 0..pairs.len()
                    invariant
                        forall|i: int, j: int|
                            0 <= i < j < out@.len() ==> (#[trigger] out@[i])@ != (
                            #[trigger] out@[j])@,
                        forall|name: Seq<char>| #[trigger]
                            lists(out@, name) == is_named(pairs@.take(k as int), name),
                {
                    let name = &pairs[k].0;
                    let ghost before = out@;
                    let fresh = !is_listed(&out, name.as_str());
                    if fresh {
                        out.push(name.clone());
                    }
                    assert forall|n: Seq<char>| #[trigger]
                        lists(out@, n) == is_named(pairs@.take(k + 1), n) by {
                        lemma_lists_push(before, *name, n);
                        lemma_members_dom(pairs@.take(k + 1), n);
                        lemma_members_dom(pairs@.take(k as int), n);
                        assert(pairs@.take(k + 1).drop_last() =~= pairs@.take(k as int));
                        assert(lists(before, n) == is_named(pairs@.take(k as int), n));
                    }
                    assert(fresh ==> forall|i: int|
                        0 <= i < before.len() ==> (#[trigger] before[i])@ != name@);
                }
                proof {
                    assert(pairs@.take(pairs@.len() as int) =~= pairs@);
                    assert forall|name: Seq<char>| #[trigger]
                        lists(out@, name) == self.tree()->Object_0.contains_key(name) by {
                        lemma_members_dom(pairs@, name);
                    }
                }
            },
            _ => {},
        }
        out
    }
}

/// Adds a member to an object that is being put together.
pub fn add_member(pairs: &mut Vec<(String, Json)>, name: &str, value: Json)
    ensures
        members(final(pairs)@) == members(old(pairs)@).insert(name@, value.tree()),
        final(pairs)@.len() == old(pairs)@.len() + 1,
{
    let ghost before = pairs@;
    pairs.push((name.to_owned(), value));
    assert(pairs@.drop_last() =~= before);
}

/// A text as a JSON value.
pub fn json_text(s: &str) -> (r: Json)
    ensures
        r.tree() == JsonTree::Text(s@),
{
    Json::Text(s.to_owned())
}

/// Texts as a JSON array.
pub open spec fn text_array(texts: Seq<Seq<char>>) -> JsonTree {
    JsonTree::Array(texts.map_values(|s: Seq<char>| JsonTree::Text(s)))
}

/// Texts as a JSON array.
pub fn json_text_array(texts: &[String]) -> (r: Json)
    ensures
        r.tree() == text_array(texts@.map_values(|s: String| s@)),
        r.tree() is Array,
        r.tree()->Array_0.len() == texts@.len(),
        forall|i: int|
            0 <= i < texts@.len() ==> #[trigger] r.tree()->Array_0[i] == JsonTree::Text(texts@[i]@),
{
    let mut items: Vec<Json> = Vec::new();
    for i in 0..texts.len()
        invariant
            items@.len() == i,
            forall|j: int|
                0 <= j < i ==> (#[trigger] items@[j]).tree() == JsonTree::Text(texts@[j]@),
    {
        items.push(json_text(texts[i].as_str()));
    }
    assert(Json::Array(items).tree()->Array_0 =~= text_array(
        texts@.map_values(|s: String| s@),
    )->Array_0);
    Json::Array(items)
}

/// The text that is the member `name` of an object.
pub open spec fn text_member(tree: JsonTree, name: Seq<char>) -> Option<Seq<char>> {
    match tree {
        JsonTree::Object(members) => if members.contains_key(name) {
            match members[name] {
                JsonTree::Text(s) => Some(s),
                _ => None,
            }
        } else {
            None
        },
        _ => None,
    }
}

/// The items of the array that is the member `name` of an object; none where
/// there is no such array.
pub open spec fn array_member(tree: JsonTree, name: Seq<char>) -> Seq<JsonTree> {
    match tree {
        JsonTree::Object(members) => if members.contains_key(name) {
            match members[name] {
                JsonTree::Array(items) => items,
                _ => Seq::empty(),
            }
        } else {
            Seq::empty()
        },
        _ => Seq::empty(),
    }
}

/// The number that is the member `name` of an object.
pub open spec fn unsigned_member(tree: JsonTree, name: Seq<char>) -> Option<u64> {
    match tree {
        JsonTree::Object(members) => if members.contains_key(name) {
            match members[name] {
                JsonTree::Unsigned(n) => Some(n),
                _ => None,
            }
        } else {
            None
        },
        _ => None,
    }
}

impl Json {
    /// The text that is the member of that name.
    pub fn get_text(&self, name: &str) -> (r: Option<&str>)
        ensures
            match r {
                Some(s) => text_member(self.tree(), name@) == Some(s@),
                None => text_member(self.tree(), name@) is None,
            },
            r is Some <==> self.tree() is Object && self.tree()->Object_0.contains_key(name@)
                && self.tree()->Object_0[name@] is Text,
            r matches Some(s) ==> self.tree()->Object_0[name@] == JsonTree::Text(s@),
    {
        match self.get(name) {
            Some(Json::Text(s)) => Some(s.as_str()),
            _ => None,
        }
    }

    /// The number that is the member of that name.
    pub fn get_unsigned(&self, name: &str) -> (r: Option<u64>)
        ensures
            r == unsigned_member(self.tree(), name@),
            r is Some <==> self.tree() is Object && self.tree()->Object_0.contains_key(name@)
                && self.tree()->Object_0[name@] is Unsigned,
            r matches Some(n) ==> self.tree()->Object_0[name@] == JsonTree::Unsigned(n),
    {
        match self.get(name) {
            Some(Json::Unsigned(n)) => Some(*n),
            Some(Json::Number(n)) => n.as_u64(),
            _ => None,
        }
    }

    /// The array that is the member of that name.
    pub fn get_array(&self, name: &str) -> (r: Option<&Vec<Json>>)
        ensures
            match r {
                Some(items) => {
                    &&& items@.len() == array_member(self.tree(), name@).len()
                    &&& forall|i: int|
                        0 <= i < items@.len() ==> (#[trigger] items@[i]).tree() == array_member(
                            self.tree(),
                            name@,
                        )[i]
                },
                None => array_member(self.tree(), name@).len() == 0,
            },
            r is Some <==> self.tree() is Object && self.tree()->Object_0.contains_key(name@)
                && self.tree()->Object_0[name@] is Array,
            r matches Some(items) ==> items@.len() == self.tree()->Object_0[name@]->Array_0.len()
                && forall|i: int|
                0 <= i < items@.len() ==> (#[trigger] items@[i]).tree()
                    == self.tree()->Object_0[name@]->Array_0[i],
    {
        match self.get(name) {
            Some(Json::Array(items)) => Some(items),
            _ => None,
        }
    }
}

/// A table of counts as a list: languages, each with its labels and counts.
pub type TableList = Vec<(String, Vec<(String, u64)>)>;

/// The count of each label of a list.
pub open spec fn count_map(entries: Seq<(String, u64)>) -> Map<Seq<char>, u64>
    decreases entries.len(),
{
    if entries.len() == 0 {
        Map::empty()
    } else {
        count_map(entries.drop_last()).insert(entries.last().0@, entries.last().1)
    }
}

/// No label is listed twice.
pub open spec fn distinct_labels(entries: Seq<(String, u64)>) -> bool {
    forall|i: int, j: int|
        0 <= i < j < entries.len() ==> (#[trigger] entries[i]).0@ != (#[trigger] entries[j]).0@
}

/// The counts of each language of a list.
pub open spec fn table_map(table: Seq<(String, Vec<(String, u64)>)>) -> Map<
    Seq<char>,
    Map<Seq<char>, u64>,
>
    decreases table.len(),
{
    if table.len() == 0 {
        Map::empty()
    } else {
        table_map(table.drop_last()).insert(table.last().0@, count_map(table.last().1@))
    }
}

/// No language is listed twice, and no label of a language.
pub open spec fn is_table(table: Seq<(String, Vec<(String, u64)>)>) -> bool {
    &&& forall|i: int, j: int|
        0 <= i < j < table.len() ==> (#[trigger] table[i]).0@ != (#[trigger] table[j]).0@
    &&& forall|i: int| 0 <= i < table.len() ==> distinct_labels((#[trigger] table[i]).1@)
}

/// What `serde_json::from_str` makes of a text as a map from names to maps from
/// names to unsigned integers: the map, or the error's text.
pub uninterp spec fn table_of(text: Seq<char>) -> Result<
    Map<Seq<char>, Map<Seq<char>, u64>>,
    Seq<char>,
>;

/// What `serde_json::to_string_pretty` writes of a map from names to maps from
/// names to unsigned integers, in the order of names.
pub uninterp spec fn pretty_table(table: Map<Seq<char>, Map<Seq<char>, u64>>) -> Seq<char>;

/// `text` is read as `table`.
pub open spec fn reads_as(text: Seq<char>, table: Map<Seq<char>, Map<Seq<char>, u64>>) -> bool {
    table_of(text) == Ok::<Map<Seq<char>, Map<Seq<char>, u64>>, Seq<char>>(table)
}

/// `serde_json::from_str` into a `BTreeMap` of `BTreeMap`s of `u64`: the maps are
/// a function of the text, and so is the text of the error. The maps hand out
/// each name once.
#[verifier::external_body]
pub(crate) fn read_table(text: &str) -> (r: Result<TableList, String>)
    ensures
        match r {
            Ok(table) => is_table(table@) && table_of(text@) == Ok::<
                Map<Seq<char>, Map<Seq<char>, u64>>,
                Seq<char>,
            >(table_map(table@)),
            Err(message) => table_of(text@) == Err::<
                Map<Seq<char>, Map<Seq<char>, u64>>,
                Seq<char>,
            >(message@),
        },
{
    serde_json::from_str::<BTreeMap<String, BTreeMap<String, u64>>>(text)
        .map(|t| t.into_iter().map(|(l, c)| (l, c.into_iter().collect())).collect())
        .map_err(|e| e.to_string())
}

/// `serde_json::to_string_pretty` of a `BTreeMap` of `BTreeMap`s of `u64`, which
/// has nothing that could fail: the text is a function of the table, and it is
/// read back as that table by `serde_json::from_str`.
#[verifier::external_body]
pub(crate) fn write_table(table: TableList) -> (r: Result<String, String>)
    requires
        is_table(table@),
    ensures
        r is Ok,
        r->Ok_0@ == pretty_table(table_map(table@)),
        reads_as(r->Ok_0@, table_map(table@)),
{
    let maps: BTreeMap<String, BTreeMap<String, u64>> = table
        .into_iter()
        .map(|(l, c)| (l, c.into_iter().collect()))
        .collect();
    serde_json::to_string_pretty(&maps).map_err(|e| e.to_string())
}

/// A list of members has a member for each name in it, and for no other; of several
/// with one name the last counts.
pub proof fn law_last_member_counts(pairs: Seq<(String, Json)>, name: Seq<char>, k: int)
    ensures
        members(pairs).contains_key(name) <==> exists|i: int|
            0 <= i < pairs.len() && (#[trigger] pairs[i]).0@ == name,
        0 <= k < pairs.len() && pairs[k].0@ == name && (forall|i: int|
            k < i < pairs.len() ==> (#[trigger] pairs[i]).0@ != name) ==> members(pairs)[name]
            == pairs[k].1.tree(),
    decreases pairs.len(),
{
    lemma_members_dom(pairs, name);
    if 0 <= k < pairs.len() - 1 {
        let rest = pairs.drop_last();
        law_last_member_counts(rest, name, k);
        if forall|i: int| k < i < pairs.len() ==> (#[trigger] pairs[i]).0@ != name {
            assert(pairs[pairs.len() - 1].0@ != name);
            assert forall|i: int| k < i < rest.len() implies (#[trigger] rest[i]).0@ != name by {
                assert(rest[i] == pairs[i]);
            }
        }
    }
}

/// A list of values is an array of as many, in the same order.
pub proof fn law_arrays_keep_their_items(items: Vec<Json>, i: int)
    requires
        0 <= i < items@.len(),
    ensures
        Json::Array(items).tree() is Array,
        Json::Array(items).tree()->Array_0.len() == items@.len(),
        Json::Array(items).tree()->Array_0[i] == items@[i].tree(),
{
}

/// A list of counts holds each of them under its label, and no other label.
pub proof fn law_listed_counts_stay(entries: Seq<(String, u64)>, i: int, label: Seq<char>)
    requires
        distinct_labels(entries),
    ensures
        count_map(entries).contains_key(label) <==> exists|k: int|
            0 <= k < entries.len() && (#[trigger] entries[k]).0@ == label,
        0 <= i < entries.len() ==> count_map(entries)[entries[i].0@] == entries[i].1,
    decreases entries.len(),
{
    if entries.len() > 0 {
        let rest = entries.drop_last();
        assert forall|a: int, b: int| 0 <= a < b < rest.len() implies (#[trigger] rest[a]).0@ != (
        #[trigger] rest[b]).0@ by {
            assert(rest[a] == entries[a] && rest[b] == entries[b]);
        }
        law_listed_counts_stay(rest, i, label);
        if 0 <= i < rest.len() {
            assert(rest[i] == entries[i]);
            assert(entries[i].0@ != entries[entries.len() - 1].0@);
        }
        if count_map(entries).contains_key(label) {
            if entries.last().0@ == label {
                assert(entries[entries.len() - 1].0@ == label);
            } else {
                let k = choose|k: int| 0 <= k < rest.len() && (#[trigger] rest[k]).0@ == label;
                assert(entries[k].0@ == label);
            }
        }
        if exists|k: int| 0 <= k < entries.len() && (#[trigger] entries[k]).0@ == label {
            let k = choose|k: int| 0 <= k < entries.len() && (#[trigger] entries[k]).0@ == label;
            if k < rest.len() {
                assert(rest[k].0@ == label);
            }
        }
    }
}

} // verus!
