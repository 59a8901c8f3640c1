//! JSON values as far as session logs are read: texts, whole numbers, lists
//! and objects.
use vstd::prelude::*;
use vstd::string::*;
use crate::text::same_text;

verus! {

/// A JSON value. Of a number only its `u64` is kept, where it is one.
pub enum Json {
    Null,
    Bool(bool),
    Number(Option<u64>),
    Text(String),
    List(Vec<Json>),
    /// The members in some order, no name twice.
    Object(Vec<(String, Json)>),
}

/// A JSON value over plain sequences.
pub enum JsonV {
    Null,
    Bool(bool),
    Number(Option<u64>),
    Text(Seq<char>),
    List(Seq<JsonV>),
    Object(Seq<(Seq<char>, JsonV)>),
}

/// The value over plain sequences that a JSON value stands for.
pub open spec fn json_view(v: Json) -> JsonV
    decreases v,
{
    match v {
        Json::Null => JsonV::Null,
        Json::Bool(b) => JsonV::Bool(b),
        Json::Number(n) => JsonV::Number(n),
        Json::Text(t) => JsonV::Text(t@),
        Json::List(items) => JsonV::List(
            Seq::new(
                items@.len(),
                |i: int|
                    if 0 <= i < items@.len() {
                        json_view(items@[i])
                    } else {
                        JsonV::Null
                    },
            ),
        ),
        Json::Object(members) => JsonV::Object(
            Seq::new(
                members@.len(),
                |i: int|
                    if 0 <= i < members@.len() {
                        (members@[i].0@, json_view(members@[i].1))
                    } else {
                        (Seq::empty(), JsonV::Null)
                    },
            ),
        ),
    }
}

impl View for Json {
    type V = JsonV;

    open spec fn view(&self) -> JsonV {
        json_view(*self)
    }
}

/// The value of the first member with a name.
pub open spec fn member_of(members: Seq<(Seq<char>, JsonV)>, key: Seq<char>) -> Option<JsonV>
    decreases members.len(),
{
    if members.len() == 0 {
        None
    } else if members[0].0 == key {
        Some(members[0].1)
    } else {
        member_of(members.drop_first(), key)
    }
}

impl JsonV {
    /// The member of an object with a name.
    pub open spec fn member(self, key: Seq<char>) -> Option<JsonV> {
        match self {
            JsonV::Object(members) => member_of(members, key),
            _ => None,
        }
    }

    /// The text that the value is.
    pub open spec fn text(self) -> Option<Seq<char>> {
        match self {
            JsonV::Text(t) => Some(t),
            _ => None,
        }
    }

    /// The whole number that the value is.
    pub open spec fn count(self) -> Option<u64> {
        match self {
            JsonV::Number(n) => n,
            _ => None,
        }
    }

    /// The list that the value is.
    pub open spec fn items(self) -> Option<Seq<JsonV>> {
        match self {
            JsonV::List(items) => Some(items),
            _ => None,
        }
    }

    /// The text that a member is.
    pub open spec fn text_at(self, key: Seq<char>) -> Option<Seq<char>> {
        match self.member(key) {
            Some(v) => v.text(),
            None => None,
        }
    }

    /// The whole number that a member is, and 0 where it is none.
    pub open spec fn count_at(self, key: Seq<char>) -> u64 {
        match self.member(key) {
            Some(v) => match v.count() {
                Some(n) => n,
                None => 0,
            },
            None => 0,
        }
    }

    /// The list that a member is.
    pub open spec fn items_at(self, key: Seq<char>) -> Option<Seq<JsonV>> {
        match self.member(key) {
            Some(v) => v.items(),
            None => None,
        }
    }
}

/// No name occurs twice.
pub open spec fn names_differ(members: Seq<(Seq<char>, JsonV)>) -> bool {
    forall|i: int, j: int| 0 <= i < j < members.len() ==> members[i].0 != members[j].0
}

/// An object gives each of its members under its name, wherever it stands, and
/// nothing under any other name; no other value has members.
pub proof fn law_members_are_found_by_name(members: Seq<(Seq<char>, JsonV)>, i: int, v: JsonV)
    requires
        names_differ(members),
        0 <= i < members.len(),
        !(v is Object),
    ensures
        JsonV::Object(members).member(members[i].0) == Some(members[i].1),
        forall|k: Seq<char>|
            (forall|j: int| 0 <= j < members.len() ==> (#[trigger] members[j]).0 != k)
                ==> #[trigger] JsonV::Object(members).member(k) is None,
        forall|k: Seq<char>| #[trigger] v.member(k) is None,
{
    lemma_member(members, i);
    assert forall|k: Seq<char>|
        (forall|j: int| 0 <= j < members.len() ==> (#[trigger] members[j]).0 != k) implies (
    #[trigger] JsonV::Object(members).member(k)) is None by {
        lemma_no_member(members, k);
    }
}

proof fn lemma_member(members: Seq<(Seq<char>, JsonV)>, i: int)
    requires
        names_differ(members),
        0 <= i < members.len(),
    ensures
        member_of(members, members[i].0) == Some(members[i].1),
    decreases members.len(),
{
    if i > 0 {
        let rest = members.drop_first();
        assert(members[0].0 != members[i].0);
        assert forall|p: int, q: int| 0 <= p < q < rest.len() implies rest[p].0 != rest[q].0 by {
            assert(members[p + 1].0 != members[q + 1].0);
        }
        lemma_member(rest, i - 1);
    }
}

proof fn lemma_no_member(members: Seq<(Seq<char>, JsonV)>, k: Seq<char>)
    requires
        forall|j: int| 0 <= j < members.len() ==> (#[trigger] members[j]).0 != k,
    ensures
        member_of(members, k) is None,
    decreases members.len(),
{
    if members.len() > 0 {
        let rest = members.drop_first();
        assert forall|j: int| 0 <= j < rest.len() implies (#[trigger] rest[j]).0 != k by {
            assert(members[j + 1].0 != k);
        }
        assert(members[0].0 != k);
        lemma_no_member(rest, k);
    }
}

/// The text that a member is, where there is one and it is a text.
pub open spec fn said(v: Option<JsonV>) -> Option<Seq<char>> {
    match v {
        Some(JsonV::Text(t)) => Some(t),
        _ => None,
    }
}

/// The number that a member is; nothing where there is none or it is no whole
/// number.
pub open spec fn counted(v: Option<JsonV>) -> int {
    match v {
        Some(JsonV::Number(Some(n))) => n as int,
        _ => 0,
    }
}

/// The list that a member is, where there is one and it is a
/// list.
pub open spec fn listed(v: Option<JsonV>) -> Option<Seq<JsonV>> {
    match v {
        Some(JsonV::List(items)) => Some(items),
        _ => None,
    }
}

/// A text is read as that text, a whole number as that number and a list as that
/// list; nothing else is read as any of them.
pub proof fn law_values_are_read_as_what_they_are(v: JsonV, key: Seq<char>)
    ensures
        v.text_at(key) == said(v.member(key)),
        v.count_at(key) == counted(v.member(key)),
        v.items_at(key) == listed(v.member(key)),
{
}

/// An optional text as a sequence of characters.
pub open spec fn opt_text(t: Option<String>) -> Option<Seq<char>> {
    match t {
        Some(s) => Some(s@),
        None => None,
    }
}

impl Json {
    /// The member of an object with a name.
    pub fn get(&self, key: &str) -> (r: Option<&Json>)
        ensures
            match r {
                Some(v) => self@.member(key@) == Some(v@),
                None => self@.member(key@) is None,
            },
    {
        match self {
            Json::Object(members) => {
                let ghost all = self@->Object_0;
                assert(all.skip(0) =~= all);
                for i in 0..members.len()
                    invariant
                        self@ == JsonV::Object(all),
                        all.len() == members@.len(),
                        forall|j: int|
                            0 <= j < all.len() ==> #[trigger] all[j] == (
                                members@[j].0@,
                                members@[j].1@,
                            ),
                        member_of(all, key@) == member_of(all.skip(i as int), key@),
                {
                    assert(all.skip(i as int)[0] == all[i as int]);
                    assert(all.skip(i as int).drop_first() =~= all.skip(i + 1));
                    if same_text(members[i].0.as_str(), key) {
                        return Some(&members[i].1);
                    }
                }
                None
            },
            _ => None,
        }
    }

    /// The text that the value is.
    pub fn as_str(&self) -> (r: Option<&str>)
        ensures
            match r {
                Some(t) => self@.text() == Some(t@),
                None => self@.text() is None,
            },
    {
        match self {
            Json::Text(t) => Some(t.as_str()),
            _ => None,
        }
    }

    /// The whole number that the value is.
    pub fn as_u64(&self) -> (r: Option<u64>)
        ensures
            r == self@.count(),
    {
        match self {
            Json::Number(n) => *n,
            _ => None,
        }
    }

    /// The list that the value is.
    pub fn as_array(&self) -> (r: Option<&Vec<Json>>)
        ensures
            match r {
                Some(v) => self@.items() matches Some(items) && items.len() == v@.len() && forall|
                    i: int,
                |
                    0 <= i < items.len() ==> #[trigger] items[i] == v@[i]@,
                None => self@.items() is None,
            },
    {
        match self {
            Json::List(items) => Some(items),
            _ => None,
        }
    }

    /// The text that a member is, as a text of its own.
    pub fn string_at(&self, key: &str) -> (r: Option<String>)
        ensures
            opt_text(r) == self@.text_at(key@),
    {
        match self.get(key) {
            Some(v) => match v.as_str() {
                Some(t) => Some(t.to_owned()),
                None => None,
            },
            None => None,
        }
    }

    /// The whole number that a member is, and 0 where it is none.
    pub fn u64_at(&self, key: &str) -> (r: u64)
        ensures
            r == self@.count_at(key@),
    {
        match self.get(key) {
            Some(v) => match v.as_u64() {
                Some(n) => n,
                None => 0,
            },
            None => 0,
        }
    }
}

/// The JSON value that a text denotes; none where it is no JSON document.
pub uninterp spec fn json_document(text: Seq<char>) -> Option<JsonV>;

/// `serde_json::Value`, the tree that `serde_json` reads a document into.
#[verifier::external_type_specification]
#[verifier::external_body]
pub struct ExValue(serde_json::Value);

/// Turns a `serde_json::Value` into a value of this module, node by node. Of a
/// number it takes `Number::as_u64`. Nothing is claimed of it by itself: it is
/// the part of `parse_json` that changes the type of the tree.
#[verifier::external_body]
fn json_from(v: serde_json::Value) -> Json {
    match v {
        serde_json::Value::Null => Json::Null,
        serde_json::Value::Bool(b) => Json::Bool(b),
        serde_json::Value::Number(n) => Json::Number(n.as_u64()),
        serde_json::Value::String(t) => Json::Text(t),
        serde_json::Value::Array(a) => Json::List(a.into_iter().map(json_from).collect()),
        serde_json::Value::Object(m) =>
            Json::Object(m.into_iter().map(|(k, x)| (k, json_from(x))).collect()),
    }
}

/// Calls `serde_json::from_str` for a `serde_json::Value`. The result is
/// `json_document` of the text: none where `serde_json` refuses it. The
/// grammar is not said here.
#[verifier::external_body]
pub(crate) fn parse_json(text: &str) -> (r: Option<Json>)
    ensures
        match r {
            Some(v) => json_document(text@) == Some(v@),
            None => json_document(text@) is None,
        },
{
    serde_json::from_str::<serde_json::Value>(text).ok().map(json_from)
}

} // verus!
