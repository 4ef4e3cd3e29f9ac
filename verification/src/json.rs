//! JSON values.
use vstd::prelude::*;

use crate::text::same_text;

verus! {

/// A number as `serde_json` keeps it.
#[verifier::external_type_specification]
#[verifier::external_body]
pub struct ExNumber(serde_json::Number);

/// A JSON value as `serde_json` keeps it.
#[verifier::external_type_specification]
#[verifier::external_body]
pub struct ExValue(serde_json::Value);

/// A JSON value. The members of an object are in the order of the text.
#[derive(Debug)]
pub enum Json {
    Null,
    Bool(bool),
    Number(serde_json::Number),
    Text(String),
    List(Vec<Json>),
    Object(Vec<Member>),
}

/// A member of an object.
#[derive(Debug)]
pub struct Member {
    pub name: String,
    pub value: Json,
}

/// A JSON value, as sequences.
pub enum JsonView {
    Null,
    Bool(bool),
    Number(serde_json::Number),
    Text(Seq<char>),
    List(Seq<JsonView>),
    Object(Seq<(Seq<char>, JsonView)>),
}

/// What a value says.
pub open spec fn json_view(json: Json) -> JsonView
    decreases json,
{
    match json {
        Json::Null => JsonView::Null,
        Json::Bool(b) => JsonView::Bool(b),
        Json::Number(n) => JsonView::Number(n),
        Json::Text(s) => JsonView::Text(s@),
        Json::List(items) => JsonView::List(
            Seq::new(
                items@.len(),
                |i: int|
                    if 0 <= i < items@.len() {
                        json_view(items@[i])
                    } else {
                        JsonView::Null
                    },
            ),
        ),
        Json::Object(members) => JsonView::Object(
            Seq::new(
                members@.len(),
                |i: int|
                    if 0 <= i < members@.len() {
                        (members@[i].name@, json_view(members@[i].value))
                    } else {
                        (Seq::empty(), JsonView::Null)
                    },
            ),
        ),
    }
}

impl DeepView for Json {
    type V = JsonView;

    open spec fn deep_view(&self) -> JsonView {
        json_view(*self)
    }
}

/// What items say.
pub open spec fn items_view(items: Seq<Json>) -> Seq<JsonView> {
    items.map_values(|j: Json| json_view(j))
}

/// What members say.
pub open spec fn members_view(members: Seq<Member>) -> Seq<(Seq<char>, JsonView)> {
    members.map_values(|m: Member| (m.name@, json_view(m.value)))
}

/// What lists and objects say.
pub proof fn lemma_view(json: Json)
    ensures
        json matches Json::List(items) ==> json_view(json) == JsonView::List(items_view(items@)),
        json matches Json::Object(members) ==> json_view(json) == JsonView::Object(
            members_view(members@),
        ),
{
    match json {
        Json::List(items) => {
            assert(json_view(json)->List_0 =~= items_view(items@));
        },
        Json::Object(members) => {
            assert(json_view(json)->Object_0 =~= members_view(members@));
        },
        _ => {},
    }
}

/// Whether no name occurs twice among members.
pub open spec fn names_distinct(members: Seq<(Seq<char>, JsonView)>) -> bool {
    forall|i: int, j: int|
        #![trigger members[i], members[j]]
        0 <= i < j < members.len() ==> members[i].0 != members[j].0
}

/// Whether no name occurs twice in an object, at any depth.
pub open spec fn well_named(json: JsonView) -> bool
    decreases json,
{
    match json {
        JsonView::List(items) => forall|i: int|
            0 <= i < items.len() ==> well_named(#[trigger] items[i]),
        JsonView::Object(members) => names_distinct(members) && forall|i: int|
            0 <= i < members.len() ==> well_named((#[trigger] members[i]).1),
        _ => true,
    }
}

/// What a value of `serde_json` holds.
pub uninterp spec fn value_view(value: serde_json::Value) -> JsonView;

/// The value that `serde_json::from_str` reads from a text, if it is JSON.
pub uninterp spec fn parsed(text: Seq<char>) -> Option<JsonView>;

/// What `serde_json` says of a text that is no JSON.
pub uninterp spec fn parse_error(text: Seq<char>) -> Seq<char>;

/// What `serde_json::to_string_pretty` makes of a value.
pub uninterp spec fn pretty(json: JsonView) -> Seq<char>;

/// The number that `serde_json` makes of an integer.
pub uninterp spec fn number_from(n: int) -> serde_json::Number;

/// Whether `serde_json` has a number for an integer: it keeps those that fit in 64 bits.
pub open spec fn is_kept(n: int) -> bool {
    i64::MIN <= n <= u64::MAX
}

/// Calls `serde_json::from_str` for a `serde_json::Value`. What it reads, and what it says of
/// an error, depends on the text alone.
#[verifier::external_body]
fn parse_value(text: &str) -> (result: Result<serde_json::Value, String>)
    ensures
        match result {
            Ok(value) => parsed(text@) == Some(value_view(value)),
            Err(message) => parsed(text@) is None && message@ == parse_error(text@),
        },
{
    serde_json::from_str(text).map_err(|e: serde_json::Error| e.to_string())
}

/// Takes a `serde_json::Value` apart. Its maps hold each name once.
#[verifier::external_body]
fn json_of(value: serde_json::Value) -> (json: Json)
    ensures
        json.deep_view() == value_view(value),
        well_named(json.deep_view()),
{
    match value {
        serde_json::Value::Null => Json::Null,
        serde_json::Value::Bool(b) => Json::Bool(b),
        serde_json::Value::Number(n) => Json::Number(n),
        serde_json::Value::String(s) => Json::Text(s),
        serde_json::Value::Array(items) => Json::List(items.into_iter().map(json_of).collect()),
        serde_json::Value::Object(map) => Json::Object(
            map.into_iter().map(|(name, v)| Member { name, value: json_of(v) }).collect(),
        ),
    }
}

/// Puts a `serde_json::Value` together. Its maps keep the order in which names are inserted.
#[verifier::external_body]
fn value_of(json: Json) -> (value: serde_json::Value)
    requires
        well_named(json.deep_view()),
    ensures
        value_view(value) == json.deep_view(),
{
    match json {
        Json::Null => serde_json::Value::Null,
        Json::Bool(b) => serde_json::Value::Bool(b),
        Json::Number(n) => serde_json::Value::Number(n),
        Json::Text(s) => serde_json::Value::String(s),
        Json::List(items) => serde_json::Value::Array(items.into_iter().map(value_of).collect()),
        Json::Object(members) => serde_json::Value::Object(
            members.into_iter().map(|m| (m.name, value_of(m.value))).collect(),
        ),
    }
}

/// How deep lists and objects may stand in each other for `serde_json` to read them.
pub const MAX_DEPTH: usize = 127;

/// Whether a value reads back as it was printed: its lists and objects are no more than `room`
/// deep, and its numbers are integers. Of other numbers nothing is said here: without its
/// feature for it, `serde_json` may read a fraction as one next to it.
pub open spec fn reads_back(json: JsonView, room: int) -> bool
    decreases json,
{
    match json {
        JsonView::List(items) => room > 0 && forall|i: int|
            0 <= i < items.len() ==> reads_back(#[trigger] items[i], room - 1),
        JsonView::Object(members) => room > 0 && forall|i: int|
            0 <= i < members.len() ==> reads_back((#[trigger] members[i]).1, room - 1),
        JsonView::Number(number) => exists|n: int| is_kept(n) && number == #[trigger] number_from(n),
        _ => true,
    }
}

/// Calls `serde_json::to_string_pretty` for a `serde_json::Value`, which has no way to fail:
/// its names are strings. The text depends on what the value holds alone. It begins with no
/// white space, and `serde_json::from_str` reads it back, with a line end behind it as well.
#[verifier::external_body]
fn print_value(value: &serde_json::Value) -> (text: String)
    ensures
        text@ == pretty(value_view(*value)),
        text@.len() > 0 && !crate::text::white_space(text@[0]),
        reads_back(value_view(*value), MAX_DEPTH as int) ==> parsed(text@ + "\n"@) == Some(
            value_view(*value),
        ),
{
    serde_json::to_string_pretty(value).expect("JSON serializes")
}

/// Calls `serde_json::Number::from_i128`, which has a number for every integer that fits in 64
/// bits, with or without a sign.
#[verifier::external_body]
pub(crate) fn number(n: i128) -> (number: serde_json::Number)
    requires
        is_kept(n as int),
    ensures
        number == number_from(n as int),
{
    serde_json::Number::from_i128(n).expect("fits in 64 bits")
}

/// Reads a text as JSON, or says why it is none.
pub fn parse(text: &str) -> (result: Result<Json, String>)
    ensures
        match result {
            Ok(json) => parsed(text@) == Some(json.deep_view()) && well_named(json.deep_view()),
            Err(message) => parsed(text@) is None && message@ == parse_error(text@),
        },
{
    match parse_value(text) {
        Ok(value) => Ok(json_of(value)),
        Err(message) => Err(message),
    }
}

/// The text of a value, over several lines.
pub fn print(json: Json) -> (text: String)
    requires
        well_named(json.deep_view()),
    ensures
        text@ == pretty(json.deep_view()),
        text@.len() > 0 && !crate::text::white_space(text@[0]),
        reads_back(json.deep_view(), MAX_DEPTH as int) ==> parsed(text@ + "\n"@) == Some(
            json.deep_view(),
        ),
{
    print_value(&value_of(json))
}

/// The first of the members from `k` on with a name, or their number.
pub open spec fn member_from(members: Seq<(Seq<char>, JsonView)>, name: Seq<char>, k: int) -> int
    decreases members.len() - k,
{
    if k >= members.len() {
        members.len() as int
    } else if members[k].0 == name {
        k
    } else {
        member_from(members, name, k + 1)
    }
}

/// Where a name stands among members, or their number.
pub open spec fn member_at(members: Seq<(Seq<char>, JsonView)>, name: Seq<char>) -> int {
    member_from(members, name, 0)
}

/// The value of a member.
pub open spec fn member(members: Seq<(Seq<char>, JsonView)>, name: Seq<char>) -> Option<JsonView> {
    let at = member_at(members, name);
    if at < members.len() {
        Some(members[at].1)
    } else {
        None
    }
}

/// A member of a value, if it is an object and has one by that name.
pub open spec fn value_at(json: JsonView, name: Seq<char>) -> Option<JsonView> {
    match json {
        JsonView::Object(members) => member(members, name),
        _ => None,
    }
}

/// Where a name stands.
pub proof fn lemma_member(members: Seq<(Seq<char>, JsonView)>, name: Seq<char>, k: int)
    requires
        0 <= k <= members.len(),
    ensures
        k <= member_from(members, name, k) <= members.len(),
        member_from(members, name, k) < members.len() ==> members[member_from(
            members,
            name,
            k,
        )].0 == name,
        forall|j: int|
            k <= j < member_from(members, name, k) ==> (#[trigger] members[j]).0 != name,
    decreases members.len() - k,
{
    if k < members.len() && members[k].0 != name {
        lemma_member(members, name, k + 1);
    }
}

/// Where a name stands among members, or their number.
pub fn position(members: &[Member], name: &str) -> (at: usize)
    ensures
        at == member_at(members_view(members@), name@),
        at <= members@.len(),
{
    let ghost all = members_view(members@);
    let mut k: usize = 0;
    while k < members.len() && !same_text(members[k].name.as_str(), name)
        invariant
            k <= members@.len(),
            all == members_view(members@),
            member_from(all, name@, 0) == member_from(all, name@, k as int),
        decreases members.len() - k,
    {
        k = k + 1;
    }
    k
}

} // verus!
