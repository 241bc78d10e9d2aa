//! JSON values, as far as the answers of the server are read.

use crate::text::opt_text;
use vstd::prelude::*;
use vstd::string::*;

verus! {

/// A JSON value.
#[derive(Debug)]
pub enum Json {
    Null,
    Bool(bool),
    /// A whole number that is not negative and fits in 64 bits.
    Unsigned(u64),
    /// Any other number.
    OtherNumber,
    Text(String),
    Array(Vec<Json>),
    /// The members of an object. No name occurs twice.
    Object(Vec<(String, Json)>),
}

/// The member `key` among `members`.
pub open spec fn member(members: Seq<(String, Json)>, key: Seq<char>) -> Option<Json>
    decreases members.len(),
{
    if members.len() == 0 {
        None
    } else if members[0].0@ == key {
        Some(members[0].1)
    } else {
        member(members.skip(1), key)
    }
}

/// What an optional reference refers to.
pub open spec fn pointee(v: Option<&Json>) -> Option<Json> {
    match v {
        Some(v) => Some(*v),
        None => None,
    }
}

fn find_member<'a>(members: &'a Vec<(String, Json)>, key: &str) -> (value: Option<&'a Json>)
    ensures
        pointee(value) == member(members@, key@),
{
    let wanted = key.to_owned();
    let mut i: usize = 0;
    assert(members@.skip(0) =~= members@);
    while i < members.len()
        invariant
            i <= members.len(),
            wanted@ == key@,
            member(members@, key@) == member(members@.skip(i as int), key@),
        decreases members.len() - i,
    {
        assert(members@.skip(i as int).skip(1) =~= members@.skip(i + 1));
        if members[i].0 == wanted {
            return Some(&members[i].1);
        }
        i += 1;
    }
    None
}

impl Json {
    /// The member `key` of an object.
    pub open spec fn at(self, key: Seq<char>) -> Option<Json> {
        match self {
            Json::Object(members) => member(members@, key),
            _ => None,
        }
    }

    /// The text of a string.
    pub open spec fn text(self) -> Option<Seq<char>> {
        match self {
            Json::Text(s) => Some(s@),
            _ => None,
        }
    }

    /// The value of an unsigned number.
    pub open spec fn unsigned(self) -> Option<u64> {
        match self {
            Json::Unsigned(n) => Some(n),
            _ => None,
        }
    }

    /// The elements of an array.
    pub open spec fn elements(self) -> Option<Seq<Json>> {
        match self {
            Json::Array(items) => Some(items@),
            _ => None,
        }
    }

    /// The text of the member `key`.
    pub open spec fn text_at(self, key: Seq<char>) -> Option<Seq<char>> {
        match self.at(key) {
            Some(v) => v.text(),
            None => None,
        }
    }

    /// The text of the member `key`, or `default`.
    pub open spec fn text_or(self, key: Seq<char>, default: Seq<char>) -> Seq<char> {
        match self.text_at(key) {
            Some(s) => s,
            None => default,
        }
    }

    /// The number of the member `key`.
    pub open spec fn number_at(self, key: Seq<char>) -> Option<u64> {
        match self.at(key) {
            Some(v) => v.unsigned(),
            None => None,
        }
    }

    /// The number of the member `key`, or 0.
    pub open spec fn number_or_zero(self, key: Seq<char>) -> u64 {
        match self.number_at(key) {
            Some(n) => n,
            None => 0,
        }
    }

    /// The elements of the array that is the member `key`.
    pub open spec fn elements_at(self, key: Seq<char>) -> Option<Seq<Json>> {
        match self.at(key) {
            Some(v) => v.elements(),
            None => None,
        }
    }

    /// Gives the member `key` of an object.
    pub fn get(&self, key: &str) -> (value: Option<&Json>)
        ensures
            pointee(value) == self.at(key@),
    {
        match self {
            Json::Object(members) => find_member(members, key),
            _ => None,
        }
    }

    /// Gives the text of the member `key`.
    pub fn get_text(&self, key: &str) -> (s: Option<String>)
        ensures
            opt_text(s) == self.text_at(key@),
    {
        match self.get(key) {
            Some(Json::Text(s)) => Some(s.clone()),
            _ => None,
        }
    }

    /// Gives the text of the member `key`, or `default`.
    pub fn get_text_or(&self, key: &str, default: &str) -> (s: String)
        ensures
            s@ == self.text_or(key@, default@),
    {
        match self.get_text(key) {
            Some(s) => s,
            None => default.to_owned(),
        }
    }

    /// Gives the number of the member `key`.
    pub fn get_number(&self, key: &str) -> (n: Option<u64>)
        ensures
            n == self.number_at(key@),
    {
        match self.get(key) {
            Some(Json::Unsigned(n)) => Some(*n),
            _ => None,
        }
    }

    /// Gives the number of the member `key`, or 0.
    pub fn get_number_or_zero(&self, key: &str) -> (n: u64)
        ensures
            n == self.number_or_zero(key@),
    {
        match self.get_number(key) {
            Some(n) => n,
            None => 0,
        }
    }

    /// Gives the elements of the array that is the member `key`.
    pub fn get_elements(&self, key: &str) -> (items: Option<&Vec<Json>>)
        ensures
            match items {
                Some(items) => self.elements_at(key@) == Some(items@),
                None => self.elements_at(key@) is None,
            },
    {
        match self.get(key) {
            Some(Json::Array(items)) => Some(items),
            _ => None,
        }
    }
}

/// The member of a name is the one that is found, among any others.
pub proof fn law_members_are_found(
    before: Seq<(String, Json)>,
    m: (String, Json),
    after: Seq<(String, Json)>,
)
    requires
        forall|k: int| 0 <= k < before.len() ==> (#[trigger] before[k]).0@ != m.0@,
    ensures
        member(before + seq![m] + after, m.0@) == Some(m.1),
        member(before, m.0@) is None,
    decreases before.len(),
{
    let all = before + seq![m] + after;
    if before.len() == 0 {
        assert(all[0] == m);
    } else {
        let fewer = before.skip(1);
        assert(all[0] == before[0]);
        assert forall|k: int| 0 <= k < fewer.len() implies (#[trigger] fewer[k]).0@ != m.0@ by {
            assert(fewer[k] == before[k + 1]);
        }
        law_members_are_found(fewer, m, after);
        assert(all.skip(1) =~= fewer + seq![m] + after);
    }
}

/// A value is read by its kind: texts are no numbers, numbers no lists, and only objects
/// have members.
pub proof fn law_values_are_read_by_kind(json: Json, key: Seq<char>)
    ensures
        !(json is Object) ==> json.at(key) is None,
        json.at(key) matches Some(Json::Text(s)) ==> json.text_at(key) == Some(s@)
            && json.number_at(key) is None && json.elements_at(key) is None,
        json.at(key) matches Some(Json::Unsigned(n)) ==> json.number_at(key) == Some(n)
            && json.text_at(key) is None && json.elements_at(key) is None,
        json.at(key) matches Some(Json::Array(items)) ==> json.elements_at(key) == Some(items@)
            && json.text_at(key) is None && json.number_at(key) is None,
        json.at(key) is None ==> json.text_at(key) is None && json.number_at(key) is None
            && json.elements_at(key) is None,
{
}

/// What is missing is read as the default.
pub proof fn law_missing_values_have_defaults(json: Json, key: Seq<char>, default: Seq<char>)
    ensures
        json.text_at(key) is None ==> json.text_or(key, default) == default,
        json.text_at(key) matches Some(s) ==> json.text_or(key, default) == s,
        json.number_at(key) is None ==> json.number_or_zero(key) == 0,
        json.number_at(key) matches Some(n) ==> json.number_or_zero(key) == n,
{
}

} // verus!
