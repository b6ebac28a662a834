//! JSON documents as trees.
use vstd::prelude::*;
use crate::score::Score;
use crate::text;

verus! {

/// What a [`Json`] stands for.
#[verifier::ext_equal]
pub enum JsonM {
    Null,
    Bool(bool),
    Number(Score),
    Text(Seq<char>),
    List(Seq<JsonM>),
    Object(Seq<(Seq<char>, JsonM)>),
}

/// A JSON document. Numbers are held as doubles; an object holds its members in order.
#[derive(Debug, PartialEq)]
pub enum Json {
    Null,
    Bool(bool),
    Number(Score),
    Text(String),
    List(Vec<Json>),
    Object(Vec<(String, Json)>),
}

pub open spec fn json_model(j: Json) -> JsonM
    decreases j,
{
    match j {
        Json::Null => JsonM::Null,
        Json::Bool(b) => JsonM::Bool(b),
        Json::Number(n) => JsonM::Number(n),
        Json::Text(s) => JsonM::Text(s@),
        Json::List(v) => JsonM::List(
            Seq::new(
                v@.len(),
                |i: int|
                    if 0 <= i < v@.len() {
                        json_model(v@[i])
                    } else {
                        JsonM::Null
                    },
            ),
        ),
        Json::Object(v) => JsonM::Object(
            Seq::new(
                v@.len(),
                |i: int|
                    if 0 <= i < v@.len() {
                        (v@[i].0@, json_model(v@[i].1))
                    } else {
                        (Seq::empty(), JsonM::Null)
                    },
            ),
        ),
    }
}

impl DeepView for Json {
    type V = JsonM;

    open spec fn deep_view(&self) -> JsonM {
        json_model(*self)
    }
}

/// A document as the outside parsers hand it over.
#[verifier::external_type_specification]
#[verifier::external_body]
pub struct ExValue(serde_json::Value);

/// Turns a `serde_json::Value` into the tree with the same parts: each variant into the variant
/// of the same meaning, the members of an object in the order in which the value walks them, and
/// a number into the bits of the double that `as_f64` gives. Of the tree nothing is claimed
/// here; the functions that read a text name it.
#[verifier::external_body]
fn tree(value: serde_json::Value) -> Json {
    match value {
        serde_json::Value::Null => Json::Null,
        serde_json::Value::Bool(b) => Json::Bool(b),
        serde_json::Value::Number(n) =>
            n.as_f64().map_or(Json::Null, |x| Json::Number(Score { bits: x.to_bits() })),
        serde_json::Value::String(s) => Json::Text(s),
        serde_json::Value::Array(a) => Json::List(a.into_iter().map(tree).collect()),
        serde_json::Value::Object(o) =>
            Json::Object(o.into_iter().map(|(k, e)| (k, tree(e))).collect()),
    }
}

/// The document that a text spells, if it spells one.
pub uninterp spec fn json_of(text: Seq<char>) -> Option<JsonM>;

/// Reads a JSON document.
///
/// Calls `serde_json::from_str`: the result is the document that the text spells, each part
/// turned into the part of the tree with the same meaning.
#[verifier::external_body]
pub(crate) fn parse_json(text: &str) -> (r: Option<Json>)
    ensures
        r.deep_view() == json_of(text@),
{
    serde_json::from_str(text).ok().map(tree)
}

/// The document that a TOML text comes to, if it is one.
pub uninterp spec fn toml_of(text: Seq<char>) -> Option<JsonM>;

/// Reads a TOML document.
///
/// Calls `toml::from_str`: the result is the document that the text spells, with tables as
/// objects and arrays as lists.
#[verifier::external_body]
pub(crate) fn parse_toml(text: &str) -> (r: Option<Json>)
    ensures
        r.deep_view() == toml_of(text@),
{
    toml::from_str(text).ok().map(tree)
}

/// The member of an object with a name.
pub open spec fn member(j: JsonM, name: Seq<char>) -> Option<JsonM> {
    match j {
        JsonM::Object(s) => named_member(s, name),
        _ => None,
    }
}

pub open spec fn named_member(s: Seq<(Seq<char>, JsonM)>, name: Seq<char>) -> Option<JsonM>
    decreases s.len(),
{
    if s.len() == 0 {
        None
    } else if s[0].0 == name {
        Some(s[0].1)
    } else {
        named_member(s.drop_first(), name)
    }
}

pub open spec fn member_of(j: Option<JsonM>, name: Seq<char>) -> Option<JsonM> {
    match j {
        Some(x) => member(x, name),
        None => None,
    }
}

/// The first item of a list, or the member `0` of an object.
pub open spec fn first_of(j: Option<JsonM>) -> Option<JsonM> {
    match j {
        Some(x) => match x {
            JsonM::List(s) => if s.len() > 0 {
                Some(s[0])
            } else {
                None
            },
            JsonM::Object(_) => member(x, "0"@),
            _ => None,
        },
        None => None,
    }
}

pub open spec fn text_of(j: Option<JsonM>) -> Option<Seq<char>> {
    match j {
        Some(x) => match x {
            JsonM::Text(s) => Some(s),
            _ => None,
        },
        None => None,
    }
}

/// The text, empty where there is none.
pub open spec fn text_or_empty(j: Option<JsonM>) -> Seq<char> {
    match text_of(j) {
        Some(s) => s,
        None => Seq::empty(),
    }
}

pub open spec fn list_of(j: Option<JsonM>) -> Option<Seq<JsonM>> {
    match j {
        Some(x) => match x {
            JsonM::List(s) => Some(s),
            _ => None,
        },
        None => None,
    }
}

pub open spec fn number_of(j: Option<JsonM>) -> Option<Score> {
    match j {
        Some(x) => match x {
            JsonM::Number(n) => Some(n),
            _ => None,
        },
        None => None,
    }
}

pub open spec fn bool_of(j: Option<JsonM>) -> Option<bool> {
    match j {
        Some(x) => match x {
            JsonM::Bool(b) => Some(b),
            _ => None,
        },
        None => None,
    }
}

/// What a reference that may be missing stands for.
pub open spec fn seen(j: Option<&Json>) -> Option<JsonM> {
    match j {
        Some(x) => Some(x.deep_view()),
        None => None,
    }
}

impl Json {
    /// The document that `text` spells.
    pub fn parse(text: &str) -> (r: Option<Json>)
        ensures
            r.deep_view() == json_of(text@),
    {
        parse_json(text)
    }

    /// The member with this name.
    pub fn get<'a>(&'a self, name: &str) -> (r: Option<&'a Json>)
        ensures
            seen(r) == member(self.deep_view(), name@),
    {
        match self {
            Json::Object(v) => {
                let ghost all = self.deep_view()->Object_0;
                let mut i: usize = 0;
                assert(all.skip(0) =~= all);
                while i < v.len()
                    invariant
                        i <= v.len(),
                        *self == Json::Object(*v),
                        self.deep_view() == JsonM::Object(all),
                        all.len() == v.len(),
                        named_member(all, name@) == named_member(all.skip(i as int), name@),
                    decreases v.len() - i,
                {
                    proof {
                        assert(all[i as int] == (v@[i as int].0@, json_model(v@[i as int].1)));
                        assert(all.skip(i as int)[0] == all[i as int]);
                        assert(all.skip(i as int).drop_first() =~= all.skip(i + 1));
                    }
                    if text::same(v[i].0.as_str(), name) {
                        return Some(&v[i].1);
                    }
                    i += 1;
                }
                None
            },
            _ => None,
        }
    }

    pub fn as_text<'a>(&'a self) -> (r: Option<&'a str>)
        ensures
            match r {
                Some(s) => text_of(Some(self.deep_view())) == Some(s@),
                None => text_of(Some(self.deep_view())) is None,
            },
    {
        match self {
            Json::Text(s) => Some(s.as_str()),
            _ => None,
        }
    }

    pub fn as_number(&self) -> (r: Option<Score>)
        ensures
            r == number_of(Some(self.deep_view())),
    {
        match self {
            Json::Number(n) => Some(*n),
            _ => None,
        }
    }

    pub fn as_bool(&self) -> (r: Option<bool>)
        ensures
            r == bool_of(Some(self.deep_view())),
    {
        match self {
            Json::Bool(b) => Some(*b),
            _ => None,
        }
    }

    pub fn as_list<'a>(&'a self) -> (r: Option<&'a Vec<Json>>)
        ensures
            match r {
                Some(v) => list_of(Some(self.deep_view())) == Some(v.deep_view()),
                None => list_of(Some(self.deep_view())) is None,
            },
    {
        match self {
            Json::List(v) => {
                assert(list_of(Some(self.deep_view()))->0 =~= v.deep_view());
                Some(v)
            },
            _ => None,
        }
    }
}

/// The member of a document that may be missing.
pub fn get_of<'a>(j: Option<&'a Json>, name: &str) -> (r: Option<&'a Json>)
    ensures
        seen(r) == member_of(seen(j), name@),
{
    match j {
        Some(x) => x.get(name),
        None => None,
    }
}

/// The first item of a list, or the member `0` of an object.
pub fn get_first<'a>(j: Option<&'a Json>) -> (r: Option<&'a Json>)
    ensures
        seen(r) == first_of(seen(j)),
{
    match j {
        Some(x) => match x {
            Json::List(v) => {
                assert(list_of(Some(x.deep_view()))->0 =~= v.deep_view());
                if v.len() > 0 {
                    assert(v.deep_view()[0] == v[0].deep_view());
                    Some(&v[0])
                } else {
                    assert(v.deep_view().len() == 0);
                    None
                }
            },
            Json::Object(_) => x.get("0"),
            _ => None,
        },
        None => None,
    }
}

/// The text, empty where there is none.
pub fn text_or<'a>(j: Option<&'a Json>) -> (r: String)
    ensures
        r@ == text_or_empty(seen(j)),
{
    match j {
        Some(x) => match x.as_text() {
            Some(s) => s.to_owned(),
            None => String::new(),
        },
        None => String::new(),
    }
}

/// The first member of a name counts, and there is one exactly where some member has the name.
/// Nothing but an object has members.
pub proof fn the_first_member_counts(s: Seq<(Seq<char>, JsonM)>, name: Seq<char>, i: int)
    requires
        0 <= i <= s.len(),
        i < s.len() ==> s[i].0 == name,
        forall|k: int| 0 <= k < i ==> (#[trigger] s[k]).0 != name,
    ensures
        member(JsonM::Object(s), name) == (if i < s.len() {
            Some(s[i].1)
        } else {
            None
        }),
    decreases s.len(),
{
    if s.len() > 0 && i > 0 {
        assert(s[0].0 != name);
        let rest = s.drop_first();
        assert forall|k: int| 0 <= k < i - 1 implies (#[trigger] rest[k]).0 != name by {
            assert(rest[k] == s[k + 1]);
        }
        if i < s.len() {
            assert(rest[i - 1] == s[i]);
        }
        the_first_member_counts(rest, name, i - 1);
    }
}

} // verus!
