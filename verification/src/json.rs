//! JSON values as questions carry them.

use vstd::prelude::*;

use crate::sorted::Duplicate;

verus! {

/// `serde_json::Value`, any JSON value.
#[verifier::external_type_specification]
#[verifier::external_body]
pub struct ExJsonValue(serde_json::Value);

/// What a JSON value holds, written as compact JSON text.
pub uninterp spec fn json_text(value: serde_json::Value) -> Seq<char>;

/// The string that `serde_json::Value::as_str` finds in the value whose compact
/// JSON text is `text`.
pub uninterp spec fn json_string(text: Seq<char>) -> Seq<char>;

/// `serde_json::to_string`, the compact JSON text of a value. Rendering a
/// `serde_json::Value` into a string does not fail: its keys are strings, and
/// the writer is memory.
#[verifier::external_body]
pub(crate) fn render(value: &serde_json::Value) -> (text: String)
    ensures
        text@ == json_text(*value),
{
    serde_json::to_string(value).unwrap_or_default()
}

/// `serde_json::Value::is_null`: true of the one value whose text is `null`.
pub assume_specification[ serde_json::Value::is_null ](value: &serde_json::Value) -> (b: bool)
    ensures
        b == (json_text(*value) == "null"@),
;

/// `serde_json::Value::as_str`: the string inside a JSON string, and nothing for
/// any other value. The text of a JSON string begins with a quotation mark,
/// and that of no other value does.
pub assume_specification[ serde_json::Value::as_str ](value: &serde_json::Value) -> (r: Option<
    &str,
>)
    ensures
        r is Some <==> quoted(json_text(*value)),
        r matches Some(s) ==> s@ == json_string(json_text(*value)),
;

/// `Clone` of `serde_json::Value`: the copy holds the same.
pub assume_specification[ <serde_json::Value as Clone>::clone ](value: &serde_json::Value) -> (r:
    serde_json::Value)
    ensures
        json_text(r) == json_text(*value),
;

/// Whether `text` begins with a quotation mark.
pub open spec fn quoted(text: Seq<char>) -> bool {
    text.len() > 0 && text[0] == '"'
}

/// A JSON value that is neither null nor a string.
#[derive(Debug)]
pub struct Composite {
    value: serde_json::Value,
}

impl View for Composite {
    type V = Seq<char>;

    closed spec fn view(&self) -> Seq<char> {
        json_text(self.value)
    }
}

impl Composite {
    /// The value is neither null nor a string.
    #[verifier::type_invariant]
    pub open spec fn wf(self) -> bool {
        self@ != "null"@ && !quoted(self@)
    }

    /// The JSON value itself.
    pub fn as_json(&self) -> (r: &serde_json::Value)
        ensures
            json_text(*r) == self@,
    {
        &self.value
    }
}

/// A JSON value, with null and strings told apart from all others.
#[derive(Debug)]
pub enum Json {
    Null,
    String(String),
    /// A boolean, a number, an array or an object.
    Other(Composite),
}

/// What a [`Json`] holds; `Other` has the compact JSON text.
pub enum JsonView {
    Null,
    String(Seq<char>),
    Other(Seq<char>),
}

impl View for Json {
    type V = JsonView;

    open spec fn view(&self) -> JsonView {
        match self {
            Json::Null => JsonView::Null,
            Json::String(s) => JsonView::String(s@),
            Json::Other(c) => JsonView::Other(c@),
        }
    }
}

impl JsonView {
    /// The value whose compact JSON text is `text`.
    pub open spec fn of_text(text: Seq<char>) -> JsonView {
        if text == "null"@ {
            JsonView::Null
        } else if quoted(text) {
            JsonView::String(json_string(text))
        } else {
            JsonView::Other(text)
        }
    }

    /// The value in plain words: a string as it is, any other value as compact
    /// JSON.
    pub open spec fn shown(self) -> Seq<char> {
        match self {
            JsonView::Null => "null"@,
            JsonView::String(s) => s,
            JsonView::Other(text) => text,
        }
    }
}

impl Json {
    /// Tells null and strings apart from other JSON values.
    pub fn from_json(value: serde_json::Value) -> (r: Json)
        ensures
            r@ == JsonView::of_text(json_text(value)),
    {
        if value.is_null() {
            Json::Null
        } else if let Some(s) = value.as_str() {
            Json::String(s.to_owned())
        } else {
            Json::Other(Composite { value })
        }
    }

    /// The value in plain words: a string as it is, any other value as compact
    /// JSON.
    pub fn show(&self) -> (r: String)
        ensures
            r@ == self@.shown(),
    {
        match self {
            Json::Null => "null".to_owned(),
            Json::String(s) => s.clone(),
            Json::Other(c) => render(&c.value),
        }
    }
}

impl Duplicate for Json {
    fn duplicate(&self) -> (r: Self) {
        match self {
            Json::Null => Json::Null,
            Json::String(s) => Json::String(s.clone()),
            Json::Other(c) => {
                proof {
                    use_type_invariant(c);
                }
                Json::Other(Composite { value: c.value.clone() })
            },
        }
    }
}

impl Clone for Json {
    fn clone(&self) -> (r: Self)
        ensures
            r@ == self@,
    {
        self.duplicate()
    }
}

/// A value is null, a string or neither by its JSON text alone. A string is shown as it
/// is, and any other value as its JSON text.
pub proof fn values_go_by_their_text(text: Seq<char>, string: Seq<char>)
    ensures
        JsonView::of_text("null"@) == JsonView::Null,
        text != "null"@ && text.len() > 0 && text[0] == '"' ==> JsonView::of_text(text)
            == JsonView::String(json_string(text)),
        text != "null"@ && (text.len() == 0 || text[0] != '"') ==> JsonView::of_text(text)
            == JsonView::Other(text),
        JsonView::Null.shown() == "null"@,
        JsonView::String(string).shown() == string,
        JsonView::Other(text).shown() == text,
        text.len() == 0 || text[0] != '"' ==> JsonView::of_text(text).shown() == text,
{
}

/// A value is seen with what it holds.
pub proof fn json_view_shows_all(json: Json)
    ensures
        json is Null ==> json@ is Null,
        json matches Json::String(s) ==> (json@ matches JsonView::String(t) && t == s@),
        json matches Json::Other(c) ==> (json@ matches JsonView::Other(t) && t == c@),
{
}

} // verus!
