//! JSON documents as the token and display-name logic reads them: the members of a
//! top-level object, each classified as null, string, integer or other.
use vstd::prelude::*;
use serde_json::Value;

verus! {

/// A member value of a JSON object.
#[derive(Debug)]
pub enum JsonScalar {
    Null,
    Str(String),
    /// A number, with its value when it is an integer that fits in an `i64`.
    Number(Option<i64>),
    /// A boolean, an array or an object.
    Other,
}

impl Clone for JsonScalar {
    fn clone(&self) -> (r: Self)
        ensures
            r == *self,
    {
        match self {
            JsonScalar::Null => JsonScalar::Null,
            JsonScalar::Str(s) => JsonScalar::Str(s.clone()),
            JsonScalar::Number(n) => JsonScalar::Number(*n),
            JsonScalar::Other => JsonScalar::Other,
        }
    }
}

/// A parsed JSON document.
#[derive(Debug)]
pub enum JsonDoc {
    /// Not JSON: the parser's error message.
    Invalid(String),
    /// An object: its members in the order of the parsed map (by name), then the document as
    /// JSON text.
    Object(Vec<(String, JsonScalar)>, String),
    /// An array: its length, then the document as JSON text and in debug form.
    Array(usize, String, String),
    /// Any other value: the document as JSON text and in debug form.
    Scalar(String, String),
}

/// The view of a member value.
pub enum JsonScalarView {
    Null,
    Str(Seq<char>),
    Number(Option<i64>),
    Other,
}

/// The view of a parsed JSON document.
pub enum JsonDocView {
    Invalid(Seq<char>),
    Object(Seq<(Seq<char>, JsonScalarView)>, Seq<char>),
    Array(nat, Seq<char>, Seq<char>),
    Scalar(Seq<char>, Seq<char>),
}

impl View for JsonScalar {
    type V = JsonScalarView;

    open spec fn view(&self) -> JsonScalarView {
        match self {
            JsonScalar::Null => JsonScalarView::Null,
            JsonScalar::Str(s) => JsonScalarView::Str(s@),
            JsonScalar::Number(n) => JsonScalarView::Number(*n),
            JsonScalar::Other => JsonScalarView::Other,
        }
    }
}

impl View for JsonDoc {
    type V = JsonDocView;

    open spec fn view(&self) -> JsonDocView {
        match self {
            JsonDoc::Invalid(e) => JsonDocView::Invalid(e@),
            JsonDoc::Object(m, t) => JsonDocView::Object(
                m@.map_values(|e: (String, JsonScalar)| (e.0@, e.1@)),
                t@,
            ),
            JsonDoc::Array(n, t, d) => JsonDocView::Array(*n as nat, t@, d@),
            JsonDoc::Scalar(t, d) => JsonDocView::Scalar(t@, d@),
        }
    }
}

/// What serde_json makes of a byte string, named: the result depends on the bytes alone.
pub uninterp spec fn json_document(json: Seq<u8>) -> JsonDocView;

/// Parses a JSON document with `serde_json::from_slice` into a `serde_json::Value`, and
/// converts it one for one: the error's message; the members of an object, each value
/// classified by its variant (a number by `Number::as_i64`); an array's length; and the
/// document's `Display` and `Debug` text. Trusted: the result is named `json_document`, and
/// the members of an object have distinct names, as the keys of a `serde_json::Map` do.
#[verifier::external_body]
pub(crate) fn parse_json(json: &[u8]) -> (r: JsonDoc)
    ensures
        r@ == json_document(json@),
        r@ matches JsonDocView::Object(m, _) ==> distinct_names(m),
{
    match serde_json::from_slice::<Value>(json) {
        Err(e) => JsonDoc::Invalid(e.to_string()),
        Ok(v) => {
            let (text, debug) = (v.to_string(), format!("{:?}", v));
            match v {
                Value::Object(m) => JsonDoc::Object(m.into_iter().map(|(k, x)| (k, match x {
                    Value::Null => JsonScalar::Null, Value::String(s) => JsonScalar::Str(s),
                    Value::Number(n) => JsonScalar::Number(n.as_i64()), _ => JsonScalar::Other,
                })).collect(), text),
                Value::Array(a) => JsonDoc::Array(a.len(), text, debug),
                _ => JsonDoc::Scalar(text, debug),
            }
        },
    }
}

/// No two members share a name.
pub open spec fn distinct_names(m: Seq<(Seq<char>, JsonScalarView)>) -> bool {
    forall|i: int, j: int| 0 <= i < j < m.len() ==> m[i].0 != m[j].0
}

/// Among members with distinct names, looking a member's name up gives its value.
pub proof fn lemma_member_in_distinct(m: Seq<(Seq<char>, JsonScalarView)>, i: int)
    requires
        distinct_names(m),
        0 <= i < m.len(),
    ensures
        member_in(m, m[i].0) == m[i].1,
    decreases i,
{
    if i > 0 {
        assert(m[0].0 != m[i].0);
        let t = m.drop_first();
        assert(distinct_names(t)) by {
            assert forall|a: int, b: int| 0 <= a < b < t.len() implies t[a].0 != t[b].0 by {
                assert(t[a] == m[a + 1] && t[b] == m[b + 1]);
            }
        }
        assert(t[i - 1] == m[i]);
        lemma_member_in_distinct(t, i - 1);
    }
}

/// The value of the first member named `key`, or `Null` when there is none.
pub open spec fn member_in(m: Seq<(Seq<char>, JsonScalarView)>, key: Seq<char>) -> JsonScalarView
    decreases m.len(),
{
    if m.len() == 0 {
        JsonScalarView::Null
    } else if m[0].0 == key {
        m[0].1
    } else {
        member_in(m.drop_first(), key)
    }
}

/// `doc[key]`: the member `key` of an object, `Null` for a missing member or a document that
/// is not an object.
pub open spec fn json_member(doc: JsonDocView, key: Seq<char>) -> JsonScalarView {
    match doc {
        JsonDocView::Object(m, _) => member_in(m, key),
        _ => JsonScalarView::Null,
    }
}

/// Looks up a member of a parsed document.
pub fn member(doc: &JsonDoc, key: &str) -> (r: JsonScalar)
    ensures
        r@ == json_member(doc@, key@),
{
    match doc {
        JsonDoc::Object(m, _) => {
            let k = key.to_owned();
            let ghost mv = m@.map_values(|e: (String, JsonScalar)| (e.0@, e.1@));
            let mut i: usize = 0;
            proof {
                assert(mv.skip(0) =~= mv);
            }
            while i < m.len()
                invariant
                    i <= m@.len(),
                    k@ == key@,
                    json_member(doc@, key@) == member_in(mv, key@),
                    mv == m@.map_values(|e: (String, JsonScalar)| (e.0@, e.1@)),
                    member_in(mv, key@) == member_in(mv.skip(i as int), key@),
                decreases m@.len() - i,
            {
                proof {
                    assert(mv.skip(i as int)[0] == mv[i as int]);
                    assert(mv[i as int] == (m@[i as int].0@, m@[i as int].1@));
                    assert(mv.skip(i as int).drop_first() =~= mv.skip(i + 1));
                }
                let entry: &(String, JsonScalar) = &m[i];
                let same: bool = entry.0 == k;
                if same {
                    proof {
                        assert(mv.skip(i as int).len() > 0);
                        assert(m@[i as int].0@ == key@);
                        assert(mv.skip(i as int)[0].0 == key@);
                        assert(member_in(mv.skip(i as int), key@) == mv.skip(i as int)[0].1);
                    }
                    return m[i].1.clone();
                }
                proof {
                    assert(mv.skip(i as int)[0].0 != key@);
                    assert(member_in(mv.skip(i as int), key@) == member_in(mv.skip(i as int).drop_first(), key@));
                }
                i = i + 1;
            }
            proof {
                assert(mv.skip(i as int).len() == 0);
            }
            JsonScalar::Null
        },
        _ => JsonScalar::Null,
    }
}

} // verus!
