//! JSON documents: what the tools send, what they read in an answer, and what they
//! report.

use crate::error::{internal_error, Fault, ToolError};
use crate::reals::Real;
use crate::text::same_text;
use vstd::prelude::*;
use vstd::string::*;

verus! {

/// `serde_json::Value`: a document that a caller supplied, carried through unread.
#[verifier::external_type_specification]
#[verifier::external_body]
pub struct ExValue(serde_json::Value);

/// `serde_json::Error`: why a document could not be written.
#[verifier::external_type_specification]
#[verifier::external_body]
pub struct ExError(serde_json::Error);

/// The `clone` of `serde_json::Value`: a copy holds the same document.
pub assume_specification[ <serde_json::Value as Clone>::clone ](
    value: &serde_json::Value,
) -> (copy: serde_json::Value)
    ensures
        copy == *value,
;

/// A JSON document.
pub enum Json {
    Null,
    Bool(bool),
    Integer(i128),
    Real(Real),
    Text(String),
    Array(Vec<Json>),
    /// The fields in the order of their writing: of two with one name, the later holds.
    Object(Vec<(String, Json)>),
    /// A document that a caller supplied.
    Given(serde_json::Value),
}

/// What a JSON document says.
pub enum Tree {
    Null,
    Bool(bool),
    Integer(int),
    Real(Real),
    Text(Seq<char>),
    Array(Seq<Tree>),
    Object(Map<Seq<char>, Tree>),
    Given(serde_json::Value),
}

/// What the members of an array say.
pub open spec fn trees(items: Seq<Json>) -> Seq<Tree>
    decreases items,
{
    Seq::new(
        items.len(),
        |i: int|
            if 0 <= i < items.len() {
                items[i].tree()
            } else {
                Tree::Null
            },
    )
}

/// What the fields of an object say.
pub open spec fn fields_map(fields: Seq<(String, Json)>) -> Map<Seq<char>, Tree>
    decreases fields,
{
    if fields.len() == 0 {
        Map::empty()
    } else {
        fields_map(fields.drop_last()).insert(
            fields[fields.len() - 1].0@,
            fields[fields.len() - 1].1.tree(),
        )
    }
}

impl Json {
    pub open spec fn tree(self) -> Tree
        decreases self,
    {
        match self {
            Json::Null => Tree::Null,
            Json::Bool(b) => Tree::Bool(b),
            Json::Integer(n) => Tree::Integer(n as int),
            Json::Real(r) => Tree::Real(r),
            Json::Text(s) => Tree::Text(s@),
            Json::Array(items) => Tree::Array(trees(items@)),
            Json::Object(fields) => Tree::Object(fields_map(fields@)),
            Json::Given(v) => Tree::Given(v),
        }
    }
}

impl View for Json {
    type V = Tree;

    open spec fn view(&self) -> Tree {
        self.tree()
    }
}

/// The compact JSON text that `serde_json::to_string` writes for a document, or `None`
/// where it reports an error.
pub uninterp spec fn compact_text(value: serde_json::Value) -> Option<Seq<char>>;

/// `serde_json::to_string`: what it writes depends on the document alone. Neither the
/// text nor which documents it could refuse is stated.
#[verifier::external_body]
pub(crate) fn encode(value: &serde_json::Value) -> (r: Result<String, serde_json::Error>)
    ensures
        r is Ok <==> compact_text(*value) is Some,
        r matches Ok(text) ==> compact_text(*value) == Some(text@),
{
    serde_json::to_string(value)
}

/// The indented JSON text that `serde_json::to_string_pretty` writes for a document, or
/// `None` where it reports an error.
pub uninterp spec fn pretty_text(value: serde_json::Value) -> Option<Seq<char>>;

/// `serde_json::to_string_pretty`: what it writes depends on the document alone. Neither
/// the text nor which documents it could refuse is stated.
#[verifier::external_body]
fn encode_pretty(value: &serde_json::Value) -> (r: Result<String, serde_json::Error>)
    ensures
        r is Ok <==> pretty_text(*value) is Some,
        r matches Ok(text) ==> pretty_text(*value) == Some(text@),
{
    serde_json::to_string_pretty(value)
}

/// The `to_string` of `serde_json::Error`. What it says is not stated: it may quote the
/// system.
#[verifier::external_body]
fn error_message(error: &serde_json::Error) -> (r: String) {
    error.to_string()
}

/// What is handed to a client of a document that was written, or of why it was not.
pub fn written(outcome: Result<String, String>) -> (r: Result<String, ToolError>)
    ensures
        match r {
            Ok(text) => outcome == Ok::<String, String>(text),
            Err(e) => outcome is Err && e@ == Fault::Internal(outcome->Err_0@),
        },
{
    match outcome {
        Ok(text) => Ok(text),
        Err(message) => Err(internal_error(message)),
    }
}

/// Writes a document as a client reads it.
pub fn pretty(value: &serde_json::Value) -> (r: Result<String, ToolError>)
    ensures
        match r {
            Ok(text) => pretty_text(*value) == Some(text@),
            Err(e) => pretty_text(*value) is None && e@ is Internal,
        },
{
    match encode_pretty(value) {
        Ok(text) => written(Ok(text)),
        Err(error) => written(Err(error_message(&error))),
    }
}

/// The fields of a document that is an object, in the order in which the document holds
/// them, or `None` for any other document.
pub uninterp spec fn object_fields(value: serde_json::Value) -> Option<
    Seq<(Seq<char>, serde_json::Value)>,
>;

/// What fields of a document say.
pub open spec fn given_fields(fields: Seq<(String, serde_json::Value)>) -> Seq<
    (Seq<char>, serde_json::Value),
> {
    fields.map_values(|f: (String, serde_json::Value)| (f.0@, f.1))
}

/// `serde_json::Value::as_object`, with the fields copied out of the map: which fields
/// a document has depends on the document alone.
#[verifier::external_body]
pub(crate) fn fields_of(value: &serde_json::Value) -> (r: Option<
    Vec<(String, serde_json::Value)>,
>)
    ensures
        r is Some <==> object_fields(*value) is Some,
        r matches Some(fields) ==> object_fields(*value) == Some(given_fields(fields@)),
{
    let map = value.as_object()?;
    Some(map.iter().map(|(name, field)| (name.clone(), field.clone())).collect())
}

/// The bits of the real that `serde_json::Number::as_f64` gives for the integer `n`, or
/// `None` where `n` is no number of `serde_json`.
pub uninterp spec fn integer_as_f64(n: int) -> Option<u64>;

/// `serde_json::Number::as_f64` on the number that `serde_json::Number::from_i128` makes
/// of `n`: it depends on `n` alone, is there for every integer that fits a signed or an
/// unsigned 64-bit word, and is finite. Which real stands nearest is not stated.
#[verifier::external_body]
pub(crate) fn integer_real(n: i128) -> (r: Option<Real>)
    ensures
        r == (match integer_as_f64(n as int) {
            Some(bits) => Some(Real { bits }),
            None => None,
        }),
        r is Some <==> -0x8000_0000_0000_0000 <= n <= 0xffff_ffff_ffff_ffff,
        r matches Some(x) ==> x.spec_is_finite(),
{
    let nearest = serde_json::Number::from_i128(n)?.as_f64()?;
    Some(Real { bits: nearest.to_bits() })
}

/// The value of the field `name` where `document` is an object that has it.
pub open spec fn spec_get(document: Tree, name: Seq<char>) -> Option<Tree> {
    match document {
        Tree::Object(fields) => if fields.contains_key(name) {
            Some(fields[name])
        } else {
            None
        },
        _ => None,
    }
}

/// The real that a JSON number stands for.
pub open spec fn spec_as_real(document: Tree) -> Option<Real> {
    match document {
        Tree::Integer(n) => match integer_as_f64(n) {
            Some(bits) => Some(Real { bits }),
            None => None,
        },
        Tree::Real(r) => Some(r),
        _ => None,
    }
}

/// The document that stands for a real: JSON has no number that is not finite.
pub open spec fn real_tree(r: Real) -> Tree {
    if r.spec_is_finite() {
        Tree::Real(r)
    } else {
        Tree::Null
    }
}

/// What an array says after one more member.
pub proof fn lemma_trees_push(items: Seq<Json>, item: Json)
    ensures
        trees(items.push(item)) == trees(items).push(item.tree()),
{
    assert(trees(items.push(item)) =~= trees(items).push(item.tree()));
}

/// What an object says after one more field.
pub proof fn lemma_fields_push(fields: Seq<(String, Json)>, field: (String, Json))
    ensures
        fields_map(fields.push(field)) == fields_map(fields).insert(field.0@, field.1.tree()),
{
    assert(fields.push(field).drop_last() =~= fields);
}

impl Json {
    /// The object without fields.
    pub fn object() -> (r: Json)
        ensures
            r@ == Tree::Object(Map::empty()),
    {
        Json::Object(Vec::new())
    }

    /// The array without members.
    pub fn array() -> (r: Json)
        ensures
            r@ == Tree::Array(Seq::empty()),
    {
        let r = Json::Array(Vec::new());
        assert(r@->Array_0 =~= Seq::empty());
        r
    }

    pub fn text(s: &str) -> (r: Json)
        ensures
            r@ == Tree::Text(s@),
    {
        Json::Text(s.to_string())
    }

    /// The document that stands for a count.
    pub fn count(n: usize) -> (r: Json)
        ensures
            r@ == Tree::Integer(n as int),
    {
        Json::Integer(n as i128)
    }

    pub fn number(r: Real) -> (j: Json)
        ensures
            j@ == real_tree(r),
    {
        if r.is_finite() {
            Json::Real(r)
        } else {
            Json::Null
        }
    }

    /// The object with the field `name` set to `value`.
    pub fn with(self, name: &str, value: Json) -> (r: Json)
        requires
            self@ is Object,
        ensures
            r@ == Tree::Object(self@->Object_0.insert(name@, value@)),
    {
        match self {
            Json::Object(fields) => {
                let mut fields = fields;
                let field = (name.to_string(), value);
                proof {
                    lemma_fields_push(fields@, field);
                }
                fields.push(field);
                Json::Object(fields)
            },
            other => other,
        }
    }

    /// The array with one more member at its end.
    pub fn followed_by(self, item: Json) -> (r: Json)
        requires
            self@ is Array,
        ensures
            r@ == Tree::Array(self@->Array_0.push(item@)),
    {
        match self {
            Json::Array(items) => {
                let mut items = items;
                proof {
                    lemma_trees_push(items@, item);
                }
                items.push(item);
                Json::Array(items)
            },
            other => other,
        }
    }

    /// A document that says the same.
    pub fn copy(&self) -> (r: Json)
        ensures
            r@ == self@,
        decreases self,
    {
        match self {
            Json::Null => Json::Null,
            Json::Bool(b) => Json::Bool(*b),
            Json::Integer(n) => Json::Integer(*n),
            Json::Real(r) => Json::Real(*r),
            Json::Text(s) => Json::Text(s.clone()),
            Json::Given(v) => Json::Given(v.clone()),
            Json::Array(items) => {
                let mut r = Json::array();
                let mut i: usize = 0;
                while i < items.len()
                    invariant
                        i <= items.len(),
                        self == Json::Array(*items),
                        r@ is Array,
                        r@->Array_0 == trees(items@.take(i as int)),
                    decreases items.len() - i,
                {
                    proof {
                        lemma_trees_push(items@.take(i as int), items@[i as int]);
                        assert(items@.take(i as int).push(items@[i as int]) =~= items@.take(i + 1));
                    }
                    assert(decreases_to!(self->Array_0@ => self->Array_0@[i as int]));
                    r = r.followed_by(items[i].copy());
                    i = i + 1;
                }
                assert(items@.take(i as int) =~= items@);
                r
            },
            Json::Object(fields) => {
                let mut r = Json::object();
                let mut i: usize = 0;
                while i < fields.len()
                    invariant
                        i <= fields.len(),
                        self == Json::Object(*fields),
                        r@ is Object,
                        r@->Object_0 == fields_map(fields@.take(i as int)),
                    decreases fields.len() - i,
                {
                    proof {
                        lemma_fields_push(fields@.take(i as int), fields@[i as int]);
                        assert(fields@.take(i as int).push(fields@[i as int]) =~= fields@.take(
                            i + 1,
                        ));
                    }
                    assert(decreases_to!(self->Object_0@ => self->Object_0@[i as int]));
                    assert(decreases_to!(self->Object_0@[i as int] => self->Object_0@[i as int].1));
                    r = r.with(&fields[i].0, fields[i].1.copy());
                    i = i + 1;
                }
                assert(fields@.take(i as int) =~= fields@);
                r
            },
        }
    }

    /// The field `name` of an object.
    pub fn get(&self, name: &str) -> (r: Option<&Json>)
        ensures
            match r {
                Some(j) => spec_get(self@, name@) == Some(j@),
                None => spec_get(self@, name@) is None,
            },
    {
        match self {
            Json::Object(fields) => {
                let mut i: usize = fields.len();
                assert(fields@.take(i as int) =~= fields@);
                while i > 0
                    invariant
                        i <= fields.len(),
                        self@ == Tree::Object(fields_map(fields@)),
                        spec_get(self@, name@) == spec_get(
                            Tree::Object(fields_map(fields@.take(i as int))),
                            name@,
                        ),
                    decreases i,
                {
                    proof {
                        lemma_fields_push(fields@.take(i - 1), fields@[i - 1]);
                        assert(fields@.take(i - 1).push(fields@[i - 1]) =~= fields@.take(i as int));
                    }
                    if same_text(&fields[i - 1].0, name) {
                        return Some(&fields[i - 1].1);
                    }
                    i = i - 1;
                }
                None
            },
            _ => None,
        }
    }

    /// The real that a number stands for.
    pub fn as_real(&self) -> (r: Option<Real>)
        ensures
            r == spec_as_real(self@),
    {
        match self {
            Json::Integer(n) => integer_real(*n),
            Json::Real(r) => Some(*r),
            _ => None,
        }
    }

    /// The text of a string.
    pub fn as_text(&self) -> (r: Option<&String>)
        ensures
            match r {
                Some(s) => self@ == Tree::Text(s@),
                None => !(self@ is Text),
            },
    {
        match self {
            Json::Text(s) => Some(s),
            _ => None,
        }
    }
}

/// Whether a document is an object with the field `name`.
pub open spec fn has_field(document: Tree, name: Seq<char>) -> bool {
    document is Object && document->Object_0.contains_key(name)
}

/// What stands in the field `name` of an object.
pub open spec fn at(document: Tree, name: Seq<char>) -> Tree {
    document->Object_0[name]
}

/// Whether `value` stands in the field `name` of an object.
pub open spec fn holds(document: Tree, name: Seq<char>, value: Tree) -> bool {
    has_field(document, name) && at(document, name) == value
}

/// Whether a document is an object with these fields and no other.
pub open spec fn fields_are(document: Tree, names: Set<Seq<char>>) -> bool {
    document is Object && document->Object_0.dom() == names
}

/// A field is found exactly where an object holds it, with what stands there.
pub proof fn law_fields_are_found(document: Tree, name: Seq<char>, value: Tree)
    ensures
        spec_get(document, name) == Some(value) <==> holds(document, name, value),
        spec_get(document, name) is None <==> !has_field(document, name),
{
}

/// A real that is finite can be read back from its document; one that is not has no number
/// for its document.
pub proof fn law_reals_are_read_back(r: Real)
    ensures
        r.magnitude() < 0x7ff0_0000_0000_0000 ==> real_tree(r) == Tree::Real(r) && spec_as_real(
            real_tree(r),
        ) == Some(r),
        r.magnitude() >= 0x7ff0_0000_0000_0000 ==> real_tree(r) == Tree::Null && spec_as_real(
            real_tree(r),
        ) is None,
{
}

/// Only numbers are read as reals: a real as itself, an integer as what stands for it.
pub proof fn law_numbers_are_read(document: Tree, r: Real)
    ensures
        spec_as_real(document) == Some(r) <==> document == Tree::Real(r) || (document is Integer
            && integer_as_f64(document->Integer_0) == Some(r.bits)),
{
}

/// Of the fields written into an object, the last with a name is what stands there, and
/// nothing stands there that was not written.
pub proof fn law_last_field_stands(fields: Seq<(String, Json)>, name: Seq<char>)
    ensures
        fields_map(fields).contains_key(name) <==> exists|i: int|
            0 <= i < fields.len() && (#[trigger] fields[i]).0@ == name,
        forall|i: int|
            0 <= i < fields.len() && (#[trigger] fields[i]).0@ == name && (forall|j: int|
                i < j < fields.len() ==> (#[trigger] fields[j]).0@ != name) ==> fields_map(
                fields,
            )[name] == fields[i].1@,
    decreases fields.len(),
{
    if fields.len() > 0 {
        let fewer = fields.drop_last();
        law_last_field_stands(fewer, name);
        let last = fields.len() - 1;
        if fields[last].0@ == name {
            assert(fields_map(fields).contains_key(name));
        } else {
            if fields_map(fields).contains_key(name) {
                let i = choose|i: int| 0 <= i < fewer.len() && (#[trigger] fewer[i]).0@ == name;
                assert(fields[i].0@ == name);
            }
            assert forall|i: int|
                0 <= i < fields.len() && (#[trigger] fields[i]).0@ == name implies fewer[i]
                == fields[i] && i < fewer.len() by {}
        }
        assert forall|i: int|
            0 <= i < fields.len() && (#[trigger] fields[i]).0@ == name && (forall|j: int|
                i < j < fields.len() ==> (#[trigger] fields[j]).0@ != name) implies fields_map(
            fields,
        )[name] == fields[i].1@ by {
            if i < last {
                assert(fields[last].0@ != name);
                assert(fewer[i] == fields[i]);
                assert forall|j: int| i < j < fewer.len() implies (#[trigger] fewer[j]).0@
                    != name by {
                    assert(fields[j].0@ != name);
                }
            }
        }
    }
}

/// A document says what it holds: a text its text, an array what its members say, each at
/// its place.
pub proof fn law_documents_say_what_they_hold(document: Json)
    ensures
        document matches Json::Text(s) ==> document@ == Tree::Text(s@),
        document matches Json::Bool(b) ==> document@ == Tree::Bool(b),
        document matches Json::Integer(n) ==> document@ == Tree::Integer(n as int),
        document matches Json::Real(r) ==> document@ == Tree::Real(r),
        document matches Json::Given(v) ==> document@ == Tree::Given(v),
        document is Null ==> document@ == Tree::Null,
        document matches Json::Array(items) ==> document@ is Array && document@->Array_0.len()
            == items@.len() && (forall|i: int|
            0 <= i < items@.len() ==> #[trigger] document@->Array_0[i] == items@[i]@),
        document matches Json::Object(fields) ==> document@ == Tree::Object(fields_map(fields@)),
{
}

} // verus!
