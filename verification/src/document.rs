//! Documents made of lists and tables.

use crate::json::{lemma_trees_push, real_tree, trees, Json, Tree};
use crate::reals::Real;
use crate::table::{lemma_walk_step, walks, Table};
use crate::text::{optional_text, texts};
use vstd::prelude::*;

verus! {

/// Documents that a caller supplied.
pub open spec fn given(items: Seq<serde_json::Value>) -> Seq<Tree> {
    items.map_values(|v: serde_json::Value| Tree::Given(v))
}

/// Copies of documents that a caller supplied.
pub fn given_json(items: &Vec<serde_json::Value>) -> (r: Vec<Json>)
    ensures
        trees(r@) == given(items@),
{
    let mut out: Vec<Json> = Vec::new();
    let mut i: usize = 0;
    while i < items.len()
        invariant
            i <= items@.len(),
            out@.len() == i,
            forall|j: int| 0 <= j < i ==> (#[trigger] out@[j])@ == Tree::Given(items@[j]),
        decreases items.len() - i,
    {
        out.push(Json::Given(items[i].clone()));
        i = i + 1;
    }
    assert(trees(out@) =~= given(items@));
    out
}

/// An array with copies of the given documents.
pub fn array_json(items: &Vec<Json>) -> (r: Json)
    ensures
        r@ == Tree::Array(trees(items@)),
{
    let mut r = Json::array();
    let mut i: usize = 0;
    while i < items.len()
        invariant
            i <= items.len(),
            r@ is Array,
            r@->Array_0 == trees(items@.take(i as int)),
        decreases items.len() - i,
    {
        proof {
            lemma_trees_push(items@.take(i as int), items@[i as int]);
            assert(items@.take(i as int).push(items@[i as int]) =~= items@.take(i + 1));
        }
        r = r.followed_by(items[i].copy());
        i = i + 1;
    }
    assert(items@.take(i as int) =~= items@);
    r
}

/// An object with the entries of a table.
pub fn table_json(table: &Table<Json>) -> (r: Json)
    ensures
        r@ == Tree::Object(table@),
{
    let n = table.len();
    let mut r = Json::object();
    let mut i: usize = 0;
    while i < n
        invariant
            i <= n,
            n == table.keys().len(),
            walks(table),
            r@ is Object,
            forall|k: Seq<char>|
                #[trigger] r@->Object_0.contains_key(k) <==> table.keys().take(i as int).contains(k),
            forall|k: Seq<char>| #[trigger]
                r@->Object_0.contains_key(k) ==> r@->Object_0[k] == table@[k],
        decreases n - i,
    {
        r = r.with(table.key_at(i), table.value_at(i).copy());
        proof {
            lemma_walk_step(table.keys(), i as int);
        }
        i = i + 1;
    }
    proof {
        assert(table.keys().take(i as int) =~= table.keys());
        assert(r@->Object_0 =~= table@);
    }
    r
}

/// A table that says the same.
pub fn copy_table(table: &Table<Json>) -> (r: Table<Json>)
    ensures
        r@ == table@,
{
    let n = table.len();
    let mut r: Table<Json> = Table::new();
    let mut i: usize = 0;
    while i < n
        invariant
            i <= n,
            n == table.keys().len(),
            walks(table),
            forall|k: Seq<char>| #[trigger]
                r@.contains_key(k) <==> table.keys().take(i as int).contains(k),
            forall|k: Seq<char>| #[trigger] r@.contains_key(k) ==> r@[k] == table@[k],
        decreases n - i,
    {
        r.insert(table.key_at(i).clone(), table.value_at(i).copy());
        proof {
            lemma_walk_step(table.keys(), i as int);
        }
        i = i + 1;
    }
    proof {
        assert(table.keys().take(i as int) =~= table.keys());
        assert(r@ =~= table@);
    }
    r
}

/// Reals in a list.
pub open spec fn real_trees(values: Seq<Real>) -> Seq<Tree> {
    values.map_values(|x: Real| real_tree(x))
}

/// An array of reals.
pub fn reals_json(values: &Vec<Real>) -> (r: Json)
    ensures
        r@ == Tree::Array(real_trees(values@)),
{
    let mut list = Json::array();
    let mut i: usize = 0;
    assert(real_trees(values@.take(0)) =~= Seq::empty());
    while i < values.len()
        invariant
            i <= values@.len(),
            list@ is Array,
            list@->Array_0 == real_trees(values@.take(i as int)),
        decreases values.len() - i,
    {
        list = list.followed_by(Json::number(values[i]));
        assert(real_trees(values@.take(i + 1)) =~= real_trees(values@.take(i as int)).push(
            real_tree(values@[i as int]),
        ));
        i = i + 1;
    }
    assert(values@.take(i as int) =~= values@);
    list
}

/// An object with the reals of a table.
pub fn reals_by_key(table: &Table<Real>) -> (r: Json)
    ensures
        r@ == Tree::Object(table@.map_values(|p: Real| real_tree(p))),
{
    let n = table.len();
    let mut r = Json::object();
    let mut i: usize = 0;
    while i < n
        invariant
            i <= n,
            n == table.keys().len(),
            walks(table),
            r@ is Object,
            forall|k: Seq<char>| #[trigger]
                r@->Object_0.contains_key(k) <==> table.keys().take(i as int).contains(k),
            forall|k: Seq<char>| #[trigger]
                r@->Object_0.contains_key(k) ==> r@->Object_0[k] == real_tree(table@[k]),
        decreases n - i,
    {
        r = r.with(table.key_at(i), Json::number(*table.value_at(i)));
        proof {
            lemma_walk_step(table.keys(), i as int);
            assert(table@[table.keys()[i as int]] == table.values()[i as int]@);
        }
        i = i + 1;
    }
    proof {
        assert(table.keys().take(i as int) =~= table.keys());
        assert(r@->Object_0 =~= table@.map_values(|p: Real| real_tree(p)));
    }
    r
}

/// Documents that stand for texts.
pub open spec fn text_trees(list: Seq<Seq<char>>) -> Seq<Tree> {
    list.map_values(|t: Seq<char>| Tree::Text(t))
}

/// An array of texts.
pub fn texts_json(list: &Vec<String>) -> (r: Json)
    ensures
        r@ == Tree::Array(text_trees(texts(list@))),
{
    let ghost all = text_trees(texts(list@));
    let mut r = Json::array();
    let mut i: usize = 0;
    assert(all.take(0) =~= Seq::empty());
    while i < list.len()
        invariant
            i <= list@.len(),
            all == text_trees(texts(list@)),
            r@ is Array,
            r@->Array_0 == all.take(i as int),
        decreases list.len() - i,
    {
        r = r.followed_by(Json::text(&list[i]));
        assert(all.take(i + 1) =~= all.take(i as int).push(Tree::Text(list@[i as int]@)));
        i = i + 1;
    }
    assert(all.take(i as int) =~= all);
    r
}

/// A text, or nothing where there is none.
pub open spec fn text_or_null(t: Option<Seq<char>>) -> Tree {
    match t {
        Some(t) => Tree::Text(t),
        None => Tree::Null,
    }
}

pub fn text_or_null_json(t: &Option<String>) -> (r: Json)
    ensures
        r@ == text_or_null(optional_text(*t)),
{
    match t {
        Some(t) => Json::text(t),
        None => Json::Null,
    }
}

/// Lists and tables say what they hold, each thing at its place.
pub proof fn law_lists_say_what_they_hold(
    items: Seq<serde_json::Value>,
    values: Seq<Real>,
    list: Seq<Seq<char>>,
    text: Option<Seq<char>>,
)
    ensures
        given(items).len() == items.len(),
        forall|i: int| 0 <= i < items.len() ==> #[trigger] given(items)[i] == Tree::Given(items[i]),
        real_trees(values).len() == values.len(),
        forall|i: int|
            0 <= i < values.len() ==> #[trigger] real_trees(values)[i] == real_tree(values[i]),
        text_trees(list).len() == list.len(),
        forall|i: int| 0 <= i < list.len() ==> #[trigger] text_trees(list)[i] == Tree::Text(list[i]),
        text matches Some(t) ==> text_or_null(text) == Tree::Text(t),
        text is None ==> text_or_null(text) == Tree::Null,
{
}

} // verus!
