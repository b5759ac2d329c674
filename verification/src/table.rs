//! Maps from text, walked in the order of their keys.

use crate::text::{
    before, comes_before, lemma_before_irreflexive, lemma_before_total, lemma_before_transitive,
    same_text,
};
use vstd::prelude::*;

verus! {

/// Whether each text comes before all that follow it.
pub open spec fn ascending(keys: Seq<Seq<char>>) -> bool {
    forall|i: int, j: int| 0 <= i < j < keys.len() ==> before(#[trigger] keys[i], #[trigger] keys[j])
}

/// A map from text to `V`.
pub struct Table<V> {
    entries: Vec<(String, V)>,
}

impl<V> Table<V> {
    /// The keys in their order.
    pub closed spec fn keys(&self) -> Seq<Seq<char>> {
        Seq::new(self.entries@.len(), |i: int| self.entries@[i].0@)
    }

    /// The values in the order of their keys.
    pub closed spec fn values(&self) -> Seq<V> {
        Seq::new(self.entries@.len(), |i: int| self.entries@[i].1)
    }

    #[verifier::type_invariant]
    closed spec fn sorted(&self) -> bool {
        ascending(self.keys())
    }
}

impl<V: View> View for Table<V> {
    type V = Map<Seq<char>, V::V>;

    /// The map.
    closed spec fn view(&self) -> Map<Seq<char>, V::V> {
        Map::new(
            |k: Seq<char>| self.keys().contains(k),
            |k: Seq<char>| self.values()[self.keys().index_of(k)]@,
        )
    }
}

/// How the map of a table and its walk belong together: the walk meets each key once, in
/// ascending order, and the value beside the key is what the map holds there.
pub open spec fn walks<V: View>(table: &Table<V>) -> bool {
    &&& table.keys().len() == table.values().len()
    &&& ascending(table.keys())
    &&& table.keys().no_duplicates()
    &&& forall|i: int|
        0 <= i < table.keys().len() ==> table@.contains_key(#[trigger] table.keys()[i])
            && table@[table.keys()[i]] == table.values()[i]@
    &&& forall|k: Seq<char>| #[trigger]
        table@.contains_key(k) ==> table.keys().contains(k)
    &&& table@.dom().finite()
    &&& table@.len() == table.keys().len()
}

/// Texts in ascending order are all different.
pub proof fn lemma_ascending_distinct(keys: Seq<Seq<char>>)
    requires
        ascending(keys),
    ensures
        keys.no_duplicates(),
{
    assert forall|i: int, j: int|
        0 <= i < keys.len() && 0 <= j < keys.len() && i != j implies keys[i] != keys[j] by {
        if i < j {
            assert(before(keys[i], keys[j]));
        } else {
            assert(before(keys[j], keys[i]));
        }
        lemma_before_irreflexive(keys[i]);
    }
}

/// A set of texts has one ascending order.
pub proof fn lemma_ascending_unique(a: Seq<Seq<char>>, b: Seq<Seq<char>>)
    requires
        ascending(a),
        ascending(b),
        a.to_set() == b.to_set(),
    ensures
        a == b,
    decreases a.len(),
{
    lemma_ascending_distinct(a);
    lemma_ascending_distinct(b);
    a.unique_seq_to_set();
    b.unique_seq_to_set();
    if a.len() > 0 {
        assert(a.last() == b.last()) by {
            assert(a.to_set().contains(a.last()));
            assert(b.to_set().contains(b.last()));
            assert(b.contains(a.last()));
            assert(a.contains(b.last()));
            let i = b.index_of(a.last());
            let j = a.index_of(b.last());
            if a.last() != b.last() {
                assert(before(b[i], b[b.len() - 1]));
                assert(before(a[j], a[a.len() - 1]));
                lemma_before_transitive(a.last(), b.last(), a.last());
                lemma_before_irreflexive(a.last());
            }
        }
        let x = a.drop_last();
        let y = b.drop_last();
        assert(x.to_set() =~= y.to_set()) by {
            assert forall|k: Seq<char>| x.to_set().contains(k) implies y.to_set().contains(k) by {
                let i = x.index_of(k);
                assert(a[i] == k);
                assert(a.to_set().contains(k));
                assert(b.contains(k));
                let j = b.index_of(k);
                assert(a[i] != a[a.len() - 1]);
                assert(y[j] == k);
            }
            assert forall|k: Seq<char>| y.to_set().contains(k) implies x.to_set().contains(k) by {
                let i = y.index_of(k);
                assert(b[i] == k);
                assert(b.to_set().contains(k));
                assert(a.contains(k));
                let j = a.index_of(k);
                assert(b[i] != b[b.len() - 1]);
                assert(x[j] == k);
            }
        }
        lemma_ascending_unique(x, y);
        assert(a =~= x.push(a.last()));
        assert(b =~= y.push(b.last()));
    }
}

/// Texts in their order.
pub open spec fn in_order(texts: Set<Seq<char>>) -> Seq<Seq<char>> {
    choose|keys: Seq<Seq<char>>| ascending(keys) && keys.to_set() == texts
}

/// Where a text belongs among texts in ascending order.
proof fn lemma_place_exists(keys: Seq<Seq<char>>, text: Seq<char>) -> (p: int)
    requires
        ascending(keys),
        !keys.contains(text),
    ensures
        0 <= p <= keys.len(),
        ascending(keys.insert(p, text)),
    decreases keys.len(),
{
    if keys.len() == 0 || before(keys.last(), text) {
        let p = keys.len() as int;
        let made = keys.insert(p, text);
        assert forall|i: int, j: int| 0 <= i < j < made.len() implies before(
            #[trigger] made[i],
            #[trigger] made[j],
        ) by {
            if j == p && i < p - 1 {
                assert(before(keys[i], keys[p - 1]));
                lemma_before_transitive(keys[i], keys.last(), text);
            }
        }
        p
    } else {
        let fewer = keys.drop_last();
        assert forall|i: int| 0 <= i < fewer.len() implies fewer[i] != text by {
            assert(keys[i] != text);
        }
        let p = lemma_place_exists(fewer, text);
        let some = fewer.insert(p, text);
        let made = keys.insert(p, text);
        assert(keys[keys.len() - 1] != text);
        lemma_before_total(keys.last(), text);
        assert(made =~= some.push(keys.last()));
        assert forall|i: int, j: int| 0 <= i < j < made.len() implies before(
            #[trigger] made[i],
            #[trigger] made[j],
        ) by {
            if j < made.len() - 1 {
                assert(made[i] == some[i] && made[j] == some[j]);
            } else if i != p {
                let k = if i < p {
                    i
                } else {
                    i - 1
                };
                assert(made[i] == keys[k]);
                assert(before(keys[k], keys[keys.len() - 1]));
            }
        }
        p
    }
}

/// Finitely many texts have an order.
pub proof fn lemma_in_order(all: Set<Seq<char>>)
    requires
        all.finite(),
    ensures
        ascending(in_order(all)),
        in_order(all).to_set() == all,
    decreases all.len(),
{
    let keys = if all.len() == 0 {
        assert(Seq::<Seq<char>>::empty().to_set() =~= all);
        Seq::<Seq<char>>::empty()
    } else {
        let text = all.choose();
        let rest = all.remove(text);
        lemma_in_order(rest);
        let fewer = in_order(rest);
        assert(!fewer.contains(text)) by {
            if fewer.contains(text) {
                assert(fewer.to_set().contains(text));
            }
        }
        let p = lemma_place_exists(fewer, text);
        let made = fewer.insert(p, text);
        assert(made.to_set() =~= all) by {
            assert forall|k: Seq<char>| all.contains(k) implies made.to_set().contains(k) by {
                if k == text {
                    assert(made[p] == k);
                } else {
                    assert(fewer.to_set().contains(k));
                    let i = fewer.index_of(k);
                    assert(made[if i < p {
                        i
                    } else {
                        i + 1
                    }] == k);
                }
            }
            assert forall|k: Seq<char>| made.to_set().contains(k) implies all.contains(k) by {
                let i = made.index_of(k);
                if i != p {
                    let j = if i < p {
                        i
                    } else {
                        i - 1
                    };
                    assert(fewer[j] == k);
                    assert(fewer.to_set().contains(k));
                }
            }
        }
        made
    };
    assert(ascending(keys) && keys.to_set() == all);
}

/// A table is walked in the order of its keys.
pub proof fn lemma_walk_in_order<V: View>(table: &Table<V>)
    requires
        walks(table),
    ensures
        table.keys() == in_order(table@.dom()),
{
    assert(table.keys().to_set() =~= table@.dom()) by {
        assert forall|k: Seq<char>| table.keys().to_set().contains(k) implies table@.dom().contains(
            k,
        ) by {
            let i = table.keys().index_of(k);
            assert(table@.contains_key(table.keys()[i]));
        }
        assert forall|k: Seq<char>| table@.dom().contains(k) implies table.keys().to_set().contains(
            k,
        ) by {
            assert(table@.contains_key(k));
        }
    }
    lemma_ascending_unique(table.keys(), in_order(table@.dom()));
}

/// One step of a walk: what has been met after it.
pub proof fn lemma_walk_step(keys: Seq<Seq<char>>, i: int)
    requires
        0 <= i < keys.len(),
    ensures
        forall|k: Seq<char>| #[trigger]
            keys.take(i + 1).contains(k) <==> keys.take(i).contains(k) || k == keys[i],
        keys.no_duplicates() ==> !keys.take(i).contains(keys[i]),
        keys.take(i + 1) == keys.take(i).push(keys[i]),
{
    assert(keys.take(i + 1) =~= keys.take(i).push(keys[i]));
    assert forall|k: Seq<char>| #[trigger] keys.take(i + 1).contains(k) <==> keys.take(i).contains(k) || k
        == keys[i] by {
        if keys.take(i).contains(k) {
            let j = keys.take(i).index_of(k);
            assert(keys.take(i + 1)[j] == k);
        }
        if k == keys[i] {
            assert(keys.take(i + 1)[i] == k);
        }
        if keys.take(i + 1).contains(k) && k != keys[i] {
            let j = keys.take(i + 1).index_of(k);
            assert(keys.take(i)[j] == k);
        }
    }
    if keys.no_duplicates() && keys.take(i).contains(keys[i]) {
        let j = keys.take(i).index_of(keys[i]);
        assert(keys[j] == keys[i]);
    }
}

impl<V: View> Table<V> {
    proof fn lemma_walks(&self)
        requires
            self.sorted(),
        ensures
            walks(self),
    {
        lemma_ascending_distinct(self.keys());
        assert forall|i: int| 0 <= i < self.keys().len() implies self@.contains_key(
            #[trigger] self.keys()[i],
        ) && self@[self.keys()[i]] == self.values()[i]@ by {
            assert(self.keys().contains(self.keys()[i]));
            assert(self.keys().index_of(self.keys()[i]) == i);
        }
        assert(self@.dom() =~= self.keys().to_set());
        self.keys().unique_seq_to_set();
    }

    /// The map without keys.
    pub fn new() -> (r: Self)
        ensures
            r@ == Map::<Seq<char>, V::V>::empty(),
            walks(&r),
    {
        let r = Table { entries: Vec::new() };
        proof {
            use_type_invariant(&r);
            r.lemma_walks();
            assert(r@ =~= Map::empty());
        }
        r
    }

    /// How many keys the map has.
    pub fn len(&self) -> (r: usize)
        ensures
            r == self.keys().len(),
            r == self@.len(),
            walks(self),
    {
        proof {
            use_type_invariant(self);
            self.lemma_walks();
        }
        self.entries.len()
    }

    pub fn is_empty(&self) -> (r: bool)
        ensures
            r == (self@.len() == 0),
            walks(self),
    {
        self.len() == 0
    }

    /// The key at the place `i` of the walk.
    pub fn key_at(&self, i: usize) -> (r: &String)
        requires
            i < self.keys().len(),
        ensures
            r@ == self.keys()[i as int],
    {
        &self.entries[i].0
    }

    /// The value at the place `i` of the walk.
    pub fn value_at(&self, i: usize) -> (r: &V)
        requires
            i < self.keys().len(),
        ensures
            *r == self.values()[i as int],
    {
        &self.entries[i].1
    }

    /// The place of `key`, or the place at which it belongs.
    fn place_of(&self, key: &str) -> (r: (bool, usize))
        ensures
            r.1 <= self.keys().len(),
            r.0 == self.keys().contains(key@),
            r.0 ==> r.1 < self.keys().len() && self.keys()[r.1 as int] == key@,
            !r.0 ==> (forall|i: int| 0 <= i < r.1 ==> before(#[trigger] self.keys()[i], key@)),
            !r.0 ==> (forall|i: int|
                r.1 <= i < self.keys().len() ==> before(key@, #[trigger] self.keys()[i])),
    {
        proof {
            use_type_invariant(self);
        }
        let mut i: usize = 0;
        while i < self.entries.len() && comes_before(&self.entries[i].0, key)
            invariant
                i <= self.entries.len(),
                self.sorted(),
                forall|j: int| 0 <= j < i ==> before(#[trigger] self.keys()[j], key@),
            decreases self.entries.len() - i,
        {
            assert(self.keys()[i as int] == self.entries@[i as int].0@);
            i = i + 1;
        }
        assert forall|j: int| 0 <= j < i implies #[trigger] self.keys()[j] != key@ by {
            assert(before(self.keys()[j], key@));
            lemma_before_irreflexive(key@);
        }
        if i < self.entries.len() && same_text(&self.entries[i].0, key) {
            assert(self.keys()[i as int] == key@);
            (true, i)
        } else {
            proof {
                if i < self.entries.len() {
                    assert(self.keys()[i as int] == self.entries@[i as int].0@);
                    lemma_before_total(self.keys()[i as int], key@);
                    assert forall|j: int| i <= j < self.keys().len() implies before(
                        key@,
                        #[trigger] self.keys()[j],
                    ) by {
                        if i < j {
                            assert(before(self.keys()[i as int], self.keys()[j]));
                            lemma_before_transitive(key@, self.keys()[i as int], self.keys()[j]);
                        }
                    }
                }
                assert forall|j: int| 0 <= j < self.keys().len() implies #[trigger] self.keys()[j]
                    != key@ by {
                    lemma_before_irreflexive(key@);
                }
            }
            (false, i)
        }
    }

    /// The value at `key`.
    pub fn get(&self, key: &str) -> (r: Option<&V>)
        ensures
            match r {
                Some(v) => self@.contains_key(key@) && self@[key@] == v@,
                None => !self@.contains_key(key@),
            },
    {
        let (found, i) = self.place_of(key);
        proof {
            use_type_invariant(self);
            self.lemma_walks();
        }
        if found {
            Some(&self.entries[i].1)
        } else {
            None
        }
    }

    pub fn contains_key(&self, key: &str) -> (r: bool)
        ensures
            r == self@.contains_key(key@),
    {
        self.get(key).is_some()
    }

    /// Sets the value at `key`.
    pub fn insert(&mut self, key: String, value: V)
        ensures
            final(self)@ == old(self)@.insert(key@, value@),
            walks(final(self)),
    {
        proof {
            use_type_invariant(&*self);
            self.lemma_walks();
        }
        let ghost old_keys = self.keys();
        let ghost old_values = self.values();
        let ghost old_map = self@;
        let (found, i) = self.place_of(&key);
        let mut entries: Vec<(String, V)> = Vec::new();
        std::mem::swap(&mut entries, &mut self.entries);
        let entry = (key, value);
        if found {
            entries.set(i, entry);
        } else {
            entries.insert(i, entry);
        }
        let ghost made = Table { entries };
        proof {
            assert(forall|j: int| 0 <= j < made.keys().len() ==> #[trigger] made.keys()[j] == made.entries@[j].0@);
            if found {
                assert(made.keys() =~= old_keys);
            } else {
                assert(made.keys() =~= old_keys.insert(i as int, entry.0@));
                assert(ascending(made.keys()));
            }
            made.lemma_walks();
        }
        self.entries = entries;
        proof {
            let m = old_map.insert(entry.0@, entry.1@);
            assert(made.keys()[i as int] == entry.0@);
            assert(made.values()[i as int] == entry.1);
            assert forall|k: Seq<char>| #[trigger] made@.contains_key(k) implies m.contains_key(k)
                && m[k] == made@[k] by {
                let j = made.keys().index_of(k);
                assert(made.keys()[j] == k);
                assert(made@[k] == made.values()[j]@);
                if j != i {
                    let l = if found || j < i {
                        j
                    } else {
                        j - 1
                    };
                    assert(old_keys[l] == k);
                    assert(old_values[l] == made.values()[j]);
                }
            }
            assert forall|k: Seq<char>| #[trigger] m.contains_key(k) implies made@.contains_key(k) by {
                if k != entry.0@ {
                    let l = old_keys.index_of(k);
                    let j = if found || l < i {
                        l
                    } else {
                        l + 1
                    };
                    assert(made.keys()[j] == k);
                }
            }
            assert(made@ =~= m);
        }
    }
}

} // verus!
