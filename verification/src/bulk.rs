//! What the tools for long lists share: the list is cut into calls, each call asks one
//! question about each of its items, and the answers are put together in the order of
//! the list.

use crate::chunk::{
    chunk_ranges, chunks, covers, item_sizes, law_calls_cover_the_items, MAX_BULK_ITEMS,
};
use crate::document::given;
use crate::error::{invalid_params_error, Fault, ToolError};
use crate::json::{at, fields_are, Json, Tree};
use crate::text::{decimal, decimal_text, join5};
use vstd::prelude::*;
use vstd::string::*;

verus! {

/// What the names of the questions about items begin with.
pub open spec fn item_prefix() -> Seq<char> {
    "item_"@
}

/// Why a list of `n` items is refused.
pub open spec fn items_fault(n: nat) -> Option<Seq<char>> {
    if n == 0 {
        Some("'items' must contain at least one item"@)
    } else if n > MAX_BULK_ITEMS {
        Some(
            "'items' has "@ + decimal(n) + " entries; the maximum is "@ + decimal(
                MAX_BULK_ITEMS as nat,
            ) + " (split the list into several calls)"@,
        )
    } else {
        None
    }
}

/// The state of a call about items.
pub open spec fn items_tree(items: Seq<serde_json::Value>) -> Tree {
    Tree::Object(map!["items"@ => Tree::Array(given(items))])
}

/// The state of a call about the items `start..end`.
pub fn items_state(items: &Vec<serde_json::Value>, start: usize, end: usize) -> (r: Json)
    requires
        start <= end <= items@.len(),
    ensures
        r@ == items_tree(items@.subrange(start as int, end as int)),
{
    let ghost chunk = items@.subrange(start as int, end as int);
    let mut list = Json::array();
    let mut i: usize = start;
    assert(given(chunk.take(0)) =~= Seq::empty());
    while i < end
        invariant
            start <= i <= end <= items@.len(),
            chunk == items@.subrange(start as int, end as int),
            list@ is Array,
            list@->Array_0 == given(chunk.take(i - start)),
        decreases end - i,
    {
        list = list.followed_by(Json::Given(items[i].clone()));
        assert(given(chunk.take(i + 1 - start)) =~= given(chunk.take(i - start)).push(
            Tree::Given(items@[i as int]),
        ));
        i = i + 1;
    }
    assert(chunk.take(i - start) =~= chunk);
    Json::object().with("items", list)
}

/// The answers about `n` items in one response, or the fault of the first that cannot be
/// read.
pub open spec fn read_each<T>(
    body: Tree,
    n: nat,
    read: spec_fn(Tree, nat) -> Result<T, Fault>,
) -> Result<Seq<T>, Fault>
    decreases n,
{
    if n == 0 {
        Ok(Seq::empty())
    } else {
        match read_each(body, (n - 1) as nat, read) {
            Err(e) => Err(e),
            Ok(all) => match read(body, (n - 1) as nat) {
                Err(e) => Err(e),
                Ok(x) => Ok(all.push(x)),
            },
        }
    }
}

/// A fault among the first answers is the fault of all.
pub proof fn lemma_read_stops<T>(
    body: Tree,
    n: nat,
    m: nat,
    read: spec_fn(Tree, nat) -> Result<T, Fault>,
)
    requires
        n <= m,
        read_each(body, n, read) is Err,
    ensures
        read_each(body, m, read) == read_each(body, n, read),
    decreases m,
{
    if n < m {
        lemma_read_stops(body, n, (m - 1) as nat, read);
    }
}

/// What every answer that can be read meets, all answers meet that were read.
pub proof fn lemma_read_holds<T>(
    body: Tree,
    n: nat,
    read: spec_fn(Tree, nat) -> Result<T, Fault>,
    good: spec_fn(nat, T) -> bool,
)
    requires
        forall|i: nat| i < n && (#[trigger] read(body, i)) is Ok ==> good(i, read(body, i)->Ok_0),
    ensures
        read_each(body, n, read) matches Ok(all) ==> all.len() == n && (forall|i: int|
            0 <= i < n ==> good(i as nat, #[trigger] all[i])),
    decreases n,
{
    if n > 0 {
        lemma_read_holds(body, (n - 1) as nat, read, good);
    }
}

/// The answers in the responses to the first `k` calls, in the order of the items.
pub open spec fn gather<T>(
    ranges: Seq<(usize, usize)>,
    heard: Seq<Tree>,
    k: nat,
    read: spec_fn(Tree, nat) -> Result<T, Fault>,
) -> Result<Seq<T>, Fault>
    decreases k,
{
    if k == 0 {
        Ok(Seq::empty())
    } else {
        match gather(ranges, heard, (k - 1) as nat, read) {
            Err(e) => Err(e),
            Ok(all) => match read_each(
                heard[k - 1],
                (ranges[k - 1].1 - ranges[k - 1].0) as nat,
                read,
            ) {
                Err(e) => Err(e),
                Ok(more) => Ok(all + more),
            },
        }
    }
}

/// Later responses do not change what was gathered.
pub proof fn lemma_gather_keeps<T>(
    ranges: Seq<(usize, usize)>,
    heard: Seq<Tree>,
    body: Tree,
    k: nat,
    read: spec_fn(Tree, nat) -> Result<T, Fault>,
)
    requires
        k <= heard.len(),
    ensures
        gather(ranges, heard.push(body), k, read) == gather(ranges, heard, k, read),
    decreases k,
{
    if k > 0 {
        lemma_gather_keeps(ranges, heard, body, (k - 1) as nat, read);
        assert(heard.push(body)[k - 1] == heard[k - 1]);
    }
}

/// What every answer that can be read meets, all answers meet that were gathered.
pub proof fn lemma_gather_holds<T>(
    ranges: Seq<(usize, usize)>,
    heard: Seq<Tree>,
    k: nat,
    read: spec_fn(Tree, nat) -> Result<T, Fault>,
    good: spec_fn(T) -> bool,
)
    requires
        forall|body: Tree, i: nat| (#[trigger] read(body, i)) is Ok ==> good(read(body, i)->Ok_0),
    ensures
        gather(ranges, heard, k, read) matches Ok(all) ==> (forall|i: int|
            0 <= i < all.len() ==> good(#[trigger] all[i])),
    decreases k,
{
    if k > 0 {
        lemma_gather_holds(ranges, heard, (k - 1) as nat, read, good);
        let n = (ranges[k - 1].1 - ranges[k - 1].0) as nat;
        lemma_read_holds(heard[k - 1], n, read, |i: nat, x: T| good(x));
    }
}

proof fn lemma_read_answers<T>(
    body: Tree,
    n: nat,
    read: spec_fn(Tree, nat) -> Result<T, Fault>,
    from: int,
    judged: spec_fn(int) -> T,
)
    requires
        forall|i: nat| i < n ==> #[trigger] read(body, i) == Ok::<T, Fault>(judged(from + i)),
    ensures
        read_each(body, n, read) == Ok::<Seq<T>, Fault>(
            Seq::new(n, |i: int| judged(from + i)),
        ),
    decreases n,
{
    if n > 0 {
        lemma_read_answers(body, (n - 1) as nat, read, from, judged);
        let m = (n - 1) as nat;
        assert(read(body, m) == Ok::<T, Fault>(judged(from + m)));
        assert(Seq::new(n, |i: int| judged(from + i)) =~= Seq::new(
            m,
            |i: int| judged(from + i),
        ).push(judged(from + m)));
    } else {
        assert(Seq::new(n, |i: int| judged(from + i)) =~= Seq::<T>::empty());
    }
}

/// What one more response adds to what was gathered.
proof fn lemma_gather_step<T>(
    ranges: Seq<(usize, usize)>,
    heard: Seq<Tree>,
    k: nat,
    read: spec_fn(Tree, nat) -> Result<T, Fault>,
    judged: spec_fn(int) -> T,
)
    requires
        0 < k <= ranges.len(),
        ranges[k - 1].0 <= ranges[k - 1].1,
        gather(ranges, heard, (k - 1) as nat, read) == Ok::<Seq<T>, Fault>(
            Seq::new(ranges[k - 1].0 as nat, judged),
        ),
        forall|i: nat|
            i < ranges[k - 1].1 - ranges[k - 1].0 ==> #[trigger] read(heard[k - 1], i) == Ok::<
                T,
                Fault,
            >(judged(ranges[k - 1].0 + i)),
    ensures
        gather(ranges, heard, k, read) == Ok::<Seq<T>, Fault>(
            Seq::new(ranges[k - 1].1 as nat, judged),
        ),
{
    let from = ranges[k - 1].0 as int;
    let to = ranges[k - 1].1 as int;
    lemma_read_answers(heard[k - 1], (to - from) as nat, read, from, judged);
    assert(Seq::new(to as nat, judged) =~= Seq::new(from as nat, judged) + Seq::new(
        (to - from) as nat,
        |i: int| judged(from + i),
    ));
}

/// The cutting into calls cannot be seen in what is gathered: where each call answers its
/// questions with what the items deserve, the item `i` of the list gets what it deserves
/// at the place `i`, however many calls were made and wherever they were cut.
pub proof fn law_calls_are_invisible<T>(
    sizes: Seq<usize>,
    heard: Seq<Tree>,
    k: nat,
    read: spec_fn(Tree, nat) -> Result<T, Fault>,
    judged: spec_fn(int) -> T,
)
    requires
        sizes.len() <= usize::MAX,
        k <= chunks(sizes, 0).len(),
        k <= heard.len(),
        forall|c: int, i: nat|
            0 <= c < k && i < chunks(sizes, 0)[c].1 - chunks(sizes, 0)[c].0 ==> #[trigger] read(
                heard[c],
                i,
            ) == Ok::<T, Fault>(judged(chunks(sizes, 0)[c].0 + i)),
    ensures
        gather(chunks(sizes, 0), heard, k, read) == Ok::<Seq<T>, Fault>(
            Seq::new(
                (if k < chunks(sizes, 0).len() {
                    chunks(sizes, 0)[k as int].0 as int
                } else {
                    sizes.len() as int
                }) as nat,
                judged,
            ),
        ),
    decreases k,
{
    let ranges = chunks(sizes, 0);
    law_calls_cover_the_items(sizes, 0);
    if k > 0 {
        let c = k - 1;
        law_calls_are_invisible(sizes, heard, (k - 1) as nat, read, judged);
        assert(ranges[c].0 < ranges[c].1);
        lemma_gather_step(ranges, heard, k, read, judged);
    } else {
        assert(Seq::new(0, judged) =~= Seq::<T>::empty());
    }
}

/// A list on its way through the calls.
pub struct Bulk {
    pub items: Vec<serde_json::Value>,
    /// The calls, each as the range of items that it is about.
    pub ranges: Vec<(usize, usize)>,
    /// How many calls have been answered.
    pub done: usize,
    /// The responses so far.
    pub heard: Ghost<Seq<Tree>>,
}

impl Bulk {
    pub open spec fn wf(&self) -> bool {
        &&& 1 <= self.items@.len() <= MAX_BULK_ITEMS
        &&& self.ranges@ == chunks(item_sizes(self.items@), 0)
        &&& self.done <= self.ranges@.len()
        &&& self.heard@.len() == self.done
    }

    /// Whether a call is still to be made.
    pub open spec fn pending(&self) -> bool {
        self.done < self.ranges@.len()
    }

    /// How many items the answered calls were about.
    pub open spec fn reached(&self) -> int {
        if self.pending() {
            self.ranges@[self.done as int].0 as int
        } else {
            self.items@.len() as int
        }
    }

    /// How many items the next call is about.
    pub open spec fn width(&self) -> nat {
        (self.ranges@[self.done as int].1 - self.ranges@[self.done as int].0) as nat
    }

    /// The items that the next call is about.
    pub open spec fn chunk(&self) -> Seq<serde_json::Value> {
        self.items@.subrange(
            self.ranges@[self.done as int].0 as int,
            self.ranges@[self.done as int].1 as int,
        )
    }

    /// Where the list stands after one more response.
    pub open spec fn heard_one(&self, now: &Bulk, body: Tree) -> bool {
        &&& now.items == self.items
        &&& now.ranges == self.ranges
        &&& now.done == self.done + 1
        &&& now.heard@ == self.heard@.push(body)
    }

    /// The next range lies within the items.
    pub proof fn lemma_range(&self)
        requires
            self.wf(),
            self.pending(),
        ensures
            self.ranges@[self.done as int].0 < self.ranges@[self.done as int].1,
            self.ranges@[self.done as int].1 <= self.items@.len(),
            self.chunk().len() == self.width(),
    {
        let sizes = item_sizes(self.items@);
        law_calls_cover_the_items(sizes, 0);
        lemma_covered(self.ranges@, 0, sizes.len() as int, self.done as int);
    }

    pub fn new(items: Vec<serde_json::Value>) -> (r: Result<Bulk, ToolError>)
        ensures
            match r {
                Ok(bulk) => items_fault(items@.len()) is None && bulk.wf() && bulk.items == items
                    && bulk.done == 0 && bulk.reached() == 0,
                Err(e) => items_fault(items@.len()) is Some && e@ == Fault::InvalidParams(
                    items_fault(items@.len())->0,
                ),
            },
    {
        if items.len() == 0 {
            return Err(invalid_params_error("'items' must contain at least one item".to_string()));
        }
        if items.len() > MAX_BULK_ITEMS {
            return Err(
                invalid_params_error(
                    join5(
                        "'items' has ",
                        &decimal_text(items.len() as u64),
                        " entries; the maximum is ",
                        &decimal_text(MAX_BULK_ITEMS as u64),
                        " (split the list into several calls)",
                    ),
                ),
            );
        }
        let ranges = chunk_ranges(&items);
        proof {
            law_calls_cover_the_items(item_sizes(items@), 0);
        }
        Ok(Bulk { items, ranges, done: 0, heard: Ghost(Seq::empty()) })
    }

    /// The range of the next call.
    pub fn next_range(&self) -> (r: Option<(usize, usize)>)
        requires
            self.wf(),
        ensures
            match r {
                Some(range) => self.pending() && range == self.ranges@[self.done as int] && range.0
                    < range.1 <= self.items@.len(),
                None => !self.pending(),
            },
    {
        if self.done < self.ranges.len() {
            proof {
                self.lemma_range();
            }
            Some(self.ranges[self.done])
        } else {
            None
        }
    }
}

impl Bulk {
    /// Counts the response to the next call.
    pub fn note(&mut self, body: &Json)
        requires
            old(self).wf(),
            old(self).pending(),
        ensures
            final(self).wf(),
            old(self).heard_one(final(self), body@),
            final(self).reached() == old(self).reached() + old(self).width(),
    {
        proof {
            self.lemma_range();
            law_calls_cover_the_items(item_sizes(self.items@), 0);
        }
        assert(self.ranges@.len() == self.ranges.len());
        self.done = self.done + 1;
        self.heard = Ghost(self.heard@.push(body@));
    }
}

/// A range among ranges that follow one another lies between their ends.
proof fn lemma_covered(ranges: Seq<(usize, usize)>, from: int, to: int, k: int)
    requires
        covers(ranges, from, to),
        0 <= k < ranges.len(),
    ensures
        from <= ranges[k].0,
        ranges[k].1 <= to,
    decreases ranges.len() - k,
{
    lemma_covered_below(ranges, from, to, k);
    if k < ranges.len() - 1 {
        assert(ranges[k].1 == ranges[k + 1].0);
        lemma_covered(ranges, from, to, k + 1);
        assert(ranges[k + 1].0 < ranges[k + 1].1);
    }
}

proof fn lemma_covered_below(ranges: Seq<(usize, usize)>, from: int, to: int, k: int)
    requires
        covers(ranges, from, to),
        0 <= k < ranges.len(),
    ensures
        from <= ranges[k].0,
    decreases k,
{
    if k > 0 {
        lemma_covered_below(ranges, from, to, k - 1);
        assert(ranges[k - 1].0 < ranges[k - 1].1);
        assert(ranges[k - 1].1 == ranges[k - 1 + 1].0);
    }
}

/// A list is refused exactly where it is empty or holds more than 1000 items.
pub proof fn law_lists_within_limits(n: nat)
    ensures
        items_fault(n) is None <==> 1 <= n <= 1000,
        n == 0 ==> items_fault(n) == Some("'items' must contain at least one item"@),
        n > 1000 ==> items_fault(n) == Some(
            "'items' has "@ + decimal(n) + " entries; the maximum is "@ + decimal(1000)
                + " (split the list into several calls)"@,
        ),
{
}

/// The state of a call about items is those items, in their order, and nothing else.
pub proof fn law_items_are_sent(items: Seq<serde_json::Value>)
    ensures
        ({
            let state = items_tree(items);
            &&& fields_are(state, set!["items"@])
            &&& at(state, "items"@) is Array
            &&& at(state, "items"@)->Array_0.len() == items.len()
            &&& forall|i: int|
                0 <= i < items.len() ==> #[trigger] at(state, "items"@)->Array_0[i] == Tree::Given(
                    items[i],
                )
        }),
{
    assert(items_tree(items)->Object_0.dom() =~= set!["items"@]);
}

/// Answers are read one and all or not at all: each as it is read by itself, at its own
/// place; and where one cannot be read, the fault is that of the first that cannot.
pub proof fn law_answers_are_read_in_turn<T>(
    body: Tree,
    n: nat,
    read: spec_fn(Tree, nat) -> Result<T, Fault>,
)
    ensures
        read_each(body, n, read) is Ok <==> (forall|i: nat|
            i < n ==> (#[trigger] read(body, i)) is Ok),
        read_each(body, n, read) matches Ok(all) ==> all.len() == n && (forall|i: nat|
            i < n ==> #[trigger] read(body, i) == Ok::<T, Fault>(all[i as int])),
        read_each(body, n, read) matches Err(e) ==> exists|i: nat|
            i < n && #[trigger] read(body, i) == Err::<T, Fault>(e) && (forall|j: nat|
                j < i ==> (#[trigger] read(body, j)) is Ok),
    decreases n,
{
    if n > 0 {
        let m = (n - 1) as nat;
        law_answers_are_read_in_turn(body, m, read);
        let before = read_each(body, m, read);
        if before is Err {
            let e = before->Err_0;
            let i = choose|i: nat|
                i < m && #[trigger] read(body, i) == Err::<T, Fault>(e) && (forall|j: nat|
                    j < i ==> (#[trigger] read(body, j)) is Ok);
            assert(i < n && read(body, i) == Err::<T, Fault>(e));
        } else if read(body, m) is Err {
            assert(read(body, m) == Err::<T, Fault>(read(body, m)->Err_0));
        } else {
            let all = read_each(body, n, read)->Ok_0;
            assert forall|i: nat| i < n implies #[trigger] read(body, i) == Ok::<T, Fault>(
                all[i as int],
            ) by {
                if i < m {
                    assert(before->Ok_0[i as int] == all[i as int]);
                }
            }
        }
    }
}

/// What is gathered from calls is what each call's response gives, call after call; and
/// where one cannot be read, the fault is that of the first call that cannot.
pub proof fn law_calls_are_gathered_in_turn<T>(
    ranges: Seq<(usize, usize)>,
    heard: Seq<Tree>,
    k: nat,
    read: spec_fn(Tree, nat) -> Result<T, Fault>,
)
    ensures
        gather(ranges, heard, 0, read) == Ok::<Seq<T>, Fault>(Seq::empty()),
        gather(ranges, heard, k, read) matches Err(e) ==> exists|c: int|
            0 <= c < k && read_each(
                #[trigger] heard[c],
                (ranges[c].1 - ranges[c].0) as nat,
                read,
            ) == Err::<Seq<T>, Fault>(e) && gather(ranges, heard, c as nat, read) is Ok,
        k > 0 && gather(ranges, heard, k, read) is Ok ==> {
            let last = read_each(
                heard[k - 1],
                (ranges[k - 1].1 - ranges[k - 1].0) as nat,
                read,
            );
            let before = gather(ranges, heard, (k - 1) as nat, read);
            let all = gather(ranges, heard, k, read)->Ok_0;
            &&& before is Ok
            &&& last is Ok
            &&& all.len() == before->Ok_0.len() + last->Ok_0.len()
            &&& forall|i: int| 0 <= i < before->Ok_0.len() ==> all[i] == before->Ok_0[i]
            &&& forall|i: int|
                0 <= i < last->Ok_0.len() ==> all[before->Ok_0.len() + i] == last->Ok_0[i]
        },
    decreases k,
{
    if k > 0 {
        law_calls_are_gathered_in_turn(ranges, heard, (k - 1) as nat, read);
        let before = gather(ranges, heard, (k - 1) as nat, read);
        if before is Err {
            let e = before->Err_0;
            let c = choose|c: int|
                0 <= c < k - 1 && read_each(
                    #[trigger] heard[c],
                    (ranges[c].1 - ranges[c].0) as nat,
                    read,
                ) == Err::<Seq<T>, Fault>(e) && gather(ranges, heard, c as nat, read) is Ok;
            assert(0 <= c < k);
        } else {
            assert(gather(ranges, heard, (k - 1) as nat, read) is Ok);
        }
    }
}

/// The next call is about the items that follow those of the calls before, up to the end of
/// its range.
pub proof fn law_next_items(bulk: &Bulk)
    requires
        bulk.wf(),
    ensures
        bulk.pending() <==> bulk.reached() < bulk.items@.len(),
        bulk.pending() ==> {
            &&& bulk.chunk().len() == bulk.width()
            &&& 1 <= bulk.width() <= 200
            &&& bulk.reached() + bulk.width() <= bulk.items@.len()
            &&& forall|i: int|
                0 <= i < bulk.width() ==> #[trigger] bulk.chunk()[i] == bulk.items@[bulk.reached()
                    + i]
        },
        !bulk.pending() ==> bulk.reached() == bulk.items@.len(),
        bulk.done == 0 ==> bulk.reached() == 0,
{
    let sizes = item_sizes(bulk.items@);
    law_calls_cover_the_items(sizes, 0);
    if bulk.pending() {
        bulk.lemma_range();
    }
}

} // verus!
