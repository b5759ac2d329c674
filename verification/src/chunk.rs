//! How a list of items is cut into calls.

use crate::json::{compact_text, encode};
use vstd::prelude::*;
use vstd::string::*;
use vstd::utf8::encode_utf8;

verus! {

/// The most items that a bulk tool takes.
pub const MAX_BULK_ITEMS: usize = 1000;

/// How much encoded text the items of one call may hold together.
pub const CHUNK_CHARS: usize = 64_000;

/// The most questions that one call asks.
pub const MAX_QUESTIONS_PER_CALL: usize = 200;

/// What an item adds to the encoded text of a call beside its own text.
pub const ITEM_OVERHEAD: usize = 8;

/// The size of an item that has no encoding.
pub const UNENCODED_SIZE: usize = 64;

/// The size of the items `from..to` together.
pub open spec fn total(sizes: Seq<usize>, from: int, to: int) -> int
    decreases to - from,
{
    if to <= from {
        0
    } else {
        total(sizes, from, to - 1) + sizes[to - 1]
    }
}

/// Whether a call that holds the items `start..i` is full before the item `i`: that item
/// would take the text of the call past its limit, or the call holds as many items as
/// one may. A call that holds nothing is never full.
pub open spec fn full(sizes: Seq<usize>, start: int, i: int) -> bool {
    i > start && (total(sizes, start, i) + sizes[i] > CHUNK_CHARS || i - start
        >= MAX_QUESTIONS_PER_CALL)
}

/// Where the call that begins at `start` ends, given that it holds the items up to `i`.
pub open spec fn chunk_end(sizes: Seq<usize>, start: int, i: int) -> int
    decreases sizes.len() - i,
{
    if i >= sizes.len() || full(sizes, start, i) {
        i
    } else {
        chunk_end(sizes, start, i + 1)
    }
}

/// The end of a call lies behind where the search for it began.
pub proof fn lemma_chunk_end(sizes: Seq<usize>, start: int, i: int)
    requires
        0 <= start <= i <= sizes.len(),
    ensures
        i <= chunk_end(sizes, start, i) <= sizes.len(),
        chunk_end(sizes, start, i) == sizes.len() || full(
            sizes,
            start,
            chunk_end(sizes, start, i),
        ),
        forall|j: int| i <= j < chunk_end(sizes, start, i) ==> !#[trigger] full(sizes, start, j),
    decreases sizes.len() - i,
{
    if i < sizes.len() && !full(sizes, start, i) {
        lemma_chunk_end(sizes, start, i + 1);
    }
}

/// The calls, each as the range of items that it holds, from the item `start` on: each
/// call takes items, in order, until it is full.
pub open spec fn chunks(sizes: Seq<usize>, start: int) -> Seq<(usize, usize)>
    decreases sizes.len() - start,
    when 0 <= start <= sizes.len()
    via chunks_shrink
{
    if start == sizes.len() {
        Seq::empty()
    } else {
        let end = chunk_end(sizes, start, start);
        seq![(start as usize, end as usize)] + chunks(sizes, end)
    }
}

#[via_fn]
proof fn chunks_shrink(sizes: Seq<usize>, start: int) {
    if start < sizes.len() {
        assert(!full(sizes, start, start));
        lemma_chunk_end(sizes, start, start + 1);
    }
}

/// Sizes do not lower a total.
proof fn lemma_total_grows(sizes: Seq<usize>, from: int, to: int)
    ensures
        total(sizes, from, to) >= 0,
    decreases to - from,
{
    if to > from {
        lemma_total_grows(sizes, from, to - 1);
    }
}

/// Cuts items of the given sizes into calls.
pub fn chunk_ranges_by_size(sizes: &Vec<usize>) -> (r: Vec<(usize, usize)>)
    ensures
        r@ == chunks(sizes@, 0),
{
    let mut ranges: Vec<(usize, usize)> = Vec::new();
    let mut start: usize = 0;
    let mut chars: usize = 0;
    let mut i: usize = 0;
    while i < sizes.len()
        invariant
            start <= i <= sizes.len(),
            i == 0 || start < i,
            chars == (if total(sizes@, start as int, i as int) <= usize::MAX {
                total(sizes@, start as int, i as int)
            } else {
                usize::MAX as int
            }),
            chunk_end(sizes@, start as int, start as int) == chunk_end(
                sizes@,
                start as int,
                i as int,
            ),
            ranges@ + chunks(sizes@, start as int) == chunks(sizes@, 0),
        decreases sizes.len() - i,
    {
        let size = sizes[i];
        proof {
            lemma_total_grows(sizes@, start as int, i as int);
        }
        if i > start && (chars > CHUNK_CHARS || size > CHUNK_CHARS - chars || i - start
            >= MAX_QUESTIONS_PER_CALL) {
            assert(full(sizes@, start as int, i as int));
            let ghost before = ranges@;
            ranges.push((start, i));
            proof {
                assert(chunks(sizes@, start as int) == seq![(start, i)] + chunks(sizes@, i as int));
                assert(ranges@ + chunks(sizes@, i as int) =~= before + chunks(
                    sizes@,
                    start as int,
                ));
            }
            start = i;
            chars = 0;
            assert(!full(sizes@, start as int, i as int));
        }
        chars = if size > usize::MAX - chars {
            usize::MAX
        } else {
            chars + size
        };
        assert(total(sizes@, start as int, i + 1) == total(sizes@, start as int, i as int) + size);
        i = i + 1;
    }
    if start < sizes.len() {
        let ghost before = ranges@;
        ranges.push((start, sizes.len()));
        proof {
            assert(chunks(sizes@, sizes@.len() as int) == Seq::<(usize, usize)>::empty());
            assert(ranges@ =~= before + chunks(sizes@, start as int));
        }
    } else {
        assert(ranges@ + chunks(sizes@, start as int) =~= ranges@);
    }
    ranges
}

/// The size of an item: the bytes of its compact encoding and what surrounds it.
pub open spec fn item_size(item: serde_json::Value) -> usize {
    match compact_text(item) {
        Some(text) => {
            let bytes = encode_utf8(text).len() as usize;
            if bytes <= usize::MAX - ITEM_OVERHEAD {
                (bytes + ITEM_OVERHEAD) as usize
            } else {
                usize::MAX
            }
        },
        None => UNENCODED_SIZE,
    }
}

/// The sizes of items.
pub open spec fn item_sizes(items: Seq<serde_json::Value>) -> Seq<usize> {
    items.map_values(|item: serde_json::Value| item_size(item))
}

/// Cuts items into calls by the text that they encode to.
pub fn chunk_ranges(items: &Vec<serde_json::Value>) -> (r: Vec<(usize, usize)>)
    ensures
        r@ == chunks(item_sizes(items@), 0),
{
    let mut sizes: Vec<usize> = Vec::new();
    let mut i: usize = 0;
    while i < items.len()
        invariant
            i <= items.len(),
            sizes@ == item_sizes(items@.take(i as int)),
        decreases items.len() - i,
    {
        let size = match encode(&items[i]) {
            Ok(text) => {
                let bytes = text.as_str().len();
                if bytes <= usize::MAX - ITEM_OVERHEAD {
                    bytes + ITEM_OVERHEAD
                } else {
                    usize::MAX
                }
            },
            Err(_) => UNENCODED_SIZE,
        };
        assert(items@.take(i + 1) =~= items@.take(i as int).push(items@[i as int]));
        sizes.push(size);
        assert(sizes@ =~= item_sizes(items@.take(i + 1)));
        i = i + 1;
    }
    assert(items@.take(i as int) =~= items@);
    chunk_ranges_by_size(&sizes)
}

/// Whether ranges follow one another without a gap from `from` to `to`, none empty.
pub open spec fn covers(ranges: Seq<(usize, usize)>, from: int, to: int) -> bool {
    &&& ranges.len() == 0 ==> from == to
    &&& ranges.len() > 0 ==> ranges[0].0 == from && ranges.last().1 == to
    &&& forall|k: int| 0 <= k < ranges.len() ==> (#[trigger] ranges[k]).0 < ranges[k].1
    &&& forall|k: int| 0 <= k < ranges.len() - 1 ==> (#[trigger] ranges[k]).1 == ranges[k + 1].0
}

/// Every item is in exactly one call, and the calls keep the order of the items: the
/// calls follow one another without a gap, and none is empty. No call asks more than
/// `MAX_QUESTIONS_PER_CALL` questions, and one that holds more than a single item stays
/// within `CHUNK_CHARS`.
pub proof fn law_calls_cover_the_items(sizes: Seq<usize>, start: int)
    requires
        0 <= start <= sizes.len() <= usize::MAX,
    ensures
        covers(chunks(sizes, start), start, sizes.len() as int),
        forall|k: int|
            0 <= k < chunks(sizes, start).len() ==> {
                let (a, b) = #[trigger] chunks(sizes, start)[k];
                &&& b - a <= MAX_QUESTIONS_PER_CALL
                &&& b - a == 1 || total(sizes, a as int, b as int) <= CHUNK_CHARS
            },
    decreases sizes.len() - start,
{
    if start < sizes.len() {
        assert(!full(sizes, start, start));
        lemma_chunk_end(sizes, start, start + 1);
        let end = chunk_end(sizes, start, start);
        assert(end == chunk_end(sizes, start, start + 1));
        law_calls_cover_the_items(sizes, end);
        let rest = chunks(sizes, end);
        let all = chunks(sizes, start);
        assert(all =~= seq![(start as usize, end as usize)] + rest);
        assert(end - start <= MAX_QUESTIONS_PER_CALL && (end - start == 1 || total(
            sizes,
            start,
            end,
        ) <= CHUNK_CHARS)) by {
            if end > start + 1 {
                assert(!full(sizes, start, end - 1));
            }
        }
        assert forall|k: int| 0 <= k < all.len() - 1 implies (#[trigger] all[k]).1 == all[k + 1].0 by {
            if k > 0 {
                assert(all[k] == rest[k - 1]);
                assert(all[k + 1] == rest[k]);
            }
        }
        assert forall|k: int| 0 <= k < all.len() implies {
            let (a, b) = #[trigger] all[k];
            &&& b - a <= MAX_QUESTIONS_PER_CALL
            &&& b - a == 1 || total(sizes, a as int, b as int) <= CHUNK_CHARS
            &&& a < b
        } by {
            if k > 0 {
                assert(all[k] == rest[k - 1]);
            }
        }
        if rest.len() > 0 {
            assert(all.last() == rest.last());
        }
    }
}

/// A call takes what it can: it ends before an item only where that item would take it
/// past its limits.
pub proof fn law_calls_are_filled(sizes: Seq<usize>, start: int)
    requires
        0 <= start <= sizes.len() <= usize::MAX,
    ensures
        forall|k: int|
            0 <= k < chunks(sizes, start).len() ==> {
                let (a, b) = #[trigger] chunks(sizes, start)[k];
                b == sizes.len() || full(sizes, a as int, b as int)
            },
    decreases sizes.len() - start,
{
    if start < sizes.len() {
        assert(!full(sizes, start, start));
        lemma_chunk_end(sizes, start, start + 1);
        let end = chunk_end(sizes, start, start);
        law_calls_are_filled(sizes, end);
        let rest = chunks(sizes, end);
        let all = chunks(sizes, start);
        assert(all =~= seq![(start as usize, end as usize)] + rest);
        assert forall|k: int| 0 <= k < all.len() implies {
            let (a, b) = #[trigger] all[k];
            b == sizes.len() || full(sizes, a as int, b as int)
        } by {
            if k > 0 {
                assert(all[k] == rest[k - 1]);
            }
        }
    }
}

proof fn lemma_total_bound(sizes: Seq<usize>, from: int, to: int, bound: int)
    requires
        0 <= from <= to <= sizes.len(),
        forall|i: int| 0 <= i < sizes.len() ==> #[trigger] sizes[i] <= bound,
    ensures
        total(sizes, from, to) <= (to - from) * bound,
    decreases to - from,
{
    if to > from {
        lemma_total_bound(sizes, from, to - 1, bound);
        assert((to - from) * bound == (to - 1 - from) * bound + bound) by (nonlinear_arith);
    } else {
        assert((to - from) * bound == 0) by (nonlinear_arith)
            requires
                to == from,
        ;
    }
}

/// Items that are small enough for a call of `MAX_QUESTIONS_PER_CALL` of them take one
/// call for each such number of items or part of it.
pub proof fn law_small_items_fill_the_calls(sizes: Seq<usize>, start: int)
    requires
        0 <= start <= sizes.len() <= usize::MAX,
        forall|i: int|
            0 <= i < sizes.len() ==> #[trigger] sizes[i] * MAX_QUESTIONS_PER_CALL <= CHUNK_CHARS,
    ensures
        chunks(sizes, start).len() == (sizes.len() - start + MAX_QUESTIONS_PER_CALL - 1)
            / (MAX_QUESTIONS_PER_CALL as int),
    decreases sizes.len() - start,
{
    if start < sizes.len() {
        assert(!full(sizes, start, start));
        lemma_chunk_end(sizes, start, start + 1);
        let end = chunk_end(sizes, start, start);
        assert(end == chunk_end(sizes, start, start + 1));
        assert(forall|i: int| 0 <= i < sizes.len() ==> #[trigger] sizes[i] <= 320);
        if end < sizes.len() {
            lemma_total_bound(sizes, start, end, 320);
            if end > start + 1 {
                assert(!full(sizes, start, end - 1));
            }
            assert(end - start == MAX_QUESTIONS_PER_CALL);
        } else {
            if end > start + 1 {
                assert(!full(sizes, start, end - 1));
            }
            assert(end - start <= MAX_QUESTIONS_PER_CALL);
        }
        law_small_items_fill_the_calls(sizes, end);
    }
}

/// The size of items together is the sum of their sizes.
pub proof fn law_sizes_add_up(sizes: Seq<usize>, a: int, b: int, c: int)
    requires
        0 <= a <= b <= c <= sizes.len(),
    ensures
        total(sizes, a, c) == total(sizes, a, b) + total(sizes, b, c),
        a < sizes.len() ==> total(sizes, a, a + 1) == sizes[a],
        total(sizes, a, a) == 0,
    decreases c - b,
{
    if a < sizes.len() {
        assert(total(sizes, a, a) == 0);
        assert(total(sizes, a, a + 1) == total(sizes, a, a) + sizes[a]);
    }
    if b < c {
        law_sizes_add_up(sizes, a, b, c - 1);
    }
}

/// An item takes the bytes of its compact text and 8 more; one without a text takes 64.
pub proof fn law_item_sizes(items: Seq<serde_json::Value>, i: int)
    requires
        0 <= i < items.len(),
    ensures
        item_sizes(items).len() == items.len(),
        compact_text(items[i]) matches Some(text) ==> (encode_utf8(text).len() + 8 <= usize::MAX
            ==> item_sizes(items)[i] == encode_utf8(text).len() + 8),
        compact_text(items[i]) is None ==> item_sizes(items)[i] == 64,
{
}

/// A call ends only with the list, after 200 items, or before an item that would take it past
/// 64000; no call holds more than 200 items, nor more than 64000 unless a single item does.
pub proof fn law_where_calls_end(sizes: Seq<usize>, k: int)
    requires
        sizes.len() <= usize::MAX,
        0 <= k < chunks(sizes, 0).len(),
    ensures
        ({
            let (a, b) = chunks(sizes, 0)[k];
            &&& a < b <= sizes.len()
            &&& b - a <= 200
            &&& b - a == 1 || total(sizes, a as int, b as int) <= 64_000
            &&& b == sizes.len() || b - a == 200 || total(sizes, a as int, b as int) + sizes[b as int]
                > 64_000
        }),
{
    law_calls_cover_the_items(sizes, 0);
    law_calls_are_filled(sizes, 0);
    lemma_calls_end_within(sizes, 0, k);
    let r = chunks(sizes, 0)[k];
    assert(r.0 < r.1);
}

proof fn lemma_calls_end_within(sizes: Seq<usize>, start: int, k: int)
    requires
        0 <= start <= sizes.len() <= usize::MAX,
        0 <= k < chunks(sizes, start).len(),
    ensures
        chunks(sizes, start)[k].1 <= sizes.len(),
    decreases sizes.len() - start,
{
    if start < sizes.len() {
        assert(!full(sizes, start, start));
        lemma_chunk_end(sizes, start, start + 1);
        let end = chunk_end(sizes, start, start);
        let rest = chunks(sizes, end);
        assert(chunks(sizes, start) =~= seq![(start as usize, end as usize)] + rest);
        if k > 0 {
            lemma_calls_end_within(sizes, end, k - 1);
            assert(chunks(sizes, start)[k] == rest[k - 1]);
        }
    }
}

/// Items are cut into calls that follow one another from the first item to the last, none
/// empty, none of more than 200 items, none of more than 64000 in size unless it is a single
/// item, and none shorter than that allows.
pub proof fn law_items_are_cut_into_calls(sizes: Vec<usize>, r: Vec<(usize, usize)>, k: int)
    requires
        call_ensures(chunk_ranges_by_size, (&sizes,), r),
        0 <= k < r@.len(),
        sizes@.len() <= usize::MAX,
    ensures
        ({
            let (a, b) = r@[k];
            &&& k == 0 ==> a == 0
            &&& k > 0 ==> a == r@[k - 1].1
            &&& k == r@.len() - 1 ==> b == sizes@.len()
            &&& a < b <= sizes@.len()
            &&& b - a <= 200
            &&& b - a == 1 || total(sizes@, a as int, b as int) <= 64_000
            &&& b == sizes@.len() || b - a == 200 || total(sizes@, a as int, b as int)
                + sizes@[b as int] > 64_000
        }),
{
    law_calls_cover_the_items(sizes@, 0);
    law_where_calls_end(sizes@, k);
    if k > 0 {
        assert(r@[k - 1].1 == r@[k - 1 + 1].0);
    }
}

} // verus!
