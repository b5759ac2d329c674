//! The order of a list by a query.

use crate::answer::{
    answer_at, answer_confidence, answer_score, answered, confidence_in, law_numbers_in_answers,
    score_in,
};
use crate::bulk::{
    gather, item_prefix, items_fault, items_state, items_tree, law_answers_are_read_in_turn,
    law_items_are_sent, law_lists_within_limits, law_next_items, lemma_gather_keeps,
    lemma_read_stops, read_each, Bulk,
};
use crate::document::{given, given_json};
use crate::error::{invalid_params_error, Fault, ToolError};
use crate::json::{at, fields_are, has_field, holds, real_tree, spec_as_real, Json, Tree};
use crate::question::{
    call_body, call_tree, item_ref, item_reference, law_calls_hold_what_they_ask,
    law_numbered_questions_are_sent, law_scopes_are_sent, law_scores_are_sent, model_follows,
    model_or_default, numbered, numbered_id, one_each, scoped, scoped_instructions, spec_model,
    Question, QuestionView, MAX_LEVELS, MIN_LEVELS,
};
use crate::ranking::{best_first, places_best_first, precedes, rank_places};
use crate::reals::Real;
use crate::table::Table;
use crate::text::{decimal, decimal_text, join3};
use vstd::prelude::*;
use vstd::string::*;

verus! {

/// How many of the best items are reported in detail unless the caller says.
pub const DEFAULT_TOP: usize = 10;

/// What `rank_items` takes.
pub struct RankItemsArgs {
    pub items: Vec<serde_json::Value>,
    pub query: String,
    pub levels: Vec<serde_json::Value>,
    pub top_k: Option<usize>,
    pub model: Option<String>,
}

/// What the answer about an item says.
#[derive(Clone, Copy, PartialEq, Eq, Structural, Debug)]
pub struct Scored {
    pub score: Real,
    pub confidence: Real,
}

/// Why a list of `n` items with `levels` levels is refused.
pub open spec fn rank_fault(n: nat, levels: nat) -> Option<Seq<char>> {
    match items_fault(n) {
        Some(message) => Some(message),
        None => if levels < MIN_LEVELS || levels > MAX_LEVELS {
            Some(
                "'levels' has "@ + decimal(levels)
                    + " entries; ranking needs between 2 and 10 ordered levels"@,
            )
        } else {
            None
        },
    }
}

/// The question about the item `i` of a call.
pub open spec fn rank_question(query: Seq<char>, levels: Seq<Tree>, i: nat) -> QuestionView {
    QuestionView::Score {
        instructions: scoped(
            Tree::Text(query),
            item_ref(i),
            "Score the scoped item against the criterion; ignore every other item in `items`."@,
        ),
        criteria: levels,
    }
}

/// The questions about the items of a call.
pub open spec fn rank_about(query: Seq<char>, levels: Seq<Tree>) -> spec_fn(nat) -> QuestionView {
    |i: nat| rank_question(query, levels, i)
}

/// How the answer about the item `i` of a call is read: the score, then the confidence.
pub open spec fn rank_reading() -> spec_fn(Tree, nat) -> Result<Scored, Fault> {
    |body: Tree, i: nat|
        {
            let id = numbered_id(item_prefix(), i);
            match score_in(body, id) {
                Err(e) => Err(e),
                Ok(score) => match confidence_in(body, id) {
                    Err(e) => Err(e),
                    Ok(confidence) => Ok(Scored { score, confidence }),
                },
            }
        }
}

/// How many of `n` items are reported in detail.
pub open spec fn spec_top(asked: Option<usize>, n: int) -> int {
    let wanted: int = match asked {
        Some(k) => k as int,
        None => DEFAULT_TOP as int,
    };
    if wanted < 1 {
        1
    } else if wanted > n {
        n
    } else {
        wanted
    }
}

/// What is reported of the item `i`.
pub open spec fn entry_tree(i: int, scored: Scored, normalized: Real) -> Tree {
    Tree::Object(
        map![
            "i"@ => Tree::Integer(i),
            "score"@ => real_tree(scored.score),
            "normalized"@ => real_tree(normalized),
            "confidence"@ => real_tree(scored.confidence),
        ],
    )
}

/// What is reported of one item among all.
pub open spec fn top_entry(scored: Seq<Scored>, normalized: Seq<Real>, i: int) -> Tree {
    entry_tree(i, scored[i], normalized[i])
}

/// What is reported of all items, in the order of the list.
pub open spec fn item_entries(scored: Seq<Scored>, normalized: Seq<Real>, n: nat) -> Seq<Tree> {
    Seq::new(n, |i: int| top_entry(scored, normalized, i))
}

/// What is reported of the scores of all items, listed best first in `order`.
pub open spec fn rank_report(
    levels: int,
    scored: Seq<Scored>,
    normalized: Seq<Real>,
    top: int,
    order: Seq<usize>,
) -> Tree {
    Tree::Object(
        map![
            "level_count"@ => Tree::Integer(levels),
            "top"@ => Tree::Array(
                order.take(top).map_values(|i: usize| top_entry(scored, normalized, i as int)),
            ),
            "ranked"@ => Tree::Array(order.map_values(|i: usize| Tree::Integer(i as int))),
            "items"@ => Tree::Array(item_entries(scored, normalized, scored.len())),
        ],
    )
}

/// A list on its way through the ranking.
pub struct RankRun {
    pub bulk: Bulk,
    pub query: String,
    pub levels: Vec<serde_json::Value>,
    pub top_k: Option<usize>,
    pub model: String,
    /// What the answers about the items so far say.
    pub scored: Vec<Scored>,
}

/// Begins to rank items: refuses a list or levels out of bounds before anything is asked.
pub fn rank_items(args: RankItemsArgs) -> (r: Result<RankRun, ToolError>)
    ensures
        match r {
            Ok(run) => {
                &&& rank_fault(args.items@.len(), args.levels@.len()) is None
                &&& run.wf()
                &&& run.bulk.items == args.items
                &&& run.bulk.done == 0
                &&& run.query == args.query
                &&& run.levels == args.levels
                &&& run.top_k == args.top_k
                &&& run.model@ == spec_model(args.model)
            },
            Err(e) => rank_fault(args.items@.len(), args.levels@.len()) is Some && e@
                == Fault::InvalidParams(rank_fault(args.items@.len(), args.levels@.len())->0),
        },
{
    match Bulk::new(args.items) {
        Err(e) => Err(e),
        Ok(bulk) => {
            let n = args.levels.len();
            if n < MIN_LEVELS || n > MAX_LEVELS {
                return Err(
                    invalid_params_error(
                        join3(
                            "'levels' has ",
                            &decimal_text(n as u64),
                            " entries; ranking needs between 2 and 10 ordered levels",
                        ),
                    ),
                );
            }
            Ok(
                RankRun {
                    bulk,
                    query: args.query,
                    levels: args.levels,
                    top_k: args.top_k,
                    model: model_or_default(args.model),
                    scored: Vec::new(),
                },
            )
        },
    }
}

/// What is reported of the item `i`.
fn entry_json(i: usize, scored: Scored, normalized: Real) -> (r: Json)
    ensures
        r@ == entry_tree(i as int, scored, normalized),
{
    Json::object().with("i", Json::count(i)).with("score", Json::number(scored.score)).with(
        "normalized",
        Json::number(normalized),
    ).with("confidence", Json::number(scored.confidence))
}

impl RankRun {
    pub open spec fn wf(&self) -> bool {
        &&& self.bulk.wf()
        &&& MIN_LEVELS <= self.levels@.len() <= MAX_LEVELS
        &&& gather(self.bulk.ranges@, self.bulk.heard@, self.bulk.done as nat, rank_reading())
            == Ok::<Seq<Scored>, Fault>(self.scored@)
        &&& self.scored@.len() == self.bulk.reached()
    }

    /// The body of the next call: its items, and one question about each of them.
    pub fn next_call(&self) -> (r: Option<Json>)
        requires
            self.wf(),
        ensures
            match r {
                Some(body) => self.bulk.pending() && body@ == call_tree(
                    items_tree(self.bulk.chunk()),
                    one_each(
                        item_prefix(),
                        self.bulk.width(),
                        rank_about(self.query@, given(self.levels@)),
                    ),
                    self.model@,
                ),
                None => !self.bulk.pending(),
            },
    {
        match self.bulk.next_range() {
            None => None,
            Some((start, end)) => {
                let mut questions: Table<Question> = Table::new();
                let mut i: usize = 0;
                while i < end - start
                    invariant
                        start < end,
                        i <= end - start,
                        questions@ == one_each(
                            item_prefix(),
                            i as nat,
                            rank_about(self.query@, given(self.levels@)),
                        ),
                    decreases end - start - i,
                {
                    questions.insert(
                        numbered("item_", i),
                        Question::Score {
                            instructions: scoped_instructions(
                                Json::text(&self.query),
                                item_reference(i),
                                "Score the scoped item against the criterion; ignore every other item in `items`.",
                            ),
                            criteria: given_json(&self.levels),
                        },
                    );
                    i = i + 1;
                }
                Some(
                    call_body(items_state(&self.bulk.items, start, end), &questions, &self.model),
                )
            },
        }
    }

    /// Takes in the response to the call that `next_call` gave. A response that leaves an
    /// item unanswered is refused whole.
    pub fn accept(&mut self, body: &Json) -> (r: Result<(), ToolError>)
        requires
            old(self).wf(),
            old(self).bulk.pending(),
        ensures
            match r {
                Ok(_) => {
                    let read = read_each(body@, old(self).bulk.width(), rank_reading());
                    &&& read is Ok
                    &&& final(self).wf()
                    &&& old(self).bulk.heard_one(&final(self).bulk, body@)
                    &&& final(self).scored@ == old(self).scored@ + read->Ok_0
                    &&& final(self).query == old(self).query
                    &&& final(self).levels == old(self).levels
                    &&& final(self).top_k == old(self).top_k
                    &&& final(self).model == old(self).model
                },
                Err(e) => read_each(body@, old(self).bulk.width(), rank_reading()) == Err::<
                    Seq<Scored>,
                    Fault,
                >(e@) && *final(self) == *old(self),
            },
    {
        proof {
            self.bulk.lemma_range();
        }
        let (start, end) = self.bulk.ranges[self.bulk.done];
        let mut read: Vec<Scored> = Vec::new();
        let mut i: usize = 0;
        while i < end - start
            invariant
                start < end,
                i <= end - start,
                *self == *old(self),
                end - start == self.bulk.width(),
                read@.len() == i,
                read_each(body@, i as nat, rank_reading()) == Ok::<Seq<Scored>, Fault>(read@),
            decreases end - start - i,
        {
            let id = numbered("item_", i);
            let score = match answer_score(body, &id) {
                Ok(score) => score,
                Err(e) => {
                    proof {
                        lemma_read_stops(body@, (i + 1) as nat, self.bulk.width(), rank_reading());
                    }
                    return Err(e);
                },
            };
            let confidence = match answer_confidence(body, &id) {
                Ok(confidence) => confidence,
                Err(e) => {
                    proof {
                        lemma_read_stops(body@, (i + 1) as nat, self.bulk.width(), rank_reading());
                    }
                    return Err(e);
                },
            };
            read.push(Scored { score, confidence });
            i = i + 1;
        }
        proof {
            lemma_gather_keeps(
                self.bulk.ranges@,
                self.bulk.heard@,
                body@,
                self.bulk.done as nat,
                rank_reading(),
            );
        }
        self.scored.append(&mut read);
        self.bulk.note(body);
        Ok(())
    }

    /// The report on all items, given each score divided by the highest level. The items
    /// are listed best first by what is given, those with equal values as they stood.
    pub fn report(&self, normalized: &Vec<Real>) -> (r: Json)
        requires
            self.wf(),
            !self.bulk.pending(),
            normalized@.len() == self.scored@.len(),
        ensures
            r@ == rank_report(
                self.levels@.len() as int,
                self.scored@,
                normalized@,
                spec_top(self.top_k, self.scored@.len() as int),
                places_best_first(normalized@),
            ),
            best_first(normalized@, places_best_first(normalized@)),
    {
        let order = rank_places(normalized);
        let n = self.scored.len();
        let wanted = match self.top_k {
            Some(k) => k,
            None => DEFAULT_TOP,
        };
        let top = if wanted < 1 {
            1
        } else if wanted > n {
            n
        } else {
            wanted
        };
        let mut detailed = Json::array();
        let mut ranked = Json::array();
        let mut items = Json::array();
        let mut a: usize = 0;
        let ghost entry = |i: usize| top_entry(self.scored@, normalized@, i as int);
        let ghost number = |i: usize| Tree::Integer(i as int);
        assert(order@.take(0).map_values(entry) =~= Seq::empty());
        assert(order@.take(0).map_values(number) =~= Seq::empty());
        assert(item_entries(self.scored@, normalized@, 0) =~= Seq::empty());
        while a < n
            invariant
                a <= n,
                top <= n,
                n == self.scored@.len(),
                n == normalized@.len(),
                best_first(normalized@, order@),
                entry == (|i: usize| top_entry(self.scored@, normalized@, i as int)),
                number == (|i: usize| Tree::Integer(i as int)),
                detailed@ is Array,
                detailed@->Array_0 == order@.take(if a < top {
                    a as int
                } else {
                    top as int
                }).map_values(entry),
                ranked@ is Array,
                ranked@->Array_0 == order@.take(a as int).map_values(number),
                items@ is Array,
                items@->Array_0 == item_entries(self.scored@, normalized@, a as nat),
            decreases n - a,
        {
            let i = order[a];
            if a < top {
                detailed = detailed.followed_by(entry_json(i, self.scored[i], normalized[i]));
                assert(order@.take(a + 1).map_values(entry) =~= order@.take(a as int).map_values(
                    entry,
                ).push(entry(i)));
            }
            ranked = ranked.followed_by(Json::count(i));
            assert(order@.take(a + 1).map_values(number) =~= order@.take(a as int).map_values(
                number,
            ).push(number(i)));
            items = items.followed_by(entry_json(a, self.scored[a], normalized[a]));
            assert(item_entries(self.scored@, normalized@, (a + 1) as nat) =~= item_entries(
                self.scored@,
                normalized@,
                a as nat,
            ).push(top_entry(self.scored@, normalized@, a as int)));
            a = a + 1;
        }
        assert(order@.take(a as int) =~= order@);
        Json::object().with("level_count", Json::count(self.levels.len())).with(
            "top",
            detailed,
        ).with("ranked", ranked).with("items", items)
    }
}

/// The items reported in detail are the best: none beyond them has a greater value than
/// one of them, and one with an equal value stood behind it in the list.
pub proof fn law_top_items_are_best(normalized: Seq<Real>, order: Seq<usize>, top: int)
    requires
        best_first(normalized, order),
        0 <= top <= order.len(),
    ensures
        forall|a: int, b: int|
            0 <= a < top <= b < order.len() ==> {
                let x = #[trigger] order[a];
                let y = #[trigger] order[b];
                &&& normalized[x as int].rank() >= normalized[y as int].rank()
                &&& normalized[x as int].rank() == normalized[y as int].rank() ==> x < y
            },
{
    assert forall|a: int, b: int| 0 <= a < top <= b < order.len() implies {
        let x = #[trigger] order[a];
        let y = #[trigger] order[b];
        &&& normalized[x as int].rank() >= normalized[y as int].rank()
        &&& normalized[x as int].rank() == normalized[y as int].rank() ==> x < y
    } by {
        assert(precedes(normalized, order[a] as int, order[b] as int));
    }
}

/// The score, the normalized score and the confidence of every item are reported, whether
/// the item is among the best or not: reports that are the same come from the same.
pub proof fn law_scores_survive_the_top(
    levels: int,
    scored_a: Seq<Scored>,
    scored_b: Seq<Scored>,
    normalized_a: Seq<Real>,
    normalized_b: Seq<Real>,
    top_a: int,
    top_b: int,
    order_a: Seq<usize>,
    order_b: Seq<usize>,
)
    requires
        scored_a.len() == scored_b.len(),
        rank_report(levels, scored_a, normalized_a, top_a, order_a) == rank_report(
            levels,
            scored_b,
            normalized_b,
            top_b,
            order_b,
        ),
    ensures
        forall|i: int|
            0 <= i < scored_a.len() ==> {
                let a = #[trigger] scored_a[i];
                let b = #[trigger] scored_b[i];
                &&& real_tree(a.score) == real_tree(b.score)
                &&& real_tree(a.confidence) == real_tree(b.confidence)
                &&& real_tree(normalized_a[i]) == real_tree(normalized_b[i])
            },
{
    reveal_strlit("level_count");
    reveal_strlit("top");
    reveal_strlit("ranked");
    reveal_strlit("items");
    assert("items"@.len() == 5);
    let x = rank_report(levels, scored_a, normalized_a, top_a, order_a)->Object_0["items"@];
    let y = rank_report(levels, scored_b, normalized_b, top_b, order_b)->Object_0["items"@];
    assert(x == Tree::Array(item_entries(scored_a, normalized_a, scored_a.len())));
    assert(y == Tree::Array(item_entries(scored_b, normalized_b, scored_b.len())));
    assert forall|i: int| 0 <= i < scored_a.len() implies {
        let a = #[trigger] scored_a[i];
        let b = #[trigger] scored_b[i];
        &&& real_tree(a.score) == real_tree(b.score)
        &&& real_tree(a.confidence) == real_tree(b.confidence)
        &&& real_tree(normalized_a[i]) == real_tree(normalized_b[i])
    } by {
        assert(x->Array_0[i] == entry_tree(i, scored_a[i], normalized_a[i]));
        assert(y->Array_0[i] == entry_tree(i, scored_b[i], normalized_b[i]));
        lemma_entry(i, scored_a[i], normalized_a[i]);
        lemma_entry(i, scored_b[i], normalized_b[i]);
    }
}

proof fn lemma_entry(i: int, scored: Scored, normalized: Real)
    ensures
        entry_tree(i, scored, normalized)->Object_0["score"@] == real_tree(scored.score),
        entry_tree(i, scored, normalized)->Object_0["normalized"@] == real_tree(normalized),
        entry_tree(i, scored, normalized)->Object_0["confidence"@] == real_tree(
            scored.confidence,
        ),
{
    reveal_strlit("i");
    reveal_strlit("score");
    reveal_strlit("normalized");
    reveal_strlit("confidence");
    assert("score"@.len() == 5);
    assert("normalized"@.len() == 10 && "normalized"@[0] == 'n');
    assert("confidence"@.len() == 10 && "confidence"@[0] == 'c');
}

/// The best items are reported in detail, best first, as many as are asked for: at least one
/// and at most all, and ten, or all where there are fewer, unless the caller says.
pub proof fn law_as_many_as_are_asked_for(
    levels: int,
    scored: Seq<Scored>,
    normalized: Seq<Real>,
    asked: Option<usize>,
    order: Seq<usize>,
)
    requires
        order.len() >= 1,
    ensures
        ({
            let n = order.len() as int;
            let top = at(
                rank_report(levels, scored, normalized, spec_top(asked, n), order),
                "top"@,
            );
            let entries = top->Array_0;
            &&& top is Array
            &&& asked matches Some(k) ==> (k == 0 ==> entries.len() == 1) && (1 <= k <= n
                ==> entries.len() == k) && (k > n ==> entries.len() == n)
            &&& asked is None ==> (n <= 10 ==> entries.len() == n) && (n > 10 ==> entries.len()
                == 10)
            &&& forall|a: int|
                0 <= a < entries.len() ==> {
                    let entry = #[trigger] entries[a];
                    let i = order[a] as int;
                    &&& fields_are(entry, set!["i"@, "score"@, "normalized"@, "confidence"@])
                    &&& holds(entry, "i"@, Tree::Integer(i))
                    &&& holds(entry, "score"@, real_tree(scored[i].score))
                    &&& holds(entry, "normalized"@, real_tree(normalized[i]))
                    &&& holds(entry, "confidence"@, real_tree(scored[i].confidence))
                }
        }),
{
    reveal_strlit("level_count");
    reveal_strlit("top");
    reveal_strlit("ranked");
    reveal_strlit("items");
    reveal_strlit("i");
    reveal_strlit("score");
    reveal_strlit("normalized");
    reveal_strlit("confidence");
    assert("level_count"@.len() == 11);
    assert("top"@.len() == 3);
    assert("ranked"@.len() == 6);
    assert("items"@.len() == 5);
    assert("i"@.len() == 1);
    assert("score"@.len() == 5);
    assert("normalized"@.len() == 10);
    assert("confidence"@.len() == 10);
    assert("items"@[0] != "score"@[0]);
    assert("normalized"@[0] != "confidence"@[0]);
    let n = order.len() as int;
    let top = at(rank_report(levels, scored, normalized, spec_top(asked, n), order), "top"@);
    assert forall|a: int| 0 <= a < top->Array_0.len() implies {
        let entry = #[trigger] top->Array_0[a];
        let i = order[a] as int;
        &&& fields_are(entry, set!["i"@, "score"@, "normalized"@, "confidence"@])
        &&& holds(entry, "i"@, Tree::Integer(i))
        &&& holds(entry, "score"@, real_tree(scored[i].score))
        &&& holds(entry, "normalized"@, real_tree(normalized[i]))
        &&& holds(entry, "confidence"@, real_tree(scored[i].confidence))
    } by {
        let entry = top->Array_0[a];
        assert(entry == top_entry(scored, normalized, order[a] as int));
        assert(entry->Object_0.dom() =~= set!["i"@, "score"@, "normalized"@, "confidence"@]);
    }
}

/// The report gives the number of levels, all places best first, and each item at its own
/// place with its score, however many are reported in detail.
pub proof fn law_all_items_are_reported(
    levels: int,
    scored: Seq<Scored>,
    normalized: Seq<Real>,
    top: int,
    order: Seq<usize>,
)
    ensures
        ({
            let report = rank_report(levels, scored, normalized, top, order);
            let ranked = at(report, "ranked"@)->Array_0;
            let items = at(report, "items"@)->Array_0;
            &&& fields_are(report, set!["level_count"@, "top"@, "ranked"@, "items"@])
            &&& holds(report, "level_count"@, Tree::Integer(levels))
            &&& at(report, "ranked"@) is Array
            &&& ranked.len() == order.len()
            &&& forall|a: int|
                0 <= a < order.len() ==> #[trigger] ranked[a] == Tree::Integer(order[a] as int)
            &&& at(report, "items"@) is Array
            &&& items.len() == scored.len()
            &&& forall|i: int|
                0 <= i < scored.len() ==> {
                    let entry = #[trigger] items[i];
                    &&& fields_are(entry, set!["i"@, "score"@, "normalized"@, "confidence"@])
                    &&& holds(entry, "i"@, Tree::Integer(i))
                    &&& holds(entry, "score"@, real_tree(scored[i].score))
                    &&& holds(entry, "normalized"@, real_tree(normalized[i]))
                    &&& holds(entry, "confidence"@, real_tree(scored[i].confidence))
                }
        }),
{
    reveal_strlit("level_count");
    reveal_strlit("top");
    reveal_strlit("ranked");
    reveal_strlit("items");
    reveal_strlit("i");
    reveal_strlit("score");
    reveal_strlit("normalized");
    reveal_strlit("confidence");
    assert("level_count"@.len() == 11);
    assert("top"@.len() == 3);
    assert("ranked"@.len() == 6);
    assert("items"@.len() == 5);
    assert("i"@.len() == 1);
    assert("score"@.len() == 5);
    assert("normalized"@.len() == 10);
    assert("confidence"@.len() == 10);
    assert("items"@[0] != "score"@[0]);
    assert("normalized"@[0] != "confidence"@[0]);
    let report = rank_report(levels, scored, normalized, top, order);
    assert(report->Object_0.dom() =~= set!["level_count"@, "top"@, "ranked"@, "items"@]);
    let items = at(report, "items"@)->Array_0;
    assert forall|i: int| 0 <= i < scored.len() implies {
        let entry = #[trigger] items[i];
        &&& fields_are(entry, set!["i"@, "score"@, "normalized"@, "confidence"@])
        &&& holds(entry, "i"@, Tree::Integer(i))
        &&& holds(entry, "score"@, real_tree(scored[i].score))
        &&& holds(entry, "normalized"@, real_tree(normalized[i]))
        &&& holds(entry, "confidence"@, real_tree(scored[i].confidence))
    } by {
        assert(items[i] == top_entry(scored, normalized, i));
        assert(items[i]->Object_0.dom() =~= set!["i"@, "score"@, "normalized"@, "confidence"@]);
    }
}

/// Each item of a call is scored once, by its number: against the query, on the levels in
/// the order in which they are given.
pub proof fn law_items_are_scored(
    items: Seq<serde_json::Value>,
    query: Seq<char>,
    levels: Seq<serde_json::Value>,
    model: Seq<char>,
    i: nat,
)
    requires
        i < items.len(),
    ensures
        ({
            let call = call_tree(
                items_tree(items),
                one_each(item_prefix(), items.len(), rank_about(query, given(levels))),
                model,
            );
            let asked = at(call, "questions"@);
            let q = at(asked, "item_"@ + decimal(i));
            let told = at(q, "instructions"@);
            let criteria = at(q, "criteria"@);
            &&& asked is Object && asked->Object_0.len() == items.len()
            &&& has_field(asked, "item_"@ + decimal(i))
            &&& fields_are(q, set!["type"@, "instructions"@, "criteria"@])
            &&& holds(q, "type"@, Tree::Text("score"@))
            &&& fields_are(told, set!["criterion"@, "scope"@, "focus"@])
            &&& holds(told, "criterion"@, Tree::Text(query))
            &&& holds(told, "scope"@, Tree::Text("`items["@ + decimal(i) + "]`"@))
            &&& holds(
                told,
                "focus"@,
                Tree::Text(
                    "Score the scoped item against the criterion; ignore every other item in `items`."@,
                ),
            )
            &&& criteria is Array
            &&& criteria->Array_0.len() == levels.len()
            &&& forall|l: int|
                0 <= l < levels.len() ==> #[trigger] criteria->Array_0[l] == Tree::Given(levels[l])
        }),
{
    law_numbered_questions_are_sent(
        items_tree(items),
        item_prefix(),
        items.len(),
        rank_about(query, given(levels)),
        model,
        i,
    );
    let view = rank_question(query, given(levels), i);
    assert(rank_about(query, given(levels))(i) == view);
    law_scores_are_sent(view->Score_instructions, view->Score_criteria);
    law_scopes_are_sent(
        Tree::Text(query),
        item_ref(i),
        "Score the scoped item against the criterion; ignore every other item in `items`."@,
    );
}

/// The answer about an item is read exactly where the response gives, under the item's own
/// name, a score and a confidence.
pub proof fn law_scores_are_read(body: Tree, i: nat, scored: Scored)
    ensures
        rank_reading()(body, i) == Ok::<Scored, Fault>(scored) <==> {
            let id = "item_"@ + decimal(i);
            &&& answered(body, id)
            &&& has_field(answer_at(body, id), "score"@)
            &&& spec_as_real(at(answer_at(body, id), "score"@)) == Some(scored.score)
            &&& has_field(answer_at(body, id), "confidence"@)
            &&& spec_as_real(at(answer_at(body, id), "confidence"@)) == Some(scored.confidence)
        },
{
    let id = numbered_id(item_prefix(), i);
    assert(id == "item_"@ + decimal(i));
    law_numbers_in_answers(body, id, scored.score);
    law_numbers_in_answers(body, id, scored.confidence);
    if rank_reading()(body, i) == Ok::<Scored, Fault>(scored) {
        assert(score_in(body, id) == Ok::<Real, Fault>(scored.score));
        assert(confidence_in(body, id) == Ok::<Real, Fault>(scored.confidence));
    }
}

/// A ranking is refused exactly where the list is too short or too long, or where there are
/// fewer than 2 levels or more than 10.
pub proof fn law_rankings_within_limits(n: nat, levels: nat)
    ensures
        rank_fault(n, levels) is None <==> 1 <= n <= 1000 && 2 <= levels <= 10,
        !(1 <= n <= 1000) ==> rank_fault(n, levels) == items_fault(n),
        1 <= n <= 1000 && !(2 <= levels <= 10) ==> rank_fault(n, levels) == Some(
            "'levels' has "@ + decimal(levels)
                + " entries; ranking needs between 2 and 10 ordered levels"@,
        ),
{
    law_lists_within_limits(n);
}

/// A ranking begins with what the caller gives: the items, the query, the levels, how many
/// to report in detail, and the model or `jev-latest`.
pub proof fn law_rankings_begin_as_asked(args: RankItemsArgs, r: Result<RankRun, ToolError>)
    requires
        call_ensures(rank_items, (args,), r),
    ensures
        r is Ok <==> 1 <= args.items@.len() <= 1000 && 2 <= args.levels@.len() <= 10,
        r matches Ok(run) ==> {
            &&& run.bulk.items == args.items
            &&& run.bulk.done == 0
            &&& run.query == args.query
            &&& run.levels == args.levels
            &&& run.top_k == args.top_k
            &&& model_follows(args.model, run.model@)
        },
        r matches Err(e) ==> e@ is InvalidParams,
{
    law_rankings_within_limits(args.items@.len(), args.levels@.len());
}

/// The next call of a ranking is about the items that follow those already scored, and asks
/// for the score of each of them; there is none once all are scored.
pub proof fn law_rankings_ask_in_turn(run: RankRun, r: Option<Json>, i: nat)
    requires
        run.wf(),
        call_ensures(RankRun::next_call, (&run,), r),
    ensures
        r is Some <==> run.bulk.reached() < run.bulk.items@.len(),
        r matches Some(body) ==> {
            let sent = at(at(body@, "state"@), "items"@);
            let asked = at(body@, "questions"@);
            &&& holds(body@, "model"@, Tree::Text(run.model@))
            &&& fields_are(at(body@, "state"@), set!["items"@])
            &&& sent is Array
            &&& 1 <= sent->Array_0.len() <= 200
            &&& run.bulk.reached() + sent->Array_0.len() <= run.bulk.items@.len()
            &&& asked is Object && asked->Object_0.len() == sent->Array_0.len()
            &&& i < sent->Array_0.len() ==> {
                let q = at(asked, "item_"@ + decimal(i));
                &&& sent->Array_0[i as int] == Tree::Given(run.bulk.items@[run.bulk.reached() + i])
                &&& has_field(asked, "item_"@ + decimal(i))
                &&& holds(q, "type"@, Tree::Text("score"@))
                &&& holds(q, "criteria"@, Tree::Array(given(run.levels@)))
                &&& holds(at(q, "instructions"@), "criterion"@, Tree::Text(run.query@))
                &&& holds(
                    at(q, "instructions"@),
                    "scope"@,
                    Tree::Text("`items["@ + decimal(i) + "]`"@),
                )
            }
        },
{
    law_next_items(&run.bulk);
    if r is Some {
        let items = run.bulk.chunk();
        law_items_are_sent(items);
        law_calls_hold_what_they_ask(
            items_tree(items),
            one_each(item_prefix(), items.len(), rank_about(run.query@, given(run.levels@))),
            run.model@,
        );
        law_items_are_scored(items, run.query@, run.levels@, run.model@, 0);
        if i < items.len() {
            law_items_are_scored(items, run.query@, run.levels@, run.model@, i);
            assert(at(
                at(at(r->0@, "questions"@), "item_"@ + decimal(i)),
                "criteria"@,
            )->Array_0 =~= given(run.levels@));
        }
    }
}

/// The report of a ranking gives in detail, best first, as many items as the caller asks
/// for: all where that is more than there are, one where it is none, and ten, or all where
/// there are fewer, where the caller does not say.
pub proof fn law_rankings_report_their_top(run: RankRun, normalized: Vec<Real>, r: Json)
    requires
        call_ensures(RankRun::report, (&run, &normalized), r),
        normalized@.len() == run.scored@.len(),
        run.scored@.len() >= 1,
    ensures
        ({
            let n = run.scored@.len() as int;
            let top = at(r@, "top"@)->Array_0;
            let ranked = at(r@, "ranked"@)->Array_0;
            &&& at(r@, "top"@) is Array
            &&& run.top_k matches Some(k) ==> (k == 0 ==> top.len() == 1) && (1 <= k <= n
                ==> top.len() == k) && (k > n ==> top.len() == n)
            &&& run.top_k is None ==> (n <= 10 ==> top.len() == n) && (n > 10 ==> top.len() == 10)
            &&& holds(r@, "level_count"@, Tree::Integer(run.levels@.len() as int))
            &&& at(r@, "ranked"@) is Array
            &&& ranked.len() == n
            &&& forall|a: int|
                0 <= a < n ==> (#[trigger] ranked[a]) is Integer && 0 <= ranked[a]->Integer_0 < n
            &&& forall|a: int, b: int|
                0 <= a < b < n ==> {
                    let x = (#[trigger] ranked[a])->Integer_0;
                    let y = (#[trigger] ranked[b])->Integer_0;
                    &&& x != y
                    &&& normalized@[x].rank() >= normalized@[y].rank()
                    &&& normalized@[x].rank() == normalized@[y].rank() ==> x < y
                }
            &&& forall|a: int|
                0 <= a < top.len() ==> {
                    let i = ranked[a]->Integer_0;
                    &&& holds(#[trigger] top[a], "i"@, ranked[a])
                    &&& holds(top[a], "score"@, real_tree(run.scored@[i].score))
                    &&& holds(top[a], "normalized"@, real_tree(normalized@[i]))
                    &&& holds(top[a], "confidence"@, real_tree(run.scored@[i].confidence))
                }
        }),
{
    let order = places_best_first(normalized@);
    let n = run.scored@.len() as int;
    law_as_many_as_are_asked_for(
        run.levels@.len() as int,
        run.scored@,
        normalized@,
        run.top_k,
        order,
    );
    law_all_items_are_reported(
        run.levels@.len() as int,
        run.scored@,
        normalized@,
        spec_top(run.top_k, n),
        order,
    );
    let ranked = at(r@, "ranked"@)->Array_0;
    assert forall|a: int, b: int| 0 <= a < b < n implies {
        let x = (#[trigger] ranked[a])->Integer_0;
        let y = (#[trigger] ranked[b])->Integer_0;
        &&& x != y
        &&& normalized@[x].rank() >= normalized@[y].rank()
        &&& normalized@[x].rank() == normalized@[y].rank() ==> x < y
    } by {
        assert(precedes(normalized@, order[a] as int, order[b] as int));
    }
}

/// A response is taken in exactly where it gives a score and a confidence for every item that
/// was asked about, and then each at its own place, after those that were known; otherwise
/// nothing changes.
pub proof fn law_rankings_take_in_answers(run: &mut RankRun, body: Json, r: Result<(), ToolError>)
    requires
        old(run).wf(),
        old(run).bulk.pending(),
        call_ensures(RankRun::accept, (run, &body), r),
    ensures
        r is Ok <==> (forall|i: nat|
            i < old(run).bulk.width() ==> score_in(body@, "item_"@ + #[trigger] decimal(i)) is Ok
                && confidence_in(body@, "item_"@ + decimal(i)) is Ok),
        r is Ok ==> {
            let before = old(run).scored@;
            let after = final(run).scored@;
            &&& final(run).bulk.items == old(run).bulk.items
            &&& final(run).bulk.done == old(run).bulk.done + 1
            &&& final(run).bulk.reached() == old(run).bulk.reached() + old(run).bulk.width()
            &&& final(run).query == old(run).query
            &&& final(run).levels == old(run).levels
            &&& final(run).top_k == old(run).top_k
            &&& final(run).model == old(run).model
            &&& after.len() == before.len() + old(run).bulk.width()
            &&& forall|i: int| 0 <= i < before.len() ==> after[i] == before[i]
            &&& forall|i: nat|
                i < old(run).bulk.width() ==> score_in(body@, "item_"@ + #[trigger] decimal(i)) == Ok::<
                    Real,
                    Fault,
                >(after[before.len() as int + i].score) && confidence_in(body@, "item_"@ + decimal(i))
                    == Ok::<Real, Fault>(after[before.len() as int + i].confidence)
        },
        r is Err ==> *final(run) == *old(run),
{
    let width = old(run).bulk.width();
    let reading = rank_reading();
    law_answers_are_read_in_turn(body@, width, reading);
    assert forall|i: nat| i < width implies (rank_reading()(body@, i) is Ok <==> score_in(
        body@,
        "item_"@ + #[trigger] decimal(i),
    ) is Ok && confidence_in(body@, "item_"@ + decimal(i)) is Ok) by {
        assert(numbered_id(item_prefix(), i) == "item_"@ + decimal(i));
    }
    assert forall|i: nat| i < width implies ((#[trigger] reading(body@, i)) is Ok <==> score_in(
        body@,
        "item_"@ + decimal(i),
    ) is Ok && confidence_in(body@, "item_"@ + decimal(i)) is Ok) by {}
    if r is Ok {
        let before = old(run).scored@;
        let after = final(run).scored@;
        let more = read_each(body@, width, reading)->Ok_0;
        assert(after == before + more);
        assert forall|i: nat| i < width implies score_in(body@, "item_"@ + #[trigger] decimal(i))
            == Ok::<Real, Fault>(after[before.len() as int + i].score) && confidence_in(
            body@,
            "item_"@ + decimal(i),
        ) == Ok::<Real, Fault>(after[before.len() as int + i].confidence) by {
            assert(reading(body@, i) == Ok::<Scored, Fault>(more[i as int]));
            assert(numbered_id(item_prefix(), i) == "item_"@ + decimal(i));
        }
    }
}

} // verus!
