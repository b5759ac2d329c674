//! Which items of a list meet a criterion.

use crate::answer::{answer_at, answer_noul, answered, law_numbers_in_answers, noul_in};
use crate::bulk::{
    gather, item_prefix, items_fault, items_state, items_tree, law_answers_are_read_in_turn,
    law_items_are_sent, law_lists_within_limits, law_next_items, lemma_gather_keeps,
    lemma_read_stops, read_each, Bulk,
};
use crate::document::{real_trees, reals_json};
use crate::error::{Fault, ToolError};
use crate::json::{at, fields_are, has_field, holds, real_tree, spec_as_real, Json, Tree};
use crate::question::{
    call_body, call_tree, item_ref, item_reference, law_calls_hold_what_they_ask,
    law_numbered_questions_are_sent, law_scopes_are_sent, law_yes_and_no_are_sent, model_follows,
    model_or_default, noul, noul_qv, numbered, numbered_id, one_each, scoped, scoped_instructions,
    spec_model, Question, QuestionView,
};
use crate::reals::{
    lemma_threshold_follows, spec_threshold, threshold, threshold_follows, Real, HALF,
};
use crate::table::Table;
use crate::text::decimal;
use vstd::prelude::*;
use vstd::string::*;

verus! {

/// What `filter_items` takes.
pub struct FilterItemsArgs {
    pub items: Vec<serde_json::Value>,
    pub criterion: serde_json::Value,
    pub threshold: Option<Real>,
    pub model: Option<String>,
}

/// The question about the item `i` of a call.
pub open spec fn filter_question(criterion: Tree, i: nat) -> QuestionView {
    noul(
        scoped(
            criterion,
            item_ref(i),
            "Judge only the scoped item; ignore every other item in `items`."@,
        ),
    )
}

/// The questions about the items of a call.
pub open spec fn filter_about(criterion: Tree) -> spec_fn(nat) -> QuestionView {
    |i: nat| filter_question(criterion, i)
}

/// How the answer about the item `i` of a call is read.
pub open spec fn filter_reading() -> spec_fn(Tree, nat) -> Result<Real, Fault> {
    |body: Tree, i: nat| noul_in(body, numbered_id(item_prefix(), i))
}

/// The places below `upto` of the probabilities that reach the threshold, in order.
pub open spec fn matching(probabilities: Seq<Real>, threshold: Real, upto: int) -> Seq<int>
    decreases upto,
{
    if upto <= 0 {
        Seq::empty()
    } else if probabilities[upto - 1].spec_ge(threshold) {
        matching(probabilities, threshold, upto - 1).push(upto - 1)
    } else {
        matching(probabilities, threshold, upto - 1)
    }
}

/// A place and the probability there.
pub open spec fn place_and_probability(probabilities: Seq<Real>, i: int) -> Tree {
    Tree::Array(seq![Tree::Integer(i), real_tree(probabilities[i])])
}

/// What is reported of the probabilities of all items.
pub open spec fn filter_report(probabilities: Seq<Real>, threshold: Real) -> Tree {
    let matched = matching(probabilities, threshold, probabilities.len() as int);
    Tree::Object(
        map![
            "threshold"@ => real_tree(threshold),
            "matched_count"@ => Tree::Integer(matched.len() as int),
            "matched"@ => Tree::Array(
                matched.map_values(|i: int| place_and_probability(probabilities, i)),
            ),
            "probabilities"@ => Tree::Array(real_trees(probabilities)),
        ],
    )
}

/// A list on its way through the filter.
pub struct FilterRun {
    pub bulk: Bulk,
    pub criterion: serde_json::Value,
    pub threshold: Real,
    pub model: String,
    /// The probabilities of the items so far.
    pub probabilities: Vec<Real>,
}

/// Begins to filter items: refuses an empty or an overlong list before anything is asked.
pub fn filter_items(args: FilterItemsArgs) -> (r: Result<FilterRun, ToolError>)
    ensures
        match r {
            Ok(run) => {
                &&& items_fault(args.items@.len()) is None
                &&& run.wf()
                &&& run.bulk.items == args.items
                &&& run.bulk.done == 0
                &&& run.criterion == args.criterion
                &&& run.threshold == spec_threshold(args.threshold, HALF)
                &&& run.model@ == spec_model(args.model)
            },
            Err(e) => items_fault(args.items@.len()) is Some && e@ == Fault::InvalidParams(
                items_fault(args.items@.len())->0,
            ),
        },
{
    match Bulk::new(args.items) {
        Err(e) => Err(e),
        Ok(bulk) => Ok(
            FilterRun {
                bulk,
                criterion: args.criterion,
                threshold: threshold(args.threshold, HALF),
                model: model_or_default(args.model),
                probabilities: Vec::new(),
            },
        ),
    }
}

impl FilterRun {
    pub open spec fn wf(&self) -> bool {
        &&& self.bulk.wf()
        &&& gather(self.bulk.ranges@, self.bulk.heard@, self.bulk.done as nat, filter_reading())
            == Ok::<Seq<Real>, Fault>(self.probabilities@)
        &&& self.probabilities@.len() == self.bulk.reached()
    }

    /// The body of the next call: its items, and one question about each of them.
    pub fn next_call(&self) -> (r: Option<Json>)
        requires
            self.wf(),
        ensures
            match r {
                Some(body) => self.bulk.pending() && body@ == call_tree(
                    items_tree(self.bulk.chunk()),
                    one_each(
                        item_prefix(),
                        self.bulk.width(),
                        filter_about(Tree::Given(self.criterion)),
                    ),
                    self.model@,
                ),
                None => !self.bulk.pending(),
            },
    {
        match self.bulk.next_range() {
            None => None,
            Some((start, end)) => {
                let mut questions: Table<Question> = Table::new();
                let mut i: usize = 0;
                while i < end - start
                    invariant
                        start < end,
                        i <= end - start,
                        questions@ == one_each(
                            item_prefix(),
                            i as nat,
                            filter_about(Tree::Given(self.criterion)),
                        ),
                    decreases end - start - i,
                {
                    questions.insert(
                        numbered("item_", i),
                        noul_qv(
                            scoped_instructions(
                                Json::Given(self.criterion.clone()),
                                item_reference(i),
                                "Judge only the scoped item; ignore every other item in `items`.",
                            ),
                        ),
                    );
                    i = i + 1;
                }
                Some(
                    call_body(items_state(&self.bulk.items, start, end), &questions, &self.model),
                )
            },
        }
    }

    /// Takes in the response to the call that `next_call` gave. A response that leaves an
    /// item unanswered is refused whole.
    pub fn accept(&mut self, body: &Json) -> (r: Result<(), ToolError>)
        requires
            old(self).wf(),
            old(self).bulk.pending(),
        ensures
            match r {
                Ok(_) => {
                    let read = read_each(body@, old(self).bulk.width(), filter_reading());
                    &&& read is Ok
                    &&& final(self).wf()
                    &&& old(self).bulk.heard_one(&final(self).bulk, body@)
                    &&& final(self).probabilities@ == old(self).probabilities@ + read->Ok_0
                    &&& final(self).criterion == old(self).criterion
                    &&& final(self).threshold == old(self).threshold
                    &&& final(self).model == old(self).model
                },
                Err(e) => read_each(body@, old(self).bulk.width(), filter_reading()) == Err::<
                    Seq<Real>,
                    Fault,
                >(e@) && *final(self) == *old(self),
            },
    {
        proof {
            self.bulk.lemma_range();
        }
        let (start, end) = self.bulk.ranges[self.bulk.done];
        let mut read: Vec<Real> = Vec::new();
        let mut i: usize = 0;
        while i < end - start
            invariant
                start < end,
                i <= end - start,
                *self == *old(self),
                end - start == self.bulk.width(),
                read@.len() == i,
                read_each(body@, i as nat, filter_reading()) == Ok::<Seq<Real>, Fault>(read@),
            decreases end - start - i,
        {
            match answer_noul(body, &numbered("item_", i)) {
                Ok(p) => {
                    read.push(p);
                },
                Err(e) => {
                    proof {
                        lemma_read_stops(
                            body@,
                            (i + 1) as nat,
                            self.bulk.width(),
                            filter_reading(),
                        );
                    }
                    return Err(e);
                },
            }
            i = i + 1;
        }
        proof {
            lemma_gather_keeps(
                self.bulk.ranges@,
                self.bulk.heard@,
                body@,
                self.bulk.done as nat,
                filter_reading(),
            );
        }
        self.probabilities.append(&mut read);
        self.bulk.note(body);
        Ok(())
    }

    /// The report on all items.
    pub fn report(&self) -> (r: Json)
        requires
            self.wf(),
            !self.bulk.pending(),
        ensures
            r@ == filter_report(self.probabilities@, self.threshold),
    {
        let ghost values = self.probabilities@;
        let mut matched = Json::array();
        let mut count: usize = 0;
        let mut i: usize = 0;
        while i < self.probabilities.len()
            invariant
                i <= self.probabilities@.len(),
                values == self.probabilities@,
                count <= i,
                count == matching(values, self.threshold, i as int).len(),
                matched@ is Array,
                matched@->Array_0 == matching(values, self.threshold, i as int).map_values(
                    |i: int| place_and_probability(values, i),
                ),
            decreases self.probabilities.len() - i,
        {
            let p = self.probabilities[i];
            if p.ge(self.threshold) {
                let pair = Json::array().followed_by(Json::count(i)).followed_by(Json::number(p));
                assert(pair@->Array_0 =~= seq![Tree::Integer(i as int), real_tree(p)]);
                matched = matched.followed_by(pair);
                count = count + 1;
            }
            assert(matched@->Array_0 =~= matching(values, self.threshold, i + 1).map_values(
                |i: int| place_and_probability(values, i),
            ));
            i = i + 1;
        }
        Json::object().with("threshold", Json::number(self.threshold)).with(
            "matched_count",
            Json::count(count),
        ).with("matched", matched).with("probabilities", reals_json(&self.probabilities))
    }
}

/// The matched places are exactly those whose probability reaches the threshold, each
/// once, in the order of the items.
pub proof fn law_matched_reach_the_threshold(probabilities: Seq<Real>, threshold: Real, upto: int)
    requires
        0 <= upto <= probabilities.len(),
    ensures
        forall|i: int| #[trigger]
            matching(probabilities, threshold, upto).contains(i) <==> 0 <= i < upto
                && probabilities[i].spec_ge(threshold),
        forall|a: int, b: int|
            0 <= a < b < matching(probabilities, threshold, upto).len() ==> (#[trigger] matching(
                probabilities,
                threshold,
                upto,
            )[a]) < (#[trigger] matching(probabilities, threshold, upto)[b]),
    decreases upto,
{
    if upto > 0 {
        law_matched_reach_the_threshold(probabilities, threshold, upto - 1);
        let was = matching(probabilities, threshold, upto - 1);
        let now = matching(probabilities, threshold, upto);
        assert forall|a: int| 0 <= a < was.len() implies (#[trigger] was[a]) < upto - 1 by {
            assert(was.contains(was[a]));
        }
        assert forall|i: int| #[trigger] now.contains(i) <==> 0 <= i < upto
            && probabilities[i].spec_ge(threshold) by {
            if now.contains(i) {
                let a = now.index_of(i);
                if a < was.len() {
                    assert(was[a] == i);
                    assert(was.contains(i));
                }
            }
            if 0 <= i < upto && probabilities[i].spec_ge(threshold) {
                if i == upto - 1 {
                    assert(now[now.len() - 1] == i);
                } else {
                    assert(was.contains(i));
                    let a = was.index_of(i);
                    assert(now[a] == i);
                }
            }
        }
    }
}

/// The probabilities that a report carries are enough to filter anew: an item that a
/// threshold lets pass passes every lower one.
pub proof fn law_lower_threshold_keeps_matches(
    probabilities: Seq<Real>,
    low: Real,
    high: Real,
    i: int,
)
    requires
        high.spec_ge(low),
        matching(probabilities, high, probabilities.len() as int).contains(i),
    ensures
        matching(probabilities, low, probabilities.len() as int).contains(i),
{
    law_matched_reach_the_threshold(probabilities, high, probabilities.len() as int);
    law_matched_reach_the_threshold(probabilities, low, probabilities.len() as int);
}

/// The probability of every item is reported at its place, whatever the threshold, and a
/// matched item is reported with the same.
pub proof fn law_probabilities_survive_the_threshold(probabilities: Seq<Real>, threshold: Real)
    ensures
        ({
            let fields = filter_report(probabilities, threshold)->Object_0;
            let matched = matching(probabilities, threshold, probabilities.len() as int);
            &&& fields["probabilities"@] == Tree::Array(real_trees(probabilities))
            &&& forall|i: int|
                0 <= i < probabilities.len() ==> #[trigger] fields["probabilities"@]->Array_0[i]
                    == real_tree(probabilities[i])
            &&& forall|a: int|
                0 <= a < matched.len() ==> #[trigger] fields["matched"@]->Array_0[a]
                    == place_and_probability(probabilities, matched[a])
            &&& fields["matched_count"@] == Tree::Integer(matched.len() as int)
        }),
{
    reveal_strlit("threshold");
    reveal_strlit("matched_count");
    reveal_strlit("matched");
    reveal_strlit("probabilities");
    assert("threshold"@.len() == 9);
    assert("matched"@.len() == 7);
    assert("matched_count"@.len() == 13 && "probabilities"@.len() == 13);
    assert("matched_count"@[0] != "probabilities"@[0]);
}

/// Each item of a call is judged once, by its number, against the criterion as the caller
/// gives it.
pub proof fn law_items_are_judged(
    items: Seq<serde_json::Value>,
    criterion: serde_json::Value,
    model: Seq<char>,
    i: nat,
)
    requires
        i < items.len(),
    ensures
        ({
            let call = call_tree(
                items_tree(items),
                one_each(item_prefix(), items.len(), filter_about(Tree::Given(criterion))),
                model,
            );
            let asked = at(call, "questions"@);
            let q = at(asked, "item_"@ + decimal(i));
            let told = at(q, "instructions"@);
            &&& asked is Object && asked->Object_0.len() == items.len()
            &&& has_field(asked, "item_"@ + decimal(i))
            &&& fields_are(q, set!["type"@, "instructions"@])
            &&& holds(q, "type"@, Tree::Text("noul"@))
            &&& fields_are(told, set!["criterion"@, "scope"@, "focus"@])
            &&& holds(told, "criterion"@, Tree::Given(criterion))
            &&& holds(told, "scope"@, Tree::Text("`items["@ + decimal(i) + "]`"@))
            &&& holds(
                told,
                "focus"@,
                Tree::Text("Judge only the scoped item; ignore every other item in `items`."@),
            )
        }),
{
    law_numbered_questions_are_sent(
        items_tree(items),
        item_prefix(),
        items.len(),
        filter_about(Tree::Given(criterion)),
        model,
        i,
    );
    let view = filter_question(Tree::Given(criterion), i);
    assert(filter_about(Tree::Given(criterion))(i) == view);
    law_yes_and_no_are_sent(view->Noul_instructions, view->Noul_criteria);
    law_scopes_are_sent(
        Tree::Given(criterion),
        item_ref(i),
        "Judge only the scoped item; ignore every other item in `items`."@,
    );
}

/// The probability of an item is read exactly where the response gives one under the item's
/// own name.
pub proof fn law_probabilities_are_read(body: Tree, i: nat, probability: Real)
    ensures
        filter_reading()(body, i) == Ok::<Real, Fault>(probability) <==> {
            let id = "item_"@ + decimal(i);
            &&& answered(body, id)
            &&& has_field(answer_at(body, id), "noul"@)
            &&& spec_as_real(at(answer_at(body, id), "noul"@)) == Some(probability)
        },
{
    let id = numbered_id(item_prefix(), i);
    assert(id == "item_"@ + decimal(i));
    law_numbers_in_answers(body, id, probability);
}

/// The report says how many items match, and gives the threshold and the probability of
/// every item at its place.
pub proof fn law_all_probabilities_are_reported(probabilities: Seq<Real>, threshold: Real)
    ensures
        ({
            let report = filter_report(probabilities, threshold);
            let all = at(report, "probabilities"@)->Array_0;
            &&& fields_are(
                report,
                set!["threshold"@, "matched_count"@, "matched"@, "probabilities"@],
            )
            &&& holds(report, "threshold"@, real_tree(threshold))
            &&& at(report, "matched"@) is Array
            &&& holds(
                report,
                "matched_count"@,
                Tree::Integer(at(report, "matched"@)->Array_0.len() as int),
            )
            &&& at(report, "probabilities"@) is Array
            &&& all.len() == probabilities.len()
            &&& forall|i: int|
                0 <= i < probabilities.len() ==> #[trigger] all[i] == real_tree(probabilities[i])
        }),
{
    reveal_strlit("threshold");
    reveal_strlit("matched_count");
    reveal_strlit("matched");
    reveal_strlit("probabilities");
    assert("threshold"@.len() == 9);
    assert("matched_count"@.len() == 13);
    assert("matched"@.len() == 7);
    assert("probabilities"@.len() == 13);
    assert("matched_count"@[0] != "probabilities"@[0]);
    let report = filter_report(probabilities, threshold);
    assert(report->Object_0.dom()
        =~= set!["threshold"@, "matched_count"@, "matched"@, "probabilities"@]);
}

/// An item is reported as a match, by its place and with its probability, exactly where its
/// probability reaches the threshold; and matches are reported in the order of their places.
pub proof fn law_matches_are_reported(probabilities: Seq<Real>, threshold: Real)
    ensures
        ({
            let matched = at(filter_report(probabilities, threshold), "matched"@)->Array_0;
            &&& forall|a: int|
                0 <= a < matched.len() ==> reports_match(
                    #[trigger] matched[a],
                    probabilities,
                    threshold,
                )
            &&& forall|a: int, b: int|
                0 <= a < b < matched.len() ==> (#[trigger] matched[a])->Array_0[0]->Integer_0 < (
                #[trigger] matched[b])->Array_0[0]->Integer_0
            &&& forall|i: int|
                0 <= i < probabilities.len() && (#[trigger] probabilities[i]).spec_ge(threshold)
                    ==> exists|a: int|
                    0 <= a < matched.len() && (#[trigger] matched[a])->Array_0[0] == Tree::Integer(
                        i,
                    )
        }),
{
    reveal_strlit("threshold");
    reveal_strlit("matched_count");
    reveal_strlit("matched");
    reveal_strlit("probabilities");
    assert("threshold"@.len() == 9);
    assert("matched_count"@.len() == 13);
    assert("matched"@.len() == 7);
    assert("probabilities"@.len() == 13);
    assert("matched_count"@[0] != "probabilities"@[0]);
    let matched = at(filter_report(probabilities, threshold), "matched"@)->Array_0;
    let places = matching(probabilities, threshold, probabilities.len() as int);
    law_matched_reach_the_threshold(probabilities, threshold, probabilities.len() as int);
    assert(matched == places.map_values(|i: int| place_and_probability(probabilities, i)));
    assert forall|a: int| 0 <= a < matched.len() implies reports_match(
        #[trigger] matched[a],
        probabilities,
        threshold,
    ) && matched[a]->Array_0[0] == Tree::Integer(places[a]) by {
        assert(matched[a] == place_and_probability(probabilities, places[a]));
        assert(places.contains(places[a]));
    }
    assert forall|i: int|
        0 <= i < probabilities.len() && (#[trigger] probabilities[i]).spec_ge(
            threshold,
        ) implies exists|a: int|
        0 <= a < matched.len() && (#[trigger] matched[a])->Array_0[0] == Tree::Integer(i) by {
        assert(places.contains(i));
        let a = choose|a: int| 0 <= a < places.len() && places[a] == i;
        assert(matched[a]->Array_0[0] == Tree::Integer(i));
    }
}

/// Whether an entry gives the place of an item whose probability reaches the threshold, and
/// that probability, and nothing else.
pub open spec fn reports_match(entry: Tree, probabilities: Seq<Real>, threshold: Real) -> bool {
    let i = entry->Array_0[0]->Integer_0;
    &&& entry is Array
    &&& entry->Array_0.len() == 2
    &&& entry->Array_0[0] is Integer
    &&& 0 <= i < probabilities.len()
    &&& probabilities[i].spec_ge(threshold)
    &&& entry->Array_0[1] == real_tree(probabilities[i])
}

/// A filter begins with what the caller gives: the items, the criterion, the model or
/// `jev-latest`, and the threshold or one half.
pub proof fn law_filters_begin_as_asked(args: FilterItemsArgs, r: Result<FilterRun, ToolError>)
    requires
        call_ensures(filter_items, (args,), r),
    ensures
        r is Ok <==> 1 <= args.items@.len() <= 1000,
        r matches Ok(run) ==> {
            &&& run.bulk.items == args.items
            &&& run.bulk.done == 0
            &&& run.criterion == args.criterion
            &&& threshold_follows(args.threshold, 0x3fe0_0000_0000_0000, run.threshold)
            &&& model_follows(args.model, run.model@)
        },
        r matches Err(e) ==> e@ is InvalidParams,
{
    law_lists_within_limits(args.items@.len());
    lemma_threshold_follows(args.threshold, HALF);
}

/// The next call of a filter is about the items that follow those already judged, and asks
/// of each of them whether it meets the criterion; there is none once all are judged.
pub proof fn law_filters_ask_in_turn(run: FilterRun, r: Option<Json>, i: nat)
    requires
        run.wf(),
        call_ensures(FilterRun::next_call, (&run,), r),
    ensures
        r is Some <==> run.bulk.reached() < run.bulk.items@.len(),
        r matches Some(body) ==> {
            let sent = at(at(body@, "state"@), "items"@);
            let asked = at(body@, "questions"@);
            &&& holds(body@, "model"@, Tree::Text(run.model@))
            &&& fields_are(at(body@, "state"@), set!["items"@])
            &&& sent is Array
            &&& 1 <= sent->Array_0.len() <= 200
            &&& run.bulk.reached() + sent->Array_0.len() <= run.bulk.items@.len()
            &&& asked is Object && asked->Object_0.len() == sent->Array_0.len()
            &&& i < sent->Array_0.len() ==> {
                let q = at(asked, "item_"@ + decimal(i));
                &&& sent->Array_0[i as int] == Tree::Given(run.bulk.items@[run.bulk.reached() + i])
                &&& has_field(asked, "item_"@ + decimal(i))
                &&& holds(q, "type"@, Tree::Text("noul"@))
                &&& holds(at(q, "instructions"@), "criterion"@, Tree::Given(run.criterion))
                &&& holds(
                    at(q, "instructions"@),
                    "scope"@,
                    Tree::Text("`items["@ + decimal(i) + "]`"@),
                )
            }
        },
{
    law_next_items(&run.bulk);
    if r is Some {
        let items = run.bulk.chunk();
        law_items_are_sent(items);
        law_calls_hold_what_they_ask(
            items_tree(items),
            one_each(item_prefix(), items.len(), filter_about(Tree::Given(run.criterion))),
            run.model@,
        );
        law_items_are_judged(items, run.criterion, run.model@, 0);
        if i < items.len() {
            law_items_are_judged(items, run.criterion, run.model@, i);
        }
    }
}

/// The report of a filter lists just those items whose probability reaches its threshold.
pub proof fn law_filters_report_their_matches(run: FilterRun, r: Json)
    requires
        call_ensures(FilterRun::report, (&run,), r),
    ensures
        ({
            let matched = at(r@, "matched"@)->Array_0;
            let all = at(r@, "probabilities"@)->Array_0;
            &&& fields_are(
                r@,
                set!["threshold"@, "matched_count"@, "matched"@, "probabilities"@],
            )
            &&& holds(r@, "threshold"@, real_tree(run.threshold))
            &&& holds(r@, "matched_count"@, Tree::Integer(matched.len() as int))
            &&& forall|a: int|
                0 <= a < matched.len() ==> reports_match(
                    #[trigger] matched[a],
                    run.probabilities@,
                    run.threshold,
                )
            &&& forall|i: int|
                0 <= i < run.probabilities@.len() && (#[trigger] run.probabilities@[i]).spec_ge(
                    run.threshold,
                ) ==> exists|a: int|
                    0 <= a < matched.len() && (#[trigger] matched[a])->Array_0[0] == Tree::Integer(
                        i,
                    )
            &&& all.len() == run.probabilities@.len()
            &&& forall|i: int|
                0 <= i < all.len() ==> #[trigger] all[i] == real_tree(run.probabilities@[i])
        }),
{
    law_all_probabilities_are_reported(run.probabilities@, run.threshold);
    law_matches_are_reported(run.probabilities@, run.threshold);
}

/// A response is taken in exactly where it gives a probability for every item that was asked
/// about, and then each at its own place, after those that were known; otherwise nothing
/// changes.
pub proof fn law_filters_take_in_answers(run: &mut FilterRun, body: Json, r: Result<(), ToolError>)
    requires
        old(run).wf(),
        old(run).bulk.pending(),
        call_ensures(FilterRun::accept, (run, &body), r),
    ensures
        r is Ok <==> (forall|i: nat|
            i < old(run).bulk.width() ==> noul_in(body@, "item_"@ + #[trigger] decimal(i)) is Ok),
        r is Ok ==> {
            let before = old(run).probabilities@;
            let after = final(run).probabilities@;
            &&& final(run).bulk.items == old(run).bulk.items
            &&& final(run).bulk.done == old(run).bulk.done + 1
            &&& final(run).bulk.reached() == old(run).bulk.reached() + old(run).bulk.width()
            &&& final(run).criterion == old(run).criterion
            &&& final(run).threshold == old(run).threshold
            &&& final(run).model == old(run).model
            &&& after.len() == before.len() + old(run).bulk.width()
            &&& forall|i: int| 0 <= i < before.len() ==> after[i] == before[i]
            &&& forall|i: nat|
                i < old(run).bulk.width() ==> noul_in(body@, "item_"@ + #[trigger] decimal(i)) == Ok::<
                    Real,
                    Fault,
                >(after[before.len() as int + i])
        },
        r is Err ==> *final(run) == *old(run),
{
    let width = old(run).bulk.width();
    let reading = filter_reading();
    law_answers_are_read_in_turn(body@, width, reading);
    assert forall|i: nat| i < width implies filter_reading()(body@, i) == noul_in(
        body@,
        "item_"@ + #[trigger] decimal(i),
    ) by {
        assert(numbered_id(item_prefix(), i) == "item_"@ + decimal(i));
    }
    assert forall|i: nat| i < width implies ((#[trigger] reading(body@, i)) is Ok <==> noul_in(body@, "item_"@ + decimal(i)) is Ok) by {}
    if r is Ok {
        let before = old(run).probabilities@;
        let after = final(run).probabilities@;
        let more = read_each(body@, width, reading)->Ok_0;
        assert(after == before + more);
        assert forall|i: nat| i < width implies noul_in(body@, "item_"@ + #[trigger] decimal(i))
            == Ok::<Real, Fault>(after[before.len() as int + i]) by {
            assert(reading(body@, i) == Ok::<Real, Fault>(more[i as int]));
        }
    }
}

} // verus!
