//! Which category each item of a list belongs to.

use crate::answer::{
    answer_at, answer_choice_among, answer_confidence, answered, choice_among, confidence_in,
    law_choices_in_answers, law_faults_in_answers, law_numbers_in_answers,
};
use crate::bulk::{
    gather, item_prefix, items_fault, items_state, items_tree, law_answers_are_read_in_turn,
    law_items_are_sent, law_lists_within_limits, law_next_items, lemma_gather_holds,
    lemma_gather_keeps, lemma_read_stops, read_each, Bulk,
};
use crate::document::copy_table;
use crate::error::{invalid_params_error, Fault, ToolError};
use crate::json::{at, fields_are, has_field, holds, real_tree, spec_as_real, Json, Tree};
use crate::question::{
    call_body, call_tree, item_ref, item_reference, law_calls_hold_what_they_ask,
    law_choices_are_sent, law_numbered_questions_are_sent, law_scopes_are_sent, model_follows,
    model_or_default, numbered, numbered_id, one_each, scoped, scoped_instructions, spec_model,
    Question, QuestionView, MAX_OPTIONS,
};
use crate::reals::Real;
use crate::table::{lemma_walk_step, walks, Table};
use crate::text::{decimal, decimal_text, join3, same_text};
use vstd::prelude::*;
use vstd::string::*;

verus! {

/// What `classify_items` takes.
pub struct ClassifyItemsArgs {
    pub items: Vec<serde_json::Value>,
    /// The categories, each with what describes it.
    pub categories: Table<Json>,
    pub model: Option<String>,
}

/// What the answer about an item says.
pub struct Classified {
    pub choice: String,
    pub confidence: Real,
}

impl View for Classified {
    type V = (Seq<char>, Real);

    open spec fn view(&self) -> (Seq<char>, Real) {
        (self.choice@, self.confidence)
    }
}

/// What answers say.
pub open spec fn classified(answers: Seq<Classified>) -> Seq<(Seq<char>, Real)> {
    answers.map_values(|c: Classified| c@)
}

/// Why a list of `n` items with `categories` categories is refused.
pub open spec fn classify_fault(n: nat, categories: nat) -> Option<Seq<char>> {
    match items_fault(n) {
        Some(message) => Some(message),
        None => if categories == 0 {
            Some("'categories' must contain at least one category"@)
        } else if categories > MAX_OPTIONS {
            Some(
                "'categories' has "@ + decimal(categories) + " entries; the maximum is 255"@,
            )
        } else {
            None
        },
    }
}

/// The question about the item `i` of a call.
pub open spec fn classify_question(categories: Map<Seq<char>, Tree>, i: nat) -> QuestionView {
    QuestionView::Choice {
        instructions: scoped(
            Tree::Text("Which category best applies to the scoped item?"@),
            item_ref(i),
            "Choose the single best-fitting category; ignore every other item in `items`."@,
        ),
        criteria: categories,
    }
}

/// The questions about the items of a call.
pub open spec fn classify_about(categories: Map<Seq<char>, Tree>) -> spec_fn(nat) -> QuestionView {
    |i: nat| classify_question(categories, i)
}

/// The choice, one of `options`, and then the confidence in the answer to the question `id`.
pub open spec fn choice_and_confidence(
    body: Tree,
    id: Seq<char>,
    options: Set<Seq<char>>,
) -> Result<(Seq<char>, Real), Fault> {
    match choice_among(body, id, options) {
        Err(e) => Err(e),
        Ok(choice) => match confidence_in(body, id) {
            Err(e) => Err(e),
            Ok(confidence) => Ok((choice, confidence)),
        },
    }
}

/// Reads the choice, one of `options`, and then the confidence in the answer to the
/// question `id`.
pub fn answer_classified(body: &Json, id: &str, options: &Table<Json>) -> (r: Result<
    Classified,
    ToolError,
>)
    ensures
        match r {
            Ok(c) => choice_and_confidence(body@, id@, options@.dom()) == Ok::<
                (Seq<char>, Real),
                Fault,
            >(c@),
            Err(e) => choice_and_confidence(body@, id@, options@.dom()) == Err::<
                (Seq<char>, Real),
                Fault,
            >(e@),
        },
{
    match answer_choice_among(body, id, options) {
        Err(e) => Err(e),
        Ok(choice) => match answer_confidence(body, id) {
            Err(e) => Err(e),
            Ok(confidence) => Ok(Classified { choice, confidence }),
        },
    }
}

/// How the answer about the item `i` of a call is read.
pub open spec fn classify_reading(categories: Set<Seq<char>>) -> spec_fn(Tree, nat) -> Result<
    (Seq<char>, Real),
    Fault,
> {
    |body: Tree, i: nat| choice_and_confidence(body, numbered_id(item_prefix(), i), categories)
}

/// The places below `upto` of the items that were put in `category`, in order.
pub open spec fn bucket(
    answers: Seq<(Seq<char>, Real)>,
    category: Seq<char>,
    upto: int,
) -> Seq<int>
    decreases upto,
{
    if upto <= 0 {
        Seq::empty()
    } else if answers[upto - 1].0 == category {
        bucket(answers, category, upto - 1).push(upto - 1)
    } else {
        bucket(answers, category, upto - 1)
    }
}

/// Places in a list.
pub open spec fn places(list: Seq<int>) -> Tree {
    Tree::Array(list.map_values(|i: int| Tree::Integer(i)))
}

/// Whether all choices are among `categories`.
pub open spec fn all_within(
    categories: Set<Seq<char>>,
    answers: Seq<(Seq<char>, Real)>,
) -> bool {
    forall|i: int| 0 <= i < answers.len() ==> categories.contains((#[trigger] answers[i]).0)
}

/// What is reported of one item.
pub open spec fn classify_entry(answers: Seq<(Seq<char>, Real)>, i: int) -> Tree {
    Tree::Object(
        map![
            "i"@ => Tree::Integer(i),
            "choice"@ => Tree::Text(answers[i].0),
            "confidence"@ => real_tree(answers[i].1),
        ],
    )
}

/// What is reported of all items: the places in each category, and what was answered about
/// each item.
pub open spec fn classify_report(
    categories: Set<Seq<char>>,
    answers: Seq<(Seq<char>, Real)>,
) -> Tree {
    Tree::Object(
        map![
            "buckets"@ => Tree::Object(
                Map::new(
                    |k: Seq<char>| categories.contains(k),
                    |k: Seq<char>| places(bucket(answers, k, answers.len() as int)),
                ),
            ),
            "items"@ => Tree::Array(
                Seq::new(answers.len(), |i: int| classify_entry(answers, i)),
            ),
        ],
    )
}

/// A list on its way through the classification.
pub struct ClassifyRun {
    pub bulk: Bulk,
    pub categories: Table<Json>,
    pub model: String,
    /// What the answers about the items so far say.
    pub answers: Vec<Classified>,
}

/// Begins to classify items: refuses a list or categories out of bounds before anything is
/// asked.
pub fn classify_items(args: ClassifyItemsArgs) -> (r: Result<ClassifyRun, ToolError>)
    ensures
        match r {
            Ok(run) => {
                &&& classify_fault(args.items@.len(), args.categories@.len()) is None
                &&& run.wf()
                &&& run.bulk.items == args.items
                &&& run.bulk.done == 0
                &&& run.categories == args.categories
                &&& run.model@ == spec_model(args.model)
            },
            Err(e) => classify_fault(args.items@.len(), args.categories@.len()) is Some && e@
                == Fault::InvalidParams(
                classify_fault(args.items@.len(), args.categories@.len())->0,
            ),
        },
{
    match Bulk::new(args.items) {
        Err(e) => Err(e),
        Ok(bulk) => {
            let n = args.categories.len();
            if n == 0 {
                return Err(
                    invalid_params_error(
                        "'categories' must contain at least one category".to_string(),
                    ),
                );
            }
            if n > MAX_OPTIONS {
                return Err(
                    invalid_params_error(
                        join3(
                            "'categories' has ",
                            &decimal_text(n as u64),
                            " entries; the maximum is 255",
                        ),
                    ),
                );
            }
            let run = ClassifyRun {
                bulk,
                categories: args.categories,
                model: model_or_default(args.model),
                answers: Vec::new(),
            };
            assert(classified(run.answers@) =~= Seq::empty());
            Ok(run)
        },
    }
}

impl ClassifyRun {
    pub open spec fn wf(&self) -> bool {
        &&& self.bulk.wf()
        &&& 1 <= self.categories@.len() <= MAX_OPTIONS
        &&& gather(
            self.bulk.ranges@,
            self.bulk.heard@,
            self.bulk.done as nat,
            classify_reading(self.categories@.dom()),
        ) == Ok::<Seq<(Seq<char>, Real)>, Fault>(classified(self.answers@))
        &&& self.answers@.len() == self.bulk.reached()
    }

    /// The body of the next call: its items, and one question about each of them.
    pub fn next_call(&self) -> (r: Option<Json>)
        requires
            self.wf(),
        ensures
            match r {
                Some(body) => self.bulk.pending() && body@ == call_tree(
                    items_tree(self.bulk.chunk()),
                    one_each(
                        item_prefix(),
                        self.bulk.width(),
                        classify_about(self.categories@),
                    ),
                    self.model@,
                ),
                None => !self.bulk.pending(),
            },
    {
        match self.bulk.next_range() {
            None => None,
            Some((start, end)) => {
                let mut questions: Table<Question> = Table::new();
                let mut i: usize = 0;
                while i < end - start
                    invariant
                        start < end,
                        i <= end - start,
                        questions@ == one_each(
                            item_prefix(),
                            i as nat,
                            classify_about(self.categories@),
                        ),
                    decreases end - start - i,
                {
                    questions.insert(
                        numbered("item_", i),
                        Question::Choice {
                            instructions: scoped_instructions(
                                Json::text("Which category best applies to the scoped item?"),
                                item_reference(i),
                                "Choose the single best-fitting category; ignore every other item in `items`.",
                            ),
                            criteria: copy_table(&self.categories),
                        },
                    );
                    i = i + 1;
                }
                Some(
                    call_body(items_state(&self.bulk.items, start, end), &questions, &self.model),
                )
            },
        }
    }

    /// Takes in the response to the call that `next_call` gave. A response that leaves an
    /// item unanswered is refused whole.
    pub fn accept(&mut self, body: &Json) -> (r: Result<(), ToolError>)
        requires
            old(self).wf(),
            old(self).bulk.pending(),
        ensures
            match r {
                Ok(_) => {
                    let read = read_each(body@, old(self).bulk.width(), classify_reading(old(self).categories@.dom()));
                    &&& read is Ok
                    &&& final(self).wf()
                    &&& old(self).bulk.heard_one(&final(self).bulk, body@)
                    &&& classified(final(self).answers@) == classified(old(self).answers@)
                        + read->Ok_0
                    &&& final(self).categories == old(self).categories
                    &&& final(self).model == old(self).model
                },
                Err(e) => read_each(body@, old(self).bulk.width(), classify_reading(old(self).categories@.dom())) == Err::<
                    Seq<(Seq<char>, Real)>,
                    Fault,
                >(e@) && *final(self) == *old(self),
            },
    {
        proof {
            self.bulk.lemma_range();
        }
        let (start, end) = self.bulk.ranges[self.bulk.done];
        let mut read: Vec<Classified> = Vec::new();
        let mut i: usize = 0;
        assert(classified(read@) =~= Seq::empty());
        while i < end - start
            invariant
                start < end,
                i <= end - start,
                *self == *old(self),
                end - start == self.bulk.width(),
                read@.len() == i,
                read_each(body@, i as nat, classify_reading(self.categories@.dom())) == Ok::<
                    Seq<(Seq<char>, Real)>,
                    Fault,
                >(classified(read@)),
            decreases end - start - i,
        {
            match answer_classified(body, &numbered("item_", i), &self.categories) {
                Ok(c) => {
                    let ghost was = read@;
                    read.push(c);
                    assert(classified(read@) =~= classified(was).push(c@));
                },
                Err(e) => {
                    proof {
                        lemma_read_stops(
                            body@,
                            (i + 1) as nat,
                            self.bulk.width(),
                            classify_reading(self.categories@.dom()),
                        );
                    }
                    return Err(e);
                },
            }
            i = i + 1;
        }
        proof {
            lemma_gather_keeps(
                self.bulk.ranges@,
                self.bulk.heard@,
                body@,
                self.bulk.done as nat,
                classify_reading(self.categories@.dom()),
            );
            assert(classified(self.answers@ + read@) =~= classified(self.answers@) + classified(
                read@,
            ));
        }
        self.answers.append(&mut read);
        self.bulk.note(body);
        Ok(())
    }

    /// The places of the items that were put in `category`.
    fn bucket_json(&self, category: &str) -> (r: Json)
        ensures
            r@ == places(bucket(classified(self.answers@), category@, self.answers@.len() as int)),
    {
        let ghost answers = classified(self.answers@);
        let mut list = Json::array();
        let mut i: usize = 0;
        assert(list@->Array_0 =~= places(bucket(answers, category@, 0))->Array_0);
        while i < self.answers.len()
            invariant
                i <= self.answers@.len(),
                answers == classified(self.answers@),
                list@ is Array,
                list@ == places(bucket(answers, category@, i as int)),
            decreases self.answers.len() - i,
        {
            if same_text(&self.answers[i].choice, category) {
                list = list.followed_by(Json::count(i));
            }
            assert(list@->Array_0 =~= places(bucket(answers, category@, i + 1))->Array_0);
            i = i + 1;
        }
        list
    }

    /// The report on all items.
    pub fn report(&self) -> (r: Json)
        requires
            self.wf(),
            !self.bulk.pending(),
        ensures
            r@ == classify_report(self.categories@.dom(), classified(self.answers@)),
            all_within(self.categories@.dom(), classified(self.answers@)),
    {
        proof {
            law_choices_are_categories(
                self.categories@.dom(),
                self.bulk.ranges@,
                self.bulk.heard@,
                self.bulk.done as nat,
            );
        }
        let ghost answers = classified(self.answers@);
        let ghost n = self.answers@.len() as int;
        let mut buckets = Json::object();
        let count = self.categories.len();
        let mut c: usize = 0;
        while c < count
            invariant
                c <= count,
                count == self.categories.keys().len(),
                walks(&self.categories),
                answers == classified(self.answers@),
                n == self.answers@.len(),
                buckets@ is Object,
                forall|k: Seq<char>| #[trigger]
                    buckets@->Object_0.contains_key(k) <==> self.categories.keys().take(
                        c as int,
                    ).contains(k),
                forall|k: Seq<char>| #[trigger]
                    buckets@->Object_0.contains_key(k) ==> buckets@->Object_0[k] == places(
                        bucket(answers, k, n),
                    ),
            decreases count - c,
        {
            let key = self.categories.key_at(c);
            buckets = buckets.with(key, self.bucket_json(key));
            proof {
                lemma_walk_step(self.categories.keys(), c as int);
            }
            c = c + 1;
        }
        let mut items = Json::array();
        let mut i: usize = 0;
        while i < self.answers.len()
            invariant
                i <= self.answers@.len(),
                answers == classified(self.answers@),
                items@ is Array,
                items@->Array_0 == Seq::new(i as nat, |i: int| classify_entry(answers, i)),
            decreases self.answers.len() - i,
        {
            let entry = Json::object().with("i", Json::count(i)).with(
                "choice",
                Json::text(&self.answers[i].choice),
            ).with("confidence", Json::number(self.answers[i].confidence));
            items = items.followed_by(entry);
            assert(items@->Array_0 =~= Seq::new(
                (i + 1) as nat,
                |i: int| classify_entry(answers, i),
            ));
            i = i + 1;
        }
        proof {
            assert(self.categories.keys().take(c as int) =~= self.categories.keys());
            assert(buckets@->Object_0 =~= Map::new(
                |k: Seq<char>| self.categories@.dom().contains(k),
                |k: Seq<char>| places(bucket(answers, k, answers.len() as int)),
            ));
        }
        Json::object().with("buckets", buckets).with("items", items)
    }
}

/// The bucket of a category holds exactly the items that were put in it, in order: an item
/// is in no bucket but that of its category.
pub proof fn law_bucket_holds_its_items(
    answers: Seq<(Seq<char>, Real)>,
    category: Seq<char>,
    upto: int,
)
    requires
        0 <= upto <= answers.len(),
    ensures
        forall|i: int| #[trigger]
            bucket(answers, category, upto).contains(i) <==> 0 <= i < upto && answers[i].0
                == category,
        forall|a: int, b: int|
            0 <= a < b < bucket(answers, category, upto).len() ==> (#[trigger] bucket(
                answers,
                category,
                upto,
            )[a]) < (#[trigger] bucket(answers, category, upto)[b]),
    decreases upto,
{
    if upto > 0 {
        law_bucket_holds_its_items(answers, category, upto - 1);
        let was = bucket(answers, category, upto - 1);
        let now = bucket(answers, category, upto);
        assert forall|a: int| 0 <= a < was.len() implies (#[trigger] was[a]) < upto - 1 by {
            assert(was.contains(was[a]));
        }
        assert forall|i: int| #[trigger] now.contains(i) <==> 0 <= i < upto && answers[i].0
            == category by {
            if now.contains(i) {
                let a = now.index_of(i);
                if a < was.len() {
                    assert(was[a] == i);
                    assert(was.contains(i));
                }
            }
            if 0 <= i < upto && answers[i].0 == category {
                if i == upto - 1 {
                    assert(now[now.len() - 1] == i);
                } else {
                    assert(was.contains(i));
                    let a = was.index_of(i);
                    assert(now[a] == i);
                }
            }
        }
    }
}

/// Every choice that is gathered is one of the categories that were asked about.
pub proof fn law_choices_are_categories(
    categories: Set<Seq<char>>,
    ranges: Seq<(usize, usize)>,
    heard: Seq<Tree>,
    k: nat,
)
    ensures
        gather(ranges, heard, k, classify_reading(categories)) matches Ok(answers) ==> all_within(
            categories,
            answers,
        ),
{
    lemma_gather_holds(
        ranges,
        heard,
        k,
        classify_reading(categories),
        |x: (Seq<char>, Real)| categories.contains(x.0),
    );
}

/// Every item is in exactly one bucket: that of the category that was chosen for it.
pub proof fn law_every_item_in_one_bucket(
    categories: Set<Seq<char>>,
    ranges: Seq<(usize, usize)>,
    heard: Seq<Tree>,
    k: nat,
    answers: Seq<(Seq<char>, Real)>,
    i: int,
)
    requires
        gather(ranges, heard, k, classify_reading(categories)) == Ok::<
            Seq<(Seq<char>, Real)>,
            Fault,
        >(answers),
        0 <= i < answers.len(),
    ensures
        categories.contains(answers[i].0),
        forall|c: Seq<char>| #[trigger]
            bucket(answers, c, answers.len() as int).contains(i) <==> c == answers[i].0,
{
    law_choices_are_categories(categories, ranges, heard, k);
    assert forall|c: Seq<char>| #[trigger]
        bucket(answers, c, answers.len() as int).contains(i) <==> c == answers[i].0 by {
        law_bucket_holds_its_items(answers, c, answers.len() as int);
    }
}

/// Each item of a call is classified once, by its number, with all categories to choose
/// from, as the caller gives them.
pub proof fn law_items_are_classified(
    items: Seq<serde_json::Value>,
    categories: Map<Seq<char>, Tree>,
    model: Seq<char>,
    i: nat,
)
    requires
        i < items.len(),
    ensures
        ({
            let call = call_tree(
                items_tree(items),
                one_each(item_prefix(), items.len(), classify_about(categories)),
                model,
            );
            let asked = at(call, "questions"@);
            let q = at(asked, "item_"@ + decimal(i));
            let told = at(q, "instructions"@);
            &&& asked is Object && asked->Object_0.len() == items.len()
            &&& has_field(asked, "item_"@ + decimal(i))
            &&& fields_are(q, set!["type"@, "instructions"@, "criteria"@])
            &&& holds(q, "type"@, Tree::Text("choice"@))
            &&& holds(q, "criteria"@, Tree::Object(categories))
            &&& fields_are(told, set!["criterion"@, "scope"@, "focus"@])
            &&& holds(
                told,
                "criterion"@,
                Tree::Text("Which category best applies to the scoped item?"@),
            )
            &&& holds(told, "scope"@, Tree::Text("`items["@ + decimal(i) + "]`"@))
            &&& holds(
                told,
                "focus"@,
                Tree::Text(
                    "Choose the single best-fitting category; ignore every other item in `items`."@,
                ),
            )
        }),
{
    law_numbered_questions_are_sent(
        items_tree(items),
        item_prefix(),
        items.len(),
        classify_about(categories),
        model,
        i,
    );
    let view = classify_question(categories, i);
    assert(classify_about(categories)(i) == view);
    law_choices_are_sent(view->Choice_instructions, view->Choice_criteria);
    law_scopes_are_sent(
        Tree::Text("Which category best applies to the scoped item?"@),
        item_ref(i),
        "Choose the single best-fitting category; ignore every other item in `items`."@,
    );
}

/// A choice with its confidence is read exactly where the response gives, under the
/// question's name, one of the options and a confidence.
pub proof fn law_choices_are_read(
    body: Tree,
    id: Seq<char>,
    options: Set<Seq<char>>,
    choice: Seq<char>,
    confidence: Real,
)
    ensures
        choice_and_confidence(body, id, options) == Ok::<(Seq<char>, Real), Fault>(
            (choice, confidence),
        ) <==> {
            &&& options.contains(choice)
            &&& answered(body, id)
            &&& holds(answer_at(body, id), "choice"@, Tree::Text(choice))
            &&& has_field(answer_at(body, id), "confidence"@)
            &&& spec_as_real(at(answer_at(body, id), "confidence"@)) == Some(confidence)
        },
        !answered(body, id) ==> choice_and_confidence(body, id, options) == Err::<
            (Seq<char>, Real),
            Fault,
        >(Fault::Internal("TypeSafe response is missing answer '"@ + id + "'"@)),
{
    law_choices_in_answers(body, id, options, choice);
    law_numbers_in_answers(body, id, confidence);
    law_faults_in_answers(body, id);
    if choice_and_confidence(body, id, options) == Ok::<(Seq<char>, Real), Fault>(
        (choice, confidence),
    ) {
        assert(choice_among(body, id, options) == Ok::<Seq<char>, Fault>(choice));
        assert(confidence_in(body, id) == Ok::<Real, Fault>(confidence));
    }
}

/// The category of an item is read under the item's own name.
pub proof fn law_categories_are_read(categories: Set<Seq<char>>, body: Tree, i: nat)
    ensures
        classify_reading(categories)(body, i) == choice_and_confidence(
            body,
            "item_"@ + decimal(i),
            categories,
        ),
{
    assert(numbered_id(item_prefix(), i) == "item_"@ + decimal(i));
}

/// The report gives for each category, and for nothing else, the places of just those items
/// that it was chosen for, in their order; and each item at its own place with its choice
/// and confidence.
pub proof fn law_buckets_are_reported(
    categories: Set<Seq<char>>,
    answers: Seq<(Seq<char>, Real)>,
    category: Seq<char>,
)
    requires
        categories.contains(category),
    ensures
        ({
            let report = classify_report(categories, answers);
            let buckets = at(report, "buckets"@);
            let held = at(buckets, category)->Array_0;
            let items = at(report, "items"@)->Array_0;
            &&& fields_are(report, set!["buckets"@, "items"@])
            &&& fields_are(buckets, categories)
            &&& at(buckets, category) is Array
            &&& forall|a: int|
                0 <= a < held.len() ==> {
                    let i = (#[trigger] held[a])->Integer_0;
                    held[a] is Integer && 0 <= i < answers.len() && answers[i].0 == category
                }
            &&& forall|a: int, b: int|
                0 <= a < b < held.len() ==> (#[trigger] held[a])->Integer_0 < (
                #[trigger] held[b])->Integer_0
            &&& forall|i: int|
                0 <= i < answers.len() && (#[trigger] answers[i]).0 == category ==> held.contains(
                    Tree::Integer(i),
                )
            &&& at(report, "items"@) is Array
            &&& items.len() == answers.len()
            &&& forall|i: int|
                0 <= i < answers.len() ==> {
                    let entry = #[trigger] items[i];
                    &&& fields_are(entry, set!["i"@, "choice"@, "confidence"@])
                    &&& holds(entry, "i"@, Tree::Integer(i))
                    &&& holds(entry, "choice"@, Tree::Text(answers[i].0))
                    &&& holds(entry, "confidence"@, real_tree(answers[i].1))
                }
        }),
{
    reveal_strlit("buckets");
    reveal_strlit("items");
    reveal_strlit("i");
    reveal_strlit("choice");
    reveal_strlit("confidence");
    assert("buckets"@.len() == 7);
    assert("items"@.len() == 5);
    assert("i"@.len() == 1);
    assert("choice"@.len() == 6);
    assert("confidence"@.len() == 10);
    let report = classify_report(categories, answers);
    assert(report->Object_0.dom() =~= set!["buckets"@, "items"@]);
    let buckets = at(report, "buckets"@);
    assert(buckets->Object_0.dom() =~= categories);
    law_bucket_holds_its_items(answers, category, answers.len() as int);
    let list = bucket(answers, category, answers.len() as int);
    let held = at(buckets, category)->Array_0;
    assert(held =~= list.map_values(|i: int| Tree::Integer(i)));
    assert forall|a: int| 0 <= a < held.len() implies #[trigger] held[a] == Tree::Integer(list[a])
        && list.contains(list[a]) by {}
    assert forall|i: int|
        0 <= i < answers.len() && (#[trigger] answers[i]).0 == category implies held.contains(
        Tree::Integer(i),
    ) by {
        assert(list.contains(i));
        let a = choose|a: int| 0 <= a < list.len() && list[a] == i;
        assert(held[a] == Tree::Integer(i));
    }
    let items = at(report, "items"@)->Array_0;
    assert forall|i: int| 0 <= i < answers.len() implies {
        let entry = #[trigger] items[i];
        &&& fields_are(entry, set!["i"@, "choice"@, "confidence"@])
        &&& holds(entry, "i"@, Tree::Integer(i))
        &&& holds(entry, "choice"@, Tree::Text(answers[i].0))
        &&& holds(entry, "confidence"@, real_tree(answers[i].1))
    } by {
        assert(items[i] == classify_entry(answers, i));
        assert(items[i]->Object_0.dom() =~= set!["i"@, "choice"@, "confidence"@]);
    }
}

/// A classification is refused exactly where the list is too short or too long, or where
/// there is no category or there are more than 255.
pub proof fn law_categories_within_limits(n: nat, categories: nat)
    ensures
        classify_fault(n, categories) is None <==> 1 <= n <= 1000 && 1 <= categories <= 255,
        !(1 <= n <= 1000) ==> classify_fault(n, categories) == items_fault(n),
        1 <= n <= 1000 && categories == 0 ==> classify_fault(n, categories) == Some(
            "'categories' must contain at least one category"@,
        ),
        1 <= n <= 1000 && categories > 255 ==> classify_fault(n, categories) == Some(
            "'categories' has "@ + decimal(categories) + " entries; the maximum is 255"@,
        ),
{
    law_lists_within_limits(n);
}

/// What is kept of an answer is what it says.
pub proof fn law_answers_say_what_they_hold(answers: Seq<Classified>)
    ensures
        classified(answers).len() == answers.len(),
        forall|i: int|
            0 <= i < answers.len() ==> (#[trigger] classified(answers)[i]).0 == answers[i].choice@
                && classified(answers)[i].1 == answers[i].confidence,
{
}

/// A classification begins with what the caller gives: the items, the categories, and the
/// model or `jev-latest`.
pub proof fn law_classifications_begin_as_asked(
    args: ClassifyItemsArgs,
    r: Result<ClassifyRun, ToolError>,
)
    requires
        call_ensures(classify_items, (args,), r),
    ensures
        r is Ok <==> 1 <= args.items@.len() <= 1000 && 1 <= args.categories@.len() <= 255,
        r matches Ok(run) ==> {
            &&& run.bulk.items == args.items
            &&& run.bulk.done == 0
            &&& run.categories == args.categories
            &&& model_follows(args.model, run.model@)
        },
        r matches Err(e) ==> e@ is InvalidParams,
{
    law_categories_within_limits(args.items@.len(), args.categories@.len());
}

/// The next call of a classification is about the items that follow those already
/// classified, and asks of each of them which category applies; there is none once all are
/// classified.
pub proof fn law_classifications_ask_in_turn(run: ClassifyRun, r: Option<Json>, i: nat)
    requires
        run.wf(),
        call_ensures(ClassifyRun::next_call, (&run,), r),
    ensures
        r is Some <==> run.bulk.reached() < run.bulk.items@.len(),
        r matches Some(body) ==> {
            let sent = at(at(body@, "state"@), "items"@);
            let asked = at(body@, "questions"@);
            &&& holds(body@, "model"@, Tree::Text(run.model@))
            &&& fields_are(at(body@, "state"@), set!["items"@])
            &&& sent is Array
            &&& 1 <= sent->Array_0.len() <= 200
            &&& run.bulk.reached() + sent->Array_0.len() <= run.bulk.items@.len()
            &&& asked is Object && asked->Object_0.len() == sent->Array_0.len()
            &&& i < sent->Array_0.len() ==> {
                let q = at(asked, "item_"@ + decimal(i));
                &&& sent->Array_0[i as int] == Tree::Given(run.bulk.items@[run.bulk.reached() + i])
                &&& has_field(asked, "item_"@ + decimal(i))
                &&& holds(q, "type"@, Tree::Text("choice"@))
                &&& holds(q, "criteria"@, Tree::Object(run.categories@))
                &&& holds(
                    at(q, "instructions"@),
                    "scope"@,
                    Tree::Text("`items["@ + decimal(i) + "]`"@),
                )
            }
        },
{
    law_next_items(&run.bulk);
    if r is Some {
        let items = run.bulk.chunk();
        law_items_are_sent(items);
        law_calls_hold_what_they_ask(
            items_tree(items),
            one_each(item_prefix(), items.len(), classify_about(run.categories@)),
            run.model@,
        );
        law_items_are_classified(items, run.categories@, run.model@, 0);
        if i < items.len() {
            law_items_are_classified(items, run.categories@, run.model@, i);
        }
    }
}

/// The report of a classification gives under each category the places of just those items
/// that it was chosen for, and each item with its choice.
pub proof fn law_classifications_report_their_buckets(
    run: ClassifyRun,
    r: Json,
    category: Seq<char>,
)
    requires
        call_ensures(ClassifyRun::report, (&run,), r),
    ensures
        fields_are(r@, set!["buckets"@, "items"@]),
        fields_are(at(r@, "buckets"@), run.categories@.dom()),
        run.categories@.contains_key(category) ==> {
            let held = at(at(r@, "buckets"@), category)->Array_0;
            let items = at(r@, "items"@)->Array_0;
            &&& forall|a: int|
                0 <= a < held.len() ==> {
                    let i = (#[trigger] held[a])->Integer_0;
                    &&& held[a] is Integer
                    &&& 0 <= i < run.answers@.len()
                    &&& run.answers@[i].choice@ == category
                }
            &&& forall|i: int|
                0 <= i < run.answers@.len() && (#[trigger] run.answers@[i]).choice@ == category
                    ==> held.contains(Tree::Integer(i))
            &&& items.len() == run.answers@.len()
            &&& forall|i: int|
                0 <= i < run.answers@.len() ==> holds(#[trigger] items[i], "i"@, Tree::Integer(i))
                    && holds(items[i], "choice"@, Tree::Text(run.answers@[i].choice@)) && holds(
                    items[i],
                    "confidence"@,
                    real_tree(run.answers@[i].confidence),
                )
        },
{
    reveal_strlit("buckets");
    reveal_strlit("items");
    assert("buckets"@.len() == 7);
    assert("items"@.len() == 5);
    let answers = classified(run.answers@);
    let categories = run.categories@.dom();
    law_answers_say_what_they_hold(run.answers@);
    assert(r@->Object_0.dom() =~= set!["buckets"@, "items"@]);
    assert(at(r@, "buckets"@)->Object_0.dom() =~= categories);
    if categories.contains(category) {
        law_buckets_are_reported(categories, answers, category);
        assert forall|i: int|
            0 <= i < run.answers@.len() && (
            #[trigger] run.answers@[i]).choice@ == category implies at(
            at(r@, "buckets"@),
            category,
        )->Array_0.contains(Tree::Integer(i)) by {
            assert(answers[i].0 == category);
        }
        let items = at(r@, "items"@)->Array_0;
        assert forall|i: int| 0 <= i < run.answers@.len() implies holds(
            #[trigger] items[i],
            "i"@,
            Tree::Integer(i),
        ) && holds(items[i], "choice"@, Tree::Text(run.answers@[i].choice@)) && holds(
            items[i],
            "confidence"@,
            real_tree(run.answers@[i].confidence),
        ) by {
            assert(answers[i].0 == run.answers@[i].choice@);
        }
    }
}

/// A response is taken in exactly where it gives a category and a confidence for every item
/// that was asked about, and then each at its own place, after those that were known;
/// otherwise nothing changes.
pub proof fn law_classifications_take_in_answers(run: &mut ClassifyRun, body: Json, r: Result<(), ToolError>)
    requires
        old(run).wf(),
        old(run).bulk.pending(),
        call_ensures(ClassifyRun::accept, (run, &body), r),
    ensures
        r is Ok <==> (forall|i: nat|
            i < old(run).bulk.width() ==> choice_and_confidence(
                body@,
                "item_"@ + #[trigger] decimal(i),
                old(run).categories@.dom(),
            ) is Ok),
        r is Ok ==> {
            let before = old(run).answers@;
            let after = final(run).answers@;
            &&& final(run).bulk.items == old(run).bulk.items
            &&& final(run).bulk.done == old(run).bulk.done + 1
            &&& final(run).bulk.reached() == old(run).bulk.reached() + old(run).bulk.width()
            &&& final(run).categories == old(run).categories
            &&& final(run).model == old(run).model
            &&& after.len() == before.len() + old(run).bulk.width()
            &&& forall|i: int| 0 <= i < before.len() ==> (#[trigger] after[i])@ == before[i]@
            &&& forall|i: nat|
                i < old(run).bulk.width() ==> choice_and_confidence(
                    body@,
                    "item_"@ + #[trigger] decimal(i),
                    old(run).categories@.dom(),
                ) == Ok::<(Seq<char>, Real), Fault>(after[before.len() as int + i]@)
        },
        r is Err ==> *final(run) == *old(run),
{
    let width = old(run).bulk.width();
    let reading = classify_reading(old(run).categories@.dom());
    law_answers_are_read_in_turn(body@, width, reading);
    assert forall|i: nat| i < width implies classify_reading(old(run).categories@.dom())(body@, i)
        == choice_and_confidence(
        body@,
        "item_"@ + #[trigger] decimal(i),
        old(run).categories@.dom(),
    ) by {
        assert(numbered_id(item_prefix(), i) == "item_"@ + decimal(i));
    }
    assert forall|i: nat| i < width implies ((#[trigger] reading(body@, i)) is Ok <==> choice_and_confidence(
        body@,
        "item_"@ + decimal(i),
        old(run).categories@.dom(),
    ) is Ok) by {}
    if r is Ok {
        let before = old(run).answers@;
        let after = final(run).answers@;
        let more = read_each(body@, width, reading)->Ok_0;
        assert(classified(after) == classified(before) + more);
        assert(classified(after).len() == after.len());
        assert(classified(before).len() == before.len());
        assert forall|i: int| 0 <= i < before.len() implies (#[trigger] after[i])@
            == before[i]@ by {
            assert(classified(after)[i] == classified(before)[i]);
        }
        assert forall|i: nat| i < width implies choice_and_confidence(
            body@,
            "item_"@ + #[trigger] decimal(i),
            old(run).categories@.dom(),
        ) == Ok::<(Seq<char>, Real), Fault>(after[before.len() as int + i]@) by {
            assert(reading(body@, i) == Ok::<(Seq<char>, Real), Fault>(more[i as int]));
            assert(classified(after)[before.len() as int + i] == more[i as int]);
        }
    }
}

} // verus!
