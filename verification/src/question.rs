//! The questions that are put to the service, and the calls that carry them.

use crate::document::{array_json, table_json};
use crate::error::{invalid_params_error, Fault, ToolError};
use crate::json::{at, fields_are, has_field, holds, trees, Json, Tree};
use crate::table::{
    in_order, lemma_ascending_distinct, lemma_in_order, lemma_walk_in_order, lemma_walk_step, walks,
    Table,
};
use crate::text::{before, decimal, decimal_text, join2, join3, join5};
use vstd::prelude::*;
use vstd::string::*;

verus! {

/// The most options that a choice may have.
pub const MAX_OPTIONS: usize = 255;

/// The fewest and the most levels that a score may have.
pub const MIN_LEVELS: usize = 2;

pub const MAX_LEVELS: usize = 10;

/// A typed question.
pub enum Question {
    /// Which of the named options holds.
    Choice { instructions: Json, criteria: Table<Json> },
    /// Where on the ordered levels, from low to high.
    Score { instructions: Json, criteria: Vec<Json> },
    /// Whether something is so.
    Noul { instructions: Json, criteria: Option<NoulCriteria> },
}

/// What a yes and a no mean.
pub struct NoulCriteria {
    pub true_meaning: Option<Json>,
    pub false_meaning: Option<Json>,
}

/// What a question says.
pub enum QuestionView {
    Choice { instructions: Tree, criteria: Map<Seq<char>, Tree> },
    Score { instructions: Tree, criteria: Seq<Tree> },
    Noul { instructions: Tree, criteria: Option<NoulCriteriaView> },
}

/// What the meanings of a yes and a no say.
pub struct NoulCriteriaView {
    pub true_meaning: Option<Tree>,
    pub false_meaning: Option<Tree>,
}

/// What an optional document says.
pub open spec fn optional(j: Option<Json>) -> Option<Tree> {
    match j {
        Some(j) => Some(j@),
        None => None,
    }
}

impl View for NoulCriteria {
    type V = NoulCriteriaView;

    open spec fn view(&self) -> NoulCriteriaView {
        NoulCriteriaView {
            true_meaning: optional(self.true_meaning),
            false_meaning: optional(self.false_meaning),
        }
    }
}

impl View for Question {
    type V = QuestionView;

    open spec fn view(&self) -> QuestionView {
        match *self {
            Question::Choice { instructions, criteria } => QuestionView::Choice {
                instructions: instructions@,
                criteria: criteria@,
            },
            Question::Score { instructions, criteria } => QuestionView::Score {
                instructions: instructions@,
                criteria: trees(criteria@),
            },
            Question::Noul { instructions, criteria } => QuestionView::Noul {
                instructions: instructions@,
                criteria: match criteria {
                    Some(c) => Some(c@),
                    None => None,
                },
            },
        }
    }
}

/// A yes/no question with nothing but its instructions.
pub open spec fn noul(instructions: Tree) -> QuestionView {
    QuestionView::Noul { instructions, criteria: None }
}

/// A yes/no question with the given instructions.
pub fn noul_qv(instructions: Json) -> (r: Question)
    ensures
        r@ == noul(instructions@),
{
    Question::Noul { instructions, criteria: None }
}

/// A yes/no question with a text for its instructions.
pub fn noul_q(instruction: &str) -> (r: Question)
    ensures
        r@ == noul(Tree::Text(instruction@)),
{
    noul_qv(Json::text(instruction))
}

/// Instructions that hold a criterion to a scope.
pub open spec fn scoped(criterion: Tree, scope: Seq<char>, focus: Seq<char>) -> Tree {
    Tree::Object(
        map![
            "criterion"@ => criterion,
            "scope"@ => Tree::Text(scope),
            "focus"@ => Tree::Text(focus),
        ],
    )
}

/// Holds a criterion to a scope.
pub fn scoped_instructions(criterion: Json, scope: String, focus: &str) -> (r: Json)
    ensures
        r@ == scoped(criterion@, scope@, focus@),
{
    Json::object().with("criterion", criterion).with("scope", Json::Text(scope)).with(
        "focus",
        Json::text(focus),
    )
}

/// How questions are named and scoped by the number of what they are about.
pub open spec fn numbered_id(prefix: Seq<char>, i: nat) -> Seq<char> {
    prefix + decimal(i)
}

/// Names the question about the thing `i`.
pub fn numbered(prefix: &str, i: usize) -> (r: String)
    ensures
        r@ == numbered_id(prefix@, i as nat),
{
    join2(prefix, &decimal_text(i as u64))
}

/// The reference to the item `i` of a call.
pub open spec fn item_ref(i: nat) -> Seq<char> {
    "`items["@ + decimal(i) + "]`"@
}

/// Refers to the item `i` of a call.
pub fn item_reference(i: usize) -> (r: String)
    ensures
        r@ == item_ref(i as nat),
{
    join3("`items[", &decimal_text(i as u64), "]`")
}

/// Questions about `n` things, one about each.
pub open spec fn one_each(
    prefix: Seq<char>,
    n: nat,
    about: spec_fn(nat) -> QuestionView,
) -> Map<Seq<char>, QuestionView>
    decreases n,
{
    if n == 0 {
        Map::empty()
    } else {
        one_each(prefix, (n - 1) as nat, about).insert(
            numbered_id(prefix, (n - 1) as nat),
            about((n - 1) as nat),
        )
    }
}

/// The names of numbered questions are all different.
pub proof fn lemma_numbered_distinct(prefix: Seq<char>, i: nat, j: nat)
    requires
        numbered_id(prefix, i) == numbered_id(prefix, j),
    ensures
        i == j,
{
    let a = numbered_id(prefix, i);
    let b = numbered_id(prefix, j);
    assert(decimal(i) =~= a.skip(prefix.len() as int));
    assert(decimal(j) =~= b.skip(prefix.len() as int));
    crate::text::lemma_decimal_injective(i, j);
}

/// One question is asked about each thing and none about anything else.
pub proof fn law_one_question_each(
    prefix: Seq<char>,
    n: nat,
    about: spec_fn(nat) -> QuestionView,
)
    ensures
        forall|i: nat|
            i < n ==> one_each(prefix, n, about).contains_key(#[trigger] numbered_id(prefix, i))
                && one_each(prefix, n, about)[numbered_id(prefix, i)] == about(i),
        forall|id: Seq<char>| #[trigger]
            one_each(prefix, n, about).contains_key(id) ==> exists|i: nat|
                i < n && id == #[trigger] numbered_id(prefix, i),
        one_each(prefix, n, about).dom().finite(),
        one_each(prefix, n, about).len() == n,
    decreases n,
{
    if n > 0 {
        let m = (n - 1) as nat;
        law_one_question_each(prefix, m, about);
        assert forall|i: nat| i < n implies one_each(prefix, n, about).contains_key(
            #[trigger] numbered_id(prefix, i),
        ) && one_each(prefix, n, about)[numbered_id(prefix, i)] == about(i) by {
            if i < m {
                if numbered_id(prefix, i) == numbered_id(prefix, m) {
                    lemma_numbered_distinct(prefix, i, m);
                }
            }
        }
        assert(!one_each(prefix, m, about).contains_key(numbered_id(prefix, m))) by {
            if one_each(prefix, m, about).contains_key(numbered_id(prefix, m)) {
                let i = choose|i: nat| i < m && numbered_id(prefix, m) == #[trigger] numbered_id(prefix, i);
                lemma_numbered_distinct(prefix, i, m);
            }
        }
        assert forall|id: Seq<char>| #[trigger]
            one_each(prefix, n, about).contains_key(id) implies exists|i: nat|
            i < n && id == #[trigger] numbered_id(prefix, i) by {
            if id != numbered_id(prefix, m) {
                let i = choose|i: nat| i < m && id == #[trigger] numbered_id(prefix, i);
                assert(i < n && id == numbered_id(prefix, i));
            }
        }
    }
}

/// The document in which a question is sent.
pub open spec fn question_tree(q: QuestionView) -> Tree {
    match q {
        QuestionView::Choice { instructions, criteria } => Tree::Object(
            map![
                "type"@ => Tree::Text("choice"@),
                "instructions"@ => instructions,
                "criteria"@ => Tree::Object(criteria),
            ],
        ),
        QuestionView::Score { instructions, criteria } => Tree::Object(
            map![
                "type"@ => Tree::Text("score"@),
                "instructions"@ => instructions,
                "criteria"@ => Tree::Array(criteria),
            ],
        ),
        QuestionView::Noul { instructions, criteria } => {
            let plain = map![
                "type"@ => Tree::Text("noul"@),
                "instructions"@ => instructions,
            ];
            Tree::Object(
                match criteria {
                    Some(c) => plain.insert("criteria"@, noul_criteria_tree(c)),
                    None => plain,
                },
            )
        },
    }
}

/// The document in which the meanings of a yes and a no are sent; what is not given is
/// left out.
pub open spec fn noul_criteria_tree(c: NoulCriteriaView) -> Tree {
    let yes = match c.true_meaning {
        Some(t) => map!["true"@ => t],
        None => Map::empty(),
    };
    Tree::Object(
        match c.false_meaning {
            Some(f) => yes.insert("false"@, f),
            None => yes,
        },
    )
}

/// Writes a question as it is sent.
pub fn question_json(q: &Question) -> (r: Json)
    ensures
        r@ == question_tree(q@),
{
    match q {
        Question::Choice { instructions, criteria } => Json::object().with(
            "type",
            Json::text("choice"),
        ).with("instructions", instructions.copy()).with("criteria", table_json(criteria)),
        Question::Score { instructions, criteria } => Json::object().with(
            "type",
            Json::text("score"),
        ).with("instructions", instructions.copy()).with("criteria", array_json(criteria)),
        Question::Noul { instructions, criteria } => {
            let plain = Json::object().with("type", Json::text("noul")).with(
                "instructions",
                instructions.copy(),
            );
            match criteria {
                Some(c) => {
                    let mut meanings = Json::object();
                    if let Some(t) = &c.true_meaning {
                        meanings = meanings.with("true", t.copy());
                    }
                    if let Some(f) = &c.false_meaning {
                        meanings = meanings.with("false", f.copy());
                    }
                    plain.with("criteria", meanings)
                },
                None => plain,
            }
        },
    }
}

/// The documents in which questions are sent.
pub open spec fn questions_tree(questions: Map<Seq<char>, QuestionView>) -> Tree {
    Tree::Object(questions.map_values(|q: QuestionView| question_tree(q)))
}

/// The body of a call: a state, the questions about it, and the model that answers them.
pub open spec fn call_tree(
    state: Tree,
    questions: Map<Seq<char>, QuestionView>,
    model: Seq<char>,
) -> Tree {
    Tree::Object(
        map![
            "state"@ => state,
            "model"@ => Tree::Text(model),
            "questions"@ => questions_tree(questions),
        ],
    )
}

/// Writes the body of a call.
pub fn call_body(state: Json, questions: &Table<Question>, model: &str) -> (r: Json)
    ensures
        r@ == call_tree(state@, questions@, model@),
{
    let n = questions.len();
    let mut asked = Json::object();
    let mut i: usize = 0;
    while i < n
        invariant
            i <= n,
            n == questions.keys().len(),
            walks(questions),
            asked@ is Object,
            forall|k: Seq<char>|
                #[trigger] asked@->Object_0.contains_key(k) <==> questions.keys().take(i as int).contains(k),
            forall|k: Seq<char>| #[trigger]
                asked@->Object_0.contains_key(k) ==> asked@->Object_0[k] == question_tree(
                    questions@[k],
                ),
        decreases n - i,
    {
        asked = asked.with(questions.key_at(i), question_json(questions.value_at(i)));
        proof {
            lemma_walk_step(questions.keys(), i as int);
        }
        i = i + 1;
    }
    proof {
        assert(questions.keys().take(i as int) =~= questions.keys());
        assert(asked@->Object_0 =~= questions@.map_values(|q: QuestionView| question_tree(q)));
    }
    Json::object().with("state", state).with("model", Json::text(model)).with("questions", asked)
}

/// The model that answers unless the caller names one.
pub open spec fn spec_model(asked: Option<String>) -> Seq<char> {
    match asked {
        Some(m) => m@,
        None => "jev-latest"@,
    }
}

/// The model that answers unless the caller names one.
pub fn default_model() -> (r: String)
    ensures
        r@ == "jev-latest"@,
{
    "jev-latest".to_string()
}

/// The model that the caller names, or else the default.
pub fn model_or_default(asked: Option<String>) -> (r: String)
    ensures
        r@ == spec_model(asked),
{
    match asked {
        Some(m) => m,
        None => default_model(),
    }
}

/// Why the question `id` is refused.
pub open spec fn question_fault(id: Seq<char>, q: QuestionView) -> Option<Seq<char>> {
    match q {
        QuestionView::Choice { criteria, .. } => if criteria.len() == 0 {
            Some("Choice question '"@ + id + "' needs at least one option in criteria"@)
        } else if criteria.len() > MAX_OPTIONS {
            Some(
                "Choice question '"@ + id + "' has "@ + decimal(criteria.len())
                    + " options; the maximum is 255"@,
            )
        } else {
            None
        },
        QuestionView::Score { criteria, .. } => if criteria.len() < MIN_LEVELS || criteria.len()
            > MAX_LEVELS {
            Some(
                "Score question '"@ + id + "' has "@ + decimal(criteria.len())
                    + " levels; it needs between 2 and 10"@,
            )
        } else {
            None
        },
        QuestionView::Noul { .. } => None,
    }
}

/// Why the first of the questions `ids`, from the place `i` on, is refused that is.
pub open spec fn first_question_fault(
    ids: Seq<Seq<char>>,
    questions: Map<Seq<char>, QuestionView>,
    i: int,
) -> Option<Seq<char>>
    decreases ids.len() - i,
{
    if i >= ids.len() {
        None
    } else {
        match question_fault(ids[i], questions[ids[i]]) {
            Some(message) => Some(message),
            None => first_question_fault(ids, questions, i + 1),
        }
    }
}

/// Why questions are refused: there is none, or one of them, met in the order of the
/// ids, asks for what cannot be answered.
pub open spec fn questions_fault(questions: Map<Seq<char>, QuestionView>) -> Option<Seq<char>> {
    let ids = in_order(questions.dom());
    if ids.len() == 0 {
        Some("At least one question is required in 'questions'"@)
    } else {
        first_question_fault(ids, questions, 0)
    }
}

/// Whether a question is within its limits.
pub open spec fn askable(q: QuestionView) -> bool {
    match q {
        QuestionView::Choice { criteria, .. } => 1 <= criteria.len() <= MAX_OPTIONS,
        QuestionView::Score { criteria, .. } => MIN_LEVELS <= criteria.len() <= MAX_LEVELS,
        QuestionView::Noul { .. } => true,
    }
}

/// Finds why the question `id` is refused.
fn question_check(id: &str, q: &Question) -> (r: Option<String>)
    ensures
        match r {
            Some(message) => question_fault(id@, q@) == Some(message@),
            None => question_fault(id@, q@) is None,
        },
{
    match q {
        Question::Choice { criteria, .. } => {
            let n = criteria.len();
            if n == 0 {
                Some(join3("Choice question '", id, "' needs at least one option in criteria"))
            } else if n > MAX_OPTIONS {
                Some(
                    join5(
                        "Choice question '",
                        id,
                        "' has ",
                        &decimal_text(n as u64),
                        " options; the maximum is 255",
                    ),
                )
            } else {
                None
            }
        },
        Question::Score { criteria, .. } => {
            let n = criteria.len();
            if n < MIN_LEVELS || n > MAX_LEVELS {
                Some(
                    join5(
                        "Score question '",
                        id,
                        "' has ",
                        &decimal_text(n as u64),
                        " levels; it needs between 2 and 10",
                    ),
                )
            } else {
                None
            }
        },
        Question::Noul { .. } => None,
    }
}

/// Refuses questions that cannot be asked.
pub fn validate_questions(questions: &Table<Question>) -> (r: Result<(), ToolError>)
    ensures
        match r {
            Ok(_) => questions_fault(questions@) is None,
            Err(e) => questions_fault(questions@) is Some && e@
                == Fault::InvalidParams(questions_fault(questions@)->0),
        },
        r is Ok <==> questions@.len() > 0 && (forall|id: Seq<char>| #[trigger]
            questions@.contains_key(id) ==> askable(questions@[id])),
        walks(questions),
{
    let n = questions.len();
    proof {
        lemma_walk_in_order(questions);
    }
    if n == 0 {
        return Err(
            invalid_params_error("At least one question is required in 'questions'".to_string()),
        );
    }
    let mut i: usize = 0;
    while i < n
        invariant
            i <= n,
            n == questions.keys().len(),
            n > 0,
            n == questions@.len(),
            walks(questions),
            questions.keys() == in_order(questions@.dom()),
            questions_fault(questions@) == first_question_fault(
                questions.keys(),
                questions@,
                i as int,
            ),
            forall|j: int|
                0 <= j < i ==> askable(questions@[#[trigger] questions.keys()[j]]),
        decreases n - i,
    {
        let ghost id = questions.keys()[i as int];
        assert(questions@.contains_key(id));
        match question_check(questions.key_at(i), questions.value_at(i)) {
            Some(message) => {
                assert(!askable(questions@[id]));
                return Err(invalid_params_error(message));
            },
            None => {},
        }
        i = i + 1;
    }
    assert forall|id: Seq<char>| #[trigger] questions@.contains_key(id) implies askable(
        questions@[id],
    ) by {
        let j = questions.keys().index_of(id);
        assert(questions.keys()[j] == id);
    }
    Ok(())
}

/// A call holds its state, its model and its questions, and nothing else: each question
/// under its own id, as its document.
pub proof fn law_calls_hold_what_they_ask(
    state: Tree,
    questions: Map<Seq<char>, QuestionView>,
    model: Seq<char>,
)
    ensures
        ({
            let call = call_tree(state, questions, model);
            &&& fields_are(call, set!["state"@, "model"@, "questions"@])
            &&& holds(call, "state"@, state)
            &&& holds(call, "model"@, Tree::Text(model))
            &&& fields_are(at(call, "questions"@), questions.dom())
            &&& forall|id: Seq<char>| #[trigger]
                questions.contains_key(id) ==> holds(
                    at(call, "questions"@),
                    id,
                    question_tree(questions[id]),
                )
        }),
{
    reveal_strlit("state");
    reveal_strlit("model");
    reveal_strlit("questions");
    assert("state"@.len() == 5);
    assert("model"@.len() == 5);
    assert("questions"@.len() == 9);
    assert("state"@[0] != "model"@[0]);
    let call = call_tree(state, questions, model);
    assert(call->Object_0.dom() =~= set!["state"@, "model"@, "questions"@]);
    assert(at(call, "questions"@)->Object_0.dom() =~= questions.dom());
}

/// A choice is sent with its instructions and its options under their names.
pub proof fn law_choices_are_sent(instructions: Tree, options: Map<Seq<char>, Tree>)
    ensures
        ({
            let q = question_tree(
                QuestionView::Choice { instructions, criteria: options },
            );
            &&& fields_are(q, set!["type"@, "instructions"@, "criteria"@])
            &&& holds(q, "type"@, Tree::Text("choice"@))
            &&& holds(q, "instructions"@, instructions)
            &&& holds(q, "criteria"@, Tree::Object(options))
        }),
{
    reveal_strlit("type");
    reveal_strlit("instructions");
    reveal_strlit("criteria");
    assert("type"@.len() == 4);
    assert("instructions"@.len() == 12);
    assert("criteria"@.len() == 8);
    let q = question_tree(QuestionView::Choice { instructions, criteria: options });
    assert(q->Object_0.dom() =~= set!["type"@, "instructions"@, "criteria"@]);
}

/// A score is sent with its instructions and its levels in their order.
pub proof fn law_scores_are_sent(instructions: Tree, levels: Seq<Tree>)
    ensures
        ({
            let q = question_tree(QuestionView::Score { instructions, criteria: levels });
            &&& fields_are(q, set!["type"@, "instructions"@, "criteria"@])
            &&& holds(q, "type"@, Tree::Text("score"@))
            &&& holds(q, "instructions"@, instructions)
            &&& holds(q, "criteria"@, Tree::Array(levels))
        }),
{
    reveal_strlit("type");
    reveal_strlit("instructions");
    reveal_strlit("criteria");
    assert("type"@.len() == 4);
    assert("instructions"@.len() == 12);
    assert("criteria"@.len() == 8);
    let q = question_tree(QuestionView::Score { instructions, criteria: levels });
    assert(q->Object_0.dom() =~= set!["type"@, "instructions"@, "criteria"@]);
}

/// A yes/no question is sent with its instructions, and with meanings exactly where it has
/// them: what a yes means under `true` exactly where that is given, what a no means under
/// `false` exactly where that is given, and nothing else.
pub proof fn law_yes_and_no_are_sent(instructions: Tree, meanings: Option<NoulCriteriaView>)
    ensures
        ({
            let q = question_tree(QuestionView::Noul { instructions, criteria: meanings });
            &&& holds(q, "type"@, Tree::Text("noul"@))
            &&& holds(q, "instructions"@, instructions)
            &&& meanings is None ==> fields_are(q, set!["type"@, "instructions"@])
            &&& meanings is Some ==> fields_are(q, set!["type"@, "instructions"@, "criteria"@])
            &&& meanings matches Some(m) ==> {
                let sent = at(q, "criteria"@);
                &&& sent is Object
                &&& has_field(sent, "true"@) <==> m.true_meaning is Some
                &&& m.true_meaning matches Some(yes) ==> at(sent, "true"@) == yes
                &&& has_field(sent, "false"@) <==> m.false_meaning is Some
                &&& m.false_meaning matches Some(no) ==> at(sent, "false"@) == no
                &&& forall|name: Seq<char>| #[trigger]
                    has_field(sent, name) ==> name == "true"@ || name == "false"@
            }
        }),
{
    reveal_strlit("type");
    reveal_strlit("instructions");
    reveal_strlit("criteria");
    reveal_strlit("true");
    reveal_strlit("false");
    assert("type"@.len() == 4);
    assert("instructions"@.len() == 12);
    assert("criteria"@.len() == 8);
    assert("true"@.len() == 4);
    assert("false"@.len() == 5);
    assert("type"@[1] != "true"@[1]);
    let q = question_tree(QuestionView::Noul { instructions, criteria: meanings });
    if meanings is None {
        assert(q->Object_0.dom() =~= set!["type"@, "instructions"@]);
    } else {
        assert(q->Object_0.dom() =~= set!["type"@, "instructions"@, "criteria"@]);
    }
}

/// What a question holds is what it says: nothing given is lost, and nothing stands for what
/// is not given.
pub proof fn law_questions_say_what_they_hold(q: Question)
    ensures
        q matches Question::Choice { instructions, criteria } ==> q@ == (QuestionView::Choice {
            instructions: instructions@,
            criteria: criteria@,
        }),
        q matches Question::Score { instructions, criteria } ==> q@ is Score
            && q@->Score_instructions == instructions@ && q@->Score_criteria.len()
            == criteria@.len() && (forall|i: int|
            0 <= i < criteria@.len() ==> #[trigger] q@->Score_criteria[i] == criteria@[i]@),
        q matches Question::Noul { instructions, criteria } ==> {
            &&& q@ is Noul
            &&& q@->Noul_instructions == instructions@
            &&& q@->Noul_criteria is Some <==> criteria is Some
            &&& criteria matches Some(c) ==> {
                let m = q@->Noul_criteria->0;
                &&& m.true_meaning is Some <==> c.true_meaning is Some
                &&& c.true_meaning matches Some(t) ==> m.true_meaning->0 == t@
                &&& m.false_meaning is Some <==> c.false_meaning is Some
                &&& c.false_meaning matches Some(f) ==> m.false_meaning->0 == f@
            }
        },
{
}

/// Scoped instructions hold the criterion, the scope and the focus, each under its name.
pub proof fn law_scopes_are_sent(criterion: Tree, scope: Seq<char>, focus: Seq<char>)
    ensures
        ({
            let t = scoped(criterion, scope, focus);
            &&& fields_are(t, set!["criterion"@, "scope"@, "focus"@])
            &&& holds(t, "criterion"@, criterion)
            &&& holds(t, "scope"@, Tree::Text(scope))
            &&& holds(t, "focus"@, Tree::Text(focus))
        }),
{
    reveal_strlit("criterion");
    reveal_strlit("scope");
    reveal_strlit("focus");
    assert("criterion"@.len() == 9);
    assert("scope"@.len() == 5);
    assert("focus"@.len() == 5);
    assert("scope"@[0] != "focus"@[0]);
    let t = scoped(criterion, scope, focus);
    assert(t->Object_0.dom() =~= set!["criterion"@, "scope"@, "focus"@]);
}

/// The model that the caller names answers; where none is named, `jev-latest` does.
pub proof fn law_models(asked: Option<String>)
    ensures
        asked matches Some(m) ==> spec_model(asked) == m@,
        asked is None ==> spec_model(asked) == "jev-latest"@,
{
}

/// A question is refused exactly where it is a choice without options or with more than 255,
/// or a score with fewer than 2 levels or more than 10; and the refusal says which.
pub proof fn law_questions_within_limits(id: Seq<char>, q: QuestionView)
    ensures
        question_fault(id, q) is None <==> askable(q),
        q is Noul ==> askable(q),
        q matches QuestionView::Choice { criteria, .. } ==> {
            &&& askable(q) <==> 1 <= criteria.len() <= 255
            &&& criteria.len() == 0 ==> question_fault(id, q) == Some(
                "Choice question '"@ + id + "' needs at least one option in criteria"@,
            )
            &&& criteria.len() > 255 ==> question_fault(id, q) == Some(
                "Choice question '"@ + id + "' has "@ + decimal(criteria.len())
                    + " options; the maximum is 255"@,
            )
        },
        q matches QuestionView::Score { criteria, .. } ==> {
            &&& askable(q) <==> 2 <= criteria.len() <= 10
            &&& !(2 <= criteria.len() <= 10) ==> question_fault(id, q) == Some(
                "Score question '"@ + id + "' has "@ + decimal(criteria.len())
                    + " levels; it needs between 2 and 10"@,
            )
        },
{
}

/// Questions are refused exactly where there is none or one of them is refused, and then
/// for the first, in the order of the ids, that is.
pub proof fn law_first_fault_is_reported(questions: Map<Seq<char>, QuestionView>)
    requires
        questions.dom().finite(),
    ensures
        questions.len() == 0 ==> questions_fault(questions) == Some(
            "At least one question is required in 'questions'"@,
        ),
        questions_fault(questions) is None <==> questions.len() > 0 && (forall|id: Seq<char>|
         #[trigger]
            questions.contains_key(id) ==> question_fault(id, questions[id]) is None),
        questions.len() > 0 && questions_fault(questions) is Some ==> exists|id: Seq<char>|
            {
                &&& #[trigger] questions.contains_key(id)
                &&& question_fault(id, questions[id]) == questions_fault(questions)
                &&& forall|k: Seq<char>| #[trigger]
                    questions.contains_key(k) && question_fault(k, questions[k]) is Some ==> k == id
                        || before(id, k)
            },
{
    let ids = in_order(questions.dom());
    lemma_in_order(questions.dom());
    lemma_ascending_distinct(ids);
    ids.unique_seq_to_set();
    lemma_first_fault(ids, questions, 0);
    assert forall|id: Seq<char>| #[trigger] questions.contains_key(id) implies exists|j: int|
        0 <= j < ids.len() && #[trigger] ids[j] == id by {
        assert(ids.to_set().contains(id));
    }
    assert forall|j: int| 0 <= j < ids.len() implies questions.contains_key(#[trigger] ids[j])
        && fault_at(ids, questions, j) == question_fault(ids[j], questions[ids[j]]) by {
        assert(ids.to_set().contains(ids[j]));
        reveal(fault_at);
    }
    if ids.len() > 0 {
        if questions_fault(questions) is Some {
            let j = choose|j: int|
                0 <= j < ids.len() && #[trigger] fault_at(ids, questions, j) == questions_fault(
                    questions,
                ) && (forall|k: int| 0 <= k < j ==> (#[trigger] fault_at(ids, questions, k)) is None);
            let id = ids[j];
            assert(questions.contains_key(id));
            assert forall|k: Seq<char>| #[trigger]
                questions.contains_key(k) && question_fault(k, questions[k]) is Some implies k == id
                || before(id, k) by {
                let i = choose|i: int| 0 <= i < ids.len() && #[trigger] ids[i] == k;
                assert(fault_at(ids, questions, i) is Some);
                if i > j {
                    assert(before(ids[j], ids[i]));
                }
            }
        } else {
            assert forall|id: Seq<char>| #[trigger]
                questions.contains_key(id) implies question_fault(id, questions[id]) is None by {
                let i = choose|i: int| 0 <= i < ids.len() && #[trigger] ids[i] == id;
                assert(fault_at(ids, questions, i) is None);
            }
        }
    }
}

/// Why the question with the id `ids[j]` is refused.
#[verifier::opaque]
spec fn fault_at(
    ids: Seq<Seq<char>>,
    questions: Map<Seq<char>, QuestionView>,
    j: int,
) -> Option<Seq<char>> {
    question_fault(ids[j], questions[ids[j]])
}

proof fn lemma_first_fault(
    ids: Seq<Seq<char>>,
    questions: Map<Seq<char>, QuestionView>,
    i: int,
)
    requires
        0 <= i <= ids.len(),
    ensures
        first_question_fault(ids, questions, i) is None ==> (forall|j: int|
            i <= j < ids.len() ==> (#[trigger] fault_at(ids, questions, j)) is None),
        first_question_fault(ids, questions, i) is Some ==> exists|j: int|
            i <= j < ids.len() && #[trigger] fault_at(ids, questions, j) == first_question_fault(
                ids,
                questions,
                i,
            ) && (forall|k: int| i <= k < j ==> (#[trigger] fault_at(ids, questions, k)) is None),
    decreases ids.len() - i,
{
    if i < ids.len() {
        lemma_first_fault(ids, questions, i + 1);
        let rest = first_question_fault(ids, questions, i + 1);
        let here = fault_at(ids, questions, i);
        assert(first_question_fault(ids, questions, i) == if here is Some {
            here
        } else {
            rest
        }) by {
            reveal(fault_at);
        }
        if here is None && rest is Some {
            let j = choose|j: int|
                i + 1 <= j < ids.len() && #[trigger] fault_at(ids, questions, j) == rest && (
                forall|k: int| i + 1 <= k < j ==> (#[trigger] fault_at(ids, questions, k)) is None);
            assert(fault_at(ids, questions, j) == first_question_fault(ids, questions, i));
        }
    }
}

/// Of questions that are numbered, each is sent under its prefix and its number, and no
/// other question is sent.
pub proof fn law_numbered_questions_are_sent(
    state: Tree,
    prefix: Seq<char>,
    n: nat,
    about: spec_fn(nat) -> QuestionView,
    model: Seq<char>,
    i: nat,
)
    requires
        i < n,
    ensures
        ({
            let call = call_tree(state, one_each(prefix, n, about), model);
            &&& holds(call, "state"@, state)
            &&& holds(call, "model"@, Tree::Text(model))
            &&& holds(at(call, "questions"@), prefix + decimal(i), question_tree(about(i)))
            &&& at(call, "questions"@) is Object
            &&& at(call, "questions"@)->Object_0.dom().finite()
            &&& at(call, "questions"@)->Object_0.len() == n
        }),
{
    let questions = one_each(prefix, n, about);
    law_one_question_each(prefix, n, about);
    law_calls_hold_what_they_ask(state, questions, model);
    assert(numbered_id(prefix, i) == prefix + decimal(i));
    assert(questions.contains_key(numbered_id(prefix, i)));
}

/// Whether `taken` is the model that answers: the one that is asked for, or `jev-latest`.
pub open spec fn model_follows(asked: Option<String>, taken: Seq<char>) -> bool {
    match asked {
        Some(m) => taken == m@,
        None => taken == "jev-latest"@,
    }
}

/// The document of a question: what it asks, and what it offers. A choice offers each option
/// under its name, a score its levels in their order; a yes/no question says what a yes
/// means under `true` exactly where it has that meaning, what a no means under `false`
/// exactly where it has that, and has no other field for a meaning.
pub proof fn law_questions_are_written(q: Question, r: Json)
    requires
        call_ensures(question_json, (&q,), r),
    ensures
        q matches Question::Choice { instructions, criteria } ==> {
            &&& fields_are(r@, set!["type"@, "instructions"@, "criteria"@])
            &&& holds(r@, "type"@, Tree::Text("choice"@))
            &&& holds(r@, "instructions"@, instructions@)
            &&& holds(r@, "criteria"@, Tree::Object(criteria@))
        },
        q matches Question::Score { instructions, criteria } ==> {
            &&& fields_are(r@, set!["type"@, "instructions"@, "criteria"@])
            &&& holds(r@, "type"@, Tree::Text("score"@))
            &&& holds(r@, "instructions"@, instructions@)
            &&& has_field(r@, "criteria"@) && at(r@, "criteria"@) is Array
            &&& at(r@, "criteria"@)->Array_0.len() == criteria@.len()
            &&& forall|i: int|
                0 <= i < criteria@.len() ==> #[trigger] at(r@, "criteria"@)->Array_0[i]
                    == criteria@[i]@
        },
        q matches Question::Noul { instructions, criteria } ==> {
            &&& holds(r@, "type"@, Tree::Text("noul"@))
            &&& holds(r@, "instructions"@, instructions@)
            &&& criteria is None ==> fields_are(r@, set!["type"@, "instructions"@])
            &&& criteria matches Some(c) ==> {
                let sent = at(r@, "criteria"@);
                &&& fields_are(r@, set!["type"@, "instructions"@, "criteria"@])
                &&& sent is Object
                &&& has_field(sent, "true"@) <==> c.true_meaning is Some
                &&& c.true_meaning matches Some(yes) ==> at(sent, "true"@) == yes@
                &&& has_field(sent, "false"@) <==> c.false_meaning is Some
                &&& c.false_meaning matches Some(no) ==> at(sent, "false"@) == no@
                &&& forall|name: Seq<char>| #[trigger]
                    has_field(sent, name) ==> name == "true"@ || name == "false"@
            }
        },
{
    law_questions_say_what_they_hold(q);
    match q@ {
        QuestionView::Choice { instructions, criteria } => {
            law_choices_are_sent(instructions, criteria);
        },
        QuestionView::Score { instructions, criteria } => {
            law_scores_are_sent(instructions, criteria);
        },
        QuestionView::Noul { instructions, criteria } => {
            law_yes_and_no_are_sent(instructions, criteria);
        },
    }
}

/// The body of a call holds its state, its model, and each of its questions under its id,
/// and nothing else.
pub proof fn law_calls_are_written(
    state: Json,
    questions: Table<Question>,
    model: &str,
    r: Json,
)
    requires
        call_ensures(call_body, (state, &questions, model), r),
    ensures
        fields_are(r@, set!["state"@, "model"@, "questions"@]),
        holds(r@, "state"@, state@),
        holds(r@, "model"@, Tree::Text(model@)),
        fields_are(at(r@, "questions"@), questions@.dom()),
        forall|id: Seq<char>| #[trigger]
            questions@.contains_key(id) ==> holds(
                at(r@, "questions"@),
                id,
                question_tree(questions@[id]),
            ),
{
    law_calls_hold_what_they_ask(state@, questions@, model@);
}

/// The model that the caller names answers, and `jev-latest` where none is named.
pub proof fn law_models_are_taken(asked: Option<String>, r: String)
    requires
        call_ensures(model_or_default, (asked,), r),
    ensures
        model_follows(asked, r@),
{
}

/// Questions are let through exactly where there is one at least, every choice has between 1
/// and 255 options and every score between 2 and 10 levels.
pub proof fn law_questions_are_validated(questions: Table<Question>, r: Result<(), ToolError>)
    requires
        call_ensures(validate_questions, (&questions,), r),
    ensures
        r is Ok <==> questions@.len() > 0 && (forall|id: Seq<char>| #[trigger]
            questions@.contains_key(id) ==> match questions@[id] {
                QuestionView::Choice { criteria, .. } => 1 <= criteria.len() <= 255,
                QuestionView::Score { criteria, .. } => 2 <= criteria.len() <= 10,
                QuestionView::Noul { .. } => true,
            }),
        r matches Err(e) ==> e@ is InvalidParams,
{
    assert forall|id: Seq<char>| #[trigger] questions@.contains_key(id) implies (askable(
        questions@[id],
    ) <==> match questions@[id] {
        QuestionView::Choice { criteria, .. } => 1 <= criteria.len() <= 255,
        QuestionView::Score { criteria, .. } => 2 <= criteria.len() <= 10,
        QuestionView::Noul { .. } => true,
    }) by {
        law_questions_within_limits(id, questions@[id]);
    }
}

} // verus!
