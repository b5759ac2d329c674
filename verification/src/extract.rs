//! The values of fields in a text, each out of a fixed set of options.

use crate::bulk::{law_answers_are_read_in_turn, lemma_read_holds, lemma_read_stops, read_each};
use crate::classify::{answer_classified, choice_and_confidence, classified, Classified};
use crate::document::{text_or_null, text_or_null_json};
use crate::error::{invalid_params_error, Fault, ToolError};
use crate::json::{at, fields_are, has_field, holds, real_tree, Json, Tree};
use crate::question::{
    call_body, call_tree, law_calls_hold_what_they_ask, law_choices_are_sent, model_follows,
    model_or_default, question_tree, spec_model, Question, QuestionView, MAX_OPTIONS,
};
use crate::reals::Real;
use crate::table::{
    in_order, lemma_ascending_distinct, lemma_in_order, lemma_walk_in_order, lemma_walk_step, walks,
    Table,
};
use crate::text::{
    before, decimal, decimal_text, first_repeated, join3, join5, law_first_repeated, optional_text,
};
use vstd::prelude::*;
use vstd::string::*;

verus! {

/// A value that a field can take, with when it does.
pub struct FieldOptionObj {
    pub value: String,
    pub description: Option<String>,
}

/// A value that a field can take, as a caller gives it.
pub enum FieldOption {
    Plain(String),
    Detailed(FieldOptionObj),
}

/// A field with what it means.
pub struct FieldSpecObj {
    pub description: Option<String>,
    pub options: Vec<FieldOption>,
}

/// A field as a caller gives it.
pub enum FieldSpec {
    Options(Vec<FieldOption>),
    Detailed(FieldSpecObj),
}

impl View for FieldSpec {
    type V = FieldSpec;

    open spec fn view(&self) -> FieldSpec {
        *self
    }
}

/// What `extract_fields` takes.
pub struct ExtractFieldsArgs {
    pub text: serde_json::Value,
    pub fields: Table<FieldSpec>,
    pub model: Option<String>,
}

/// The value that an option stands for.
pub open spec fn option_value(o: FieldOption) -> Seq<char> {
    match o {
        FieldOption::Plain(value) => value@,
        FieldOption::Detailed(o) => o.value@,
    }
}

/// When an option applies, if that is said.
pub open spec fn option_description(o: FieldOption) -> Option<Seq<char>> {
    match o {
        FieldOption::Plain(_) => None,
        FieldOption::Detailed(o) => optional_text(o.description),
    }
}

/// The options of a field.
pub open spec fn field_options(f: FieldSpec) -> Seq<FieldOption> {
    match f {
        FieldSpec::Options(options) => options@,
        FieldSpec::Detailed(f) => f.options@,
    }
}

/// What a field means, if that is said.
pub open spec fn field_description(f: FieldSpec) -> Option<Seq<char>> {
    match f {
        FieldSpec::Options(_) => None,
        FieldSpec::Detailed(f) => optional_text(f.description),
    }
}

/// The values that options stand for.
pub open spec fn option_values(options: Seq<FieldOption>) -> Seq<Seq<char>> {
    options.map_values(|o: FieldOption| option_value(o))
}

/// Why the field `name` is refused.
pub open spec fn field_fault(name: Seq<char>, f: FieldSpec) -> Option<Seq<char>> {
    let options = field_options(f);
    if options.len() == 0 {
        Some("field '"@ + name + "' needs at least one option"@)
    } else {
        match first_repeated(option_values(options), 0) {
            Some(value) => Some(
                "field '"@ + name + "' has duplicate option value '"@ + value + "'"@,
            ),
            None => if options.len() > MAX_OPTIONS {
                Some(
                    "field '"@ + name + "' has "@ + decimal(options.len())
                        + " options; the maximum is 255"@,
                )
            } else {
                None
            },
        }
    }
}

/// Why the first of the fields `names`, from the place `i` on, is refused that is.
pub open spec fn first_field_fault(
    names: Seq<Seq<char>>,
    fields: Map<Seq<char>, FieldSpec>,
    i: int,
) -> Option<Seq<char>>
    decreases names.len() - i,
{
    if i >= names.len() {
        None
    } else {
        match field_fault(names[i], fields[names[i]]) {
            Some(message) => Some(message),
            None => first_field_fault(names, fields, i + 1),
        }
    }
}

/// Why fields are refused: there is none, or one of them, met in the order of the names,
/// cannot be asked about.
pub open spec fn fields_fault(fields: Map<Seq<char>, FieldSpec>) -> Option<Seq<char>> {
    let names = in_order(fields.dom());
    if names.len() == 0 {
        Some("'fields' must contain at least one field"@)
    } else {
        first_field_fault(names, fields, 0)
    }
}

/// What the options of a field are told apart by.
pub open spec fn option_criteria(options: Seq<FieldOption>) -> Map<Seq<char>, Tree>
    decreases options.len(),
{
    if options.len() == 0 {
        Map::empty()
    } else {
        option_criteria(options.drop_last()).insert(
            option_value(options.last()),
            text_or_null(option_description(options.last())),
        )
    }
}

/// The instructions of the question about the field `name`.
pub open spec fn field_instructions(name: Seq<char>, description: Option<Seq<char>>) -> Tree {
    let plain = map![
        "question"@ => Tree::Text(
            "Which option is the value of the '"@ + name + "' field in `text`?"@,
        ),
        "focus"@ => Tree::Text(
            "Choose the single best option; options are mutually exclusive."@,
        ),
    ];
    Tree::Object(
        match description {
            Some(t) => plain.insert("field_description"@, Tree::Text(t)),
            None => plain,
        },
    )
}

/// The question about the field `name`.
pub open spec fn field_question(name: Seq<char>, f: FieldSpec) -> QuestionView {
    QuestionView::Choice {
        instructions: field_instructions(name, field_description(f)),
        criteria: option_criteria(field_options(f)),
    }
}

/// The questions about fields, one about each.
pub open spec fn field_questions(fields: Map<Seq<char>, FieldSpec>) -> Map<
    Seq<char>,
    QuestionView,
> {
    Map::new(
        |name: Seq<char>| fields.contains_key(name),
        |name: Seq<char>| field_question(name, fields[name]),
    )
}

/// The options that a question offers.
pub open spec fn options_in(q: QuestionView) -> Set<Seq<char>> {
    match q {
        QuestionView::Choice { criteria, .. } => criteria.dom(),
        _ => Set::empty(),
    }
}

/// How the answer about the field at the place `i` is read.
pub open spec fn field_reading(
    names: Seq<Seq<char>>,
    questions: Map<Seq<char>, QuestionView>,
) -> spec_fn(Tree, nat) -> Result<(Seq<char>, Real), Fault> {
    |body: Tree, i: nat|
        choice_and_confidence(body, names[i as int], options_in(questions[names[i as int]]))
}

/// Whether each value is one of the options that were offered for its field.
pub open spec fn values_offered(
    names: Seq<Seq<char>>,
    questions: Map<Seq<char>, QuestionView>,
    answers: Seq<(Seq<char>, Real)>,
) -> bool {
    forall|i: int|
        0 <= i < names.len() ==> options_in(questions[names[i]]).contains(
            (#[trigger] answers[i]).0,
        )
}

/// What is reported of the first `n` fields.
pub open spec fn values_map(
    names: Seq<Seq<char>>,
    answers: Seq<(Seq<char>, Real)>,
    n: nat,
) -> Map<Seq<char>, Tree>
    decreases n,
{
    if n == 0 {
        Map::empty()
    } else {
        values_map(names, answers, (n - 1) as nat).insert(
            names[n - 1],
            Tree::Object(
                map![
                    "value"@ => Tree::Text(answers[n - 1].0),
                    "confidence"@ => real_tree(answers[n - 1].1),
                ],
            ),
        )
    }
}

/// What is reported.
pub open spec fn extract_report(names: Seq<Seq<char>>, answers: Seq<(Seq<char>, Real)>) -> Tree {
    Tree::Object(map!["fields"@ => Tree::Object(values_map(names, answers, names.len()))])
}

/// The state of the call.
pub open spec fn text_state(text: serde_json::Value) -> Tree {
    Tree::Object(map!["text"@ => Tree::Given(text)])
}

/// The options of the field `name`, told apart, or why the field is refused.
fn criteria_of(name: &str, options: &Vec<FieldOption>, f: Ghost<FieldSpec>) -> (r: Result<
    Table<Json>,
    ToolError,
>)
    requires
        options@ == field_options(f@),
    ensures
        match r {
            Ok(criteria) => field_fault(name@, f@) is None && criteria@ == option_criteria(
                options@,
            ),
            Err(e) => field_fault(name@, f@) is Some && e@ == Fault::InvalidParams(
                field_fault(name@, f@)->0,
            ),
        },
{
    if options.len() == 0 {
        return Err(invalid_params_error(join3("field '", name, "' needs at least one option")));
    }
    let ghost values = option_values(options@);
    let mut criteria: Table<Json> = Table::new();
    let mut i: usize = 0;
    assert(values.take(0) =~= Seq::empty());
    while i < options.len()
        invariant
            i <= options@.len(),
            options@.len() > 0,
            options@ == field_options(f@),
            values == option_values(options@),
            first_repeated(values, 0) == first_repeated(values, i as int),
            criteria@ == option_criteria(options@.take(i as int)),
            forall|v: Seq<char>| #[trigger]
                criteria@.contains_key(v) <==> values.take(i as int).contains(v),
        decreases options.len() - i,
    {
        let (value, entry) = match &options[i] {
            FieldOption::Plain(value) => (value, Json::Null),
            FieldOption::Detailed(o) => (&o.value, text_or_null_json(&o.description)),
        };
        assert(value@ == values[i as int]);
        if criteria.contains_key(value) {
            return Err(
                invalid_params_error(
                    join5("field '", name, "' has duplicate option value '", value, "'"),
                ),
            );
        }
        proof {
            assert(options@.take(i + 1).drop_last() =~= options@.take(i as int));
            assert(options@.take(i + 1).last() == options@[i as int]);
            lemma_walk_step(values, i as int);
        }
        criteria.insert(value.clone(), entry);
        i = i + 1;
    }
    assert(options@.take(i as int) =~= options@);
    if options.len() > MAX_OPTIONS {
        return Err(
            invalid_params_error(
                join5(
                    "field '",
                    name,
                    "' has ",
                    &decimal_text(options.len() as u64),
                    " options; the maximum is 255",
                ),
            ),
        );
    }
    Ok(criteria)
}

fn instructions_of(name: &str, description: &Option<String>) -> (r: Json)
    ensures
        r@ == field_instructions(name@, optional_text(*description)),
{
    let plain = Json::object().with(
        "question",
        Json::Text(join3("Which option is the value of the '", name, "' field in `text`?")),
    ).with("focus", Json::text("Choose the single best option; options are mutually exclusive."));
    match description {
        Some(t) => plain.with("field_description", Json::text(t)),
        None => plain,
    }
}

/// The question about the field `name`, or why the field is refused.
fn question_of(name: &str, f: &FieldSpec) -> (r: Result<Question, ToolError>)
    ensures
        match r {
            Ok(q) => field_fault(name@, *f) is None && q@ == field_question(name@, *f),
            Err(e) => field_fault(name@, *f) is Some && e@ == Fault::InvalidParams(
                field_fault(name@, *f)->0,
            ),
        },
{
    match f {
        FieldSpec::Options(options) => match criteria_of(name, options, Ghost(*f)) {
            Ok(criteria) => Ok(
                Question::Choice { instructions: instructions_of(name, &None), criteria },
            ),
            Err(e) => Err(e),
        },
        FieldSpec::Detailed(d) => match criteria_of(name, &d.options, Ghost(*f)) {
            Ok(criteria) => Ok(
                Question::Choice {
                    instructions: instructions_of(name, &d.description),
                    criteria,
                },
            ),
            Err(e) => Err(e),
        },
    }
}

/// An extraction on its way through its call.
pub struct ExtractRun {
    pub text: serde_json::Value,
    pub questions: Table<Question>,
    pub model: String,
    /// What the answers about the fields say, once they are known.
    pub answers: Option<Vec<Classified>>,
}

/// Begins to extract fields: refuses fields that cannot be asked about before anything is
/// asked.
pub fn extract_fields(args: ExtractFieldsArgs) -> (r: Result<ExtractRun, ToolError>)
    ensures
        match r {
            Ok(run) => {
                &&& fields_fault(args.fields@) is None
                &&& run.wf()
                &&& run.text == args.text
                &&& run.questions@ == field_questions(args.fields@)
                &&& run.model@ == spec_model(args.model)
                &&& run.answers is None
            },
            Err(e) => fields_fault(args.fields@) is Some && e@ == Fault::InvalidParams(
                fields_fault(args.fields@)->0,
            ),
        },
{
    let n = args.fields.len();
    proof {
        lemma_walk_in_order(&args.fields);
    }
    if n == 0 {
        return Err(invalid_params_error("'fields' must contain at least one field".to_string()));
    }
    let ghost names = args.fields.keys();
    let mut questions: Table<Question> = Table::new();
    let mut i: usize = 0;
    while i < n
        invariant
            i <= n,
            n > 0,
            n == names.len(),
            names == args.fields.keys(),
            names == in_order(args.fields@.dom()),
            walks(&args.fields),
            walks(&questions),
            fields_fault(args.fields@) == first_field_fault(names, args.fields@, i as int),
            forall|k: Seq<char>| #[trigger]
                questions@.contains_key(k) <==> names.take(i as int).contains(k),
            forall|k: Seq<char>| #[trigger]
                questions@.contains_key(k) ==> questions@[k] == field_question(k, args.fields@[k]),
        decreases n - i,
    {
        proof {
            lemma_walk_step(names, i as int);
            assert(args.fields@[names[i as int]] == args.fields.values()[i as int]@);
        }
        match question_of(args.fields.key_at(i), args.fields.value_at(i)) {
            Ok(q) => {
                questions.insert(args.fields.key_at(i).clone(), q);
            },
            Err(e) => {
                return Err(e);
            },
        }
        i = i + 1;
    }
    proof {
        assert(names.take(i as int) =~= names);
        assert(questions@ =~= field_questions(args.fields@));
        lemma_walk_in_order(&questions);
    }
    Ok(
        ExtractRun {
            text: args.text,
            questions,
            model: model_or_default(args.model),
            answers: None,
        },
    )
}

impl ExtractRun {
    /// The names of the fields in their order.
    pub open spec fn names(&self) -> Seq<Seq<char>> {
        in_order(self.questions@.dom())
    }

    pub open spec fn wf(&self) -> bool {
        &&& walks(&self.questions)
        &&& self.questions.keys() == self.names()
        &&& self.answers matches Some(a) ==> a@.len() == self.names().len() && values_offered(
            self.names(),
            self.questions@,
            classified(a@),
        )
    }

    /// The body of the call, where it is still to be made.
    pub fn next_call(&self) -> (r: Option<Json>)
        requires
            self.wf(),
        ensures
            match r {
                Some(body) => self.answers is None && body@ == call_tree(
                    text_state(self.text),
                    self.questions@,
                    self.model@,
                ),
                None => self.answers is Some,
            },
    {
        if self.answers.is_some() {
            return None;
        }
        let state = Json::object().with("text", Json::Given(self.text.clone()));
        Some(call_body(state, &self.questions, &self.model))
    }

    /// Takes in the response to the call. A response that leaves a field unanswered is
    /// refused whole.
    pub fn accept(&mut self, body: &Json) -> (r: Result<(), ToolError>)
        requires
            old(self).wf(),
            old(self).answers is None,
        ensures
            final(self).wf(),
            final(self).text == old(self).text,
            final(self).questions == old(self).questions,
            final(self).model == old(self).model,
            match r {
                Ok(_) => final(self).answers is Some && read_each(
                    body@,
                    old(self).names().len(),
                    field_reading(old(self).names(), old(self).questions@),
                ) == Ok::<Seq<(Seq<char>, Real)>, Fault>(classified(final(self).answers->0@)),
                Err(e) => read_each(
                    body@,
                    old(self).names().len(),
                    field_reading(old(self).names(), old(self).questions@),
                ) == Err::<Seq<(Seq<char>, Real)>, Fault>(e@) && *final(self) == *old(self),
            },
    {
        let ghost names = self.names();
        let ghost reading = field_reading(names, self.questions@);
        let n = self.questions.len();
        let mut read: Vec<Classified> = Vec::new();
        let mut i: usize = 0;
        assert(classified(read@) =~= Seq::empty());
        while i < n
            invariant
                i <= n,
                *self == *old(self),
                self.wf(),
                names == self.names(),
                n == names.len(),
                reading == field_reading(names, self.questions@),
                read@.len() == i,
                read_each(body@, i as nat, reading) == Ok::<
                    Seq<(Seq<char>, Real)>,
                    Fault,
                >(classified(read@)),
            decreases n - i,
        {
            assert(self.questions@[names[i as int]] == self.questions.values()[i as int]@);
            match read_value(body, self.questions.key_at(i), self.questions.value_at(i)) {
                Ok(c) => {
                    let ghost was = read@;
                    read.push(c);
                    assert(classified(read@) =~= classified(was).push(c@));
                },
                Err(e) => {
                    proof {
                        lemma_read_stops(body@, (i + 1) as nat, n as nat, reading);
                    }
                    return Err(e);
                },
            }
            i = i + 1;
        }
        proof {
            lemma_values_offered(body@, names, self.questions@);
        }
        self.answers = Some(read);
        Ok(())
    }

    /// The report on all fields, once they are answered.
    pub fn report(&self) -> (r: Option<Json>)
        requires
            self.wf(),
        ensures
            match r {
                Some(report) => self.answers is Some && report@ == extract_report(
                    self.names(),
                    classified(self.answers->0@),
                ),
                None => self.answers is None,
            },
            self.answers matches Some(a) ==> values_offered(
                self.names(),
                self.questions@,
                classified(a@),
            ),
    {
        match &self.answers {
            None => None,
            Some(answers) => {
                let ghost names = self.names();
                let ghost all = classified(answers@);
                let n = self.questions.len();
                let mut values = Json::object();
                let mut i: usize = 0;
                while i < n
                    invariant
                        i <= n,
                        self.wf(),
                        names == self.names(),
                        n == names.len(),
                        answers@.len() == n,
                        all == classified(answers@),
                        values@ is Object,
                        values@->Object_0 == values_map(names, all, i as nat),
                    decreases n - i,
                {
                    assert(all[i as int] == answers@[i as int]@);
                    values = values.with(
                        self.questions.key_at(i),
                        Json::object().with("value", Json::text(&answers[i].choice)).with(
                            "confidence",
                            Json::number(answers[i].confidence),
                        ),
                    );
                    i = i + 1;
                }
                Some(Json::object().with("fields", values))
            },
        }
    }
}

/// Reads the value of the field `name` out of the options that `q` offers.
fn read_value(body: &Json, name: &str, q: &Question) -> (r: Result<Classified, ToolError>)
    ensures
        match r {
            Ok(c) => choice_and_confidence(body@, name@, options_in(q@)) == Ok::<
                (Seq<char>, Real),
                Fault,
            >(c@),
            Err(e) => choice_and_confidence(body@, name@, options_in(q@)) == Err::<
                (Seq<char>, Real),
                Fault,
            >(e@),
        },
{
    match q {
        Question::Choice { criteria, .. } => answer_classified(body, name, criteria),
        _ => {
            let none: Table<Json> = Table::new();
            assert(none@.dom() =~= Set::empty());
            answer_classified(body, name, &none)
        },
    }
}

proof fn lemma_values_offered(
    body: Tree,
    names: Seq<Seq<char>>,
    questions: Map<Seq<char>, QuestionView>,
)
    ensures
        read_each(body, names.len(), field_reading(names, questions)) matches Ok(answers)
            ==> answers.len() == names.len() && values_offered(names, questions, answers),
{
    lemma_read_holds(
        body,
        names.len(),
        field_reading(names, questions),
        |i: nat, x: (Seq<char>, Real)| options_in(questions[names[i as int]]).contains(x.0),
    );
}

/// Every value that is read is one of the options that the caller gave for its field.
pub proof fn law_values_are_options(
    body: Tree,
    names: Seq<Seq<char>>,
    fields: Map<Seq<char>, FieldSpec>,
    i: int,
)
    requires
        0 <= i < names.len(),
        fields.contains_key(names[i]),
    ensures
        read_each(body, names.len(), field_reading(names, field_questions(fields))) matches Ok(
            answers,
        ) ==> option_values(field_options(fields[names[i]])).contains(answers[i].0),
{
    let questions = field_questions(fields);
    let read = read_each(body, names.len(), field_reading(names, questions));
    lemma_values_offered(body, names, questions);
    if read is Ok {
        let value = read->Ok_0[i].0;
        assert(options_in(questions[names[i]]).contains(value));
        lemma_option_keys(field_options(fields[names[i]]), value);
    }
}

proof fn lemma_option_keys(options: Seq<FieldOption>, value: Seq<char>)
    ensures
        option_criteria(options).contains_key(value) ==> option_values(options).contains(value),
    decreases options.len(),
{
    if options.len() > 0 {
        let fewer = options.drop_last();
        lemma_option_keys(fewer, value);
        if value == option_value(options.last()) {
            assert(option_values(options)[options.len() - 1] == value);
        } else if option_criteria(options).contains_key(value) {
            let k = option_values(fewer).index_of(value);
            assert(option_values(options)[k] == value);
        }
    }
}

/// Each field is reported under its name with what was answered about it.
pub proof fn law_fields_are_reported_by_name(
    names: Seq<Seq<char>>,
    answers: Seq<(Seq<char>, Real)>,
    n: nat,
)
    requires
        names.no_duplicates(),
        n <= names.len(),
    ensures
        forall|i: int|
            0 <= i < n ==> values_map(names, answers, n).contains_key(#[trigger] names[i])
                && values_map(names, answers, n)[names[i]] == Tree::Object(
                map![
                    "value"@ => Tree::Text(answers[i].0),
                    "confidence"@ => real_tree(answers[i].1),
                ],
            ),
    decreases n,
{
    if n > 0 {
        let m = (n - 1) as nat;
        law_fields_are_reported_by_name(names, answers, m);
        assert forall|i: int| 0 <= i < n implies values_map(names, answers, n).contains_key(
            #[trigger] names[i],
        ) && values_map(names, answers, n)[names[i]] == Tree::Object(
            map![
                "value"@ => Tree::Text(answers[i].0),
                "confidence"@ => real_tree(answers[i].1),
            ],
        ) by {
            if i < m {
                assert(names[i] != names[m as int]);
            }
        }
    }
}

/// A question about fields that are not refused offers each option of its field once, and
/// so stays within the limit.
pub proof fn law_field_options_are_offered(name: Seq<char>, f: FieldSpec)
    requires
        field_fault(name, f) is None,
    ensures
        option_criteria(field_options(f)).dom().finite(),
        option_criteria(field_options(f)).len() == field_options(f).len(),
        1 <= option_criteria(field_options(f)).len() <= MAX_OPTIONS,
        forall|i: int|
            0 <= i < field_options(f).len() ==> option_criteria(field_options(f)).contains_key(
                option_value(#[trigger] field_options(f)[i]),
            ),
{
    let options = field_options(f);
    lemma_options_offered(options, options.len() as int);
    assert(options.take(options.len() as int) =~= options);
    assert forall|i: int| 0 <= i < options.len() implies option_criteria(options).contains_key(
        option_value(#[trigger] options[i]),
    ) by {
        assert(option_values(options).take(options.len() as int)[i] == option_value(options[i]));
    }
}

proof fn lemma_options_offered(options: Seq<FieldOption>, n: int)
    requires
        0 <= n <= options.len(),
        first_repeated(option_values(options), 0) is None,
    ensures
        option_criteria(options.take(n)).dom().finite(),
        option_criteria(options.take(n)).len() == n,
        forall|v: Seq<char>| #[trigger]
            option_criteria(options.take(n)).contains_key(v) <==> option_values(options).take(
                n,
            ).contains(v),
    decreases n,
{
    let values = option_values(options);
    if n == 0 {
        assert(values.take(0) =~= Seq::empty());
    } else {
        lemma_options_offered(options, n - 1);
        lemma_none_repeated(values, 0, n - 1);
        assert(options.take(n).drop_last() =~= options.take(n - 1));
        assert(options.take(n).last() == options[n - 1]);
        lemma_walk_step(values, n - 1);
    }
}

proof fn lemma_none_repeated(all: Seq<Seq<char>>, i: int, k: int)
    requires
        0 <= i <= k < all.len(),
        first_repeated(all, i) is None,
    ensures
        !all.take(k).contains(all[k]),
    decreases k - i,
{
    if i < k {
        lemma_none_repeated(all, i + 1, k);
    }
}

/// A field that is given by its options alone has those options and no description; of one
/// that is spelled out nothing is lost.
pub proof fn law_fields_are_taken_as_given(f: FieldSpec)
    ensures
        f matches FieldSpec::Options(options) ==> field_options(f) == options@
            && field_description(f) is None,
        f matches FieldSpec::Detailed(spec) ==> {
            &&& field_options(f) == spec.options@
            &&& field_description(f) is Some <==> spec.description is Some
            &&& spec.description matches Some(t) ==> field_description(f)->0 == t@
        },
{
}

/// Each field is asked for once, under its name: with its description exactly where it has
/// one, about the text as the caller gives it, and with each option under its value, as its
/// description where it has one and as null exactly where it has none.
pub proof fn law_fields_are_asked_for(
    text: serde_json::Value,
    fields: Map<Seq<char>, FieldSpec>,
    model: Seq<char>,
    name: Seq<char>,
)
    requires
        fields.contains_key(name),
        option_values(field_options(fields[name])).no_duplicates(),
    ensures
        ({
            let call = call_tree(text_state(text), field_questions(fields), model);
            let asked = at(call, "questions"@);
            let q = at(asked, name);
            let told = at(q, "instructions"@);
            let criteria = at(q, "criteria"@);
            let options = field_options(fields[name]);
            let plain = set!["question"@, "focus"@];
            &&& fields_are(at(call, "state"@), set!["text"@])
            &&& holds(at(call, "state"@), "text"@, Tree::Given(text))
            &&& fields_are(asked, fields.dom())
            &&& fields_are(q, set!["type"@, "instructions"@, "criteria"@])
            &&& holds(q, "type"@, Tree::Text("choice"@))
            &&& field_description(fields[name]) is None ==> fields_are(told, plain)
            &&& field_description(fields[name]) matches Some(t) ==> fields_are(
                told,
                plain.insert("field_description"@),
            ) && holds(told, "field_description"@, Tree::Text(t))
            &&& holds(
                told,
                "question"@,
                Tree::Text("Which option is the value of the '"@ + name + "' field in `text`?"@),
            )
            &&& holds(
                told,
                "focus"@,
                Tree::Text("Choose the single best option; options are mutually exclusive."@),
            )
            &&& criteria is Object
            &&& forall|i: int|
                0 <= i < options.len() ==> match #[trigger] options[i] {
                    FieldOption::Plain(value) => holds(criteria, value@, Tree::Null),
                    FieldOption::Detailed(FieldOptionObj { value, description: Some(t) }) => holds(
                        criteria,
                        value@,
                        Tree::Text(t@),
                    ),
                    FieldOption::Detailed(FieldOptionObj { value, description: None }) => holds(
                        criteria,
                        value@,
                        Tree::Null,
                    ),
                }
            &&& forall|value: Seq<char>| #[trigger]
                has_field(criteria, value) ==> exists|i: int|
                    0 <= i < options.len() && match #[trigger] options[i] {
                        FieldOption::Plain(v) => v@,
                        FieldOption::Detailed(o) => o.value@,
                    } == value
        }),
{
    reveal_strlit("question");
    reveal_strlit("focus");
    reveal_strlit("field_description");
    reveal_strlit("text");
    assert("question"@.len() == 8);
    assert("focus"@.len() == 5);
    assert("field_description"@.len() == 17);
    assert("text"@.len() == 4);
    let questions = field_questions(fields);
    let call = call_tree(text_state(text), questions, model);
    law_calls_hold_what_they_ask(text_state(text), questions, model);
    assert(questions.dom() =~= fields.dom());
    assert(questions.contains_key(name));
    let view = field_question(name, fields[name]);
    assert(questions[name] == view);
    law_choices_are_sent(view->Choice_instructions, view->Choice_criteria);
    assert(text_state(text)->Object_0.dom() =~= set!["text"@]);
    let plain = set!["question"@, "focus"@];
    let told = view->Choice_instructions;
    if field_description(fields[name]) is Some {
        assert(told->Object_0.dom() =~= plain.insert("field_description"@));
    } else {
        assert(told->Object_0.dom() =~= plain);
    }
    let options = field_options(fields[name]);
    lemma_options_by_value(options);
    let criteria = at(at(at(call, "questions"@), name), "criteria"@);
    assert(criteria == Tree::Object(option_criteria(options)));
    assert forall|value: Seq<char>| #[trigger] has_field(criteria, value) implies exists|i: int|
        0 <= i < options.len() && match #[trigger] options[i] {
            FieldOption::Plain(v) => v@,
            FieldOption::Detailed(o) => o.value@,
        } == value by {
        lemma_option_keys(options, value);
        let i = choose|i: int|
            0 <= i < option_values(options).len() && option_values(options)[i] == value;
        assert(option_value(options[i]) == value);
    }
}

proof fn lemma_options_by_value(options: Seq<FieldOption>)
    requires
        option_values(options).no_duplicates(),
    ensures
        forall|i: int|
            0 <= i < options.len() ==> {
                let o = #[trigger] options[i];
                &&& option_criteria(options).contains_key(option_value(o))
                &&& option_criteria(options)[option_value(o)] == text_or_null(option_description(o))
            },
    decreases options.len(),
{
    if options.len() > 0 {
        let rest = options.drop_last();
        let all = option_values(options);
        assert(option_values(rest) =~= all.drop_last());
        assert forall|i: int, j: int|
            0 <= i < option_values(rest).len() && 0 <= j < option_values(rest).len() && i
                != j implies option_values(rest)[i] != option_values(rest)[j] by {
            assert(all[i] != all[j]);
        }
        lemma_options_by_value(rest);
        assert forall|i: int| 0 <= i < options.len() implies {
            let o = #[trigger] options[i];
            &&& option_criteria(options).contains_key(option_value(o))
            &&& option_criteria(options)[option_value(o)] == text_or_null(option_description(o))
        } by {
            if i < rest.len() {
                assert(rest[i] == options[i]);
                assert(all[i] != all[options.len() - 1]);
            }
        }
    }
}

/// The value of a field is read under the field's own name, from among its own options.
pub proof fn law_values_are_read(
    names: Seq<Seq<char>>,
    fields: Map<Seq<char>, FieldSpec>,
    body: Tree,
    i: nat,
)
    requires
        i < names.len(),
        fields.contains_key(names[i as int]),
    ensures
        field_reading(names, field_questions(fields))(body, i) == choice_and_confidence(
            body,
            names[i as int],
            option_criteria(field_options(fields[names[i as int]])).dom(),
        ),
{
}

/// The report gives each field, and nothing else, under its name, with its value and
/// confidence.
pub proof fn law_values_are_reported(names: Seq<Seq<char>>, answers: Seq<(Seq<char>, Real)>)
    requires
        names.no_duplicates(),
        answers.len() == names.len(),
    ensures
        ({
            let report = extract_report(names, answers);
            let values = at(report, "fields"@);
            &&& fields_are(report, set!["fields"@])
            &&& fields_are(values, names.to_set())
            &&& forall|i: int|
                0 <= i < names.len() ==> {
                    let entry = at(values, #[trigger] names[i]);
                    &&& has_field(values, names[i])
                    &&& fields_are(entry, set!["value"@, "confidence"@])
                    &&& holds(entry, "value"@, Tree::Text(answers[i].0))
                    &&& holds(entry, "confidence"@, real_tree(answers[i].1))
                }
        }),
{
    reveal_strlit("fields");
    reveal_strlit("value");
    reveal_strlit("confidence");
    assert("fields"@.len() == 6);
    assert("value"@.len() == 5);
    assert("confidence"@.len() == 10);
    let report = extract_report(names, answers);
    assert(report->Object_0.dom() =~= set!["fields"@]);
    law_fields_are_reported_by_name(names, answers, names.len());
    lemma_value_keys(names, answers, names.len());
    let values = at(report, "fields"@);
    assert(values->Object_0.dom() =~= names.to_set()) by {
        assert forall|name: Seq<char>| values->Object_0.dom().contains(name)
            <==> names.to_set().contains(name) by {
            assert(values->Object_0.contains_key(name) <==> exists|i: int|
                0 <= i < names.len() && #[trigger] names[i] == name);
        }
    }
    assert forall|i: int| 0 <= i < names.len() implies {
        let entry = at(values, #[trigger] names[i]);
        &&& has_field(values, names[i])
        &&& fields_are(entry, set!["value"@, "confidence"@])
        &&& holds(entry, "value"@, Tree::Text(answers[i].0))
        &&& holds(entry, "confidence"@, real_tree(answers[i].1))
    } by {
        let entry = at(values, names[i]);
        assert(entry->Object_0.dom() =~= set!["value"@, "confidence"@]);
    }
}

proof fn lemma_value_keys(names: Seq<Seq<char>>, answers: Seq<(Seq<char>, Real)>, n: nat)
    requires
        n <= names.len(),
    ensures
        forall|name: Seq<char>| #[trigger]
            values_map(names, answers, n).contains_key(name) <==> exists|i: int|
                0 <= i < n && #[trigger] names[i] == name,
    decreases n,
{
    if n > 0 {
        lemma_value_keys(names, answers, (n - 1) as nat);
        assert forall|name: Seq<char>| #[trigger]
            values_map(names, answers, n).contains_key(name) <==> exists|i: int|
                0 <= i < n && #[trigger] names[i] == name by {
            let before = values_map(names, answers, (n - 1) as nat);
            assert(values_map(names, answers, n).contains_key(name) <==> before.contains_key(name)
                || name == names[n - 1]);
        }
    }
}

/// A field is refused exactly where it has no option, where two options have the same value,
/// or where there are more than 255; and the refusal says which.
pub proof fn law_options_within_limits(name: Seq<char>, f: FieldSpec)
    ensures
        ({
            let options = field_options(f);
            let values = option_values(options);
            &&& field_fault(name, f) is None <==> 1 <= options.len() <= 255
                && values.no_duplicates()
            &&& options.len() == 0 ==> field_fault(name, f) == Some(
                "field '"@ + name + "' needs at least one option"@,
            )
            &&& options.len() > 0 && !values.no_duplicates() ==> exists|i: int, j: int|
                0 <= i < j < values.len() && #[trigger] values[i] == #[trigger] values[j]
                    && values.take(j).no_duplicates() && field_fault(name, f) == Some(
                    "field '"@ + name + "' has duplicate option value '"@ + values[i] + "'"@,
                )
            &&& options.len() > 255 && values.no_duplicates() ==> field_fault(name, f) == Some(
                "field '"@ + name + "' has "@ + decimal(options.len())
                    + " options; the maximum is 255"@,
            )
        }),
{
    let values = option_values(field_options(f));
    law_first_repeated(values);
    if !values.no_duplicates() {
        let (i, j) = choose|i: int, j: int|
            0 <= i < j < values.len() && #[trigger] values[i] == first_repeated(values, 0)->0
                && #[trigger] values[j] == first_repeated(values, 0)->0 && values.take(
                j,
            ).no_duplicates();
        assert(values[i] == values[j]);
    }
}

/// Fields are refused exactly where there is none or one of them is refused, and then for
/// the first, in the order of the names, that is.
pub proof fn law_first_field_fault_is_reported(fields: Map<Seq<char>, FieldSpec>)
    requires
        fields.dom().finite(),
    ensures
        fields.len() == 0 ==> fields_fault(fields) == Some(
            "'fields' must contain at least one field"@,
        ),
        fields_fault(fields) is None <==> fields.len() > 0 && (forall|name: Seq<char>| #[trigger]
            fields.contains_key(name) ==> field_fault(name, fields[name]) is None),
        fields.len() > 0 && fields_fault(fields) is Some ==> exists|name: Seq<char>|
            {
                &&& #[trigger] fields.contains_key(name)
                &&& field_fault(name, fields[name]) == fields_fault(fields)
                &&& forall|k: Seq<char>| #[trigger]
                    fields.contains_key(k) && field_fault(k, fields[k]) is Some ==> k == name
                        || before(name, k)
            },
{
    let names = in_order(fields.dom());
    lemma_in_order(fields.dom());
    lemma_ascending_distinct(names);
    names.unique_seq_to_set();
    lemma_first_field_fault(names, fields, 0);
    assert forall|name: Seq<char>| #[trigger] fields.contains_key(name) implies exists|j: int|
        0 <= j < names.len() && #[trigger] names[j] == name by {
        assert(names.to_set().contains(name));
    }
    assert forall|j: int| 0 <= j < names.len() implies fields.contains_key(#[trigger] names[j])
        && fault_at(names, fields, j) == field_fault(names[j], fields[names[j]]) by {
        assert(names.to_set().contains(names[j]));
        reveal(fault_at);
    }
    if names.len() > 0 {
        if fields_fault(fields) is Some {
            let j = choose|j: int|
                0 <= j < names.len() && #[trigger] fault_at(names, fields, j) == fields_fault(
                    fields,
                ) && (forall|k: int| 0 <= k < j ==> (#[trigger] fault_at(names, fields, k)) is None);
            let name = names[j];
            assert(fields.contains_key(name));
            assert forall|k: Seq<char>| #[trigger]
                fields.contains_key(k) && field_fault(k, fields[k]) is Some implies k == name
                || before(name, k) by {
                let i = choose|i: int| 0 <= i < names.len() && #[trigger] names[i] == k;
                assert(fault_at(names, fields, i) is Some);
                if i > j {
                    assert(before(names[j], names[i]));
                }
            }
        } else {
            assert forall|name: Seq<char>| #[trigger]
                fields.contains_key(name) implies field_fault(name, fields[name]) is None by {
                let i = choose|i: int| 0 <= i < names.len() && #[trigger] names[i] == name;
                assert(fault_at(names, fields, i) is None);
            }
        }
    }
}

/// Why the field with the name `names[j]` is refused.
#[verifier::opaque]
spec fn fault_at(
    names: Seq<Seq<char>>,
    fields: Map<Seq<char>, FieldSpec>,
    j: int,
) -> Option<Seq<char>> {
    field_fault(names[j], fields[names[j]])
}

proof fn lemma_first_field_fault(
    names: Seq<Seq<char>>,
    fields: Map<Seq<char>, FieldSpec>,
    i: int,
)
    requires
        0 <= i <= names.len(),
    ensures
        first_field_fault(names, fields, i) is None ==> (forall|j: int|
            i <= j < names.len() ==> (#[trigger] fault_at(names, fields, j)) is None),
        first_field_fault(names, fields, i) is Some ==> exists|j: int|
            i <= j < names.len() && #[trigger] fault_at(names, fields, j) == first_field_fault(
                names,
                fields,
                i,
            ) && (forall|k: int| i <= k < j ==> (#[trigger] fault_at(names, fields, k)) is None),
    decreases names.len() - i,
{
    if i < names.len() {
        lemma_first_field_fault(names, fields, i + 1);
        let rest = first_field_fault(names, fields, i + 1);
        let here = fault_at(names, fields, i);
        assert(first_field_fault(names, fields, i) == if here is Some {
            here
        } else {
            rest
        }) by {
            reveal(fault_at);
        }
        if here is None && rest is Some {
            let j = choose|j: int|
                i + 1 <= j < names.len() && #[trigger] fault_at(names, fields, j) == rest && (
                forall|k: int| i + 1 <= k < j ==> (#[trigger] fault_at(names, fields, k)) is None);
            assert(fault_at(names, fields, j) == first_field_fault(names, fields, i));
        }
    }
}

/// An extraction begins with what the caller gives: the text, the model or `jev-latest`, and
/// one question about each field.
pub proof fn law_extractions_begin_as_asked(
    args: ExtractFieldsArgs,
    r: Result<ExtractRun, ToolError>,
)
    requires
        args.fields@.dom().finite(),
        call_ensures(extract_fields, (args,), r),
    ensures
        r is Ok <==> args.fields@.len() > 0 && (forall|name: Seq<char>| #[trigger]
            args.fields@.contains_key(name) ==> field_fault(name, args.fields@[name]) is None),
        r matches Ok(run) ==> {
            &&& run.text == args.text
            &&& run.questions@.dom() == args.fields@.dom()
            &&& forall|name: Seq<char>| #[trigger]
                args.fields@.contains_key(name) ==> run.questions@[name] == field_question(
                    name,
                    args.fields@[name],
                )
            &&& run.answers is None
            &&& model_follows(args.model, run.model@)
        },
        r matches Err(e) ==> e@ is InvalidParams,
{
    law_first_field_fault_is_reported(args.fields@);
    assert(field_questions(args.fields@).dom() =~= args.fields@.dom());
}

/// The call is made once: about the text, with all questions.
pub proof fn law_fields_are_put_in_one_call(run: ExtractRun, r: Option<Json>)
    requires
        call_ensures(ExtractRun::next_call, (&run,), r),
    ensures
        r is Some <==> run.answers is None,
        r matches Some(body) ==> {
            &&& fields_are(at(body@, "state"@), set!["text"@])
            &&& holds(at(body@, "state"@), "text"@, Tree::Given(run.text))
            &&& holds(body@, "model"@, Tree::Text(run.model@))
            &&& fields_are(at(body@, "questions"@), run.questions@.dom())
            &&& forall|name: Seq<char>| #[trigger]
                run.questions@.contains_key(name) ==> holds(
                    at(body@, "questions"@),
                    name,
                    question_tree(run.questions@[name]),
                )
        },
{
    if r is Some {
        law_calls_hold_what_they_ask(text_state(run.text), run.questions@, run.model@);
        assert(text_state(run.text)->Object_0.dom() =~= set!["text"@]);
    }
}

/// The report gives under the name of each field its own value and confidence.
pub proof fn law_extractions_report_their_values(run: ExtractRun, r: Option<Json>)
    requires
        run.wf(),
        call_ensures(ExtractRun::report, (&run,), r),
    ensures
        r is Some <==> run.answers is Some,
        r matches Some(report) ==> {
            let values = at(report@, "fields"@);
            &&& fields_are(report@, set!["fields"@])
            &&& fields_are(values, run.questions@.dom())
            &&& forall|i: int|
                0 <= i < run.names().len() ==> {
                    let entry = at(values, #[trigger] run.names()[i]);
                    &&& fields_are(entry, set!["value"@, "confidence"@])
                    &&& holds(entry, "value"@, Tree::Text(run.answers->0@[i].choice@))
                    &&& holds(entry, "confidence"@, real_tree(run.answers->0@[i].confidence))
                }
        },
{
    if r is Some {
        let answers = classified(run.answers->0@);
        let names = run.names();
        lemma_in_order(run.questions@.dom());
        lemma_ascending_distinct(names);
        law_values_are_reported(names, answers);
        let values = at(r->0@, "fields"@);
        assert forall|i: int| 0 <= i < names.len() implies {
            let entry = at(values, #[trigger] run.names()[i]);
            &&& fields_are(entry, set!["value"@, "confidence"@])
            &&& holds(entry, "value"@, Tree::Text(run.answers->0@[i].choice@))
            &&& holds(entry, "confidence"@, real_tree(run.answers->0@[i].confidence))
        } by {
            assert(answers[i] == run.answers->0@[i]@);
            assert(has_field(values, names[i]));
        }
    }
}

/// The response is taken in exactly where it gives one of its own options and a confidence
/// for every field, and then each under its own name; otherwise nothing changes.
pub proof fn law_extractions_take_in_answers(
    run: &mut ExtractRun,
    body: Json,
    r: Result<(), ToolError>,
)
    requires
        old(run).wf(),
        old(run).answers is None,
        call_ensures(ExtractRun::accept, (run, &body), r),
    ensures
        ({
            let names = in_order(old(run).questions@.dom());
            let questions = old(run).questions@;
            &&& r is Ok <==> (forall|i: int|
                0 <= i < names.len() ==> choice_and_confidence(
                    body@,
                    #[trigger] names[i],
                    options_in(questions[names[i]]),
                ) is Ok)
            &&& r is Ok ==> {
                &&& final(run).answers is Some
                &&& final(run).answers->0@.len() == names.len()
                &&& forall|i: int|
                    0 <= i < names.len() ==> choice_and_confidence(
                        body@,
                        #[trigger] names[i],
                        options_in(questions[names[i]]),
                    ) == Ok::<(Seq<char>, Real), Fault>(final(run).answers->0@[i]@)
            }
        }),
        final(run).text == old(run).text,
        final(run).questions == old(run).questions,
        final(run).model == old(run).model,
        r is Err ==> *final(run) == *old(run),
{
    let names = old(run).names();
    let questions = old(run).questions@;
    let reading = field_reading(names, questions);
    law_answers_are_read_in_turn(body@, names.len(), reading);
    assert forall|i: nat| i < names.len() implies #[trigger] reading(body@, i)
        == choice_and_confidence(
        body@,
        names[i as int],
        options_in(questions[names[i as int]]),
    ) by {}
    assert forall|i: int| 0 <= i < names.len() implies choice_and_confidence(
        body@,
        #[trigger] names[i],
        options_in(questions[names[i]]),
    ) == reading(body@, i as nat) by {}
    if r is Ok {
        let kept = final(run).answers->0@;
        assert(classified(kept).len() == kept.len());
        assert forall|i: int| 0 <= i < names.len() implies choice_and_confidence(
            body@,
            #[trigger] names[i],
            options_in(questions[names[i]]),
        ) == Ok::<(Seq<char>, Real), Fault>(kept[i]@) by {
            assert(reading(body@, i as nat) == Ok::<(Seq<char>, Real), Fault>(classified(kept)[i]));
        }
    }
}

/// What a question about a field offers is the values of the field's options.
pub proof fn law_options_are_the_values(name: Seq<char>, f: FieldSpec)
    requires
        option_values(field_options(f)).no_duplicates(),
    ensures
        options_in(field_question(name, f)) == option_values(field_options(f)).to_set(),
{
    let options = field_options(f);
    lemma_options_by_value(options);
    let offered = option_criteria(options).dom();
    assert(offered =~= option_values(options).to_set()) by {
        assert forall|value: Seq<char>| offered.contains(value) <==> option_values(
            options,
        ).to_set().contains(value) by {
            lemma_option_keys(options, value);
            assert(option_criteria(options).contains_key(value) <==> offered.contains(value));
            if option_values(options).contains(value) {
                let i = choose|i: int|
                    0 <= i < option_values(options).len() && option_values(options)[i] == value;
                assert(option_value(options[i]) == value);
            }
        }
    }
}

} // verus!
