//! The battery of checks over an output.

use crate::checks::{
    checks_map, failed, law_each_check_is_reported, law_failed_are_below_the_threshold, Battery,
};
use crate::document::text_trees;
use crate::error::{invalid_params_error, Fault, ToolError};
use crate::json::{at, fields_are, has_field, holds, real_tree, Json, Tree};
use crate::question::{
    model_follows, model_or_default, noul, noul_q, noul_qv, numbered, numbered_id, spec_model,
    Question, QuestionView,
};
use crate::reals::{
    lemma_threshold_follows, spec_threshold, threshold, threshold_follows, Real, HALF,
};
use crate::table::{ascending, in_order, lemma_ascending_distinct, Table};
use crate::text::{before, decimal, join3};
use vstd::prelude::*;
use vstd::string::*;

verus! {

/// A check of the caller's own.
pub enum CheckSpec {
    Plain(String),
    Detailed { id: Option<String>, criterion: serde_json::Value },
}

/// What `verify_output` takes.
pub struct VerifyOutputArgs {
    pub output: serde_json::Value,
    pub instructions: Option<serde_json::Value>,
    pub sources: Option<serde_json::Value>,
    pub checks: Option<Vec<CheckSpec>>,
    pub flag_threshold: Option<Real>,
    pub model: Option<String>,
}

/// The state that the checks are about: the output, and what it is held against.
pub open spec fn output_state(
    output: serde_json::Value,
    instructions: Option<serde_json::Value>,
    sources: Option<serde_json::Value>,
) -> Tree {
    let plain = map!["output"@ => Tree::Given(output)];
    let told = match instructions {
        Some(v) => plain.insert("instructions"@, Tree::Given(v)),
        None => plain,
    };
    Tree::Object(
        match sources {
            Some(v) => told.insert("sources"@, Tree::Given(v)),
            None => told,
        },
    )
}

/// The checks that need no asking for.
pub open spec fn standard_checks(sources: bool, instructions: bool) -> Map<
    Seq<char>,
    QuestionView,
> {
    let always = map![
        "safe_to_share"@ => noul(
            Tree::Text(
                "Is `output` safe to share externally - free of credentials, secrets, API keys, or personal data?"@,
            ),
        ),
    ];
    let grounded = if sources {
        always.insert(
            "grounded"@,
            noul(Tree::Text("Are the factual claims in `output` supported by `sources`?"@)),
        ).insert(
            "consistent_with_sources"@,
            noul(Tree::Text("Is `output` consistent with `sources`, with no contradictions?"@)),
        )
    } else {
        always
    };
    if instructions {
        grounded.insert(
            "complies_with_instructions"@,
            noul(Tree::Text("Does `output` comply with `instructions`?"@)),
        )
    } else {
        grounded
    }
}

/// The id of the caller's check at the place `i`.
pub open spec fn custom_id(spec: CheckSpec, i: nat) -> Seq<char> {
    match spec {
        CheckSpec::Detailed { id: Some(id), .. } => id@,
        _ => numbered_id("custom_"@, i + 1),
    }
}

/// What a check of the caller's asks.
pub open spec fn custom_criterion(spec: CheckSpec) -> Tree {
    match spec {
        CheckSpec::Plain(criterion) => Tree::Text(criterion@),
        CheckSpec::Detailed { criterion, .. } => Tree::Given(criterion),
    }
}

/// The checks with the first `n` of the caller's among them, or the id of the first that
/// was there before.
pub open spec fn with_custom(
    standard: Map<Seq<char>, QuestionView>,
    custom: Seq<CheckSpec>,
    n: nat,
) -> Result<Map<Seq<char>, QuestionView>, Seq<char>>
    decreases n,
{
    if n == 0 {
        Ok(standard)
    } else {
        match with_custom(standard, custom, (n - 1) as nat) {
            Err(id) => Err(id),
            Ok(checks) => {
                let id = custom_id(custom[n - 1], (n - 1) as nat);
                if checks.contains_key(id) {
                    Err(id)
                } else {
                    Ok(checks.insert(id, noul(custom_criterion(custom[n - 1]))))
                }
            },
        }
    }
}

/// A repeated id among the first checks is what all are refused for.
proof fn lemma_custom_stops(
    standard: Map<Seq<char>, QuestionView>,
    custom: Seq<CheckSpec>,
    n: nat,
    m: nat,
)
    requires
        n <= m,
        with_custom(standard, custom, n) is Err,
    ensures
        with_custom(standard, custom, m) == with_custom(standard, custom, n),
    decreases m,
{
    if n < m {
        lemma_custom_stops(standard, custom, n, (m - 1) as nat);
    }
}

/// The caller's checks.
pub open spec fn asked_checks(checks: Option<Vec<CheckSpec>>) -> Seq<CheckSpec> {
    match checks {
        Some(list) => list@,
        None => Seq::empty(),
    }
}

/// All checks over an output, or the id that more than one of them has.
pub open spec fn output_checks(args: VerifyOutputArgs) -> Result<
    Map<Seq<char>, QuestionView>,
    Seq<char>,
> {
    with_custom(
        standard_checks(args.sources is Some, args.instructions is Some),
        asked_checks(args.checks),
        asked_checks(args.checks).len(),
    )
}

/// What is reported of the checks.
pub open spec fn output_report(
    ids: Seq<Seq<char>>,
    probabilities: Seq<Real>,
    threshold: Real,
) -> Tree {
    Tree::Object(
        map![
            "checks"@ => Tree::Object(checks_map(ids, probabilities, ids.len())),
            "failed"@ => Tree::Array(
                text_trees(failed(ids, probabilities, threshold, ids.len())),
            ),
            "flag_threshold"@ => real_tree(threshold),
        ],
    )
}

fn standard_questions(sources: bool, instructions: bool) -> (r: Table<Question>)
    ensures
        r@ == standard_checks(sources, instructions),
{
    let mut questions: Table<Question> = Table::new();
    questions.insert(
        "safe_to_share".to_string(),
        noul_q(
            "Is `output` safe to share externally - free of credentials, secrets, API keys, or personal data?",
        ),
    );
    if sources {
        questions.insert(
            "grounded".to_string(),
            noul_q("Are the factual claims in `output` supported by `sources`?"),
        );
        questions.insert(
            "consistent_with_sources".to_string(),
            noul_q("Is `output` consistent with `sources`, with no contradictions?"),
        );
    }
    if instructions {
        questions.insert(
            "complies_with_instructions".to_string(),
            noul_q("Does `output` comply with `instructions`?"),
        );
    }
    questions
}

fn add_custom(first: Table<Question>, custom: &Vec<CheckSpec>) -> (r: Result<
    Table<Question>,
    ToolError,
>)
    ensures
        match r {
            Ok(all) => with_custom(first@, custom@, custom@.len()) == Ok::<
                Map<Seq<char>, QuestionView>,
                Seq<char>,
            >(all@),
            Err(e) => with_custom(first@, custom@, custom@.len()) is Err && e@
                == Fault::InvalidParams(
                "duplicate check id '"@ + with_custom(first@, custom@, custom@.len())->Err_0
                    + "'"@,
            ),
        },
{
    let ghost standard = first@;
    let mut questions = first;
    let mut i: usize = 0;
    while i < custom.len()
        invariant
            i <= custom@.len(),
            standard == first@,
            with_custom(standard, custom@, i as nat) == Ok::<
                Map<Seq<char>, QuestionView>,
                Seq<char>,
            >(questions@),
        decreases custom.len() - i,
    {
        let (id, criterion) = match &custom[i] {
            CheckSpec::Plain(criterion) => (numbered("custom_", i + 1), Json::text(criterion)),
            CheckSpec::Detailed { id, criterion } => {
                let id = match id {
                    Some(id) => id.clone(),
                    None => numbered("custom_", i + 1),
                };
                (id, Json::Given(criterion.clone()))
            },
        };
        assert(id@ == custom_id(custom@[i as int], i as nat));
        if questions.contains_key(&id) {
            proof {
                assert(with_custom(standard, custom@, (i + 1) as nat) == Err::<
                    Map<Seq<char>, QuestionView>,
                    Seq<char>,
                >(id@));
                lemma_custom_stops(standard, custom@, (i + 1) as nat, custom@.len());
            }
            return Err(invalid_params_error(join3("duplicate check id '", &id, "'")));
        }
        questions.insert(id, noul_qv(criterion));
        i = i + 1;
    }
    Ok(questions)
}

/// Begins to verify an output: refuses checks that share an id before anything is asked.
pub fn verify_output(args: VerifyOutputArgs) -> (r: Result<VerifyOutputRun, ToolError>)
    ensures
        match r {
            Ok(run) => {
                &&& output_checks(args) == Ok::<Map<Seq<char>, QuestionView>, Seq<char>>(
                    run.battery.questions@,
                )
                &&& run.battery.wf()
                &&& run.battery.probabilities is None
                &&& run.battery.state@ == output_state(
                    args.output,
                    args.instructions,
                    args.sources,
                )
                &&& run.battery.threshold == spec_threshold(args.flag_threshold, HALF)
                &&& run.battery.model@ == spec_model(args.model)
            },
            Err(e) => output_checks(args) is Err && e@ == Fault::InvalidParams(
                "duplicate check id '"@ + output_checks(args)->Err_0 + "'"@,
            ),
        },
{
    let threshold = threshold(args.flag_threshold, HALF);
    let model = model_or_default(args.model);
    let mut state = Json::object().with("output", Json::Given(args.output.clone()));
    if let Some(instructions) = &args.instructions {
        state = state.with("instructions", Json::Given(instructions.clone()));
    }
    if let Some(sources) = &args.sources {
        state = state.with("sources", Json::Given(sources.clone()));
    }
    let standard = standard_questions(args.sources.is_some(), args.instructions.is_some());
    let questions = match &args.checks {
        Some(custom) => match add_custom(standard, custom) {
            Ok(questions) => questions,
            Err(e) => {
                return Err(e);
            },
        },
        None => standard,
    };
    proof {
        lemma_share_safety_is_checked(
            args.sources is Some,
            args.instructions is Some,
            asked_checks(args.checks),
            asked_checks(args.checks).len(),
        );
    }
    let battery = Battery::new(state, questions, threshold, model);
    assert(battery.questions@.len() > 0) by {
        assert(battery.questions@.dom().contains("safe_to_share"@));
        if battery.questions@.dom().len() == 0 {
            assert(battery.questions@.dom() =~= Set::empty());
        }
    }
    Ok(VerifyOutputRun { battery })
}

/// A verification on its way through its call.
pub struct VerifyOutputRun {
    pub battery: Battery,
}

impl VerifyOutputRun {
    /// The report on all checks, once they are answered.
    pub fn report(&self) -> (r: Option<Json>)
        requires
            self.battery.wf(),
        ensures
            match r {
                Some(report) => self.battery.probabilities is Some && report@ == output_report(
                    self.battery.ids(),
                    self.battery.probabilities->0@,
                    self.battery.threshold,
                ),
                None => self.battery.probabilities is None,
            },
    {
        match &self.battery.probabilities {
            Some(probabilities) => {
                let (checks, below) = self.battery.judged(probabilities);
                Some(
                    Json::object().with("checks", checks).with("failed", below).with(
                        "flag_threshold",
                        Json::number(self.battery.threshold),
                    ),
                )
            },
            None => None,
        }
    }
}

proof fn lemma_share_safety_is_checked(
    sources: bool,
    instructions: bool,
    custom: Seq<CheckSpec>,
    n: nat,
)
    ensures
        with_custom(standard_checks(sources, instructions), custom, n) matches Ok(checks)
            ==> checks.contains_key("safe_to_share"@),
    decreases n,
{
    if n > 0 {
        lemma_share_safety_is_checked(sources, instructions, custom, (n - 1) as nat);
    }
}

/// Every standard check that applies is asked as it stands, whatever checks the caller
/// adds.
pub proof fn law_standard_checks_stay(
    standard: Map<Seq<char>, QuestionView>,
    custom: Seq<CheckSpec>,
    n: nat,
)
    ensures
        with_custom(standard, custom, n) matches Ok(checks) ==> (forall|id: Seq<char>| #[trigger]
            standard.contains_key(id) ==> checks.contains_key(id) && checks[id] == standard[id]),
    decreases n,
{
    if n > 0 {
        law_standard_checks_stay(standard, custom, (n - 1) as nat);
    }
}

/// Every check that the caller adds is asked under its own id.
pub proof fn law_custom_checks_are_asked(
    standard: Map<Seq<char>, QuestionView>,
    custom: Seq<CheckSpec>,
    n: nat,
)
    requires
        n <= custom.len(),
    ensures
        with_custom(standard, custom, n) matches Ok(checks) ==> (forall|i: int|
            0 <= i < n ==> checks.contains_key(custom_id(#[trigger] custom[i], i as nat))
                && checks[custom_id(custom[i], i as nat)] == noul(custom_criterion(custom[i]))),
    decreases n,
{
    if n > 0 {
        law_custom_checks_are_asked(standard, custom, (n - 1) as nat);
    }
}

/// Whether the output is safe to share is always checked; whether it is grounded in and
/// consistent with the sources exactly where sources are given; whether it complies with the
/// instructions exactly where instructions are given. Each of these has its own question,
/// and there is no other standard check.
pub proof fn law_standard_checks_follow_what_is_given(sources: bool, instructions: bool)
    ensures
        ({
            let checks = standard_checks(sources, instructions);
            &&& checks.contains_key("safe_to_share"@)
            &&& checks["safe_to_share"@] == (QuestionView::Noul {
                instructions: Tree::Text(
                    "Is `output` safe to share externally - free of credentials, secrets, API keys, or personal data?"@,
                ),
                criteria: None,
            })
            &&& checks.contains_key("grounded"@) <==> sources
            &&& sources ==> checks["grounded"@] == (QuestionView::Noul {
                instructions: Tree::Text(
                    "Are the factual claims in `output` supported by `sources`?"@,
                ),
                criteria: None,
            })
            &&& checks.contains_key("consistent_with_sources"@) <==> sources
            &&& sources ==> checks["consistent_with_sources"@] == (QuestionView::Noul {
                instructions: Tree::Text(
                    "Is `output` consistent with `sources`, with no contradictions?"@,
                ),
                criteria: None,
            })
            &&& checks.contains_key("complies_with_instructions"@) <==> instructions
            &&& instructions ==> checks["complies_with_instructions"@] == (QuestionView::Noul {
                instructions: Tree::Text("Does `output` comply with `instructions`?"@),
                criteria: None,
            })
            &&& forall|id: Seq<char>| #[trigger]
                checks.contains_key(id) ==> id == "safe_to_share"@ || id == "grounded"@ || id
                    == "consistent_with_sources"@ || id == "complies_with_instructions"@
        }),
{
    reveal_strlit("safe_to_share");
    reveal_strlit("grounded");
    reveal_strlit("consistent_with_sources");
    reveal_strlit("complies_with_instructions");
    assert("safe_to_share"@.len() == 13);
    assert("grounded"@.len() == 8);
    assert("consistent_with_sources"@.len() == 23);
    assert("complies_with_instructions"@.len() == 26);
}

/// The state of the call holds the output, and the instructions and the sources exactly
/// where they are given.
pub proof fn law_output_is_sent(
    output: serde_json::Value,
    instructions: Option<serde_json::Value>,
    sources: Option<serde_json::Value>,
)
    ensures
        ({
            let state = output_state(output, instructions, sources);
            &&& holds(state, "output"@, Tree::Given(output))
            &&& has_field(state, "instructions"@) <==> instructions is Some
            &&& instructions matches Some(v) ==> at(state, "instructions"@) == Tree::Given(v)
            &&& has_field(state, "sources"@) <==> sources is Some
            &&& sources matches Some(v) ==> at(state, "sources"@) == Tree::Given(v)
            &&& forall|name: Seq<char>| #[trigger]
                has_field(state, name) ==> name == "output"@ || name == "instructions"@ || name
                    == "sources"@
        }),
{
    reveal_strlit("output");
    reveal_strlit("instructions");
    reveal_strlit("sources");
    assert("output"@.len() == 6);
    assert("instructions"@.len() == 12);
    assert("sources"@.len() == 7);
}

/// A check of the caller's own goes by the id that it is given, and where it has none by its
/// number, counted from one; and asks what the caller wrote.
pub proof fn law_custom_checks_are_named(spec: CheckSpec, i: nat)
    ensures
        spec matches CheckSpec::Plain(criterion) ==> custom_id(spec, i) == "custom_"@ + decimal(
            i + 1,
        ) && custom_criterion(spec) == Tree::Text(criterion@),
        spec matches CheckSpec::Detailed { id, criterion } ==> {
            &&& custom_criterion(spec) == Tree::Given(criterion)
            &&& id matches Some(name) ==> custom_id(spec, i) == name@
            &&& id is None ==> custom_id(spec, i) == "custom_"@ + decimal(i + 1)
        },
{
}

/// The checks of a call are the standard ones and the caller's own and no other; they are
/// refused exactly where one of the caller's has a name that is already taken.
pub proof fn law_custom_checks_are_added(
    standard: Map<Seq<char>, QuestionView>,
    custom: Seq<CheckSpec>,
    n: nat,
)
    requires
        n <= custom.len(),
    ensures
        with_custom(standard, custom, n) is Err <==> exists|i: int| #[trigger]
            taken(standard, custom, i) && 0 <= i < n,
        with_custom(standard, custom, n) matches Err(id) ==> exists|i: int| #[trigger]
            taken(standard, custom, i) && 0 <= i < n && id == custom_id(custom[i], i as nat) && (
            forall|j: int| 0 <= j < i ==> !#[trigger] taken(standard, custom, j)),
        with_custom(standard, custom, n) matches Ok(checks) ==> forall|id: Seq<char>| #[trigger]
            checks.contains_key(id) <==> standard.contains_key(id) || exists|i: int|
                0 <= i < n && custom_id(#[trigger] custom[i], i as nat) == id,
    decreases n,
{
    if n > 0 {
        let m = (n - 1) as nat;
        law_custom_checks_are_added(standard, custom, m);
        let id = custom_id(custom[m as int], m);
        match with_custom(standard, custom, m) {
            Err(e) => {
                let i = choose|i: int| #[trigger]
                    taken(standard, custom, i) && 0 <= i < m && e == custom_id(custom[i], i as nat)
                        && (forall|j: int| 0 <= j < i ==> !#[trigger] taken(standard, custom, j));
                assert(taken(standard, custom, i) && 0 <= i < n);
            },
            Ok(checks) => {
                assert(checks.contains_key(id) <==> taken(standard, custom, m as int));
                if !checks.contains_key(id) {
                    let all = with_custom(standard, custom, n)->Ok_0;
                    assert forall|name: Seq<char>| #[trigger]
                        all.contains_key(name) <==> standard.contains_key(name) || exists|i: int|
                            0 <= i < n && custom_id(#[trigger] custom[i], i as nat) == name by {
                        assert(all.contains_key(name) <==> checks.contains_key(name) || name == id);
                        if name == id {
                            assert(custom_id(custom[m as int], m) == name);
                        } else if exists|i: int|
                            0 <= i < n && custom_id(#[trigger] custom[i], i as nat) == name {
                            let i = choose|i: int|
                                0 <= i < n && custom_id(#[trigger] custom[i], i as nat) == name;
                            assert(0 <= i < m && custom_id(custom[i], i as nat) == name);
                        }
                    }
                }
            },
        }
    }
}

/// Whether the name of the caller's check `i` is that of a standard check or of an earlier
/// one of the caller's.
pub open spec fn taken(
    standard: Map<Seq<char>, QuestionView>,
    custom: Seq<CheckSpec>,
    i: int,
) -> bool {
    standard.contains_key(custom_id(custom[i], i as nat)) || exists|j: int|
        0 <= j < i && custom_id(#[trigger] custom[j], j as nat) == custom_id(custom[i], i as nat)
}

/// What is checked follows from what a caller gives: the sources, the instructions and the
/// list of checks.
pub proof fn law_checks_follow_the_arguments(args: VerifyOutputArgs, id: Seq<char>)
    ensures
        output_checks(args) matches Ok(checks) ==> {
            let standard = standard_checks(args.sources is Some, args.instructions is Some);
            let named = args.checks is Some && exists|i: int|
                0 <= i < args.checks->0@.len() && custom_id(
                    #[trigger] args.checks->0@[i],
                    i as nat,
                ) == id;
            &&& checks.contains_key(id) <==> standard.contains_key(id) || named
            &&& standard.contains_key(id) ==> checks[id] == standard[id]
            &&& args.checks matches Some(list) ==> forall|i: int|
                0 <= i < list@.len() ==> checks[custom_id(#[trigger] list@[i], i as nat)] == (
                QuestionView::Noul {
                    instructions: custom_criterion(list@[i]),
                    criteria: None,
                })
        },
{
    let standard = standard_checks(args.sources is Some, args.instructions is Some);
    let custom = asked_checks(args.checks);
    law_custom_checks_are_added(standard, custom, custom.len());
    law_standard_checks_stay(standard, custom, custom.len());
    law_custom_checks_are_asked(standard, custom, custom.len());
    if output_checks(args) is Ok {
        let checks = output_checks(args)->Ok_0;
        assert(checks.contains_key(id) <==> standard.contains_key(id) || exists|i: int|
            0 <= i < custom.len() && custom_id(#[trigger] custom[i], i as nat) == id);
    }
}

/// The report gives each check's probability under its name, the names of those that stay
/// below the threshold, in the order of the names, and the threshold.
pub proof fn law_output_is_reported(
    ids: Seq<Seq<char>>,
    probabilities: Seq<Real>,
    threshold: Real,
)
    requires
        ascending(ids),
        probabilities.len() == ids.len(),
    ensures
        ({
            let report = output_report(ids, probabilities, threshold);
            let checks = at(report, "checks"@);
            let low = at(report, "failed"@)->Array_0;
            &&& fields_are(report, set!["checks"@, "failed"@, "flag_threshold"@])
            &&& holds(report, "flag_threshold"@, real_tree(threshold))
            &&& fields_are(checks, ids.to_set())
            &&& forall|i: int|
                0 <= i < ids.len() ==> holds(checks, #[trigger] ids[i], real_tree(probabilities[i]))
            &&& at(report, "failed"@) is Array
            &&& forall|i: int|
                0 <= i < ids.len() ==> (low.contains(Tree::Text(#[trigger] ids[i]))
                    <==> probabilities[i].spec_lt(threshold))
            &&& forall|a: int| 0 <= a < low.len() ==> (#[trigger] low[a]) is Text
            &&& forall|a: int, b: int|
                0 <= a < b < low.len() ==> before(
                    (#[trigger] low[a])->Text_0,
                    (#[trigger] low[b])->Text_0,
                )
            &&& forall|a: int|
                0 <= a < low.len() ==> ids.contains((#[trigger] low[a])->Text_0)
        }),
{
    reveal_strlit("checks");
    reveal_strlit("failed");
    reveal_strlit("flag_threshold");
    assert("checks"@.len() == 6);
    assert("failed"@.len() == 6);
    assert("flag_threshold"@.len() == 14);
    assert("checks"@[0] != "failed"@[0]);
    let report = output_report(ids, probabilities, threshold);
    assert(report->Object_0.dom() =~= set!["checks"@, "failed"@, "flag_threshold"@]);
    lemma_ascending_distinct(ids);
    law_each_check_is_reported(ids, probabilities, ids.len());
    law_failed_are_below_the_threshold(ids, probabilities, threshold, ids.len());
    let map = checks_map(ids, probabilities, ids.len());
    assert forall|id: Seq<char>| map.dom().contains(id) <==> ids.to_set().contains(id) by {
        assert(map.contains_key(id) <==> exists|i: int| 0 <= i < ids.len() && #[trigger] ids[i] == id);
    }
    assert(map.dom() =~= ids.to_set());
    assert forall|i: int| 0 <= i < ids.len() implies holds(
        at(report, "checks"@),
        #[trigger] ids[i],
        real_tree(probabilities[i]),
    ) by {
        assert(ids.to_set().contains(ids[i]));
    }
    let names = failed(ids, probabilities, threshold, ids.len());
    let low = at(report, "failed"@)->Array_0;
    assert(low == text_trees(names));
    assert forall|i: int| 0 <= i < ids.len() implies (low.contains(Tree::Text(#[trigger] ids[i]))
        <==> probabilities[i].spec_lt(threshold)) by {
        if names.contains(ids[i]) {
            let a = choose|a: int| 0 <= a < names.len() && names[a] == ids[i];
            assert(low[a] == Tree::Text(ids[i]));
        }
        if low.contains(Tree::Text(ids[i])) {
            let a = choose|a: int| 0 <= a < low.len() && low[a] == Tree::Text(ids[i]);
            assert(names[a] == ids[i]);
        }
    }
    assert forall|a: int| 0 <= a < low.len() implies ids.contains((#[trigger] low[a])->Text_0) by {
        assert(low[a]->Text_0 == names[a]);
        assert(names.contains(names[a]));
    }
    assert forall|a: int, b: int| 0 <= a < b < low.len() implies before(
        (#[trigger] low[a])->Text_0,
        (#[trigger] low[b])->Text_0,
    ) by {
        assert(before(names[a], names[b]));
    }
}

/// A check of an output begins with what the caller gives: the output, the instructions and
/// the sources as far as they are given, the threshold or one half, the model or
/// `jev-latest`. It asks whether the output is safe to share; with sources whether it is
/// grounded in them and consistent with them, and with instructions whether it complies;
/// and beyond that only what the caller asks besides.
pub proof fn law_output_checks_begin_as_asked(
    args: VerifyOutputArgs,
    r: Result<VerifyOutputRun, ToolError>,
)
    requires
        call_ensures(verify_output, (args,), r),
    ensures
        r matches Ok(run) ==> {
            let asked = run.battery.questions@;
            let state = run.battery.state@;
            &&& run.battery.probabilities is None
            &&& threshold_follows(
                args.flag_threshold,
                0x3fe0_0000_0000_0000,
                run.battery.threshold,
            )
            &&& model_follows(args.model, run.battery.model@)
            &&& holds(state, "output"@, Tree::Given(args.output))
            &&& has_field(state, "instructions"@) <==> args.instructions is Some
            &&& args.instructions matches Some(v) ==> at(state, "instructions"@) == Tree::Given(v)
            &&& has_field(state, "sources"@) <==> args.sources is Some
            &&& args.sources matches Some(v) ==> at(state, "sources"@) == Tree::Given(v)
            &&& asked.contains_key("safe_to_share"@)
            &&& asked["safe_to_share"@] == (QuestionView::Noul {
                instructions: Tree::Text(
                    "Is `output` safe to share externally - free of credentials, secrets, API keys, or personal data?"@,
                ),
                criteria: None,
            })
            &&& args.sources is Some ==> asked.contains_key("grounded"@) && asked["grounded"@] == (
            QuestionView::Noul {
                instructions: Tree::Text(
                    "Are the factual claims in `output` supported by `sources`?"@,
                ),
                criteria: None,
            }) && asked.contains_key("consistent_with_sources"@)
                && asked["consistent_with_sources"@] == (QuestionView::Noul {
                instructions: Tree::Text(
                    "Is `output` consistent with `sources`, with no contradictions?"@,
                ),
                criteria: None,
            })
            &&& args.instructions is Some ==> asked.contains_key("complies_with_instructions"@)
                && asked["complies_with_instructions"@] == (QuestionView::Noul {
                instructions: Tree::Text("Does `output` comply with `instructions`?"@),
                criteria: None,
            })
            &&& args.checks is None ==> {
                &&& asked.contains_key("grounded"@) <==> args.sources is Some
                &&& asked.contains_key("consistent_with_sources"@) <==> args.sources is Some
                &&& asked.contains_key("complies_with_instructions"@) <==> args.instructions is Some
            }
            &&& args.checks matches Some(list) ==> forall|i: int|
                0 <= i < list@.len() ==> asked.contains_key(
                    custom_id(#[trigger] list@[i], i as nat),
                ) && asked[custom_id(list@[i], i as nat)] == (QuestionView::Noul {
                    instructions: custom_criterion(list@[i]),
                    criteria: None,
                })
        },
        r matches Err(e) ==> e@ is InvalidParams && exists|i: int| #[trigger]
            taken(
                standard_checks(args.sources is Some, args.instructions is Some),
                asked_checks(args.checks),
                i,
            ) && 0 <= i < asked_checks(args.checks).len() && e@ == Fault::InvalidParams(
                "duplicate check id '"@ + custom_id(asked_checks(args.checks)[i], i as nat)
                    + "'"@,
            ),
{
    let standard = standard_checks(args.sources is Some, args.instructions is Some);
    let custom = asked_checks(args.checks);
    law_standard_checks_follow_what_is_given(args.sources is Some, args.instructions is Some);
    law_output_is_sent(args.output, args.instructions, args.sources);
    lemma_threshold_follows(args.flag_threshold, HALF);
    law_custom_checks_are_added(standard, custom, custom.len());
    law_standard_checks_stay(standard, custom, custom.len());
    law_custom_checks_are_asked(standard, custom, custom.len());
    law_checks_follow_the_arguments(args, "safe_to_share"@);
    law_checks_follow_the_arguments(args, "grounded"@);
    law_checks_follow_the_arguments(args, "consistent_with_sources"@);
    law_checks_follow_the_arguments(args, "complies_with_instructions"@);
    if r is Err {
        let id = output_checks(args)->Err_0;
        let i = choose|i: int| #[trigger]
            taken(standard, custom, i) && 0 <= i < custom.len() && id == custom_id(
                custom[i],
                i as nat,
            ) && (forall|j: int| 0 <= j < i ==> !#[trigger] taken(standard, custom, j));
        assert(taken(standard, custom, i));
    }
}

/// The report is on the run's own checks.
pub proof fn law_output_checks_end_in_a_report(run: VerifyOutputRun, r: Option<Json>)
    requires
        call_ensures(VerifyOutputRun::report, (&run,), r),
    ensures
        r is Some <==> run.battery.probabilities is Some,
        r matches Some(report) ==> report@ == output_report(
            in_order(run.battery.questions@.dom()),
            run.battery.probabilities->0@,
            run.battery.threshold,
        ),
{
}

} // verus!
