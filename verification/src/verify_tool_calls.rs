//! The battery of checks over tool calls that are about to be made.

use crate::checks::{checks_map, failed, Battery};
use crate::document::{text_trees, texts_json};
use crate::error::{invalid_params_error, Fault, ToolError};
use crate::json::{at, fields_are, has_field, holds, real_tree, Json, Tree};
use crate::question::{
    model_follows, model_or_default, noul, noul_q, spec_model, Question, QuestionView,
};
use crate::reals::{
    lemma_threshold_follows, spec_threshold, threshold, threshold_follows, Real, HALF,
};
use crate::table::{ascending, in_order, lemma_walk_step, walks, Table};
use crate::text::{decimal, decimal_text, join3, join5, lemma_numeral_ends, texts};
use crate::verify_output::output_report;
use vstd::prelude::*;
use vstd::string::*;

verus! {

/// A tool call that is about to be made.
pub struct ToolInvocation {
    pub name: String,
    pub arguments: serde_json::Value,
}

/// A tool that can be called.
pub struct ToolDefinition {
    pub description: Option<serde_json::Value>,
    /// The schema of the tool's arguments.
    pub parameters: Option<serde_json::Value>,
}

impl View for ToolDefinition {
    type V = ToolDefinition;

    open spec fn view(&self) -> ToolDefinition {
        *self
    }
}

/// What `verify_tool_calls` takes.
pub struct VerifyToolCallsArgs {
    pub request: String,
    pub calls: Vec<ToolInvocation>,
    pub tools: Table<ToolDefinition>,
    pub flag_threshold: Option<Real>,
    pub model: Option<String>,
}

/// How a call stands in the state.
pub open spec fn invocation_tree(call: ToolInvocation) -> Tree {
    Tree::Object(
        map!["name"@ => Tree::Text(call.name@), "arguments"@ => Tree::Given(call.arguments)],
    )
}

/// How calls stand in the state.
pub open spec fn invocation_trees(calls: Seq<ToolInvocation>) -> Seq<Tree> {
    calls.map_values(|c: ToolInvocation| invocation_tree(c))
}

/// How a tool stands in the state; what it does not say is left out.
pub open spec fn definition_tree(tool: ToolDefinition) -> Tree {
    let described = match tool.description {
        Some(v) => map!["description"@ => Tree::Given(v)],
        None => Map::empty(),
    };
    Tree::Object(
        match tool.parameters {
            Some(v) => described.insert("parameters"@, Tree::Given(v)),
            None => described,
        },
    )
}

/// The state that the checks are about.
pub open spec fn calls_state(
    request: Seq<char>,
    calls: Seq<ToolInvocation>,
    tools: Map<Seq<char>, ToolDefinition>,
) -> Tree {
    Tree::Object(
        map![
            "request"@ => Tree::Text(request),
            "calls"@ => Tree::Array(invocation_trees(calls)),
            "tools"@ => Tree::Object(
                tools.map_values(|t: ToolDefinition| definition_tree(t)),
            ),
        ],
    )
}

/// The id of the check whether the call `i` suits the request.
pub open spec fn relevant_id(i: nat) -> Seq<char> {
    "call_"@ + decimal(i) + "_relevant"@
}

/// The id of the check whether the arguments of the call `i` conform.
pub open spec fn conform_id(i: nat) -> Seq<char> {
    "call_"@ + decimal(i) + "_arguments_conform"@
}

/// The check whether the call `i` suits the request.
pub open spec fn relevant_question(i: nat) -> QuestionView {
    noul(
        Tree::Text(
            "Is `calls["@ + decimal(i)
                + "].name` an appropriate tool to make progress on `request`?"@,
        ),
    )
}

/// The check whether the arguments of the call `i` conform to the schema of the tool.
pub open spec fn conform_question(i: nat, name: Seq<char>) -> QuestionView {
    noul(
        Tree::Text(
            "Do `calls["@ + decimal(i) + "].arguments` conform to the parameter schema `tools."@
                + name + ".parameters`?"@,
        ),
    )
}

/// Whether the tool `name` says what its arguments must be.
pub open spec fn has_schema(tools: Map<Seq<char>, ToolDefinition>, name: Seq<char>) -> bool {
    tools.contains_key(name) && tools[name].parameters is Some
}

/// The checks over the first `n` calls: whether each known tool suits, and whether the
/// arguments conform where there is a schema.
pub open spec fn call_checks(
    calls: Seq<ToolInvocation>,
    tools: Map<Seq<char>, ToolDefinition>,
    n: nat,
) -> Map<Seq<char>, QuestionView>
    decreases n,
{
    if n == 0 {
        Map::empty()
    } else {
        let i = (n - 1) as nat;
        let name = calls[i as int].name@;
        let before = call_checks(calls, tools, i);
        if !tools.contains_key(name) {
            before
        } else if has_schema(tools, name) {
            before.insert(relevant_id(i), relevant_question(i)).insert(
                conform_id(i),
                conform_question(i, name),
            )
        } else {
            before.insert(relevant_id(i), relevant_question(i))
        }
    }
}

/// What the call `i` is warned of, if anything.
pub open spec fn call_warning(
    tools: Map<Seq<char>, ToolDefinition>,
    name: Seq<char>,
    i: nat,
) -> Option<Seq<char>> {
    if !tools.contains_key(name) {
        Some(
            "call_"@ + decimal(i) + ": unknown tool '"@ + name + "' (not present in `tools`)"@,
        )
    } else if has_schema(tools, name) {
        None
    } else {
        Some(
            "call_"@ + decimal(i) + ": tool '"@ + name
                + "' has no parameters schema; argument conformance not checked"@,
        )
    }
}

/// What the first `n` calls are warned of, in their order.
pub open spec fn call_warnings(
    calls: Seq<ToolInvocation>,
    tools: Map<Seq<char>, ToolDefinition>,
    n: nat,
) -> Seq<Seq<char>>
    decreases n,
{
    if n == 0 {
        Seq::empty()
    } else {
        let before = call_warnings(calls, tools, (n - 1) as nat);
        match call_warning(tools, calls[n - 1].name@, (n - 1) as nat) {
            Some(warning) => before.push(warning),
            None => before,
        }
    }
}

/// What is reported of the checks.
pub open spec fn calls_report(
    ids: Seq<Seq<char>>,
    probabilities: Seq<Real>,
    threshold: Real,
    warnings: Seq<Seq<char>>,
) -> Tree {
    Tree::Object(
        map![
            "checks"@ => Tree::Object(checks_map(ids, probabilities, ids.len())),
            "failed"@ => Tree::Array(
                text_trees(failed(ids, probabilities, threshold, ids.len())),
            ),
            "warnings"@ => Tree::Array(text_trees(warnings)),
            "flag_threshold"@ => real_tree(threshold),
        ],
    )
}

fn calls_json(calls: &Vec<ToolInvocation>) -> (r: Json)
    ensures
        r@ == Tree::Array(invocation_trees(calls@)),
{
    let ghost all = invocation_trees(calls@);
    let mut r = Json::array();
    let mut i: usize = 0;
    assert(all.take(0) =~= Seq::empty());
    while i < calls.len()
        invariant
            i <= calls@.len(),
            all == invocation_trees(calls@),
            r@ is Array,
            r@->Array_0 == all.take(i as int),
        decreases calls.len() - i,
    {
        r = r.followed_by(
            Json::object().with("name", Json::text(&calls[i].name)).with(
                "arguments",
                Json::Given(calls[i].arguments.clone()),
            ),
        );
        assert(all.take(i + 1) =~= all.take(i as int).push(invocation_tree(calls@[i as int])));
        i = i + 1;
    }
    assert(all.take(i as int) =~= all);
    r
}

fn definition_json(tool: &ToolDefinition) -> (r: Json)
    ensures
        r@ == definition_tree(*tool),
{
    let mut r = Json::object();
    if let Some(description) = &tool.description {
        r = r.with("description", Json::Given(description.clone()));
    }
    if let Some(parameters) = &tool.parameters {
        r = r.with("parameters", Json::Given(parameters.clone()));
    }
    r
}

fn tools_json(tools: &Table<ToolDefinition>) -> (r: Json)
    ensures
        r@ == Tree::Object(tools@.map_values(|t: ToolDefinition| definition_tree(t))),
{
    let n = tools.len();
    let mut r = Json::object();
    let mut i: usize = 0;
    while i < n
        invariant
            i <= n,
            n == tools.keys().len(),
            walks(tools),
            r@ is Object,
            forall|k: Seq<char>| #[trigger]
                r@->Object_0.contains_key(k) <==> tools.keys().take(i as int).contains(k),
            forall|k: Seq<char>| #[trigger]
                r@->Object_0.contains_key(k) ==> r@->Object_0[k] == definition_tree(tools@[k]),
        decreases n - i,
    {
        r = r.with(tools.key_at(i), definition_json(tools.value_at(i)));
        proof {
            lemma_walk_step(tools.keys(), i as int);
            assert(tools@[tools.keys()[i as int]] == tools.values()[i as int]@);
        }
        i = i + 1;
    }
    proof {
        assert(tools.keys().take(i as int) =~= tools.keys());
        assert(r@->Object_0 =~= tools@.map_values(|t: ToolDefinition| definition_tree(t)));
    }
    r
}

/// Begins to verify tool calls: refuses an empty list before anything is asked. Calls
/// about which nothing can be asked leave nothing to ask.
pub fn verify_tool_calls(args: VerifyToolCallsArgs) -> (r: Result<VerifyToolCallsRun, ToolError>)
    ensures
        match r {
            Ok(run) => {
                &&& args.calls@.len() > 0
                &&& run.battery.wf()
                &&& run.battery.questions@ == call_checks(
                    args.calls@,
                    args.tools@,
                    args.calls@.len(),
                )
                &&& run.battery.probabilities is Some <==> run.battery.questions@.len() == 0
                &&& run.battery.state@ == calls_state(args.request@, args.calls@, args.tools@)
                &&& run.battery.threshold == spec_threshold(args.flag_threshold, HALF)
                &&& run.battery.model@ == spec_model(args.model)
                &&& texts(run.warnings@) == call_warnings(
                    args.calls@,
                    args.tools@,
                    args.calls@.len(),
                )
            },
            Err(e) => args.calls@.len() == 0 && e@ == Fault::InvalidParams(
                "'calls' must contain at least one tool call"@,
            ),
        },
{
    if args.calls.len() == 0 {
        return Err(
            invalid_params_error("'calls' must contain at least one tool call".to_string()),
        );
    }
    let threshold = threshold(args.flag_threshold, HALF);
    let model = model_or_default(args.model);
    let mut questions: Table<Question> = Table::new();
    let mut warnings: Vec<String> = Vec::new();
    let mut i: usize = 0;
    assert(texts(warnings@) =~= Seq::empty());
    while i < args.calls.len()
        invariant
            i <= args.calls@.len(),
            questions@ == call_checks(args.calls@, args.tools@, i as nat),
            texts(warnings@) == call_warnings(args.calls@, args.tools@, i as nat),
        decreases args.calls.len() - i,
    {
        let number = decimal_text(i as u64);
        let name = &args.calls[i].name;
        let ghost was = warnings@;
        match args.tools.get(name) {
            Some(tool) => {
                questions.insert(
                    join3("call_", &number, "_relevant"),
                    noul_q(
                        &join3(
                            "Is `calls[",
                            &number,
                            "].name` an appropriate tool to make progress on `request`?",
                        ),
                    ),
                );
                if tool.parameters.is_some() {
                    questions.insert(
                        join3("call_", &number, "_arguments_conform"),
                        noul_q(
                            &join5(
                                "Do `calls[",
                                &number,
                                "].arguments` conform to the parameter schema `tools.",
                                name,
                                ".parameters`?",
                            ),
                        ),
                    );
                } else {
                    let warning = join5(
                        "call_",
                        &number,
                        ": tool '",
                        name,
                        "' has no parameters schema; argument conformance not checked",
                    );
                    assert(texts(was.push(warning)) =~= texts(was).push(warning@));
                    warnings.push(warning);
                }
            },
            None => {
                let warning = join5(
                    "call_",
                    &number,
                    ": unknown tool '",
                    name,
                    "' (not present in `tools`)",
                );
                assert(texts(was.push(warning)) =~= texts(was).push(warning@));
                warnings.push(warning);
            },
        }
        i = i + 1;
    }
    let state = Json::object().with("request", Json::text(&args.request)).with(
        "calls",
        calls_json(&args.calls),
    ).with("tools", tools_json(&args.tools));
    Ok(
        VerifyToolCallsRun {
            battery: Battery::new(state, questions, threshold, model),
            warnings,
        },
    )
}

/// A verification on its way through its call.
pub struct VerifyToolCallsRun {
    pub battery: Battery,
    pub warnings: Vec<String>,
}

impl VerifyToolCallsRun {
    /// The report on all checks, once they are answered.
    pub fn report(&self) -> (r: Option<Json>)
        requires
            self.battery.wf(),
        ensures
            match r {
                Some(report) => self.battery.probabilities is Some && report@ == calls_report(
                    self.battery.ids(),
                    self.battery.probabilities->0@,
                    self.battery.threshold,
                    texts(self.warnings@),
                ),
                None => self.battery.probabilities is None,
            },
    {
        match &self.battery.probabilities {
            Some(probabilities) => {
                let (checks, below) = self.battery.judged(probabilities);
                Some(
                    Json::object().with("checks", checks).with("failed", below).with(
                        "warnings",
                        texts_json(&self.warnings),
                    ).with("flag_threshold", Json::number(self.battery.threshold)),
                )
            },
            None => None,
        }
    }
}

/// The ids of the checks over different calls, and of the two checks over one call, are
/// all different.
proof fn lemma_check_ids(i: nat, j: nat)
    ensures
        relevant_id(i) == relevant_id(j) ==> i == j,
        conform_id(i) == conform_id(j) ==> i == j,
        relevant_id(i) != conform_id(j),
{
    reveal_strlit("call_");
    reveal_strlit("_relevant");
    reveal_strlit("_arguments_conform");
    let a = "_relevant"@;
    let b = "_arguments_conform"@;
    assert(a[0] == '_' && b[0] == '_' && a.len() == 9 && b.len() == 18);
    assert(relevant_id(i).skip(5) =~= decimal(i) + a);
    assert(relevant_id(j).skip(5) =~= decimal(j) + a);
    assert(conform_id(i).skip(5) =~= decimal(i) + b);
    assert(conform_id(j).skip(5) =~= decimal(j) + b);
    if relevant_id(i) == relevant_id(j) {
        lemma_numeral_ends(i, j, a, a);
    }
    if conform_id(i) == conform_id(j) {
        lemma_numeral_ends(i, j, b, b);
    }
    if relevant_id(i) == conform_id(j) {
        lemma_numeral_ends(i, j, a, b);
    }
}

/// Each call is checked as far as its tool is known: whether it suits exactly where the
/// tool is known, and whether the arguments conform exactly where the tool has a schema.
pub proof fn law_each_call_is_checked(
    calls: Seq<ToolInvocation>,
    tools: Map<Seq<char>, ToolDefinition>,
    n: nat,
)
    requires
        n <= calls.len(),
    ensures
        forall|i: int|
            0 <= i < n ==> {
                let checks = call_checks(calls, tools, n);
                let name = (#[trigger] calls[i]).name@;
                &&& checks.contains_key(relevant_id(i as nat)) <==> tools.contains_key(name)
                &&& tools.contains_key(name) ==> checks[relevant_id(i as nat)]
                    == relevant_question(i as nat)
                &&& checks.contains_key(conform_id(i as nat)) <==> has_schema(tools, name)
                &&& has_schema(tools, name) ==> checks[conform_id(i as nat)] == conform_question(
                    i as nat,
                    name,
                )
            },
        forall|id: Seq<char>| #[trigger]
            call_checks(calls, tools, n).contains_key(id) ==> exists|i: int|
                0 <= i < n && tools.contains_key((#[trigger] calls[i]).name@) && (id
                    == relevant_id(i as nat) || id == conform_id(i as nat)),
    decreases n,
{
    if n > 0 {
        let m = (n - 1) as nat;
        let was = call_checks(calls, tools, m);
        let now = call_checks(calls, tools, n);
        law_each_call_is_checked(calls, tools, m);
        lemma_check_ids(m, m);
        assert(!was.contains_key(relevant_id(m)) && !was.contains_key(conform_id(m))) by {
            if was.contains_key(relevant_id(m)) {
                let i = choose|i: int|
                    0 <= i < m && tools.contains_key((#[trigger] calls[i]).name@) && (relevant_id(m)
                        == relevant_id(i as nat) || relevant_id(m) == conform_id(i as nat));
                lemma_check_ids(i as nat, m);
                lemma_check_ids(m, i as nat);
            }
            if was.contains_key(conform_id(m)) {
                let i = choose|i: int|
                    0 <= i < m && tools.contains_key((#[trigger] calls[i]).name@) && (conform_id(m)
                        == relevant_id(i as nat) || conform_id(m) == conform_id(i as nat));
                lemma_check_ids(i as nat, m);
                lemma_check_ids(m, i as nat);
            }
        }
        assert forall|i: int| 0 <= i < n implies {
            let name = (#[trigger] calls[i]).name@;
            &&& now.contains_key(relevant_id(i as nat)) <==> tools.contains_key(name)
            &&& tools.contains_key(name) ==> now[relevant_id(i as nat)] == relevant_question(
                i as nat,
            )
            &&& now.contains_key(conform_id(i as nat)) <==> has_schema(tools, name)
            &&& has_schema(tools, name) ==> now[conform_id(i as nat)] == conform_question(
                i as nat,
                name,
            )
        } by {
            if i < m {
                lemma_check_ids(i as nat, m);
                lemma_check_ids(m, i as nat);
            }
        }
        assert forall|id: Seq<char>| #[trigger] now.contains_key(id) implies exists|i: int|
            0 <= i < n && tools.contains_key((#[trigger] calls[i]).name@) && (id == relevant_id(
                i as nat,
            ) || id == conform_id(i as nat)) by {
            if was.contains_key(id) {
                let i = choose|i: int|
                    0 <= i < m && tools.contains_key((#[trigger] calls[i]).name@) && (id
                        == relevant_id(i as nat) || id == conform_id(i as nat));
                assert(0 <= i < n && tools.contains_key(calls[i].name@));
            } else {
                assert(tools.contains_key(calls[m as int].name@));
            }
        }
    }
}

/// A call is warned of exactly where it is not checked in full: an unknown tool, or a tool
/// without a schema.
pub proof fn law_warned_where_not_checked(
    calls: Seq<ToolInvocation>,
    tools: Map<Seq<char>, ToolDefinition>,
    n: nat,
)
    requires
        n <= calls.len(),
    ensures
        forall|i: int|
            0 <= i < n && !has_schema(tools, (#[trigger] calls[i]).name@) ==> call_warning(
                tools,
                calls[i].name@,
                i as nat,
            ) is Some && call_warnings(calls, tools, n).contains(
                call_warning(tools, calls[i].name@, i as nat)->0,
            ),
        forall|w: Seq<char>| #[trigger]
            call_warnings(calls, tools, n).contains(w) ==> exists|i: int|
                0 <= i < n && !has_schema(tools, (#[trigger] calls[i]).name@) && call_warning(
                    tools,
                    calls[i].name@,
                    i as nat,
                ) == Some(w),
    decreases n,
{
    if n > 0 {
        let m = (n - 1) as nat;
        let was = call_warnings(calls, tools, m);
        let now = call_warnings(calls, tools, n);
        law_warned_where_not_checked(calls, tools, m);
        assert forall|w: Seq<char>| #[trigger] was.contains(w) implies now.contains(w) by {
            let a = was.index_of(w);
            assert(now[a] == w);
        }
        let warning = call_warning(tools, calls[m as int].name@, m);
        if warning is Some {
            assert(now[now.len() - 1] == warning->0);
        }
        assert forall|w: Seq<char>| #[trigger] now.contains(w) implies exists|i: int|
            0 <= i < n && !has_schema(tools, (#[trigger] calls[i]).name@) && call_warning(
                tools,
                calls[i].name@,
                i as nat,
            ) == Some(w) by {
            let a = now.index_of(w);
            if a < was.len() {
                assert(was[a] == w);
                assert(was.contains(w));
                let i = choose|i: int|
                    0 <= i < m && !has_schema(tools, (#[trigger] calls[i]).name@) && call_warning(
                        tools,
                        calls[i].name@,
                        i as nat,
                    ) == Some(w);
                assert(0 <= i < n && !has_schema(tools, calls[i].name@));
            } else {
                assert(!has_schema(tools, calls[m as int].name@));
            }
        }
    }
}

/// The state of the call holds the request, each call at its place with its name and
/// arguments, and each tool under its name with its description and its parameters exactly
/// where it has them.
pub proof fn law_tool_calls_are_sent(
    request: Seq<char>,
    calls: Seq<ToolInvocation>,
    tools: Map<Seq<char>, ToolDefinition>,
)
    ensures
        ({
            let state = calls_state(request, calls, tools);
            let sent = at(state, "calls"@)->Array_0;
            let known = at(state, "tools"@);
            &&& fields_are(state, set!["request"@, "calls"@, "tools"@])
            &&& holds(state, "request"@, Tree::Text(request))
            &&& at(state, "calls"@) is Array
            &&& sent.len() == calls.len()
            &&& forall|i: int|
                0 <= i < calls.len() ==> fields_are(
                    #[trigger] sent[i],
                    set!["name"@, "arguments"@],
                ) && holds(sent[i], "name"@, Tree::Text(calls[i].name@)) && holds(
                    sent[i],
                    "arguments"@,
                    Tree::Given(calls[i].arguments),
                )
            &&& fields_are(known, tools.dom())
            &&& forall|name: Seq<char>| #[trigger]
                tools.contains_key(name) ==> tells_of(at(known, name), tools[name])
        }),
{
    reveal_strlit("request");
    reveal_strlit("calls");
    reveal_strlit("tools");
    reveal_strlit("name");
    reveal_strlit("arguments");
    reveal_strlit("description");
    reveal_strlit("parameters");
    assert("request"@.len() == 7);
    assert("calls"@.len() == 5);
    assert("tools"@.len() == 5);
    assert("name"@.len() == 4);
    assert("arguments"@.len() == 9);
    assert("description"@.len() == 11);
    assert("parameters"@.len() == 10);
    assert("calls"@[0] != "tools"@[0]);
    let state = calls_state(request, calls, tools);
    assert(state->Object_0.dom() =~= set!["request"@, "calls"@, "tools"@]);
    let sent = at(state, "calls"@)->Array_0;
    assert forall|i: int| 0 <= i < calls.len() implies fields_are(
        #[trigger] sent[i],
        set!["name"@, "arguments"@],
    ) && holds(sent[i], "name"@, Tree::Text(calls[i].name@)) && holds(
        sent[i],
        "arguments"@,
        Tree::Given(calls[i].arguments),
    ) by {
        assert(sent[i] == invocation_tree(calls[i]));
        assert(sent[i]->Object_0.dom() =~= set!["name"@, "arguments"@]);
    }
    let known = at(state, "tools"@);
    assert(known->Object_0.dom() =~= tools.dom());
    assert forall|name: Seq<char>| #[trigger] tools.contains_key(name) implies tells_of(
        at(known, name),
        tools[name],
    ) by {
        assert(at(known, name) == definition_tree(tools[name]));
    }
}

/// Whether a document tells of a tool: of its description and its parameters exactly where
/// it has them, and of nothing else.
pub open spec fn tells_of(document: Tree, tool: ToolDefinition) -> bool {
    &&& document is Object
    &&& has_field(document, "description"@) <==> tool.description is Some
    &&& tool.description matches Some(v) ==> at(document, "description"@) == Tree::Given(v)
    &&& has_field(document, "parameters"@) <==> tool.parameters is Some
    &&& tool.parameters matches Some(v) ==> at(document, "parameters"@) == Tree::Given(v)
    &&& forall|name: Seq<char>| #[trigger]
        has_field(document, name) ==> name == "description"@ || name == "parameters"@
}

/// Of each call of a tool that is known it is asked whether the tool is right, and, exactly
/// where the tool has a schema, whether the arguments keep to it; of a call of a tool that is
/// not known nothing is asked.
pub proof fn law_tool_calls_are_asked_about(
    calls: Seq<ToolInvocation>,
    tools: Map<Seq<char>, ToolDefinition>,
    i: int,
)
    requires
        0 <= i < calls.len(),
    ensures
        ({
            let checks = call_checks(calls, tools, calls.len());
            let name = calls[i].name@;
            let number = decimal(i as nat);
            let right = "call_"@ + number + "_relevant"@;
            let kept = "call_"@ + number + "_arguments_conform"@;
            let schema = tools.contains_key(name) && tools[name].parameters is Some;
            &&& checks.contains_key(right) <==> tools.contains_key(name)
            &&& tools.contains_key(name) ==> checks[right] == (QuestionView::Noul {
                instructions: Tree::Text(
                    "Is `calls["@ + number
                        + "].name` an appropriate tool to make progress on `request`?"@,
                ),
                criteria: None,
            })
            &&& checks.contains_key(kept) <==> schema
            &&& schema ==> checks[kept] == (QuestionView::Noul {
                instructions: Tree::Text(
                    "Do `calls["@ + number
                        + "].arguments` conform to the parameter schema `tools."@ + name
                        + ".parameters`?"@,
                ),
                criteria: None,
            })
        }),
{
    law_each_call_is_checked(calls, tools, calls.len());
    assert(relevant_id(i as nat) == "call_"@ + decimal(i as nat) + "_relevant"@);
    assert(conform_id(i as nat) == "call_"@ + decimal(i as nat) + "_arguments_conform"@);
}

/// Each call whose arguments are not checked is warned of once, in the order of the calls:
/// of a tool that is not known, or of one without a schema.
pub proof fn law_warnings_come_in_turn(
    calls: Seq<ToolInvocation>,
    tools: Map<Seq<char>, ToolDefinition>,
    n: nat,
)
    requires
        n <= calls.len(),
    ensures
        call_warnings(calls, tools, n).len() == calls.take(n as int).filter(unchecked(tools)).len(),
        forall|i: int|
            0 <= i < n && unchecked(tools)(#[trigger] calls[i]) ==> {
                let place = calls.take(i).filter(unchecked(tools)).len() as int;
                let name = calls[i].name@;
                &&& place < call_warnings(calls, tools, n).len()
                &&& !tools.contains_key(name) ==> call_warnings(calls, tools, n)[place] == "call_"@
                    + decimal(i as nat) + ": unknown tool '"@ + name
                    + "' (not present in `tools`)"@
                &&& tools.contains_key(name) ==> call_warnings(calls, tools, n)[place] == "call_"@
                    + decimal(i as nat) + ": tool '"@ + name
                    + "' has no parameters schema; argument conformance not checked"@
            },
    decreases n,
{
    reveal(Seq::filter);
    if n > 0 {
        law_warnings_come_in_turn(calls, tools, (n - 1) as nat);
        assert(calls.take(n as int).drop_last() =~= calls.take(n - 1));
        assert(calls.take(n as int).last() == calls[n - 1]);
        let before = call_warnings(calls, tools, (n - 1) as nat);
        let all = call_warnings(calls, tools, n);
        assert(forall|a: int| 0 <= a < before.len() ==> #[trigger] all[a] == before[a]);
        assert(unchecked(tools)(calls[n - 1]) <==> call_warning(
            tools,
            calls[n - 1].name@,
            (n - 1) as nat,
        ) is Some);
        assert forall|i: int| 0 <= i < n && unchecked(tools)(#[trigger] calls[i]) implies {
            let place = calls.take(i).filter(unchecked(tools)).len() as int;
            let name = calls[i].name@;
            &&& place < all.len()
            &&& !tools.contains_key(name) ==> all[place] == "call_"@ + decimal(i as nat)
                + ": unknown tool '"@ + name + "' (not present in `tools`)"@
            &&& tools.contains_key(name) ==> all[place] == "call_"@ + decimal(i as nat)
                + ": tool '"@ + name
                + "' has no parameters schema; argument conformance not checked"@
        } by {
            let place = calls.take(i).filter(unchecked(tools)).len() as int;
            if i < n - 1 {
                assert(place < before.len());
                assert(all[place] == before[place]);
            } else {
                assert(place == before.len());
            }
        }
    }
}

/// Which calls have arguments that are not checked: those of a tool that is not known or
/// has no schema.
pub open spec fn unchecked(tools: Map<Seq<char>, ToolDefinition>) -> spec_fn(
    ToolInvocation,
) -> bool {
    |call: ToolInvocation|
        !tools.contains_key(call.name@) || tools[call.name@].parameters is None
}

/// The report gives each check's probability under its name, the names of those that stay
/// below the threshold, in the order of the names, the warnings in their order, and the
/// threshold.
pub proof fn law_tool_calls_are_reported(
    ids: Seq<Seq<char>>,
    probabilities: Seq<Real>,
    threshold: Real,
    warnings: Seq<Seq<char>>,
)
    requires
        ascending(ids),
        probabilities.len() == ids.len(),
    ensures
        ({
            let report = calls_report(ids, probabilities, threshold, warnings);
            let output = output_report(ids, probabilities, threshold);
            let warned = at(report, "warnings"@)->Array_0;
            &&& fields_are(report, set!["checks"@, "failed"@, "warnings"@, "flag_threshold"@])
            &&& at(report, "checks"@) == at(output, "checks"@)
            &&& at(report, "failed"@) == at(output, "failed"@)
            &&& at(report, "flag_threshold"@) == at(output, "flag_threshold"@)
            &&& at(report, "warnings"@) is Array
            &&& warned.len() == warnings.len()
            &&& forall|w: int|
                0 <= w < warnings.len() ==> #[trigger] warned[w] == Tree::Text(warnings[w])
        }),
{
    reveal_strlit("checks");
    reveal_strlit("failed");
    reveal_strlit("warnings");
    reveal_strlit("flag_threshold");
    assert("checks"@.len() == 6);
    assert("failed"@.len() == 6);
    assert("warnings"@.len() == 8);
    assert("flag_threshold"@.len() == 14);
    assert("checks"@[0] != "failed"@[0]);
    let report = calls_report(ids, probabilities, threshold, warnings);
    assert(report->Object_0.dom()
        =~= set!["checks"@, "failed"@, "warnings"@, "flag_threshold"@]);
}

/// A check of tool calls begins with what the caller gives: the request, the calls, the
/// tools, the threshold or one half, the model or `jev-latest`. What is asked and what is
/// warned of follows from the calls and the tools.
pub proof fn law_tool_call_checks_begin_as_asked(
    args: VerifyToolCallsArgs,
    r: Result<VerifyToolCallsRun, ToolError>,
)
    requires
        call_ensures(verify_tool_calls, (args,), r),
    ensures
        r is Ok <==> args.calls@.len() > 0,
        r matches Ok(run) ==> {
            &&& threshold_follows(
                args.flag_threshold,
                0x3fe0_0000_0000_0000,
                run.battery.threshold,
            )
            &&& model_follows(args.model, run.battery.model@)
            &&& run.battery.state@ == calls_state(args.request@, args.calls@, args.tools@)
            &&& forall|i: int|
                0 <= i < args.calls@.len() ==> {
                    let name = (#[trigger] args.calls@[i]).name@;
                    let known = args.tools@.contains_key(name);
                    let asked = run.battery.questions@;
                    &&& asked.contains_key("call_"@ + decimal(i as nat) + "_relevant"@) <==> known
                    &&& asked.contains_key(
                        "call_"@ + decimal(i as nat) + "_arguments_conform"@,
                    ) <==> known && args.tools@[name].parameters is Some
                }
            &&& run.warnings@.len() == args.calls@.filter(unchecked(args.tools@)).len()
            &&& texts(run.warnings@) == call_warnings(args.calls@, args.tools@, args.calls@.len())
        },
        r matches Err(e) ==> e@ == Fault::InvalidParams(
            "'calls' must contain at least one tool call"@,
        ),
{
    lemma_threshold_follows(args.flag_threshold, HALF);
    if r is Ok {
        let calls = args.calls@;
        law_warnings_come_in_turn(calls, args.tools@, calls.len());
        assert(calls.take(calls.len() as int) =~= calls);
        assert(texts(r->Ok_0.warnings@).len() == r->Ok_0.warnings@.len());
        assert forall|i: int| 0 <= i < calls.len() implies {
            let name = (#[trigger] args.calls@[i]).name@;
            let known = args.tools@.contains_key(name);
            let asked = r->Ok_0.battery.questions@;
            &&& asked.contains_key("call_"@ + decimal(i as nat) + "_relevant"@) <==> known
            &&& asked.contains_key("call_"@ + decimal(i as nat) + "_arguments_conform"@) <==> known
                && args.tools@[name].parameters is Some
        } by {
            law_tool_calls_are_asked_about(calls, args.tools@, i);
        }
    }
}

/// The report is on the run's own checks and warnings.
pub proof fn law_tool_call_checks_end_in_a_report(run: VerifyToolCallsRun, r: Option<Json>)
    requires
        call_ensures(VerifyToolCallsRun::report, (&run,), r),
    ensures
        r is Some <==> run.battery.probabilities is Some,
        r matches Some(report) ==> report@ == calls_report(
            in_order(run.battery.questions@.dom()),
            run.battery.probabilities->0@,
            run.battery.threshold,
            texts(run.warnings@),
        ),
{
}

} // verus!
