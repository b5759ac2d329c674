//! The tools that judge one thing, run against a service that answers by a rule.

use mcp_typesafe::claims::{check_claims, CheckClaimsArgs, ClaimSpec};
use mcp_typesafe::error::ToolError;
use mcp_typesafe::extract::{
    extract_fields, ExtractFieldsArgs, FieldOption, FieldOptionObj, FieldSpec, FieldSpecObj,
};
use mcp_typesafe::json::Json;
use mcp_typesafe::question::{noul_q, NoulCriteria, Question};
use mcp_typesafe::reals::Real;
use mcp_typesafe::selection::{choose_one, Candidate, CandidateSpec, ChooseOneArgs};
use mcp_typesafe::stability::{
    nanos_or_zero, stability_check, tagged, with_sample_token, with_sample_token_at, Averages,
    StabilityCheckArgs,
};
use mcp_typesafe::systemone::{systemone, SystemOneArgs};
use mcp_typesafe::table::Table;
use mcp_typesafe::verify_output::{verify_output, CheckSpec, VerifyOutputArgs};
use mcp_typesafe::verify_tool_calls::{
    verify_tool_calls, ToolDefinition, ToolInvocation, VerifyToolCallsArgs,
};
use serde_json::{Number, Value};

fn parse(text: &str) -> Value {
    serde_json::from_str(text).unwrap()
}

fn real_of(x: f64) -> Real {
    Real { bits: x.to_bits() }
}

fn to_json(v: &Value) -> Json {
    match v {
        Value::Null => Json::Null,
        Value::Bool(b) => Json::Bool(*b),
        Value::Number(n) => match n.as_i128() {
            Some(i) => Json::Integer(i),
            None => Json::Real(real_of(n.as_f64().unwrap())),
        },
        Value::String(s) => Json::Text(s.clone()),
        Value::Array(items) => Json::Array(items.iter().map(to_json).collect()),
        Value::Object(fields) => {
            Json::Object(fields.iter().map(|(k, v)| (k.clone(), to_json(v))).collect())
        }
    }
}

fn to_value(j: &Json) -> Value {
    match j {
        Json::Null => Value::Null,
        Json::Bool(b) => Value::Bool(*b),
        Json::Integer(i) => Value::Number(Number::from_i128(*i).unwrap()),
        Json::Real(r) => Value::Number(Number::from_f64(f64::from_bits(r.bits)).unwrap()),
        Json::Text(s) => Value::String(s.clone()),
        Json::Array(items) => Value::Array(items.iter().map(to_value).collect()),
        Json::Object(fields) => {
            let mut map = serde_json::Map::new();
            for (k, v) in fields {
                map.insert(k.clone(), to_value(v));
            }
            Value::Object(map)
        }
        Json::Given(v) => v.clone(),
    }
}

fn object(fields: Vec<(&str, Value)>) -> Value {
    Value::Object(fields.into_iter().map(|(k, v)| (k.to_string(), v)).collect())
}

fn invalid(message: &str) -> ToolError {
    ToolError::InvalidParams(message.to_string())
}

fn internal(message: &str) -> ToolError {
    ToolError::Internal(message.to_string())
}

fn plain(ids: &[&str]) -> Vec<Candidate> {
    ids.iter().map(|id| Candidate::Plain(id.to_string())).collect()
}

fn choose_args(candidates: Vec<Candidate>) -> ChooseOneArgs {
    ChooseOneArgs {
        request: "a quick meal".to_string(),
        candidates,
        shortlist_size: None,
        min_fit: None,
        model: None,
    }
}

/// Runs a choice against the responses, and gives the calls and the report.
fn run_choose(args: ChooseOneArgs, responses: &[&str]) -> (Vec<Value>, Result<Value, ToolError>) {
    let mut calls = Vec::new();
    let mut run = match choose_one(args) {
        Ok(run) => run,
        Err(e) => return (calls, Err(e)),
    };
    while let Some(body) = run.next_call() {
        let response = parse(responses[calls.len()]);
        calls.push(to_value(&body));
        if let Err(e) = run.accept(&to_json(&response)) {
            return (calls, Err(e));
        }
    }
    (calls, Ok(to_value(&run.report().unwrap())))
}

#[test]
fn few_candidates_are_looked_at_in_one_pass() {
    let candidates = vec![
        Candidate::Plain("soup".to_string()),
        Candidate::Detailed(CandidateSpec {
            id: "rice".to_string(),
            description: Some("boiled".to_string()),
            details: None,
        }),
        Candidate::Detailed(CandidateSpec {
            id: "bread".to_string(),
            description: Some("baked".to_string()),
            details: Some("takes all day".to_string()),
        }),
    ];
    let (calls, report) = run_choose(
        choose_args(candidates),
        &[r#"{"answers": {
            "which": {"choice": "rice", "confidence": 0.8,
                      "probabilities": {"soup": 0.3, "rice": 0.6, "bread": 0.1}},
            "fits_soup": {"noul": 0.2}, "fits_rice": {"noul": 0.9}, "fits_bread": {"noul": 0}
        }}"#],
    );
    assert_eq!(
        calls,
        vec![parse(
            r#"{
                "state": {
                    "request": "a quick meal",
                    "shortlist": [
                        {"id": "soup", "text": null},
                        {"id": "rice", "text": "boiled"},
                        {"id": "bread", "text": "takes all day"}
                    ]
                },
                "model": "jev-latest",
                "questions": {
                    "which": {
                        "type": "choice",
                        "instructions": "Exactly one of these candidates is the best fit for `request`. Which one? Judge what each candidate actually is or does, not just its name.",
                        "criteria": {"soup": null, "rice": "boiled", "bread": "takes all day"}
                    },
                    "fits_soup": {
                        "type": "noul",
                        "instructions": {
                            "criterion": "Does `shortlist[0]` (candidate 'soup') do the specific thing that `request` asks for, well enough to be chosen?",
                            "focus": "Judge the capability actually described, not the name."
                        }
                    },
                    "fits_rice": {
                        "type": "noul",
                        "instructions": {
                            "criterion": "Does `shortlist[1]` (candidate 'rice') do the specific thing that `request` asks for, well enough to be chosen?",
                            "focus": "Judge the capability actually described, not the name."
                        }
                    },
                    "fits_bread": {
                        "type": "noul",
                        "instructions": {
                            "criterion": "Does `shortlist[2]` (candidate 'bread') do the specific thing that `request` asks for, well enough to be chosen?",
                            "focus": "Judge the capability actually described, not the name."
                        }
                    }
                }
            }"#
        )]
    );
    assert_eq!(
        report.unwrap(),
        parse(
            r#"{
                "choice": "rice",
                "rejected": false,
                "confidence": 0.8,
                "selection_probabilities": {"soup": 0.3, "rice": 0.6, "bread": 0.1},
                "shortlist": ["soup", "rice", "bread"],
                "fits": {"soup": 0.2, "rice": 0.9, "bread": 0.0},
                "passes": 1
            }"#
        )
    );
}

#[test]
fn many_candidates_are_skimmed_into_a_shortlist_first() {
    let mut args = choose_args(plain(&["d", "c", "b", "a"]));
    args.shortlist_size = Some(2);
    let (calls, report) = run_choose(
        args,
        &[
            r#"{"answers": {"which": {"probabilities": {"a": 0.2, "b": 0.3, "c": 0.2, "d": 0.3}}}}"#,
            r#"{"answers": {
                "which": {"choice": "d", "confidence": 0.5, "probabilities": {"b": 0.4, "d": 0.6}},
                "fits_b": {"noul": 0.1}, "fits_d": {"noul": 0.3}
            }}"#,
        ],
    );
    assert_eq!(
        calls[0],
        parse(
            r#"{
                "state": {"request": "a quick meal"},
                "model": "jev-latest",
                "questions": {
                    "which": {
                        "type": "choice",
                        "instructions": "Which candidate best fits `request`? Judge each candidate by what its description says; pick the single best fit.",
                        "criteria": {"a": null, "b": null, "c": null, "d": null}
                    }
                }
            }"#
        )
    );
    assert_eq!(
        calls[1]["state"]["shortlist"],
        parse(r#"[{"id": "b", "text": null}, {"id": "d", "text": null}]"#)
    );
    let report = report.unwrap();
    assert_eq!(report["shortlist"], parse("[\"b\", \"d\"]"));
    assert_eq!(report["passes"], Value::from(2));
    assert_eq!(report["skim_probabilities"], parse(r#"{"a": 0.2, "b": 0.3, "c": 0.2, "d": 0.3}"#));
    assert_eq!(report["choice"], Value::from("d"));
    assert_eq!(report["rejected"], Value::Bool(false));
}

#[test]
fn a_choice_is_withheld_where_no_candidate_fits() {
    let answer = |fit: f64| {
        format!(
            r#"{{"answers": {{
                "which": {{"choice": "a", "confidence": 1, "probabilities": {{"a": 1}}}},
                "fits_a": {{"noul": {fit}}}
            }}}}"#
        )
    };
    for (fit, min_fit, rejected) in [
        (0.29, None, true),
        (0.3, None, false),
        (0.9, Some(0.95), true),
        (0.0, Some(0.0), false),
        (0.0, Some(-3.0), false),
        (1.0, Some(9.0), false),
    ] {
        let mut args = choose_args(plain(&["a"]));
        args.min_fit = min_fit.map(real_of);
        let (_, report) = run_choose(args, &[&answer(fit)]);
        let report = report.unwrap();
        assert_eq!(report["rejected"], Value::Bool(rejected));
        let choice = if rejected { Value::Null } else { Value::from("a") };
        assert_eq!(report["choice"], choice);
        assert_eq!(report["fits"]["a"], Value::Number(Number::from_f64(fit).unwrap()));
    }
}

#[test]
fn only_candidates_are_chosen() {
    let mut args = choose_args(plain(&["a", "b"]));
    args.shortlist_size = Some(1);
    let (calls, report) = run_choose(
        args,
        &[r#"{"answers": {"which": {"probabilities": {"a": 0.1, "ghost": 0.9, "zombie": 0}}}}"#],
    );
    assert_eq!(calls.len(), 1);
    assert_eq!(
        report.unwrap_err(),
        internal("answer 'which' has a probability for 'ghost', which is not one of its options")
    );
    let skim = r#"{"answers": {"which": {"probabilities": {"a": 0.1, "b": 0.9}}}}"#;
    let cases = [
        (
            r#"{"answers": {"which": {"choice": "ghost", "confidence": 1, "probabilities": {}},
                "fits_b": {"noul": 1}}}"#,
            "answer 'which' has the choice 'ghost', which is not one of its options",
        ),
        (
            r#"{"answers": {"which": {"choice": "a", "confidence": 1, "probabilities": {}},
                "fits_b": {"noul": 1}}}"#,
            "answer 'which' has the choice 'a', which is not one of its options",
        ),
        (
            r#"{"answers": {"which": {"choice": "b", "confidence": 1, "probabilities": {"b": 1, "a": 0}},
                "fits_b": {"noul": 1}}}"#,
            "answer 'which' has a probability for 'a', which is not one of its options",
        ),
    ];
    for (verify, message) in cases {
        let mut args = choose_args(plain(&["a", "b"]));
        args.shortlist_size = Some(1);
        let (calls, report) = run_choose(args, &[skim, verify]);
        assert_eq!(calls.len(), 2);
        assert_eq!(report.unwrap_err(), internal(message));
    }
}

#[test]
fn the_shortlist_size_is_held_within_its_bounds() {
    let ids: Vec<String> = (0..12).map(|i| format!("c{i:02}")).collect();
    let probabilities: Vec<String> =
        (0..12).map(|i| format!("\"c{i:02}\": {}", i as f64 / 100.0)).collect();
    let skim = format!(
        "{{\"answers\": {{\"which\": {{\"probabilities\": {{{}}}}}}}}}",
        probabilities.join(",")
    );
    for (asked, size) in [(Some(0), 1), (Some(99), 10), (None, 3)] {
        let refs: Vec<&str> = ids.iter().map(|s| s.as_str()).collect();
        let mut args = choose_args(plain(&refs));
        args.shortlist_size = asked;
        let mut run = choose_one(args).unwrap_or_else(|_| unreachable!());
        run.accept(&to_json(&parse(&skim))).unwrap();
        let list = run.shortlist.as_ref().unwrap();
        let best: Vec<String> = (0..12).rev().take(size).map(|i| format!("c{i:02}")).collect();
        assert_eq!(*list, best);
    }
}

#[test]
fn candidates_that_cannot_be_told_apart_are_refused() {
    let many: Vec<String> = (0..256).map(|i| i.to_string()).collect();
    let many: Vec<&str> = many.iter().map(|s| s.as_str()).collect();
    let cases: [(Vec<Candidate>, &str); 4] = [
        (Vec::new(), "'candidates' must contain at least one candidate"),
        (
            plain(&many),
            "'candidates' has 256 entries; the maximum is 255 (pre-filter with rank_items or a first Choice)",
        ),
        (plain(&["a", "b", "a", "b"]), "duplicate candidate id 'a'"),
        (plain(&["a", "b", "b", "a"]), "duplicate candidate id 'b'"),
    ];
    for (candidates, message) in cases {
        let (calls, report) = run_choose(choose_args(candidates), &[]);
        assert!(calls.is_empty());
        assert_eq!(report.unwrap_err(), invalid(message));
    }
}

#[test]
fn what_a_choice_lacks_is_named_in_turn() {
    let cases = [
        (r#"{"answers": {}}"#, "TypeSafe response is missing answer 'which'"),
        (r#"{"answers": {"which": {}}}"#, "answer 'which' has no 'choice'"),
        (r#"{"answers": {"which": {"choice": "a"}}}"#, "answer 'which' has no numeric 'confidence'"),
        (
            r#"{"answers": {"which": {"choice": "a", "confidence": 1}}}"#,
            "answer 'which' has no 'probabilities' object",
        ),
        (
            r#"{"answers": {"which": {"choice": "a", "confidence": 1, "probabilities": [1]}}}"#,
            "answer 'which' has no 'probabilities' object",
        ),
        (
            r#"{"answers": {"which": {"choice": "a", "confidence": 1,
                "probabilities": {"z": null, "m": "x", "a": 1}}}}"#,
            "answer 'which' has a non-numeric probability for 'm'",
        ),
        (
            r#"{"answers": {"which": {"choice": "a", "confidence": 1, "probabilities": {"a": 1}}}}"#,
            "TypeSafe response is missing answer 'fits_a'",
        ),
    ];
    for (response, message) in cases {
        let (_, report) = run_choose(choose_args(plain(&["a"])), &[response]);
        assert_eq!(report.unwrap_err(), internal(message));
    }
}

fn choice_question(options: &[&str]) -> Question {
    let mut criteria = Table::new();
    for option in options {
        criteria.insert(option.to_string(), Json::Null);
    }
    Question::Choice { instructions: Json::text("Which?"), criteria }
}

fn three_questions() -> Table<Question> {
    let mut questions = Table::new();
    questions.insert("yes".to_string(), noul_q("Is it?"));
    questions.insert("pick".to_string(), choice_question(&["a", "b"]));
    questions.insert(
        "rate".to_string(),
        Question::Score {
            instructions: Json::text("How much?"),
            criteria: vec![Json::text("none"), Json::text("all")],
        },
    );
    questions
}

fn mean(values: &[Real]) -> f64 {
    values.iter().map(|r| f64::from_bits(r.bits)).sum::<f64>() / values.len() as f64
}

#[test]
fn samples_are_tallied_question_by_question() {
    let args = StabilityCheckArgs {
        state: parse("{\"text\": \"hi\"}"),
        questions: three_questions(),
        samples: Some(4),
        model: None,
    };
    let mut run = stability_check(args).unwrap_or_else(|_| unreachable!());
    let draws = [
        (0.5, 1.0, "a", "{\"a\": 0.75, \"b\": 0.25}"),
        (0.25, 0.0, "b", "{\"a\": 0.25, \"b\": 0.75}"),
        (0.75, 1.0, "a", "{\"a\": 1, \"b\": 0}"),
        (0.5, 0.5, "a", "{\"a\": 0.5}"),
    ];
    let mut tokens = Vec::new();
    let mut k = 0;
    while let Some(body) = run.next_call() {
        let body = to_value(&body);
        assert_eq!(body["questions"].as_object().unwrap().len(), 3);
        assert_eq!(body["state"]["text"], Value::from("hi"));
        tokens.push(body["state"]["_stability_sample"].as_str().unwrap().to_string());
        let (noul, score, choice, probabilities) = draws[k];
        let response = format!(
            "{{\"answers\": {{
                \"yes\": {{\"noul\": {noul}}},
                \"rate\": {{\"score\": {score}, \"confidence\": 0.5}},
                \"pick\": {{\"choice\": \"{choice}\", \"probabilities\": {probabilities}, \"confidence\": {score}}}
            }}}}"
        );
        run.accept(&to_json(&parse(&response))).unwrap();
        k += 1;
    }
    assert_eq!(k, 4);
    for (s, token) in tokens.iter().enumerate() {
        assert!(token.starts_with(&format!("{s}-")));
        assert!(token[2..].parse::<u32>().unwrap() < 1_000_000_000);
    }

    let tallies = run.tallies();
    let averages: Vec<Averages> = tallies
        .iter()
        .map(|t| Averages {
            mean: real_of(if t.values.is_empty() { 0.0 } else { mean(&t.values) }),
            std: real_of(0.125),
            confidence_mean: real_of(if t.confidences.is_empty() {
                0.0
            } else {
                mean(&t.confidences)
            }),
            option_means: (0..t.options.len()).map(|i| real_of(mean(t.options.value_at(i)))).collect(),
        })
        .collect();
    let shares: Vec<Real> = (0..=4).map(|k| real_of(k as f64 / 4.0)).collect();
    assert_eq!(
        to_value(&run.report(&averages, &shares)),
        parse(
            r#"{
                "samples": 4,
                "answers": {
                    "yes": {
                        "type": "noul", "mean": 0.5, "std": 0.125, "min": 0.25, "max": 0.75,
                        "values": [0.5, 0.25, 0.75, 0.5]
                    },
                    "rate": {
                        "type": "score", "score_mean": 0.625, "score_std": 0.125,
                        "score_min": 0.0, "score_max": 1.0, "confidence_mean": 0.5,
                        "values": [1.0, 0.0, 1.0, 0.5],
                        "confidences": [0.5, 0.5, 0.5, 0.5]
                    },
                    "pick": {
                        "type": "choice", "choice": "a", "modal_share": 0.75,
                        "probabilities": {"a": 0.625, "b": 0.3333333333333333},
                        "confidence_mean": 0.625,
                        "values": [
                            {"a": 0.75, "b": 0.25}, {"a": 0.25, "b": 0.75},
                            {"a": 1.0, "b": 0.0}, {"a": 0.5}
                        ],
                        "choices": ["a", "b", "a", "a"],
                        "confidences": [1.0, 0.0, 1.0, 0.5]
                    }
                }
            }"#
        )
    );
}

fn sampled_choice(draws: &[(&str, &str)], means: Vec<f64>) -> Value {
    let mut questions = Table::new();
    questions.insert("pick".to_string(), choice_question(&["a", "b"]));
    let args = StabilityCheckArgs {
        state: Value::from("s"),
        questions,
        samples: Some(draws.len() as u32),
        model: None,
    };
    let mut run = stability_check(args).unwrap_or_else(|_| unreachable!());
    for (chosen, probabilities) in draws {
        let response = format!(
            "{{\"answers\": {{\"pick\": {{\"choice\": \"{chosen}\", \"probabilities\": {probabilities}, \"confidence\": 0.5}}}}}}"
        );
        run.accept(&to_json(&parse(&response))).unwrap();
    }
    let averages = vec![Averages {
        mean: real_of(0.0),
        std: real_of(0.0),
        confidence_mean: real_of(0.5),
        option_means: means.into_iter().map(real_of).collect(),
    }];
    let n = draws.len();
    let shares: Vec<Real> = (0..=n).map(|k| real_of(k as f64 / n as f64)).collect();
    to_value(&run.report(&averages, &shares))["answers"]["pick"].clone()
}

#[test]
fn equal_means_go_to_the_first_option_and_none_to_no_option() {
    let even = "{\"b\": 0.5, \"a\": 0.5}";
    let report = sampled_choice(&[("b", even), ("b", even)], vec![0.5, 0.5]);
    assert_eq!(report["choice"], Value::from("a"));
    let report = sampled_choice(&[("a", "{}"), ("b", "{}")], vec![]);
    assert_eq!(report["choice"], Value::from(""));
}

#[test]
fn the_modal_share_is_that_of_the_most_frequent_choice() {
    let first = "{\"a\": 0.5625, \"b\": 0.4375}";
    let last = "{\"a\": 0.0, \"b\": 1.0}";
    let report = sampled_choice(&[("a", first), ("a", first), ("b", last)], vec![0.375, 0.625]);
    assert_eq!(
        report,
        object(vec![
            ("type", Value::from("choice")),
            ("choice", Value::from("b")),
            ("modal_share", Value::Number(Number::from_f64(2.0 / 3.0).unwrap())),
            ("probabilities", parse("{\"a\": 0.375, \"b\": 0.625}")),
            ("confidence_mean", parse("0.5")),
            (
                "values",
                parse(
                    r#"[{"a": 0.5625, "b": 0.4375}, {"a": 0.5625, "b": 0.4375}, {"a": 0.0, "b": 1.0}]"#,
                ),
            ),
            ("choices", parse(r#"["a", "a", "b"]"#)),
            ("confidences", parse("[0.5, 0.5, 0.5]")),
        ])
    );
    let report = sampled_choice(&[("b", "{}"), ("b", "{}")], vec![]);
    assert_eq!(report["modal_share"], parse("1.0"));
    let report = sampled_choice(&[("a", "{}"), ("b", "{}")], vec![]);
    assert_eq!(report["modal_share"], parse("0.5"));
}

#[test]
fn samples_keep_to_the_options() {
    let cases = [
        (
            "{\"choice\": \"c\", \"probabilities\": {}, \"confidence\": 1}",
            "answer 'pick' has the choice 'c', which is not one of its options",
        ),
        (
            "{\"choice\": \"a\", \"probabilities\": {\"a\": 1, \"z\": 0, \"d\": 0}, \"confidence\": 1}",
            "answer 'pick' has a probability for 'd', which is not one of its options",
        ),
    ];
    for (answer, message) in cases {
        let mut questions = Table::new();
        questions.insert("pick".to_string(), choice_question(&["a", "b"]));
        let args =
            StabilityCheckArgs { state: Value::Null, questions, samples: None, model: None };
        let mut run = stability_check(args).unwrap_or_else(|_| unreachable!());
        let response = format!("{{\"answers\": {{\"pick\": {answer}}}}}");
        assert_eq!(run.accept(&to_json(&parse(&response))).unwrap_err(), internal(message));
    }
}

fn sampled(samples: Option<u32>, id: &str, question: Question) -> StabilityCheckArgs {
    let mut questions = Table::new();
    questions.insert(id.to_string(), question);
    StabilityCheckArgs { state: Value::from("s"), questions, samples, model: None }
}

#[test]
fn as_many_samples_are_drawn_as_were_asked_for() {
    for (asked, drawn) in [(None, 5), (Some(2), 2), (Some(3), 3), (Some(20), 20)] {
        let mut run = stability_check(sampled(asked, "q", noul_q("Is it?")))
            .unwrap_or_else(|_| unreachable!());
        let mut calls = 0;
        while let Some(body) = run.next_call() {
            assert_eq!(to_value(&body)["state"], Value::from("s"));
            run.accept(&to_json(&parse("{\"answers\": {\"q\": {\"noul\": 0.5}}}"))).unwrap();
            calls += 1;
        }
        assert_eq!(calls, drawn);
    }
}

#[test]
fn numbers_of_samples_out_of_bounds_are_refused() {
    for n in [0, 1, 21, u32::MAX] {
        match stability_check(sampled(Some(n), "q", noul_q("Is it?"))) {
            Ok(_) => panic!("accepted: {n}"),
            Err(e) => assert_eq!(
                e,
                invalid(&format!(
                    "'samples' is {n}; a stability check draws between 2 and 20 samples"
                ))
            ),
        }
    }
    match stability_check(sampled(Some(0), "q", choice_question(&[]))) {
        Ok(_) => panic!("accepted"),
        Err(e) => {
            assert_eq!(e, invalid("Choice question 'q' needs at least one option in criteria"))
        }
    }
}

#[test]
fn an_unanswered_sample_stops_the_run() {
    let args = StabilityCheckArgs {
        state: Value::Null,
        questions: three_questions(),
        samples: None,
        model: None,
    };
    let mut run = stability_check(args).unwrap_or_else(|_| unreachable!());
    let response = "{\"answers\": {\"yes\": {\"noul\": 1}}}";
    assert_eq!(
        run.accept(&to_json(&parse(response))).unwrap_err(),
        internal("TypeSafe response is missing answer 'pick'")
    );
}

#[test]
fn a_sample_token_is_one_more_field_of_an_object() {
    let state = parse("{\"b\": 1, \"a\": {\"c\": [null]}}");
    assert_eq!(
        to_value(&with_sample_token_at(&state, 3, 42)),
        parse("{\"b\": 1, \"a\": {\"c\": [null]}, \"_stability_sample\": \"3-42\"}")
    );
    let taken = parse("{\"_stability_sample\": \"mine\"}");
    assert_eq!(
        to_value(&with_sample_token_at(&taken, 0, 7)),
        parse("{\"_stability_sample\": \"0-7\"}")
    );
    for other in ["\"text\"", "[{\"a\": 1}]", "null", "3", "true"] {
        assert_eq!(to_value(&with_sample_token_at(&parse(other), 1, 2)), parse(other));
        assert_eq!(to_value(&with_sample_token(&parse(other), 1)), parse(other));
    }
    let fields = vec![("a".to_string(), Value::from(1)), ("a".to_string(), Value::from(2))];
    assert_eq!(
        to_value(&tagged(&fields, 20, 999_999_999)),
        parse("{\"a\": 2, \"_stability_sample\": \"20-999999999\"}")
    );
}

#[test]
fn a_clock_is_read_beyond_whole_seconds() {
    assert_eq!(nanos_or_zero(None), 0);
    for (seconds, nanos) in [(0, 0), (0, 7), (3, 0), (1_700_000_000, 123_456_789), (9, 999_999_999)] {
        assert_eq!(nanos_or_zero(Some(std::time::Duration::new(seconds, nanos))), nanos);
    }
}

#[test]
fn no_two_samples_share_a_state() {
    let state = parse("{}");
    let a = to_value(&with_sample_token_at(&state, 1, 11));
    let b = to_value(&with_sample_token_at(&state, 11, 1));
    let c = to_value(&with_sample_token_at(&state, 11, 11));
    assert_ne!(a, b);
    assert_ne!(b, c);
    assert_ne!(a, c);
}

#[test]
fn questions_are_sent_as_they_were_given() {
    let mut questions = three_questions();
    questions.insert(
        "sure".to_string(),
        Question::Noul {
            instructions: Json::Given(parse("[\"Sure?\"]")),
            criteria: Some(NoulCriteria {
                true_meaning: Some(Json::text("certain")),
                false_meaning: None,
            }),
        },
    );
    let args = SystemOneArgs {
        state: parse("[\"a\", {\"b\": 2.5}]"),
        questions,
        model: Some("m".to_string()),
    };
    let body = systemone(args).unwrap_or_else(|_| unreachable!());
    assert_eq!(
        to_value(&body),
        parse(
            r#"{
                "state": ["a", {"b": 2.5}],
                "model": "m",
                "questions": {
                    "yes": {"type": "noul", "instructions": "Is it?"},
                    "pick": {"type": "choice", "instructions": "Which?", "criteria": {"a": null, "b": null}},
                    "rate": {"type": "score", "instructions": "How much?", "criteria": ["none", "all"]},
                    "sure": {"type": "noul", "instructions": ["Sure?"], "criteria": {"true": "certain"}}
                }
            }"#
        )
    );
}

#[test]
fn questions_that_cannot_be_asked_are_refused() {
    let score = |n: usize| Question::Score {
        instructions: Json::Null,
        criteria: (0..n).map(|_| Json::Null).collect(),
    };
    let many: Vec<String> = (0..256).map(|i| i.to_string()).collect();
    let many: Vec<&str> = many.iter().map(|s| s.as_str()).collect();
    let cases: Vec<(Vec<(&str, Question)>, &str)> = vec![
        (vec![], "At least one question is required in 'questions'"),
        (
            vec![("q", choice_question(&[]))],
            "Choice question 'q' needs at least one option in criteria",
        ),
        (
            vec![("q", choice_question(&many))],
            "Choice question 'q' has 256 options; the maximum is 255",
        ),
        (vec![("s", score(1))], "Score question 's' has 1 levels; it needs between 2 and 10"),
        (vec![("s", score(11))], "Score question 's' has 11 levels; it needs between 2 and 10"),
        (
            vec![("z", score(0)), ("a", noul_q("ok")), ("b", choice_question(&[]))],
            "Choice question 'b' needs at least one option in criteria",
        ),
    ];
    for (list, message) in cases {
        let mut questions = Table::new();
        for (id, q) in list {
            questions.insert(id.to_string(), q);
        }
        let args = SystemOneArgs { state: Value::Null, questions, model: None };
        match systemone(args) {
            Ok(_) => panic!("accepted: {message}"),
            Err(e) => assert_eq!(e, invalid(message)),
        }
    }
}

fn output_args() -> VerifyOutputArgs {
    VerifyOutputArgs {
        output: Value::from("draft"),
        instructions: None,
        sources: None,
        checks: None,
        flag_threshold: None,
        model: None,
    }
}

#[test]
fn an_output_is_checked_against_what_is_given() {
    let mut args = output_args();
    args.instructions = Some(Value::from("be brief"));
    args.sources = Some(parse("[\"s\"]"));
    args.checks = Some(vec![
        CheckSpec::Plain("Is it polite?".to_string()),
        CheckSpec::Detailed { id: Some("cites".to_string()), criterion: parse("{\"q\": 1}") },
        CheckSpec::Detailed { id: None, criterion: Value::from("Is it short?") },
    ]);
    let mut run = verify_output(args).unwrap_or_else(|_| unreachable!());
    assert!(run.report().is_none());
    let body = to_value(&run.battery.next_call().unwrap());
    assert_eq!(
        body["state"],
        parse("{\"output\": \"draft\", \"instructions\": \"be brief\", \"sources\": [\"s\"]}")
    );
    let asked = |id: &str| body["questions"][id]["instructions"].clone();
    assert_eq!(body["questions"].as_object().unwrap().len(), 7);
    assert_eq!(
        asked("safe_to_share"),
        Value::from("Is `output` safe to share externally - free of credentials, secrets, API keys, or personal data?")
    );
    assert_eq!(
        asked("grounded"),
        Value::from("Are the factual claims in `output` supported by `sources`?")
    );
    assert_eq!(
        asked("consistent_with_sources"),
        Value::from("Is `output` consistent with `sources`, with no contradictions?")
    );
    assert_eq!(
        asked("complies_with_instructions"),
        Value::from("Does `output` comply with `instructions`?")
    );
    assert_eq!(asked("custom_1"), Value::from("Is it polite?"));
    assert_eq!(asked("cites"), parse("{\"q\": 1}"));
    assert_eq!(asked("custom_3"), Value::from("Is it short?"));

    let response = r#"{"answers": {
        "safe_to_share": {"noul": 1}, "grounded": {"noul": 0.49}, "custom_1": {"noul": 0.5},
        "consistent_with_sources": {"noul": 0.1}, "complies_with_instructions": {"noul": 0.9},
        "cites": {"noul": 0}, "custom_3": {"noul": 0.7}
    }}"#;
    run.battery.accept(&to_json(&parse(response))).unwrap();
    assert!(run.battery.next_call().is_none());
    assert_eq!(
        to_value(&run.report().unwrap()),
        parse(
            r#"{
                "checks": {
                    "safe_to_share": 1.0, "grounded": 0.49, "custom_1": 0.5,
                    "consistent_with_sources": 0.1, "complies_with_instructions": 0.9,
                    "cites": 0.0, "custom_3": 0.7
                },
                "failed": ["cites", "consistent_with_sources", "grounded"],
                "flag_threshold": 0.5
            }"#
        )
    );
}

#[test]
fn only_share_safety_is_checked_without_more() {
    let mut args = output_args();
    args.flag_threshold = Some(real_of(0.0));
    let mut run = verify_output(args).unwrap_or_else(|_| unreachable!());
    let body = to_value(&run.battery.next_call().unwrap());
    assert_eq!(body["state"], parse("{\"output\": \"draft\"}"));
    assert_eq!(body["questions"].as_object().unwrap().len(), 1);
    run.battery
        .accept(&to_json(&parse("{\"answers\": {\"safe_to_share\": {\"noul\": 0}}}")))
        .unwrap();
    assert_eq!(to_value(&run.report().unwrap())["failed"], parse("[]"));
}

#[test]
fn checks_that_share_an_id_are_refused() {
    let named = |id: &str| CheckSpec::Detailed {
        id: Some(id.to_string()),
        criterion: Value::Null,
    };
    let cases = vec![
        (vec![named("safe_to_share")], "duplicate check id 'safe_to_share'"),
        (vec![named("x"), named("x")], "duplicate check id 'x'"),
        (
            vec![named("custom_2"), CheckSpec::Plain("again".to_string())],
            "duplicate check id 'custom_2'",
        ),
    ];
    for (checks, message) in cases {
        let mut args = output_args();
        args.checks = Some(checks);
        match verify_output(args) {
            Ok(_) => panic!("accepted: {message}"),
            Err(e) => assert_eq!(e, invalid(message)),
        }
    }
    let mut args = output_args();
    args.checks = Some(vec![named("grounded")]);
    assert!(verify_output(args).is_ok());
}

#[test]
fn a_missing_check_is_an_internal_error() {
    let mut run = verify_output(output_args()).unwrap_or_else(|_| unreachable!());
    assert_eq!(
        run.battery.accept(&to_json(&parse("{\"answers\": {}}"))).unwrap_err(),
        internal("TypeSafe response is missing answer 'safe_to_share'")
    );
    assert!(run.report().is_none());
}

fn tools() -> Table<ToolDefinition> {
    let mut tools = Table::new();
    tools.insert(
        "search".to_string(),
        ToolDefinition {
            description: Some(Value::from("finds")),
            parameters: Some(parse("{\"type\": \"object\"}")),
        },
    );
    tools.insert("ping".to_string(), ToolDefinition { description: None, parameters: None });
    tools
}

fn call(name: &str) -> ToolInvocation {
    ToolInvocation { name: name.to_string(), arguments: parse("{\"q\": 1}") }
}

#[test]
fn tool_calls_are_checked_as_far_as_their_tools_are_known() {
    let args = VerifyToolCallsArgs {
        request: "find it".to_string(),
        calls: vec![call("ping"), call("search"), call("rm")],
        tools: tools(),
        flag_threshold: Some(real_of(0.8)),
        model: None,
    };
    let mut run = verify_tool_calls(args).unwrap_or_else(|_| unreachable!());
    let body = to_value(&run.battery.next_call().unwrap());
    assert_eq!(
        body,
        parse(
            r#"{
                "state": {
                    "request": "find it",
                    "calls": [
                        {"name": "ping", "arguments": {"q": 1}},
                        {"name": "search", "arguments": {"q": 1}},
                        {"name": "rm", "arguments": {"q": 1}}
                    ],
                    "tools": {
                        "search": {"description": "finds", "parameters": {"type": "object"}},
                        "ping": {}
                    }
                },
                "model": "jev-latest",
                "questions": {
                    "call_0_relevant": {
                        "type": "noul",
                        "instructions": "Is `calls[0].name` an appropriate tool to make progress on `request`?"
                    },
                    "call_1_relevant": {
                        "type": "noul",
                        "instructions": "Is `calls[1].name` an appropriate tool to make progress on `request`?"
                    },
                    "call_1_arguments_conform": {
                        "type": "noul",
                        "instructions": "Do `calls[1].arguments` conform to the parameter schema `tools.search.parameters`?"
                    }
                }
            }"#
        )
    );
    let response = r#"{"answers": {
        "call_0_relevant": {"noul": 0.79}, "call_1_relevant": {"noul": 0.8},
        "call_1_arguments_conform": {"noul": 0.2}
    }}"#;
    run.battery.accept(&to_json(&parse(response))).unwrap();
    assert_eq!(
        to_value(&run.report().unwrap()),
        parse(
            r#"{
                "checks": {
                    "call_0_relevant": 0.79, "call_1_relevant": 0.8,
                    "call_1_arguments_conform": 0.2
                },
                "failed": ["call_0_relevant", "call_1_arguments_conform"],
                "warnings": [
                    "call_0: tool 'ping' has no parameters schema; argument conformance not checked",
                    "call_2: unknown tool 'rm' (not present in `tools`)"
                ],
                "flag_threshold": 0.8
            }"#
        )
    );
}

#[test]
fn calls_to_unknown_tools_alone_need_no_call() {
    let args = VerifyToolCallsArgs {
        request: "r".to_string(),
        calls: vec![call("x")],
        tools: Table::new(),
        flag_threshold: None,
        model: None,
    };
    let run = verify_tool_calls(args).unwrap_or_else(|_| unreachable!());
    assert!(run.battery.next_call().is_none());
    assert_eq!(
        to_value(&run.report().unwrap()),
        parse(
            r#"{
                "checks": {}, "failed": [],
                "warnings": ["call_0: unknown tool 'x' (not present in `tools`)"],
                "flag_threshold": 0.5
            }"#
        )
    );
}

#[test]
fn no_tool_calls_are_refused() {
    let args = VerifyToolCallsArgs {
        request: "r".to_string(),
        calls: Vec::new(),
        tools: tools(),
        flag_threshold: None,
        model: None,
    };
    match verify_tool_calls(args) {
        Ok(_) => panic!("accepted"),
        Err(e) => assert_eq!(e, invalid("'calls' must contain at least one tool call")),
    }
}

fn claim(text: &str, source: Option<Value>) -> ClaimSpec {
    ClaimSpec::Detailed { claim: text.to_string(), source }
}

#[test]
fn claims_are_held_against_their_own_evidence_or_the_common_one() {
    let args = CheckClaimsArgs {
        claims: vec![
            ClaimSpec::Plain("one".to_string()),
            claim("two", Some(Value::from("quote"))),
            claim("three", None),
            claim("four", None),
        ],
        evidence: Some(parse("[\"e\"]")),
        model: None,
    };
    let mut run = check_claims(args).unwrap_or_else(|_| unreachable!());
    let body = to_value(&run.next_call().unwrap());
    assert_eq!(
        body["state"],
        parse(
            r#"{
                "claims": [
                    {"claim": "one"}, {"claim": "two", "source": "quote"},
                    {"claim": "three"}, {"claim": "four"}
                ],
                "evidence": ["e"]
            }"#
        )
    );
    assert_eq!(body["questions"].as_object().unwrap().len(), 4);
    assert_eq!(
        body["questions"]["claim_1"],
        parse(
            r#"{
                "type": "choice",
                "instructions": {
                    "question": "How does the evidence relate to the claim in `claims[1]`?",
                    "evidence": "`claims[1].source`",
                    "focus": "Judge only this claim; do not use outside knowledge."
                },
                "criteria": {
                    "supported": "The evidence supports the claim.",
                    "contradicted": "The evidence contradicts the claim.",
                    "unverified": "The evidence neither supports nor contradicts the claim."
                }
            }"#
        )
    );
    assert_eq!(
        body["questions"]["claim_2"]["instructions"]["evidence"],
        Value::from("`evidence`")
    );
    let response = r#"{"answers": {
        "claim_0": {"choice": "supported", "confidence": 0.9},
        "claim_1": {"choice": "contradicted", "confidence": 0.8},
        "claim_2": {"choice": "supported", "confidence": 0.7},
        "claim_3": {"choice": "unverified", "confidence": 0.6}
    }}"#;
    run.accept(&to_json(&parse(response))).unwrap();
    assert_eq!(
        to_value(&run.report().unwrap()),
        parse(
            r#"{
                "claims": [
                    {"i": 0, "status": "supported", "confidence": 0.9},
                    {"i": 1, "status": "contradicted", "confidence": 0.8},
                    {"i": 2, "status": "supported", "confidence": 0.7},
                    {"i": 3, "status": "unverified", "confidence": 0.6}
                ],
                "counts": {"supported": 2, "contradicted": 1, "unverified": 1}
            }"#
        )
    );
}

#[test]
fn a_claim_has_one_of_three_statuses() {
    let args = CheckClaimsArgs {
        claims: vec![ClaimSpec::Plain("one".to_string())],
        evidence: Some(Value::Null),
        model: None,
    };
    let mut run = check_claims(args).unwrap_or_else(|_| unreachable!());
    let response = "{\"answers\": {\"claim_0\": {\"choice\": \"strange\", \"confidence\": 1}}}";
    assert_eq!(
        run.accept(&to_json(&parse(response))).unwrap_err(),
        internal("answer 'claim_0' has the choice 'strange', which is not one of its options")
    );
    assert!(run.report().is_none());
}

#[test]
fn claims_without_any_evidence_are_refused() {
    let cases = vec![
        (Vec::new(), "'claims' must contain at least one claim"),
        (
            vec![ClaimSpec::Plain("a".to_string()), claim("b", None)],
            "provide 'evidence', or a 'source' on individual claims, to check against",
        ),
    ];
    for (claims, message) in cases {
        match check_claims(CheckClaimsArgs { claims, evidence: None, model: None }) {
            Ok(_) => panic!("accepted: {message}"),
            Err(e) => assert_eq!(e, invalid(message)),
        }
    }
    let one = vec![ClaimSpec::Plain("a".to_string()), claim("b", Some(Value::Null))];
    let run = check_claims(CheckClaimsArgs { claims: one, evidence: None, model: None })
        .unwrap_or_else(|_| unreachable!());
    assert_eq!(to_value(&run.next_call().unwrap())["state"]["evidence"], Value::Null);
}

fn options(values: &[&str]) -> Vec<FieldOption> {
    values.iter().map(|v| FieldOption::Plain(v.to_string())).collect()
}

#[test]
fn fields_are_extracted_out_of_their_options() {
    let mut fields = Table::new();
    fields.insert("status".to_string(), FieldSpec::Options(options(&["open", "closed"])));
    fields.insert(
        "terms".to_string(),
        FieldSpec::Detailed(FieldSpecObj {
            description: Some("when to pay".to_string()),
            options: vec![
                FieldOption::Plain("net_30".to_string()),
                FieldOption::Detailed(FieldOptionObj {
                    value: "now".to_string(),
                    description: Some("at once".to_string()),
                }),
            ],
        }),
    );
    let args = ExtractFieldsArgs { text: Value::from("an invoice"), fields, model: None };
    let mut run = extract_fields(args).unwrap_or_else(|_| unreachable!());
    assert_eq!(
        to_value(&run.next_call().unwrap()),
        parse(
            r#"{
                "state": {"text": "an invoice"},
                "model": "jev-latest",
                "questions": {
                    "status": {
                        "type": "choice",
                        "instructions": {
                            "question": "Which option is the value of the 'status' field in `text`?",
                            "focus": "Choose the single best option; options are mutually exclusive."
                        },
                        "criteria": {"open": null, "closed": null}
                    },
                    "terms": {
                        "type": "choice",
                        "instructions": {
                            "question": "Which option is the value of the 'terms' field in `text`?",
                            "focus": "Choose the single best option; options are mutually exclusive.",
                            "field_description": "when to pay"
                        },
                        "criteria": {"net_30": null, "now": "at once"}
                    }
                }
            }"#
        )
    );
    let response = r#"{"answers": {
        "status": {"choice": "open", "confidence": 0.5},
        "terms": {"choice": "now", "confidence": 1}
    }}"#;
    run.accept(&to_json(&parse(response))).unwrap();
    assert_eq!(
        to_value(&run.report().unwrap()),
        parse(
            r#"{"fields": {
                "status": {"value": "open", "confidence": 0.5},
                "terms": {"value": "now", "confidence": 1.0}
            }}"#
        )
    );
}

#[test]
fn a_value_must_be_an_option_of_its_field() {
    let mut fields = Table::new();
    fields.insert("f".to_string(), FieldSpec::Options(options(&["x", "y"])));
    fields.insert("g".to_string(), FieldSpec::Options(options(&["z"])));
    let args = ExtractFieldsArgs { text: Value::Null, fields, model: None };
    let mut run = extract_fields(args).unwrap_or_else(|_| unreachable!());
    let response = r#"{"answers": {
        "f": {"choice": "y", "confidence": 1}, "g": {"choice": "x", "confidence": 1}
    }}"#;
    assert_eq!(
        run.accept(&to_json(&parse(response))).unwrap_err(),
        internal("answer 'g' has the choice 'x', which is not one of its options")
    );
}

#[test]
fn fields_that_cannot_be_asked_about_are_refused() {
    let many: Vec<String> = (0..256).map(|i| i.to_string()).collect();
    let many: Vec<&str> = many.iter().map(|s| s.as_str()).collect();
    let mut repeated = many.clone();
    repeated.push("7");
    let cases: Vec<(Vec<(&str, Vec<&str>)>, &str)> = vec![
        (vec![], "'fields' must contain at least one field"),
        (vec![("f", vec![])], "field 'f' needs at least one option"),
        (vec![("f", vec!["a", "b", "a"])], "field 'f' has duplicate option value 'a'"),
        (vec![("f", many)], "field 'f' has 256 options; the maximum is 255"),
        (vec![("f", repeated)], "field 'f' has duplicate option value '7'"),
        (vec![("z", vec![]), ("y", vec!["a", "a"])], "field 'y' has duplicate option value 'a'"),
    ];
    for (list, message) in cases {
        let mut fields = Table::new();
        for (name, values) in list {
            fields.insert(name.to_string(), FieldSpec::Options(options(&values)));
        }
        match extract_fields(ExtractFieldsArgs { text: Value::Null, fields, model: None }) {
            Ok(_) => panic!("accepted: {message}"),
            Err(e) => assert_eq!(e, invalid(message)),
        }
    }
}
