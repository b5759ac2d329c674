//! The tools for lists of items, run against a service that answers by a rule.

use mcp_typesafe::classify::{classify_items, ClassifyItemsArgs};
use mcp_typesafe::dedupe::{dedupe_items, DedupeItemsArgs};
use mcp_typesafe::error::ToolError;
use mcp_typesafe::filter::{filter_items, FilterItemsArgs};
use mcp_typesafe::json::Json;
use mcp_typesafe::rank::{rank_items, RankItemsArgs};
use mcp_typesafe::reals::Real;
use mcp_typesafe::table::Table;
use serde_json::{Number, Value};

fn parse(text: &str) -> Value {
    serde_json::from_str(text).unwrap()
}

fn real_of(x: f64) -> Real {
    Real { bits: x.to_bits() }
}

fn to_json(v: &Value) -> Json {
    match v {
        Value::Null => Json::Null,
        Value::Bool(b) => Json::Bool(*b),
        Value::Number(n) => match n.as_i128() {
            Some(i) => Json::Integer(i),
            None => Json::Real(real_of(n.as_f64().unwrap())),
        },
        Value::String(s) => Json::Text(s.clone()),
        Value::Array(items) => Json::Array(items.iter().map(to_json).collect()),
        Value::Object(fields) => {
            Json::Object(fields.iter().map(|(k, v)| (k.clone(), to_json(v))).collect())
        }
    }
}

fn to_value(j: &Json) -> Value {
    match j {
        Json::Null => Value::Null,
        Json::Bool(b) => Value::Bool(*b),
        Json::Integer(i) => Value::Number(Number::from_i128(*i).unwrap()),
        Json::Real(r) => Value::Number(Number::from_f64(f64::from_bits(r.bits)).unwrap()),
        Json::Text(s) => Value::String(s.clone()),
        Json::Array(items) => Value::Array(items.iter().map(to_value).collect()),
        Json::Object(fields) => {
            let mut map = serde_json::Map::new();
            for (k, v) in fields {
                map.insert(k.clone(), to_value(v));
            }
            Value::Object(map)
        }
        Json::Given(v) => v.clone(),
    }
}

/// The response of a service that answers each question by `rule`, from the state and the
/// question's id.
fn respond(body: &Value, rule: impl Fn(&Value, &str) -> Value) -> Value {
    let mut answers = serde_json::Map::new();
    for id in body["questions"].as_object().unwrap().keys() {
        answers.insert(id.clone(), rule(&body["state"], id));
    }
    let mut response = serde_json::Map::new();
    response.insert("answers".to_string(), Value::Object(answers));
    Value::Object(response)
}

fn place(id: &str) -> usize {
    id.rsplit('_').next().unwrap().parse().unwrap()
}

fn number(x: f64) -> Value {
    Value::Number(Number::from_f64(x).unwrap())
}

fn object(fields: Vec<(&str, Value)>) -> Value {
    Value::Object(fields.into_iter().map(|(k, v)| (k.to_string(), v)).collect())
}

fn numbers(n: usize) -> Vec<Value> {
    (0..n).map(Value::from).collect()
}

fn filter_args(items: Vec<Value>) -> FilterItemsArgs {
    FilterItemsArgs { items, criterion: Value::from("Is it so?"), threshold: None, model: None }
}

fn run_filter(
    args: FilterItemsArgs,
    rule: impl Fn(&Value, &str) -> Value,
) -> (Vec<Value>, Result<Value, ToolError>) {
    let mut calls = Vec::new();
    let mut run = match filter_items(args) {
        Ok(run) => run,
        Err(e) => return (calls, Err(e)),
    };
    while let Some(body) = run.next_call() {
        let body = to_value(&body);
        let response = respond(&body, &rule);
        calls.push(body);
        if let Err(e) = run.accept(&to_json(&response)) {
            return (calls, Err(e));
        }
    }
    (calls, Ok(to_value(&run.report())))
}

#[test]
fn a_long_list_is_filtered_in_three_calls() {
    let (calls, report) = run_filter(filter_args(numbers(450)), |state, id| {
        let item = state["items"][place(id)].as_f64().unwrap();
        object(vec![("noul", number(item / 1000.0))])
    });
    let widths: Vec<usize> =
        calls.iter().map(|c| c["state"]["items"].as_array().unwrap().len()).collect();
    assert_eq!(widths, vec![200, 200, 50]);
    for call in &calls {
        assert_eq!(
            call["questions"].as_object().unwrap().len(),
            call["state"]["items"].as_array().unwrap().len()
        );
    }
    let report = report.unwrap();
    let probabilities = report["probabilities"].as_array().unwrap();
    assert_eq!(probabilities.len(), 450);
    for (i, p) in probabilities.iter().enumerate() {
        assert_eq!(p.as_f64().unwrap(), i as f64 / 1000.0);
    }
    assert_eq!(report["matched_count"], Value::from(0));
    assert_eq!(report["threshold"], number(0.5));
}

#[test]
fn long_items_fill_a_call_by_their_size() {
    let items: Vec<Value> = (0..5).map(|_| Value::from("x".repeat(30_000))).collect();
    let (calls, report) =
        run_filter(filter_args(items), |_, _| object(vec![("noul", number(1.0))]));
    let widths: Vec<usize> =
        calls.iter().map(|c| c["state"]["items"].as_array().unwrap().len()).collect();
    assert_eq!(widths, vec![2, 2, 1]);
    assert_eq!(report.unwrap()["matched_count"], Value::from(5));
}

#[test]
fn an_item_beyond_the_size_of_a_call_goes_alone() {
    let mut items = vec![Value::from("a"), Value::from("x".repeat(100_000)), Value::from("b")];
    items.push(Value::from("c"));
    let (calls, _) = run_filter(filter_args(items), |_, _| object(vec![("noul", number(0.0))]));
    let widths: Vec<usize> =
        calls.iter().map(|c| c["state"]["items"].as_array().unwrap().len()).collect();
    assert_eq!(widths, vec![1, 1, 2]);
}

#[test]
fn cutting_into_calls_cannot_be_seen() {
    let rule = |state: &Value, id: &str| {
        let item = &state["items"][place(id)];
        let n = item.as_u64().unwrap_or_else(|| item["n"].as_u64().unwrap());
        object(vec![("noul", number((n % 7) as f64 / 7.0))])
    };
    let (few, plain) = run_filter(filter_args(numbers(150)), rule);
    let padded: Vec<Value> = (0..150)
        .map(|n| object(vec![("n", Value::from(n)), ("pad", Value::from("x".repeat(5_000)))]))
        .collect();
    let (many, cut) = run_filter(filter_args(padded), rule);
    assert_eq!(few.len(), 1);
    assert_eq!(many.len(), 13);
    assert_eq!(plain.unwrap(), cut.unwrap());
}

#[test]
fn a_filter_asks_one_scoped_question_about_each_item() {
    let args = FilterItemsArgs {
        items: vec![Value::from("first"), parse("{\"k\": [1, 2.5, null]}")],
        criterion: parse("{\"about\": \"payments\"}"),
        threshold: None,
        model: Some("jev-preview".to_string()),
    };
    let (calls, _) = run_filter(args, |_, _| object(vec![("noul", number(0.0))]));
    assert_eq!(
        calls,
        vec![parse(
            r#"{
                "state": {"items": ["first", {"k": [1, 2.5, null]}]},
                "model": "jev-preview",
                "questions": {
                    "item_0": {
                        "type": "noul",
                        "instructions": {
                            "criterion": {"about": "payments"},
                            "scope": "`items[0]`",
                            "focus": "Judge only the scoped item; ignore every other item in `items`."
                        }
                    },
                    "item_1": {
                        "type": "noul",
                        "instructions": {
                            "criterion": {"about": "payments"},
                            "scope": "`items[1]`",
                            "focus": "Judge only the scoped item; ignore every other item in `items`."
                        }
                    }
                }
            }"#
        )]
    );
}

#[test]
fn the_default_model_answers_unless_one_is_named() {
    let (calls, _) =
        run_filter(filter_args(numbers(1)), |_, _| object(vec![("noul", number(0.0))]));
    assert_eq!(calls[0]["model"], Value::from("jev-latest"));
}

#[test]
fn an_item_at_the_threshold_matches() {
    let mut args = filter_args(numbers(3));
    args.threshold = Some(real_of(0.7));
    let (_, report) = run_filter(args, |_, id| {
        object(vec![("noul", number([0.7, 0.6999999999999999, 0.9][place(id)]))])
    });
    assert_eq!(
        report.unwrap(),
        parse(
            r#"{
                "threshold": 0.7,
                "matched_count": 2,
                "matched": [[0, 0.7], [2, 0.9]],
                "probabilities": [0.7, 0.6999999999999999, 0.9]
            }"#
        )
    );
}

#[test]
fn thresholds_are_held_within_zero_and_one() {
    for (asked, used) in [(7.0, 1.0), (-1.0, 0.0), (0.25, 0.25), (1.0, 1.0), (0.0, 0.0)] {
        let mut args = filter_args(numbers(1));
        args.threshold = Some(real_of(asked));
        let (_, report) = run_filter(args, |_, _| object(vec![("noul", number(0.5))]));
        assert_eq!(report.unwrap()["threshold"], number(used));
    }
}

#[test]
fn a_lower_threshold_keeps_what_matched() {
    let matched = |t: f64| -> Vec<Value> {
        let mut args = filter_args(numbers(10));
        args.threshold = Some(real_of(t));
        let (_, report) = run_filter(args, |_, id| {
            object(vec![("noul", number(((place(id) * 3) % 10) as f64 / 10.0))])
        });
        report.unwrap()["matched"].as_array().unwrap().clone()
    };
    let high = matched(0.6);
    let low = matched(0.3);
    assert_eq!(high.len(), 4);
    assert_eq!(low.len(), 7);
    for m in high {
        assert!(low.contains(&m));
    }
}

#[test]
fn whole_numbers_are_probabilities_too() {
    let (_, report) = run_filter(filter_args(numbers(2)), |_, id| {
        object(vec![("noul", Value::from(place(id)))])
    });
    assert_eq!(
        report.unwrap(),
        parse(
            r#"{
                "threshold": 0.5,
                "matched_count": 1,
                "matched": [[1, 1.0]],
                "probabilities": [0.0, 1.0]
            }"#
        )
    );
}

#[test]
fn lists_out_of_bounds_are_refused_before_any_call() {
    let rule = |_: &Value, _: &str| object(vec![("noul", number(0.0))]);
    let (calls, empty) = run_filter(filter_args(Vec::new()), rule);
    assert!(calls.is_empty());
    assert_eq!(
        empty.unwrap_err(),
        ToolError::InvalidParams("'items' must contain at least one item".to_string())
    );
    let (calls, long) = run_filter(filter_args(numbers(1001)), rule);
    assert!(calls.is_empty());
    assert_eq!(
        long.unwrap_err(),
        ToolError::InvalidParams(
            "'items' has 1001 entries; the maximum is 1000 (split the list into several calls)"
                .to_string()
        )
    );
    let (calls, most) = run_filter(filter_args(numbers(1000)), rule);
    assert_eq!(calls.len(), 5);
    assert!(most.is_ok());
}

#[test]
fn unusable_answers_are_internal_errors() {
    let cases = [
        ("{}", "TypeSafe response is missing answer 'item_0'"),
        ("{\"answers\": []}", "TypeSafe response is missing answer 'item_0'"),
        ("{\"answers\": {\"item_1\": {}}}", "TypeSafe response is missing answer 'item_0'"),
        ("{\"answers\": {\"item_0\": {}}}", "answer 'item_0' has no numeric 'noul'"),
        ("{\"answers\": {\"item_0\": {\"noul\": \"1\"}}}", "answer 'item_0' has no numeric 'noul'"),
        ("{\"answers\": {\"item_0\": {\"noul\": null}}}", "answer 'item_0' has no numeric 'noul'"),
        (
            "{\"answers\": {\"item_0\": {\"noul\": 0.5}}}",
            "TypeSafe response is missing answer 'item_1'",
        ),
    ];
    for (response, message) in cases {
        let mut run = filter_items(filter_args(numbers(2))).unwrap_or_else(|_| unreachable!());
        assert_eq!(
            run.accept(&to_json(&parse(response))).unwrap_err(),
            ToolError::Internal(message.to_string())
        );
        assert!(run.next_call().is_some());
    }
}

fn rank_args(items: Vec<Value>, levels: usize) -> RankItemsArgs {
    RankItemsArgs {
        items,
        query: "how relevant it is".to_string(),
        levels: (0..levels).map(|i| Value::from(format!("level {i}"))).collect(),
        top_k: None,
        model: None,
    }
}

fn run_rank(
    args: RankItemsArgs,
    rule: impl Fn(&Value, &str) -> Value,
) -> (Vec<Value>, Result<Value, ToolError>) {
    let mut calls = Vec::new();
    let steps = args.levels.len() as f64 - 1.0;
    let mut run = match rank_items(args) {
        Ok(run) => run,
        Err(e) => return (calls, Err(e)),
    };
    while let Some(body) = run.next_call() {
        let body = to_value(&body);
        let response = respond(&body, &rule);
        calls.push(body);
        if let Err(e) = run.accept(&to_json(&response)) {
            return (calls, Err(e));
        }
    }
    let normalized: Vec<Real> =
        run.scored.iter().map(|s| real_of(f64::from_bits(s.score.bits) / steps)).collect();
    (calls, Ok(to_value(&run.report(&normalized))))
}

fn scores(list: Vec<f64>) -> impl Fn(&Value, &str) -> Value {
    move |_, id| {
        object(vec![("score", number(list[place(id)])), ("confidence", number(0.25))])
    }
}

#[test]
fn items_are_ranked_best_first_and_ties_keep_their_order() {
    let mut args = rank_args(numbers(6), 3);
    args.top_k = Some(2);
    let (_, report) = run_rank(args, scores(vec![0.5, 2.0, 1.0, 2.0, 0.0, 1.0]));
    assert_eq!(
        report.unwrap(),
        parse(
            r#"{
                "level_count": 3,
                "top": [
                    {"i": 1, "score": 2.0, "normalized": 1.0, "confidence": 0.25},
                    {"i": 3, "score": 2.0, "normalized": 1.0, "confidence": 0.25}
                ],
                "ranked": [1, 3, 2, 5, 0, 4],
                "items": [
                    {"i": 0, "score": 0.5, "normalized": 0.25, "confidence": 0.25},
                    {"i": 1, "score": 2.0, "normalized": 1.0, "confidence": 0.25},
                    {"i": 2, "score": 1.0, "normalized": 0.5, "confidence": 0.25},
                    {"i": 3, "score": 2.0, "normalized": 1.0, "confidence": 0.25},
                    {"i": 4, "score": 0.0, "normalized": 0.0, "confidence": 0.25},
                    {"i": 5, "score": 1.0, "normalized": 0.5, "confidence": 0.25}
                ]
            }"#
        )
    );
}

#[test]
fn scores_beyond_the_top_are_reported() {
    let report = |second: f64| {
        let mut args = rank_args(numbers(2), 3);
        args.top_k = Some(1);
        run_rank(args, scores(vec![2.0, second])).1.unwrap()
    };
    let (a, b) = (report(1.0), report(0.5));
    assert_eq!(a["top"], b["top"]);
    assert_eq!(a["ranked"], b["ranked"]);
    assert_eq!(a["items"][1]["score"], number(1.0));
    assert_eq!(b["items"][1]["score"], number(0.5));
}

#[test]
fn a_rank_lists_every_item_once_over_many_calls() {
    let (calls, report) = run_rank(rank_args(numbers(250), 10), |state, id| {
        let item = state["items"][place(id)].as_f64().unwrap();
        object(vec![("score", number(item)), ("confidence", number(1.0))])
    });
    assert_eq!(calls.len(), 2);
    let report = report.unwrap();
    let expected: Vec<Value> = (0..250).rev().map(Value::from).collect();
    assert_eq!(report["ranked"], Value::Array(expected));
    assert_eq!(report["top"].as_array().unwrap().len(), 10);
    assert_eq!(report["top"][0]["normalized"], number(249.0 / 9.0));
}

#[test]
fn the_top_holds_at_least_one_and_at_most_all_items() {
    for (asked, shown) in [(Some(0), 1), (Some(2), 2), (Some(99), 3), (None, 3)] {
        let mut args = rank_args(numbers(3), 2);
        args.top_k = asked;
        let (_, report) = run_rank(args, scores(vec![0.1, 0.2, 0.3]));
        let report = report.unwrap();
        assert_eq!(report["top"].as_array().unwrap().len(), shown);
        assert_eq!(report["ranked"].as_array().unwrap().len(), 3);
    }
}

#[test]
fn a_rank_asks_for_a_score_on_the_levels() {
    let (calls, _) = run_rank(rank_args(numbers(1), 2), scores(vec![0.0]));
    assert_eq!(
        calls[0]["questions"],
        parse(
            r#"{
                "item_0": {
                    "type": "score",
                    "instructions": {
                        "criterion": "how relevant it is",
                        "scope": "`items[0]`",
                        "focus": "Score the scoped item against the criterion; ignore every other item in `items`."
                    },
                    "criteria": ["level 0", "level 1"]
                }
            }"#
        )
    );
}

#[test]
fn levels_out_of_bounds_are_refused() {
    for levels in [0, 1, 11] {
        let (calls, report) = run_rank(rank_args(numbers(1), levels), scores(vec![0.0]));
        assert!(calls.is_empty());
        assert_eq!(
            report.unwrap_err(),
            ToolError::InvalidParams(format!(
                "'levels' has {levels} entries; ranking needs between 2 and 10 ordered levels"
            ))
        );
    }
    let (_, empty) = run_rank(rank_args(Vec::new(), 0), scores(vec![]));
    assert_eq!(
        empty.unwrap_err(),
        ToolError::InvalidParams("'items' must contain at least one item".to_string())
    );
}

#[test]
fn a_score_is_read_before_its_confidence() {
    let mut run = rank_items(rank_args(numbers(1), 2)).unwrap_or_else(|_| unreachable!());
    let cases = [
        ("{\"answers\": {\"item_0\": {}}}", "answer 'item_0' has no numeric 'score'"),
        (
            "{\"answers\": {\"item_0\": {\"score\": 1.5}}}",
            "answer 'item_0' has no numeric 'confidence'",
        ),
    ];
    for (response, message) in cases {
        assert_eq!(
            run.accept(&to_json(&parse(response))).unwrap_err(),
            ToolError::Internal(message.to_string())
        );
    }
}

fn categories(names: &[&str]) -> Table<Json> {
    let mut table = Table::new();
    for name in names {
        table.insert(name.to_string(), Json::Given(Value::from(format!("about {name}"))));
    }
    table
}

fn run_classify(
    args: ClassifyItemsArgs,
    rule: impl Fn(&Value, &str) -> Value,
) -> (Vec<Value>, Result<Value, ToolError>) {
    let mut calls = Vec::new();
    let mut run = match classify_items(args) {
        Ok(run) => run,
        Err(e) => return (calls, Err(e)),
    };
    while let Some(body) = run.next_call() {
        let body = to_value(&body);
        let response = respond(&body, &rule);
        calls.push(body);
        if let Err(e) = run.accept(&to_json(&response)) {
            return (calls, Err(e));
        }
    }
    (calls, Ok(to_value(&run.report())))
}

#[test]
fn each_item_goes_into_the_bucket_of_its_choice() {
    let args = ClassifyItemsArgs {
        items: numbers(5),
        categories: categories(&["zoo", "apple", "none"]),
        model: None,
    };
    let (calls, report) = run_classify(args, |_, id| {
        let choice = ["apple", "zoo", "apple", "zoo", "apple"][place(id)];
        object(vec![("choice", Value::from(choice)), ("confidence", number(0.5))])
    });
    assert_eq!(
        calls[0]["questions"]["item_4"],
        parse(
            r#"{
                "type": "choice",
                "instructions": {
                    "criterion": "Which category best applies to the scoped item?",
                    "scope": "`items[4]`",
                    "focus": "Choose the single best-fitting category; ignore every other item in `items`."
                },
                "criteria": {"apple": "about apple", "none": "about none", "zoo": "about zoo"}
            }"#
        )
    );
    assert_eq!(
        report.unwrap(),
        parse(
            r#"{
                "buckets": {"apple": [0, 2, 4], "none": [], "zoo": [1, 3]},
                "items": [
                    {"i": 0, "choice": "apple", "confidence": 0.5},
                    {"i": 1, "choice": "zoo", "confidence": 0.5},
                    {"i": 2, "choice": "apple", "confidence": 0.5},
                    {"i": 3, "choice": "zoo", "confidence": 0.5},
                    {"i": 4, "choice": "apple", "confidence": 0.5}
                ]
            }"#
        )
    );
}

#[test]
fn buckets_hold_places_in_the_whole_list() {
    let args = ClassifyItemsArgs {
        items: numbers(403),
        categories: categories(&["even", "odd"]),
        model: None,
    };
    let (calls, report) = run_classify(args, |state, id| {
        let item = state["items"][place(id)].as_u64().unwrap();
        let choice = if item % 2 == 0 { "even" } else { "odd" };
        object(vec![("choice", Value::from(choice)), ("confidence", number(1.0))])
    });
    assert_eq!(calls.len(), 3);
    let report = report.unwrap();
    let even: Vec<Value> = (0..403).filter(|i| i % 2 == 0).map(Value::from).collect();
    let odd: Vec<Value> = (0..403).filter(|i| i % 2 == 1).map(Value::from).collect();
    assert_eq!(report["buckets"]["even"], Value::Array(even));
    assert_eq!(report["buckets"]["odd"], Value::Array(odd));
}

#[test]
fn categories_out_of_bounds_are_refused() {
    let many: Vec<String> = (0..256).map(|i| format!("c{i}")).collect();
    let cases: [(Vec<&str>, &str); 2] = [
        (Vec::new(), "'categories' must contain at least one category"),
        (
            many.iter().map(|s| s.as_str()).collect(),
            "'categories' has 256 entries; the maximum is 255",
        ),
    ];
    for (names, message) in cases {
        let args =
            ClassifyItemsArgs { items: numbers(1), categories: categories(&names), model: None };
        let (calls, report) = run_classify(args, |_, _| Value::Null);
        assert!(calls.is_empty());
        assert_eq!(report.unwrap_err(), ToolError::InvalidParams(message.to_string()));
    }
}

#[test]
fn a_choice_must_be_a_category() {
    let args = ClassifyItemsArgs {
        items: numbers(2),
        categories: categories(&["a", "b"]),
        model: None,
    };
    let (_, report) = run_classify(args, |_, id| {
        let choice = ["a", "elsewhere"][place(id)];
        object(vec![("choice", Value::from(choice)), ("confidence", number(1.0))])
    });
    assert_eq!(
        report.unwrap_err(),
        ToolError::Internal(
            "answer 'item_1' has the choice 'elsewhere', which is not one of its options"
                .to_string()
        )
    );
}

#[test]
fn a_choice_must_be_text() {
    let args = ClassifyItemsArgs {
        items: numbers(1),
        categories: categories(&["a"]),
        model: None,
    };
    let (_, report) = run_classify(args, |_, _| object(vec![("choice", Value::from(1))]));
    assert_eq!(
        report.unwrap_err(),
        ToolError::Internal("answer 'item_0' has no 'choice'".to_string())
    );
}

fn run_dedupe(
    args: DedupeItemsArgs,
    rule: impl Fn(usize, usize) -> f64,
) -> (Vec<Value>, Result<Value, ToolError>) {
    let mut calls = Vec::new();
    let mut run = match dedupe_items(args) {
        Ok(run) => run,
        Err(e) => return (calls, Err(e)),
    };
    while let Some(body) = run.next_call() {
        let body = to_value(&body);
        let response = respond(&body, |_, id| {
            let parts: Vec<&str> = id.split('_').collect();
            object(vec![(
                "noul",
                number(rule(parts[1].parse().unwrap(), parts[2].parse().unwrap())),
            )])
        });
        calls.push(body);
        if let Err(e) = run.accept(&to_json(&response)) {
            return (calls, Err(e));
        }
    }
    (calls, Ok(to_value(&run.report())))
}

fn dedupe_args(n: usize) -> DedupeItemsArgs {
    DedupeItemsArgs { items: numbers(n), criterion: None, threshold: None, model: None }
}

#[test]
fn pairs_at_the_threshold_make_clusters() {
    let (calls, report) = run_dedupe(dedupe_args(6), |i, j| match (i, j) {
        (0, 3) => 0.75,
        (3, 5) => 0.9,
        (1, 4) => 1.0,
        (0, 1) => 0.7499,
        _ => 0.1,
    });
    assert_eq!(calls.len(), 1);
    assert_eq!(calls[0]["questions"].as_object().unwrap().len(), 15);
    assert_eq!(
        calls[0]["questions"]["pair_3_5"],
        parse(
            r#"{
                "type": "noul",
                "instructions": {
                    "criterion": "Do these two items refer to the same real-world entity (a duplicate, an alias, or the same thing under different wording)?",
                    "scope": "`items[3]` and `items[5]`",
                    "focus": "Judge only the two scoped items; ignore every other item in `items`."
                }
            }"#
        )
    );
    assert_eq!(
        report.unwrap(),
        parse(
            r#"{
                "threshold": 0.75,
                "edge_count": 3,
                "edges": [[0, 3, 0.75], [1, 4, 1.0], [3, 5, 0.9]],
                "clusters": [[1, 4], [0, 3, 5]],
                "probabilities": [
                    [0, 1, 0.7499], [0, 2, 0.1], [0, 3, 0.75], [0, 4, 0.1], [0, 5, 0.1],
                    [1, 2, 0.1], [1, 3, 0.1], [1, 4, 1.0], [1, 5, 0.1],
                    [2, 3, 0.1], [2, 4, 0.1], [2, 5, 0.1],
                    [3, 4, 0.1], [3, 5, 0.9],
                    [4, 5, 0.1]
                ]
            }"#
        )
    );
}

#[test]
fn probabilities_below_the_threshold_are_reported() {
    let report = |p: f64| run_dedupe(dedupe_args(2), move |_, _| p).1.unwrap();
    let (a, b) = (report(0.1), report(0.2));
    assert_eq!(a["edges"], b["edges"]);
    assert_eq!(a["clusters"], b["clusters"]);
    assert_eq!(a["probabilities"], parse("[[0, 1, 0.1]]"));
    assert_eq!(b["probabilities"], parse("[[0, 1, 0.2]]"));
}

#[test]
fn all_pairs_are_asked_about_in_calls_of_bounded_width() {
    let (calls, report) = run_dedupe(dedupe_args(64), |_, _| 0.0);
    let widths: Vec<usize> =
        calls.iter().map(|c| c["questions"].as_object().unwrap().len()).collect();
    assert_eq!(widths.iter().sum::<usize>(), 2016);
    assert_eq!(widths.len(), 14);
    assert!(widths[..13].iter().all(|w| *w == 150));
    assert_eq!(widths[13], 66);
    for call in &calls {
        assert_eq!(call["state"]["items"].as_array().unwrap().len(), 64);
    }
    let report = report.unwrap();
    assert_eq!(report["edge_count"], Value::from(0));
    assert_eq!(report["clusters"], Value::Array(Vec::new()));
}

#[test]
fn batches_of_pairs_cannot_be_seen() {
    let rule = |i: usize, j: usize| if (j - i) % 16 == 0 { 1.0 } else { 0.0 };
    let (calls, report) = run_dedupe(dedupe_args(40), rule);
    assert_eq!(calls.len(), 6);
    let report = report.unwrap();
    let expected: Vec<Value> = (0..40usize)
        .flat_map(|i| (i + 1..40).filter(move |j| (j - i) % 16 == 0).map(move |j| (i, j)))
        .map(|(i, j)| Value::Array(vec![Value::from(i), Value::from(j), number(1.0)]))
        .collect();
    assert_eq!(report["edges"], Value::Array(expected));
    let all: Vec<Value> = (0..40usize)
        .flat_map(|i| (i + 1..40).map(move |j| (i, j)))
        .map(|(i, j)| Value::Array(vec![Value::from(i), Value::from(j), number(rule(i, j))]))
        .collect();
    assert_eq!(report["probabilities"], Value::Array(all));
    assert_eq!(report["clusters"].as_array().unwrap().len(), 16);
}

#[test]
fn the_callers_criterion_replaces_the_default() {
    let mut args = dedupe_args(2);
    args.criterion = Some(parse("[\"same\", 1]"));
    args.threshold = Some(real_of(0.0));
    let (calls, report) = run_dedupe(args, |_, _| 0.0);
    assert_eq!(
        calls[0]["questions"]["pair_0_1"]["instructions"]["criterion"],
        parse("[\"same\", 1]")
    );
    assert_eq!(report.unwrap()["clusters"], parse("[[0, 1]]"));
}

#[test]
fn pairwise_lists_out_of_bounds_are_refused() {
    for n in [0, 1] {
        let (calls, report) = run_dedupe(dedupe_args(n), |_, _| 0.0);
        assert!(calls.is_empty());
        assert_eq!(
            report.unwrap_err(),
            ToolError::InvalidParams("'items' must contain at least two items".to_string())
        );
    }
    let (calls, report) = run_dedupe(dedupe_args(65), |_, _| 0.0);
    assert!(calls.is_empty());
    assert_eq!(
        report.unwrap_err(),
        ToolError::InvalidParams(
            "'items' has 65 entries; pairwise comparison supports at most 64 (split the list or pre-cluster it first)"
                .to_string()
        )
    );
}
