//! The parts that the tools are made of.

use mcp_typesafe::chunk::{chunk_ranges, chunk_ranges_by_size};
use mcp_typesafe::cluster::clusters_from_edges;
use mcp_typesafe::config::{check_logging, LogDestination, Transport};
use mcp_typesafe::error::{internal_error, invalid_params_error, ToolError};
use mcp_typesafe::json::{pretty, written, Json};
use mcp_typesafe::ranking::rank_places;
use mcp_typesafe::reals::{
    Real, HALF, INFINITY_BITS, NEGATIVE_INFINITY, ONE, THREE_QUARTERS, THREE_TENTHS, ZERO,
};
use mcp_typesafe::server::{
    is_success, models_failure, models_failure_with, systemone_failure, systemone_failure_with,
    TypeSafeServer,
};
use mcp_typesafe::table::Table;
use mcp_typesafe::text::{comes_before, decimal_text};
use serde_json::Value;

fn real_of(x: f64) -> Real {
    Real { bits: x.to_bits() }
}

#[test]
fn constants_are_the_reals_they_are_named_after() {
    assert_eq!(ZERO, 0.0f64.to_bits());
    assert_eq!(THREE_TENTHS, 0.3f64.to_bits());
    assert_eq!(HALF, 0.5f64.to_bits());
    assert_eq!(THREE_QUARTERS, 0.75f64.to_bits());
    assert_eq!(ONE, 1.0f64.to_bits());
    assert_eq!(INFINITY_BITS, f64::INFINITY.to_bits());
    assert_eq!(NEGATIVE_INFINITY, f64::NEG_INFINITY.to_bits());
}

#[test]
fn reals_compare_by_their_bits_as_they_do_by_value() {
    let all = [
        f64::NAN, f64::NEG_INFINITY, f64::INFINITY, -0.0, 0.0, 1.0, -1.0, 0.1, -0.1, 1e300,
        -1e300, f64::MIN_POSITIVE, -f64::MIN_POSITIVE, 5e-324, -5e-324, f64::MAX, f64::MIN,
    ];
    for a in all {
        assert_eq!(real_of(a).is_nan(), a.is_nan());
        assert_eq!(real_of(a).is_finite(), a.is_finite());
        for b in all {
            assert_eq!(real_of(a).lt(real_of(b)), a < b);
            assert_eq!(real_of(a).ge(real_of(b)), a >= b);
        }
        let clamped = f64::from_bits(real_of(a).clamp(real_of(0.0), real_of(1.0)).bits);
        assert!(clamped == a.clamp(0.0, 1.0) || a.is_nan() && clamped.is_nan());
    }
}

#[test]
fn numerals_are_decimal() {
    for n in [0, 7, 10, 255, 1000, 999_999_999, u64::MAX] {
        assert_eq!(decimal_text(n), n.to_string());
    }
}

#[test]
fn texts_are_ordered_as_strings_are() {
    let all = ["", "a", "aa", "b", "item_10", "item_2", "Z", "z", "\u{e9}", "\u{1f600}", "\u{ffff}"];
    for a in all {
        for b in all {
            assert_eq!(comes_before(a, b), a < b);
        }
    }
}

#[test]
fn a_table_is_walked_in_the_order_of_its_keys() {
    let mut table: Table<Real> = Table::new();
    assert!(table.is_empty());
    for (key, value) in [("m", 1.0), ("z", 2.0), ("a", 3.0), ("m", 4.0)] {
        table.insert(key.to_string(), real_of(value));
    }
    assert_eq!(table.len(), 3);
    let keys: Vec<&str> = (0..3).map(|i| table.key_at(i).as_str()).collect();
    assert_eq!(keys, vec!["a", "m", "z"]);
    assert_eq!(*table.get("m").unwrap(), real_of(4.0));
    assert_eq!(*table.value_at(1), real_of(4.0));
    assert!(table.get("b").is_none());
    assert!(table.contains_key("z"));
}

#[test]
fn a_later_field_replaces_an_earlier_one() {
    let object = Json::object().with("a", Json::Null).with("a", Json::text("x"));
    assert_eq!(object.get("a").unwrap().as_text().unwrap(), "x");
    assert!(object.get("b").is_none());
    assert!(Json::array().get("a").is_none());
}

#[test]
fn integers_are_read_as_the_nearest_real() {
    for n in [0i128, 1, -5, 1 << 53, (1 << 53) + 1, i64::MIN as i128, u64::MAX as i128] {
        assert_eq!(Json::Integer(n).as_real(), Some(real_of(n as f64)));
    }
    assert_eq!(Json::Integer(u64::MAX as i128 + 1).as_real(), None);
    assert_eq!(Json::Integer(i64::MIN as i128 - 1).as_real(), None);
    assert_eq!(Json::text("1").as_real(), None);
}

#[test]
fn numbers_that_are_not_finite_have_no_document() {
    for x in [f64::NAN, f64::INFINITY, f64::NEG_INFINITY] {
        assert!(matches!(Json::number(real_of(x)), Json::Null));
    }
    assert!(matches!(Json::number(real_of(0.5)), Json::Real(r) if r == real_of(0.5)));
}

#[test]
fn documents_are_written_for_clients_with_indents() {
    let value: Value = serde_json::from_str("{\"a\":[1,null]}").unwrap();
    assert_eq!(pretty(&value).unwrap(), "{\n  \"a\": [\n    1,\n    null\n  ]\n}");
    assert_eq!(written(Ok("text".to_string())).unwrap(), "text");
    assert_eq!(
        written(Err("why".to_string())).unwrap_err(),
        ToolError::Internal("why".to_string())
    );
}

#[test]
fn calls_are_filled_up_to_their_limits() {
    assert_eq!(chunk_ranges_by_size(&vec![]), vec![]);
    assert_eq!(chunk_ranges_by_size(&vec![64_000]), vec![(0, 1)]);
    assert_eq!(chunk_ranges_by_size(&vec![32_000, 32_000, 1]), vec![(0, 2), (2, 3)]);
    assert_eq!(chunk_ranges_by_size(&vec![1, 64_000, 1]), vec![(0, 1), (1, 2), (2, 3)]);
    assert_eq!(chunk_ranges_by_size(&vec![99_999, 99_999]), vec![(0, 1), (1, 2)]);
    assert_eq!(chunk_ranges_by_size(&vec![9; 401]), vec![(0, 200), (200, 400), (400, 401)]);
}

#[test]
fn items_are_sized_by_their_compact_text() {
    let fits = Value::from("x".repeat(63_990));
    assert_eq!(chunk_ranges(&vec![fits.clone(), fits]), vec![(0, 1), (1, 2)]);
    let half = Value::from("x".repeat(31_990));
    assert_eq!(chunk_ranges(&vec![half.clone(), half.clone()]), vec![(0, 2)]);
    let more = Value::from("x".repeat(31_991));
    assert_eq!(chunk_ranges(&vec![half, more]), vec![(0, 1), (1, 2)]);
    let wide = Value::from("\u{e9}".repeat(15_995));
    assert_eq!(chunk_ranges(&vec![wide.clone(), wide]), vec![(0, 2)]);
    let wider = Value::from("\u{e9}".repeat(15_996));
    assert_eq!(chunk_ranges(&vec![wider.clone(), wider]), vec![(0, 1), (1, 2)]);
    let nulls = vec![Value::Null; 201];
    assert_eq!(chunk_ranges(&nulls), vec![(0, 200), (200, 201)]);
}

#[test]
fn places_are_ranked_best_first() {
    let values: Vec<Real> = [0.5, 0.9, 0.5, -1.0, 0.9].iter().map(|x| real_of(*x)).collect();
    assert_eq!(rank_places(&values), vec![1, 4, 0, 2, 3]);
    assert_eq!(rank_places(&Vec::new()), Vec::<usize>::new());
    assert_eq!(rank_places(&vec![real_of(-0.0), real_of(0.0)]), vec![0, 1]);
}

#[test]
fn edges_make_clusters_of_what_they_join() {
    let p = real_of(1.0);
    assert_eq!(clusters_from_edges(0, &vec![]), Vec::<Vec<usize>>::new());
    assert_eq!(clusters_from_edges(3, &vec![]), Vec::<Vec<usize>>::new());
    assert_eq!(clusters_from_edges(4, &vec![(0, 1, p), (2, 3, p)]), vec![vec![0, 1], vec![2, 3]]);
    assert_eq!(
        clusters_from_edges(6, &vec![(0, 5, p), (1, 2, p), (2, 4, p)]),
        vec![vec![1, 2, 4], vec![0, 5]]
    );
    assert_eq!(
        clusters_from_edges(5, &vec![(0, 1, p), (1, 2, p), (0, 2, p), (3, 4, p), (2, 4, p)]),
        vec![vec![0, 1, 2, 3, 4]]
    );
}

#[test]
fn errors_carry_their_heading_and_message() {
    let cases = [
        (invalid_params_error("m".to_string()), "Invalid params", "m"),
        (internal_error("n".to_string()), "Internal error", "n"),
        (
            ToolError::NotConfigured,
            "TypeSafe API key not configured",
            "Pass --typesafe-api-key or set TYPESAFE_API_KEY environment variable",
        ),
    ];
    for (error, title, message) in cases {
        assert_eq!(error.title(), title);
        assert_eq!(error.data().get("error").unwrap().as_text().unwrap(), message);
    }
}

#[test]
fn nothing_is_asked_without_a_key() {
    let server = TypeSafeServer::new(None, "http://x".to_string());
    assert_eq!(server.require_api_key().unwrap_err(), ToolError::NotConfigured);
    assert_eq!(server.authorization().unwrap_err(), ToolError::NotConfigured);
    let server = TypeSafeServer::new(Some("k".to_string()), "http://x".to_string());
    assert_eq!(server.require_api_key().unwrap(), "k");
    assert_eq!(server.authorization().unwrap(), "Bearer k");
}

#[test]
fn slashes_at_the_end_of_the_base_url_make_no_difference() {
    for base in ["https://h", "https://h/", "https://h///"] {
        let server = TypeSafeServer::new(None, base.to_string());
        assert_eq!(server.systemone_url(), "https://h/v1/systemone");
        assert_eq!(server.models_url(), "https://h/v1/models");
    }
    let server = TypeSafeServer::new(None, "///".to_string());
    assert_eq!(server.models_url(), "/v1/models");
    let server = TypeSafeServer::new(None, "http://\u{e9}/a/".to_string());
    assert_eq!(server.systemone_url(), "http://\u{e9}/a/v1/systemone");
}

#[test]
fn statuses_of_success_are_the_two_hundreds() {
    for code in [100, 199, 200, 204, 299, 300, 404, 529] {
        assert_eq!(is_success(code), reqwest::StatusCode::from_u16(code).unwrap().is_success());
    }
}

#[test]
fn refusals_are_reported_with_their_status() {
    let cases = [
        (401, "401 Unauthorized (check the configured TypeSafe API key): no"),
        (429, "429 Too Many Requests (rate limit exceeded; retry after a short delay): no"),
        (
            529,
            "529 <unknown status code> (TypeSafe is temporarily overloaded; retry after a short delay): no",
        ),
        (500, "500 Internal Server Error: no"),
    ];
    for (code, shown) in cases {
        assert_eq!(
            systemone_failure(code, "no"),
            ToolError::Internal(format!("TypeSafe API returned HTTP {shown}"))
        );
        assert_eq!(
            models_failure(code, "gone"),
            ToolError::Internal(format!(
                "TypeSafe API returned HTTP {}: gone",
                reqwest::StatusCode::from_u16(code).unwrap()
            ))
        );
    }
    assert_eq!(
        systemone_failure_with(429, Some("Slow"), "t"),
        ToolError::Internal(
            "TypeSafe API returned HTTP 429 Slow (rate limit exceeded; retry after a short delay): t"
                .to_string()
        )
    );
    assert_eq!(
        models_failure_with(401, None, ""),
        ToolError::Internal("TypeSafe API returned HTTP 401 <unknown status code>: ".to_string())
    );
}

#[test]
fn the_log_keeps_off_standard_output_where_clients_read_it() {
    assert_eq!(
        check_logging(Transport::Stdio, LogDestination::Stdout).unwrap_err(),
        "Cannot log to stdout when using stdio transport. Use stderr or file logging."
    );
    assert!(check_logging(Transport::Sse, LogDestination::Stdout).is_ok());
    for transport in [Transport::Stdio, Transport::Sse] {
        assert!(check_logging(transport, LogDestination::Stderr).is_ok());
        assert!(check_logging(transport, LogDestination::File).is_ok());
    }
}
