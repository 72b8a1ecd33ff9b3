use apicase::json::{js_number, js_string, parse_json, Json};
use apicase::util::{http_date, iso8601, iso8601_secs, parse_iso8601, stamp14};

fn v(text: &str) -> Json {
    parse_json(text).unwrap()
}

#[test]
fn string_conversion_matches_javascript() {
    assert_eq!(js_string(&v("200")), "200");
    assert_eq!(js_string(&v("5.0")), "5", "整数值的浮点不带 .0");
    assert_eq!(js_string(&v("1.5")), "1.5");
    assert_eq!(js_string(&v("true")), "true");
    assert_eq!(js_string(&v("null")), "null");
    assert_eq!(js_string(&v("\"x\"")), "x");
    assert_eq!(js_string(&v("{\"a\":1}")), "{\"a\":1}");
    assert_eq!(js_string(&v("[1,2]")), "[1,2]");
}

#[test]
fn iso8601_matches_javascript_toisostring() {
    let cases = [
        (0u64, "1970-01-01T00:00:00.000Z"),
        (1, "1970-01-01T00:00:00.001Z"),
        (1_785_369_600_000, "2026-07-30T00:00:00.000Z"),
        (1_785_456_896_789, "2026-07-31T00:14:56.789Z"),
        (1_709_164_800_000, "2024-02-29T00:00:00.000Z"),
        (951_782_400_000, "2000-02-29T00:00:00.000Z"),
        (1_767_225_599_999, "2025-12-31T23:59:59.999Z"),
    ];
    for (ms, want) in cases {
        assert_eq!(iso8601(ms), want, "{ms}");
    }
}

#[test]
fn http_date_matches_javascript_toutcstring() {
    let cases = [
        (0u64, "Thu, 01 Jan 1970 00:00:00 GMT"),
        (1_785_369_600_000, "Thu, 30 Jul 2026 00:00:00 GMT"),
        (1_785_456_896_789, "Fri, 31 Jul 2026 00:14:56 GMT"),
        (1_709_164_800_000, "Thu, 29 Feb 2024 00:00:00 GMT"),
        (951_782_400_000, "Tue, 29 Feb 2000 00:00:00 GMT"),
        (1_767_225_599_000, "Wed, 31 Dec 2025 23:59:59 GMT"),
    ];
    for (ms, want) in cases {
        assert_eq!(http_date(ms), want, "{ms}");
    }
}

#[test]
fn stamp14_is_the_iso_timestamp_without_separators() {
    for ms in [0u64, 1_785_369_600_000, 1_709_164_800_000, 1_767_225_599_999] {
        let want: String = iso8601(ms).chars().filter(char::is_ascii_digit).take(14).collect();
        assert_eq!(stamp14(ms), want, "{ms}");
    }
    assert_eq!(stamp14(1_785_369_600_000), "20260730000000");
}

#[test]
fn number_conversion_matches_javascript() {
    let js_number = |x: &Json| -> Option<f64> {
        let text = js_number(x)?;
        let t = text.trim();
        if t.is_empty() {
            return Some(0.0);
        }
        t.parse::<f64>().ok().filter(|f| f.is_finite())
    };
    assert_eq!(js_number(&v("\"200\"")), Some(200.0));
    assert_eq!(js_number(&v("\"  7 \"")), Some(7.0));
    assert_eq!(js_number(&v("\"\"")), Some(0.0), "Number('') 是 0");
    assert_eq!(js_number(&v("null")), Some(0.0), "Number(null) 是 0");
    assert_eq!(js_number(&v("true")), Some(1.0));
    assert_eq!(js_number(&v("\"abc\"")), None, "NaN");
    assert_eq!(js_number(&v("{\"a\":1}")), None);
}

#[test]
fn times_are_read_back() {
    for ms in [0u64, 1_709_164_800_000, 1_785_456_896_000, 253_402_300_799_000] {
        assert_eq!(parse_iso8601(&iso8601_secs(ms)), Some(ms), "{ms}");
        assert_eq!(parse_iso8601(&iso8601(ms)), Some(ms), "{ms}");
    }
    assert_eq!(parse_iso8601("yesterday"), None);
    assert_eq!(parse_iso8601("2026-13-01T00:00:00Z"), None);
}

#[test]
fn stamps_sort_as_times_do() {
    let times = [0, 1, 999, 1000, 59_999, 60_000, 86_399_999, 86_400_000, 951_782_400_000, 1_709_164_800_000, 253_402_300_799_999];
    for (i, a) in times.iter().enumerate() {
        let s = stamp14(*a);
        assert!(s.len() == 14 && s.bytes().all(|b| b.is_ascii_digit()), "{s}");
        assert_eq!(s, iso8601(*a).chars().filter(char::is_ascii_digit).take(14).collect::<String>());
        for b in &times[i..] {
            assert!(s <= stamp14(*b), "{a} {b}");
        }
    }
}
