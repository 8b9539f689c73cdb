use kubesleeper::json::{decode_ports, decode_selector, encode_ports, encode_selector};
use kubesleeper::service::{ServicePort, TargetPort};
use kubesleeper::strmap::StrMap;
use kubesleeper::text::{chars_of, i32_to_string, parse_i32, parse_u64, string_of};

fn map(pairs: &[(&str, &str)]) -> StrMap {
    let mut m = StrMap::new();
    for (k, v) in pairs {
        m.insert(k.to_string(), v.to_string());
    }
    m
}

fn get(m: &StrMap, k: &str) -> Option<String> {
    m.get(&k.to_string()).cloned()
}

fn port(p: i32, t: TargetPort) -> ServicePort {
    ServicePort { port: p, target_port: t }
}

fn same_ports(a: &[ServicePort], b: &[ServicePort]) -> bool {
    a.len() == b.len()
        && a.iter().zip(b.iter()).all(|(x, y)| {
            x.port == y.port
                && match (&x.target_port, &y.target_port) {
                    (TargetPort::Number(m), TargetPort::Number(n)) => m == n,
                    (TargetPort::Name(m), TargetPort::Name(n)) => m == n,
                    _ => false,
                }
        })
}

#[test]
fn selector_encodes_compact_json() {
    let m = map(&[("app", "foo")]);
    assert_eq!(encode_selector(&m), r#"{"app":"foo"}"#);
    assert_eq!(encode_selector(&StrMap::new()), "{}");
}

#[test]
fn selector_round_trip_keeps_entries() {
    let m = map(&[("app", "web"), ("tier", "front end"), ("q", "a\"b\\c\nd\u{1}")]);
    let text = encode_selector(&m);
    assert_eq!(text, "{\"app\":\"web\",\"tier\":\"front end\",\"q\":\"a\\\"b\\\\c\\nd\\u0001\"}");
    let back = decode_selector(&text).expect("decodes");
    assert_eq!(back.len(), 3);
    assert_eq!(get(&back, "app").as_deref(), Some("web"));
    assert_eq!(get(&back, "tier").as_deref(), Some("front end"));
    assert_eq!(get(&back, "q").as_deref(), Some("a\"b\\c\nd\u{1}"));
}

#[test]
fn selector_decoding_accepts_whitespace_and_escapes() {
    let back = decode_selector(" { \"a\" : \"x\\u00e9\\/\" ,\n\"b\":\"\" } ").expect("decodes");
    assert_eq!(get(&back, "a").as_deref(), Some("x\u{e9}/"));
    assert_eq!(get(&back, "b").as_deref(), Some(""));
}

#[test]
fn selector_decoding_later_key_wins() {
    let back = decode_selector(r#"{"a":"1","a":"2"}"#).expect("decodes");
    assert_eq!(back.len(), 1);
    assert_eq!(get(&back, "a").as_deref(), Some("2"));
}

#[test]
fn selector_decoding_rejects_bad_text() {
    for bad in [
        "",
        "{",
        "{\"a\":1}",
        "{\"a\":\"b\"",
        "{\"a\" \"b\"}",
        "[]",
        "{\"a\":\"b\"} x",
        "{\"a\":\"\\ud800\"}",
        "{\"a\":\"\\q\"}",
        "{\"a\":\"b\",}",
    ] {
        assert!(decode_selector(bad).is_none(), "{bad}");
    }
}

#[test]
fn ports_encode_compact_json() {
    let ps = vec![port(80, TargetPort::Name("web".to_string())), port(443, TargetPort::Number(8443))];
    assert_eq!(
        encode_ports(&ps),
        r#"[{"port":80,"targetPort":"web"},{"port":443,"targetPort":8443}]"#
    );
    assert_eq!(encode_ports(&Vec::new()), "[]");
}

#[test]
fn ports_round_trip() {
    let ps = vec![
        port(80, TargetPort::Name("web".to_string())),
        port(-1, TargetPort::Number(i32::MIN)),
        port(i32::MAX, TargetPort::Number(0)),
    ];
    let back = decode_ports(&encode_ports(&ps)).expect("decodes");
    assert!(same_ports(&back, &ps));
}

#[test]
fn ports_decoding_accepts_either_key_order() {
    let back = decode_ports(r#"[ { "targetPort" : 9000 , "port" : 90 } ]"#).expect("decodes");
    assert!(same_ports(&back, &[port(90, TargetPort::Number(9000))]));
}

#[test]
fn ports_decoding_rejects_bad_text() {
    for bad in [
        r#"[{"port":80}]"#,
        r#"[{"port":"80","targetPort":1}]"#,
        r#"[{"port":080,"targetPort":1}]"#,
        r#"[{"port":2147483648,"targetPort":1}]"#,
        r#"[{"port":80,"port":1}]"#,
        r#"[{"port":1.5,"targetPort":1}]"#,
        r#"{"port":80,"targetPort":1}"#,
    ] {
        assert!(decode_ports(bad).is_none(), "{bad}");
    }
}

#[test]
fn integers_read_as_std_reads_them() {
    for (text, want) in [
        ("3", Some(3)),
        ("+7", Some(7)),
        ("-12", Some(-12)),
        ("007", Some(7)),
        ("2147483647", Some(i32::MAX)),
        ("-2147483648", Some(i32::MIN)),
        ("2147483648", None),
        ("", None),
        ("-", None),
        ("+", None),
        ("1a", None),
        (" 1", None),
    ] {
        assert_eq!(parse_i32(&chars_of(text)), want, "{text}");
        assert_eq!(parse_i32(&chars_of(text)), text.parse::<i32>().ok(), "{text}");
    }
    assert_eq!(parse_u64(&chars_of("18446744073709551615")), Some(u64::MAX));
    assert_eq!(parse_u64(&chars_of("18446744073709551616")), None);
    assert_eq!(parse_u64(&chars_of("-1")), None);
}

#[test]
fn integers_render_in_decimal() {
    for n in [0, 3, -3, 10, i32::MAX, i32::MIN] {
        assert_eq!(i32_to_string(n), n.to_string());
        assert_eq!(parse_i32(&chars_of(&i32_to_string(n))), Some(n));
    }
}

#[test]
fn chars_and_strings_convert_both_ways() {
    let v = chars_of("héllo");
    assert_eq!(v, vec!['h', 'é', 'l', 'l', 'o']);
    assert_eq!(string_of(&v), "héllo");
}

#[test]
fn ports_decoding_ignores_other_keys() {
    let back = decode_ports(r#"[{"name":"http","port":80,"protocol":"TCP","targetPort":"web","nodePort":30080}]"#)
        .expect("decodes");
    assert!(same_ports(&back, &[port(80, TargetPort::Name("web".to_string()))]));
}

#[test]
fn selector_decoding_reads_surrogate_pairs() {
    let back = decode_selector(r#"{"e":"\ud83d\ude00"}"#).expect("decodes");
    assert_eq!(get(&back, "e").as_deref(), Some("\u{1f600}"));
    assert!(decode_selector(r#"{"e":"\ude00"}"#).is_none());
    assert!(decode_selector(r#"{"e":"\ud83dx"}"#).is_none());
}
