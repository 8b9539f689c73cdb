use kubesleeper::annotations::{extract_kube_annoations, prefixed, Annotations};
use kubesleeper::deploy::{
    backoff_millis, wait_ready_step, Deploy, RawDeployment, WaitStep, MAX_READY_POLLS,
};
use kubesleeper::json::{decode_ports, decode_selector};
use kubesleeper::resource::{ResourceParse, TargetResource};
use kubesleeper::service::{RawService, RawServicePort, Service, ServicePort, TargetPort, SENTINEL_PORT};
use kubesleeper::strmap::StrMap;

fn map(pairs: &[(&str, &str)]) -> StrMap {
    let mut m = StrMap::new();
    for (k, v) in pairs {
        m.insert(k.to_string(), v.to_string());
    }
    m
}

fn get(m: &StrMap, k: &str) -> Option<String> {
    m.get(&k.to_string()).cloned()
}

fn raw_deploy(replicas: Option<i32>, annotations: Option<StrMap>) -> RawDeployment {
    RawDeployment {
        name: Some("web".to_string()),
        namespace: Some("shop".to_string()),
        replicas,
        annotations,
    }
}

fn raw_service(selector: StrMap, ports: Vec<RawServicePort>, annotations: Option<StrMap>) -> RawService {
    RawService {
        name: Some("web".to_string()),
        namespace: Some("shop".to_string()),
        selector: Some(selector),
        ports: Some(ports),
        annotations,
    }
}

fn target_is_name(p: &ServicePort, name: &str) -> bool {
    matches!(&p.target_port, TargetPort::Name(n) if n == name)
}

fn target_is_number(p: &ServicePort, n: i32) -> bool {
    matches!(&p.target_port, TargetPort::Number(m) if *m == n)
}

#[test]
fn deploy_round_trip_through_annotation() {
    let mut d = Deploy::try_from(&raw_deploy(Some(3), None)).ok().expect("awake deploy reads");
    assert_eq!(d.id, "shop/web");
    assert!(!d.is_asleep());
    assert!(d.sleep());
    assert_eq!(d.replicas, 0);
    assert!(d.is_asleep());
    let patch = d.patch_fields();
    assert_eq!(patch.replicas, 0);
    assert_eq!(patch.store_replicas, "3");

    let annotations = map(&[("kubesleeper/store.replicas", patch.store_replicas.as_str())]);
    let mut again = Deploy::try_from(&raw_deploy(Some(0), Some(annotations)))
        .ok()
        .expect("asleep deploy reads");
    assert_eq!(again.store_replicas, 3);
    assert!(again.wake());
    assert_eq!(again.replicas, 3);
    assert_eq!(again.patch_fields().store_replicas, "3");
}

#[test]
fn deploy_sleep_twice_is_sleep_once() {
    let mut d = Deploy::try_from(&raw_deploy(Some(5), None)).ok().unwrap();
    assert!(d.sleep());
    assert!(!d.sleep());
    assert_eq!(d.replicas, 0);
    assert_eq!(d.store_replicas, 5);
    assert!(d.wake());
    assert!(!d.wake());
    assert_eq!(d.replicas, 5);
}

#[test]
fn deploy_asleep_iff_zero_replicas() {
    let d = Deploy::try_from(&raw_deploy(Some(1), None)).ok().unwrap();
    assert!(!d.is_asleep());
    let a = map(&[("kubesleeper/store.replicas", "2")]);
    let d = Deploy::try_from(&raw_deploy(Some(0), Some(a))).ok().unwrap();
    assert!(d.is_asleep());
}

#[test]
fn missing_asleep_annotation_is_a_parse_error() {
    let r = Deploy::try_from(&raw_deploy(Some(0), None));
    assert!(matches!(
        r,
        Err(ResourceParse::MissingAnnotationInSleepState { ref id, ref annotation })
            if id == "shop/web" && annotation == "kubesleeper/store.replicas"
    ));
    let other = map(&[("other/store.replicas", "2")]);
    let r = Deploy::try_from(&raw_deploy(Some(0), Some(other)));
    assert!(matches!(r, Err(ResourceParse::MissingAnnotationInSleepState { .. })));
}

#[test]
fn unreadable_stored_replicas_is_parse_failed() {
    for bad in ["three", "", "0", "-2", "99999999999"] {
        let a = map(&[("kubesleeper/store.replicas", bad)]);
        let r = Deploy::try_from(&raw_deploy(Some(0), Some(a)));
        assert!(matches!(r, Err(ResourceParse::ParseFailed { ref id, ref value, .. }) if id == "shop/web" && value == ".annotations.kubesleeper/store.replicas"), "{bad}");
    }
}

#[test]
fn deploy_missing_fields() {
    let mut raw = raw_deploy(Some(1), None);
    raw.name = None;
    assert!(matches!(Deploy::try_from(&raw), Err(ResourceParse::MissingValue { ref value, .. }) if value == "name"));
    let mut raw = raw_deploy(Some(1), None);
    raw.namespace = None;
    assert!(matches!(Deploy::try_from(&raw), Err(ResourceParse::MissingValue { ref value, .. }) if value == "namespace"));
    let raw = raw_deploy(None, None);
    assert!(matches!(Deploy::try_from(&raw), Err(ResourceParse::MissingValue { ref id, .. }) if id == "shop/web"));
    let raw = raw_deploy(Some(-1), None);
    assert!(matches!(Deploy::try_from(&raw), Err(ResourceParse::ParseFailed { .. })));
}

#[test]
fn service_port_rewrite_and_restore() {
    let ports = vec![RawServicePort { port: 80, target_port: Some(TargetPort::Name("web".to_string())) }];
    let mut s = Service::try_from(&raw_service(map(&[("app", "foo")]), ports, None)).ok().expect("reads");
    assert_eq!(s.id, "shop/web");
    assert!(!s.is_asleep());
    assert!(s.sleep());
    assert!(s.is_asleep());
    assert_eq!(s.selector.len(), 1);
    assert_eq!(get(&s.selector, "app").as_deref(), Some("kubesleeper"));
    assert_eq!(s.ports.len(), 1);
    assert_eq!(s.ports[0].port, 80);
    assert!(target_is_number(&s.ports[0], SENTINEL_PORT));

    let patch = s.patch_fields();
    assert_eq!(patch.store_selector, r#"{"app":"foo"}"#);
    assert_eq!(patch.store_ports, r#"[{"port":80,"targetPort":"web"}]"#);

    let annotations = map(&[
        ("kubesleeper/store.selectors", patch.store_selector.as_str()),
        ("kubesleeper/store.ports", patch.store_ports.as_str()),
        ("unrelated", "x"),
    ]);
    let raw_ports = vec![RawServicePort { port: 80, target_port: Some(TargetPort::Number(8000)) }];
    let mut asleep = Service::try_from(&raw_service(map(&[("app", "kubesleeper")]), raw_ports, Some(annotations)))
        .ok()
        .expect("asleep service reads");
    assert!(asleep.is_asleep());
    assert!(!asleep.sleep());
    assert!(asleep.wake());
    assert!(!asleep.is_asleep());
    assert_eq!(asleep.selector.len(), 1);
    assert_eq!(get(&asleep.selector, "app").as_deref(), Some("foo"));
    assert_eq!(asleep.ports.len(), 1);
    assert_eq!(asleep.ports[0].port, 80);
    assert!(target_is_name(&asleep.ports[0], "web"));
}

#[test]
fn service_asleep_only_with_exactly_the_sentinel_selector() {
    let s = Service::try_from(&raw_service(map(&[("app", "kubesleeper"), ("x", "y")]), vec![], None)).ok().unwrap();
    assert!(!s.is_asleep());
    let s = Service::try_from(&raw_service(map(&[("app", "other")]), vec![], None)).ok().unwrap();
    assert!(!s.is_asleep());
}

#[test]
fn service_port_target_defaults_to_port() {
    let ports = vec![RawServicePort { port: 8080, target_port: None }];
    let s = Service::try_from(&raw_service(map(&[("app", "a")]), ports, None)).ok().unwrap();
    assert!(target_is_number(&s.ports[0], 8080));
    assert!(target_is_number(&s.store_ports[0], 8080));
}

#[test]
fn service_asleep_without_annotations_is_an_error() {
    let r = Service::try_from(&raw_service(map(&[("app", "kubesleeper")]), vec![], None));
    assert!(matches!(r, Err(ResourceParse::MissingAnnotationInSleepState { ref annotation, .. }) if annotation == "kubesleeper/store.selectors"));
    let a = map(&[("kubesleeper/store.selectors", "{}")]);
    let r = Service::try_from(&raw_service(map(&[("app", "kubesleeper")]), vec![], Some(a)));
    assert!(matches!(r, Err(ResourceParse::MissingAnnotationInSleepState { ref annotation, .. }) if annotation == "kubesleeper/store.ports"));
    let a = map(&[("kubesleeper/store.selectors", "not json"), ("kubesleeper/store.ports", "[]")]);
    let r = Service::try_from(&raw_service(map(&[("app", "kubesleeper")]), vec![], Some(a)));
    assert!(matches!(r, Err(ResourceParse::ParseFailed { ref value, .. }) if value == ".annotations.kubesleeper/store.selectors"));
    let a = map(&[("kubesleeper/store.selectors", "{}"), ("kubesleeper/store.ports", "[1]")]);
    let r = Service::try_from(&raw_service(map(&[("app", "kubesleeper")]), vec![], Some(a)));
    assert!(matches!(r, Err(ResourceParse::ParseFailed { ref value, .. }) if value == ".annotations.kubesleeper/store.ports"));
}

#[test]
fn service_missing_fields() {
    let mut raw = raw_service(map(&[]), vec![], None);
    raw.selector = None;
    assert!(matches!(Service::try_from(&raw), Err(ResourceParse::MissingValue { ref value, .. }) if value == ".spec.selector"));
    let mut raw = raw_service(map(&[]), vec![], None);
    raw.ports = None;
    assert!(matches!(Service::try_from(&raw), Err(ResourceParse::MissingValue { ref value, .. }) if value == ".spec.ports"));
    let mut raw = raw_service(map(&[]), vec![], None);
    raw.name = None;
    assert!(matches!(Service::try_from(&raw), Err(ResourceParse::MissingValue { ref id, .. }) if id == "?/?"));
}

#[test]
fn annotations_keep_only_prefixed_keys() {
    let raw = map(&[("kubesleeper/store.replicas", "4"), ("other", "x"), ("kubesleeper", "y")]);
    let a = Annotations::from_raw(&raw);
    assert_eq!(a.get("store.replicas").map(|s| s.as_str()), Some("4"));
    assert_eq!(a.get("other"), None);
    assert_eq!(a.0.len(), 1);
    assert_eq!(prefixed("store.ports"), "kubesleeper/store.ports");
}

#[test]
fn extracted_annotations_lose_their_prefix() {
    let raw = map(&[("kubesleeper/store.replicas", "4"), ("a/b", "x"), ("kubesleeper/", "e")]);
    let m = extract_kube_annoations(Some(&raw));
    assert_eq!(m.len(), 2);
    assert_eq!(get(&m, "store.replicas").as_deref(), Some("4"));
    assert_eq!(get(&m, "").as_deref(), Some("e"));
    assert_eq!(extract_kube_annoations(None).len(), 0);
}

#[test]
fn readiness_backoff_doubles_up_to_twelve_seconds() {
    let want = [100u64, 200, 400, 800, 1600, 3200, 6400, 12800, 12800];
    for (i, w) in want.iter().enumerate() {
        assert_eq!(backoff_millis(i as u32), *w);
    }
    assert_eq!(backoff_millis(999), 12800);
}

#[test]
fn readiness_steps() {
    assert!(matches!(wait_ready_step(2, 2, 0), WaitStep::Ready));
    assert!(matches!(wait_ready_step(2, 0, 0), WaitStep::Wait(100)));
    assert!(matches!(wait_ready_step(2, 1, 3), WaitStep::Wait(800)));
    assert!(matches!(wait_ready_step(2, 2, MAX_READY_POLLS), WaitStep::GiveUp));
    assert!(matches!(wait_ready_step(2, 0, MAX_READY_POLLS - 1), WaitStep::GiveUp));
    assert!(matches!(wait_ready_step(2, 2, MAX_READY_POLLS - 1), WaitStep::Ready));
    assert!(matches!(wait_ready_step(2, 0, MAX_READY_POLLS - 2), WaitStep::Wait(12800)));
}

#[test]
fn stored_state_decodes_what_patch_writes() {
    let ports = vec![
        RawServicePort { port: 80, target_port: Some(TargetPort::Name("http".to_string())) },
        RawServicePort { port: 9090, target_port: None },
    ];
    let mut s = Service::try_from(&raw_service(map(&[("app", "shop"), ("tier", "web")]), ports, None)).ok().unwrap();
    s.sleep();
    let patch = s.patch_fields();
    let sel = decode_selector(&patch.store_selector).unwrap();
    assert_eq!(get(&sel, "tier").as_deref(), Some("web"));
    let ps = decode_ports(&patch.store_ports).unwrap();
    assert!(target_is_name(&ps[0], "http"));
    assert!(target_is_number(&ps[1], 9090));
}
