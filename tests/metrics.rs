use kubesleeper::metrics::{
    classify, scrape_url, sum_metric_captures, IngressError, Traefik,
    MetricSample,
};

fn sample(entries: &[(&str, &[(&str, u64)])]) -> MetricSample {
    let mut m = MetricSample::new();
    for (svc, pods) in entries {
        for (uid, n) in pods.iter() {
            m.add(&svc.to_string(), &uid.to_string(), *n);
        }
    }
    m
}

fn count(m: &MetricSample, svc: &str, uid: &str) -> Option<u64> {
    m.services
        .iter()
        .find(|(s, _)| s == svc)
        .and_then(|(_, pods)| pods.iter().find(|(u, _)| u == uid).map(|(_, n)| *n))
}

fn total(v: &[(String, u64)], svc: &str) -> Option<u64> {
    v.iter().find(|(s, _)| s == svc).map(|(_, n)| *n)
}

#[test]
fn same_sample_is_no_activity() {
    let a = sample(&[("web", &[("pod-a", 3), ("pod-b", 4)]), ("api", &[("pod-a", 0)])]);
    let b = sample(&[("web", &[("pod-a", 3), ("pod-b", 4)]), ("api", &[("pod-a", 0)])]);
    assert!(!classify(&a, &b));
    assert!(!classify(&MetricSample::new(), &MetricSample::new()));
}

#[test]
fn grown_counter_is_activity() {
    let prev = sample(&[("web", &[("pod-a", 3), ("pod-b", 4)])]);
    let next = sample(&[("web", &[("pod-a", 3), ("pod-b", 5)])]);
    assert!(classify(&prev, &next));
}

#[test]
fn new_service_or_pod_is_activity() {
    let prev = sample(&[("web", &[("pod-a", 3)])]);
    assert!(classify(&prev, &sample(&[("web", &[("pod-a", 3)]), ("api", &[("pod-a", 0)])])));
    assert!(classify(&prev, &sample(&[("web", &[("pod-a", 3), ("pod-z", 0)])])));
}

#[test]
fn lower_or_missing_counters_are_no_activity() {
    let prev = sample(&[("web", &[("pod-a", 3), ("pod-b", 4)]), ("api", &[("pod-a", 1)])]);
    assert!(!classify(&prev, &sample(&[("web", &[("pod-a", 2)])])));
    assert!(!classify(&prev, &MetricSample::new()));
}

#[test]
fn sample_adds_per_service_and_pod() {
    let mut m = MetricSample::new();
    m.add(&"web".to_string(), &"pod-a".to_string(), 2);
    m.add(&"web".to_string(), &"pod-a".to_string(), 3);
    m.add(&"web".to_string(), &"pod-b".to_string(), 1);
    m.add(&"api".to_string(), &"pod-a".to_string(), u64::MAX);
    m.add(&"api".to_string(), &"pod-a".to_string(), 1);
    assert_eq!(count(&m, "web", "pod-a"), Some(5));
    assert_eq!(count(&m, "web", "pod-b"), Some(1));
    assert_eq!(count(&m, "api", "pod-a"), Some(u64::MAX));
    assert_eq!(m.services.len(), 2);
}

#[test]
fn record_pod_adds_every_service() {
    let mut m = MetricSample::new();
    let counts = vec![("web".to_string(), 7), ("api".to_string(), 2)];
    m.record_pod(&"pod-a".to_string(), &counts);
    m.record_pod(&"pod-b".to_string(), &counts);
    assert_eq!(count(&m, "web", "pod-a"), Some(7));
    assert_eq!(count(&m, "api", "pod-b"), Some(2));
}

#[test]
fn traefik_counters_are_summed_per_service() {
    let dump = "# HELP traefik_service_requests_total How many HTTP requests processed\n\
traefik_service_requests_total{code=\"200\",method=\"GET\",protocol=\"http\",service=\"shop-web-80@kubernetes\"} 12\n\
traefik_service_requests_total{code=\"404\",method=\"GET\",protocol=\"http\",service=\"shop-web-80@kubernetes\"} 3\n\
traefik_service_requests_total{code=\"200\",method=\"GET\",protocol=\"http\",service=\"api-80@kubernetes\"} 5\n\
traefik_entrypoint_requests_total{code=\"200\"} 99\n";
    let v = Traefik::parse_prometheus_metrics(dump).ok().expect("parses");
    assert_eq!(v.len(), 2);
    assert_eq!(total(&v, "shop-web-80@kubernetes"), Some(15));
    assert_eq!(total(&v, "api-80@kubernetes"), Some(5));
    let empty = Traefik::parse_prometheus_metrics("nothing here").ok().expect("parses");
    assert!(empty.is_empty());
}

#[test]
fn oversized_counter_fails_the_pod() {
    let dump = "traefik_service_requests_total{service=\"a\"} 99999999999999999999\n";
    assert!(matches!(Traefik::parse_prometheus_metrics(dump), Err(IngressError::ParsingMetricError(_))));
}

#[test]
fn captures_sum_and_fail() {
    let ok = vec![
        (Some("a".to_string()), Some("1".to_string())),
        (Some("b".to_string()), Some("2".to_string())),
        (Some("a".to_string()), Some("+3".to_string())),
    ];
    let v = sum_metric_captures(&ok).ok().unwrap();
    assert_eq!(total(&v, "a"), Some(4));
    assert_eq!(total(&v, "b"), Some(2));
    let missing = vec![(Some("a".to_string()), None)];
    assert!(matches!(sum_metric_captures(&missing), Err(IngressError::ParsingMetricError(_))));
    let bad = vec![(Some("a".to_string()), Some("x1".to_string()))];
    assert!(matches!(sum_metric_captures(&bad), Err(IngressError::ParsingMetricError(_))));
    let saturating = vec![
        (Some("a".to_string()), Some(u64::MAX.to_string())),
        (Some("a".to_string()), Some("5".to_string())),
    ];
    assert_eq!(total(&sum_metric_captures(&saturating).ok().unwrap(), "a"), Some(u64::MAX));
}

#[test]
fn scrape_url_joins_ip_port_and_path() {
    let ip = "10.0.0.7".to_string();
    let port = "9100".to_string();
    let path = "/metrics".to_string();
    assert_eq!(
        scrape_url(Some(&ip), Some(&port), Some(&path)).ok().unwrap(),
        "http://10.0.0.7:9100/metrics"
    );
    assert!(matches!(scrape_url(Some(&ip), None, Some(&path)), Err(IngressError::ResourceDataError(_))));
    assert!(matches!(scrape_url(None, Some(&port), Some(&path)), Err(IngressError::ResourceDataError(_))));
    assert!(matches!(scrape_url(Some(&ip), Some(&port), None), Err(IngressError::ResourceDataError(_))));
}
