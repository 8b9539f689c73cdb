use kubesleeper::config::{
    choose_config_file, Config, ConfigError, ControllerConfig, Identifier, ResourceName,
    ResourceNameError, ServerConfig,
};
use kubesleeper::controller::{
    app_response, check_kubesleeper, deploy_state, error_page, intercepts, is_target,
    locate_target, select_kubesleeper, AppResponse, ControllerError, DeploymentMeta, Msg,
    ResourceKind,
};
use kubesleeper::deploy::{Deploy, RawDeployment};
use kubesleeper::resource::ResourceParse;
use kubesleeper::strmap::StrMap;

fn map(pairs: &[(&str, &str)]) -> StrMap {
    let mut m = StrMap::new();
    for (k, v) in pairs {
        m.insert(k.to_string(), v.to_string());
    }
    m
}

fn meta(labels: Option<StrMap>) -> DeploymentMeta {
    DeploymentMeta {
        namespace: Some("ks".to_string()),
        name: Some("kubesleeper".to_string()),
        labels,
    }
}

#[test]
fn defaults() {
    assert_eq!(ServerConfig::default().port, 8000);
    let c = ControllerConfig::default();
    assert_eq!(c.sleepiness_duration, 15);
    assert_eq!(c.refresh_interval, 5);
    let c = Config::default();
    assert_eq!(c.server.port, 8000);
    assert_eq!(c.sleepiness_millis(), 15000);
}

#[test]
fn config_values_are_checked() {
    assert!(Config::new(8080, 30, 1).is_ok());
    assert!(matches!(Config::new(0, 30, 1), Err(ConfigError::InvalidValue(_))));
    assert!(matches!(Config::new(8080, 30, 0), Err(ConfigError::InvalidValue(_))));
    let c = Config::new(1, u64::MAX, 1).ok().unwrap();
    assert_eq!(c.sleepiness_millis(), u64::MAX);
}

#[test]
fn config_file_choice() {
    let p = "conf.yaml".to_string();
    let yaml = "yaml".to_string();
    let yml = "yml".to_string();
    let json = "json".to_string();
    let c = choose_config_file(Some(&p), true, Some(&yaml), false).ok().unwrap();
    assert_eq!(c.path.as_deref(), Some("conf.yaml"));
    assert!(!c.yml_warning);
    assert!(choose_config_file(Some(&p), true, Some(&yml), false).ok().unwrap().yml_warning);
    assert!(matches!(choose_config_file(Some(&p), true, Some(&json), false), Err(ConfigError::InvalidFileExtension(ref e)) if e == "json"));
    assert!(matches!(choose_config_file(Some(&p), true, None, false), Err(ConfigError::InvalidFileExtension(_))));
    assert!(matches!(choose_config_file(Some(&p), false, Some(&yaml), true), Err(ConfigError::FileNotFoud(ref f)) if f == "conf.yaml"));
    assert_eq!(choose_config_file(None, false, None, true).ok().unwrap().path.as_deref(), Some("kubesleeper.yaml"));
    assert!(choose_config_file(None, false, None, false).ok().unwrap().path.is_none());
}

#[test]
fn resource_names_follow_rfc1123() {
    for good in ["a", "ab", "kube-system", "a.b-c", "a1b"] {
        assert!(ResourceName::try_from(good.to_string()).is_ok(), "{good}");
    }
    let long_ok = format!("a{}a", "b".repeat(61));
    assert!(ResourceName::try_from(long_ok).is_ok());
    let too_long = format!("a{}a", "b".repeat(62));
    for bad in ["", "A", "1a", "a-", "a1", "a_b", "ab\n", "-a", "é"] {
        assert!(matches!(ResourceName::try_from(bad.to_string()), Err(ResourceNameError::InvalidName(_))), "{bad}");
    }
    assert!(ResourceName::try_from(too_long).is_err());
    assert_eq!(ResourceName::try_from("shop".to_string()).ok().unwrap().to_string(), "shop");
}

#[test]
fn identifiers_split_at_the_first_slash() {
    let id = Identifier::try_from("shop/web/v1".to_string()).ok().unwrap();
    assert_eq!(id.namespace.to_string(), "shop");
    assert_eq!(id.name, "web/v1");
    assert_eq!(id.to_string(), "shop/web/v1");
    assert!(matches!(Identifier::try_from("web".to_string()), Err(ConfigError::IdentifierParsing { .. })));
    assert!(matches!(Identifier::try_from("Shop/web".to_string()), Err(ConfigError::IdentifierParsing { .. })));
}

#[test]
fn kubesleeper_deployment_check() {
    assert!(check_kubesleeper(&vec![meta(Some(map(&[("app", "kubesleeper")])))]).is_ok());
    assert!(matches!(check_kubesleeper(&vec![]), Err(ControllerError::MissingKubesleeperDeploy)));
    let two = vec![meta(None), meta(None)];
    assert!(matches!(check_kubesleeper(&two), Err(ControllerError::TooMuchKubesleeperDeploy(2))));
    assert!(matches!(
        check_kubesleeper(&vec![meta(None)]),
        Err(ControllerError::ResourceParse(ResourceParse::MissingValue { ref id, ref value })) if id == "ks/kubesleeper" && value == ".metadata.labels"
    ));
    assert!(matches!(
        check_kubesleeper(&vec![meta(Some(map(&[("x", "y")])))]),
        Err(ControllerError::ResourceParse(ResourceParse::MissingValue { .. }))
    ));
    assert!(matches!(
        check_kubesleeper(&vec![meta(Some(map(&[("app", "other")])))]),
        Err(ControllerError::ResourceParse(ResourceParse::ParseFailed { .. }))
    ));
}

#[test]
fn kubesleeper_deployment_selection() {
    let all = vec![meta(None), meta(Some(map(&[("app", "kubesleeper")]))), meta(Some(map(&[("app", "x")])))];
    assert_eq!(select_kubesleeper(&all).ok(), Some(1));
    assert!(matches!(select_kubesleeper(&vec![meta(None)]), Err(ControllerError::MissingKubesleeperDeploy)));
    let dup = vec![meta(Some(map(&[("app", "kubesleeper")]))), meta(Some(map(&[("app", "kubesleeper")])))];
    assert!(matches!(select_kubesleeper(&dup), Err(ControllerError::TooMuchKubesleeperDeploy(2))));
}

#[test]
fn catch_all_route() {
    assert!(intercepts("shop/cart"));
    assert!(intercepts(""));
    assert!(intercepts("kubesleeperx"));
    assert!(!intercepts("kubesleeper"));
    assert!(!intercepts("kubesleeper/wait"));
    assert!(matches!(app_response("kubesleeper/static/x.css", Ok(())), AppResponse::Ignored));
    match app_response("a", Err("lock poisoned\nbye".to_string())) {
        AppResponse::InternalError(page) => {
            assert!(page.contains("<h1>500</h1>"));
            assert!(page.contains("lock poisoned<br>bye"));
        }
        _ => panic!("expected an error page"),
    }
    assert_eq!(
        error_page(&"x".to_string()),
        "<!DOCTYPE html><html><body><h1>500</h1><code>x</code></body></html>"
    );
}

#[test]
fn deployment_status_words() {
    assert_eq!(deploy_state(0, 0), "asleep");
    assert_eq!(deploy_state(3, 1), "waking up (1/3)");
    assert_eq!(deploy_state(3, 3), "awake");
}

#[test]
fn manual_target_lookup() {
    let deploys: Vec<Deploy> = ["a", "b"]
        .iter()
        .map(|n| {
            Deploy::try_from(&RawDeployment {
                name: Some(n.to_string()),
                namespace: Some("ns".to_string()),
                replicas: Some(1),
                annotations: None,
            })
            .ok()
            .unwrap()
        })
        .collect();
    assert_eq!(locate_target(&deploys, &"ns/b".to_string()).ok(), Some(1));
    assert!(matches!(
        locate_target(&deploys, &"ns/c".to_string()),
        Err(Msg::ResourceNotFound { ref resource_id }) if resource_id == "ns/c"
    ));
}

#[test]
fn targets_exclude_the_controller_and_the_system() {
    let s = |x: &str| x.to_string();
    assert!(is_target(ResourceKind::Deploy, &s("shop"), &s("web"), None));
    assert!(!is_target(ResourceKind::Deploy, &s("kube-system"), &s("web"), None));
    assert!(!is_target(ResourceKind::Deploy, &s("ks"), &s("kubesleeper"), None));
    let own = map(&[("app", "kubesleeper")]);
    assert!(!is_target(ResourceKind::Service, &s("ks"), &s("proxy"), Some(&own)));
    let other = map(&[("app", "web")]);
    assert!(is_target(ResourceKind::Service, &s("shop"), &s("web"), Some(&other)));
    assert!(!is_target(ResourceKind::Service, &s("default"), &s("kubernetes"), None));
    assert!(is_target(ResourceKind::Deploy, &s("default"), &s("kubernetes"), None));
}
