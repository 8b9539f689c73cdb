use kubesleeper::controller::{app_response, deploy_state, AppResponse};
use kubesleeper::deploy::{wait_ready_step, Deploy, RawDeployment, WaitStep};
use kubesleeper::metrics::MetricSample;
use kubesleeper::resource::TargetResource;
use kubesleeper::state::{
    execution_order, Notification, NotificationKind, Phase, State, StateError, StateKind,
};

const SECOND: u64 = 1000;

fn idle(t: u64) -> Notification {
    Notification::new(NotificationKind::NoActivity, t)
}

fn busy(t: u64) -> Notification {
    Notification::new(NotificationKind::Activity, t)
}

fn sample(entries: &[(&str, &[(&str, u64)])]) -> MetricSample {
    let mut m = MetricSample::new();
    for (svc, pods) in entries {
        for (uid, n) in pods.iter() {
            m.add(&svc.to_string(), &uid.to_string(), *n);
        }
    }
    m
}

#[test]
fn notification_new_keeps_kind_and_time() {
    let n = Notification::new(NotificationKind::NoActivity, 42);
    assert_eq!(n.kind, NotificationKind::NoActivity);
    assert_eq!(n.timestamp, 42);
}

#[test]
fn start_asleep_first_hit_wakes() {
    let threshold = 15 * SECOND;
    let mut state = State::new(0);
    assert_eq!(state.update_from_notification(idle(SECOND), threshold), None);
    assert_eq!(state.update_from_notification(idle(17 * SECOND), threshold), Some(StateKind::Asleep));
    assert_eq!(state.kind, StateKind::Asleep);
    assert_eq!(execution_order(StateKind::Asleep), vec![Phase::Deployments, Phase::Services]);
    let mut deploys: Vec<Deploy> = [3, 1]
        .iter()
        .map(|r| {
            Deploy::try_from(&RawDeployment {
                name: Some(format!("d{r}")),
                namespace: Some("ns".to_string()),
                replicas: Some(*r),
                annotations: None,
            })
            .ok()
            .unwrap()
        })
        .collect();
    for d in deploys.iter_mut() {
        let before = d.replicas;
        assert!(d.sleep());
        assert_eq!(d.replicas, 0);
        assert_eq!(d.patch_fields().store_replicas, before.to_string());
    }
    assert_eq!(state.update_from_notification(busy(18 * SECOND), threshold), Some(StateKind::Awake));
    assert_eq!(state.kind, StateKind::Awake);
    assert_eq!(
        execution_order(StateKind::Awake),
        vec![Phase::Services, Phase::Deployments, Phase::WaitReady]
    );
}

#[test]
fn activity_during_idle_window_resets_hysteresis() {
    let threshold = 15 * SECOND;
    let mut state = State::new(0);
    let mut actions = Vec::new();
    actions.push(state.update_from_notification(idle(0), threshold));
    actions.push(state.update_from_notification(idle(10 * SECOND), threshold));
    actions.push(state.update_from_notification(busy(12 * SECOND), threshold));
    assert!(!actions.contains(&Some(StateKind::Asleep)));
    assert_eq!(state.kind, StateKind::Awake);
    assert_eq!(state.since, busy(12 * SECOND));
    assert_eq!(state.update_from_notification(idle(20 * SECOND), threshold), None);
    assert_eq!(state.update_from_notification(idle(30 * SECOND), threshold), None);
    assert_eq!(state.update_from_notification(idle(35 * SECOND), threshold), Some(StateKind::Asleep));
}

#[test]
fn threshold_is_inclusive() {
    let mut state = State::new(0);
    assert_eq!(state.update_from_notification(idle(5), 10), None);
    assert_eq!(state.update_from_notification(idle(14), 10), None);
    assert_eq!(state.update_from_notification(idle(15), 10), Some(StateKind::Asleep));
}

#[test]
fn idle_run_sleeps_once_at_first_ripe_tick() {
    let threshold = 15 * SECOND;
    let delta = 4 * SECOND;
    let mut state = State::new(0);
    let mut actions = Vec::new();
    for k in 0..10u64 {
        actions.push(state.update_from_notification(idle(k * delta), threshold));
    }
    let sleeps: Vec<usize> = actions
        .iter()
        .enumerate()
        .filter(|(_, a)| a.is_some())
        .map(|(k, _)| k)
        .collect();
    assert_eq!(sleeps, vec![4]);
    assert_eq!(actions[4], Some(StateKind::Asleep));
    assert_eq!(state.kind, StateKind::Asleep);
}

#[test]
fn concurrent_activity_wakes_once() {
    let mut state = State::new(0);
    state.update_from_notification(idle(0), 10);
    state.update_from_notification(idle(20), 10);
    assert_eq!(state.kind, StateKind::Asleep);
    let actions: Vec<Option<StateKind>> =
        (0..5).map(|i| state.update_from_notification(busy(30 + i), 10)).collect();
    assert_eq!(actions[0], Some(StateKind::Awake));
    assert!(actions[1..].iter().all(|a| a.is_none()));
}

#[test]
fn request_during_scale_up_returns_wait_page() {
    let mut state = State::new(0);
    assert_eq!(state.kind, StateKind::Awake);
    assert_eq!(state.update_from_notification(busy(5), 15 * SECOND), None);
    match app_response("shop/cart", Ok(())) {
        AppResponse::Success(location) => assert_eq!(location, "/kubesleeper/wait"),
        _ => panic!("expected a redirect"),
    }
    assert_eq!(deploy_state(2, 0), "waking up (0/2)");
    assert!(matches!(wait_ready_step(2, 0, 0), WaitStep::Wait(100)));
}

#[test]
fn samples_drive_the_regime() {
    let threshold = 10;
    let mut state = State::new(0);
    let s1 = sample(&[("web", &[("pod-a", 5)])]);
    assert_eq!(state.create_notification_from_metrics(&s1, 1).kind, NotificationKind::Activity);
    assert_eq!(state.update_from_metrics(s1, 1, threshold), None);
    let same = sample(&[("web", &[("pod-a", 5)])]);
    assert_eq!(state.update_from_metrics(same, 2, threshold), None);
    let same = sample(&[("web", &[("pod-a", 5)])]);
    assert_eq!(state.update_from_metrics(same, 12, threshold), Some(StateKind::Asleep));
    let more = sample(&[("web", &[("pod-a", 6)])]);
    assert_eq!(state.update_from_metrics(more, 13, threshold), Some(StateKind::Awake));
}

#[test]
fn state_kind_words() {
    assert_eq!(StateKind::Asleep.to_string(), "asleep");
    assert_eq!(StateKind::Awake.to_string(), "awake");
    assert!(matches!(StateKind::try_from("asleep"), Ok(StateKind::Asleep)));
    assert!(matches!(StateKind::try_from("awake"), Ok(StateKind::Awake)));
    assert!(matches!(StateKind::try_from("Awake"), Err(StateError::InvalidStateKindError(_))));
    assert!(matches!(StateKind::try_from(""), Err(StateError::InvalidStateKindError(_))));
}
