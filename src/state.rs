//! The regime of the controller and how notifications of activity move it.
//!
//! The regime starts awake. A run of "no activity" notifications that lasts at least the
//! sleepiness duration puts it to sleep once; the next activity wakes it.
use vstd::prelude::*;
use crate::metrics::{MetricSample, activity, classify};
use crate::resource::ResourceParse;
use crate::text::chars_of;

verus! {

#[derive(Clone, Copy, PartialEq, Eq, Structural, Debug)]
pub enum NotificationKind {
    Activity,
    NoActivity,
}

/// A verdict on traffic, stamped with the time it was reached (in milliseconds of a
/// monotonic clock).
#[derive(Clone, Copy, PartialEq, Eq, Structural, Debug)]
pub struct Notification {
    pub kind: NotificationKind,
    pub timestamp: u64,
}

impl Notification {
    pub fn new(kind: NotificationKind, timestamp: u64) -> (r: Notification)
        ensures
            r.kind == kind,
            r.timestamp == timestamp,
    {
        Notification { kind, timestamp }
    }
}

#[derive(Clone, Copy, PartialEq, Eq, Structural, Debug)]
pub enum StateKind {
    Asleep,
    Awake,
}

/// `asleep`
pub open spec fn asleep_word() -> Seq<char> {
    seq!['a', 's', 'l', 'e', 'e', 'p']
}

/// `awake`
pub open spec fn awake_word() -> Seq<char> {
    seq!['a', 'w', 'a', 'k', 'e']
}

pub open spec fn state_kind_word(k: StateKind) -> Seq<char> {
    match k {
        StateKind::Asleep => asleep_word(),
        StateKind::Awake => awake_word(),
    }
}

/// Why the regime could not be read or moved.
pub enum StateError {
    /// The lock around the regime was poisoned.
    LockError(String),
    /// A resource could not be read while acting on a transition.
    Controller(ResourceParse),
    /// A word that names no regime.
    InvalidStateKindError(String),
}

impl StateKind {
    /// The lower-case name of the regime.
    pub fn to_string(&self) -> (r: String)
        ensures
            r@ == state_kind_word(*self),
    {
        let v = match self {
            StateKind::Asleep => vec!['a', 's', 'l', 'e', 'e', 'p'],
            StateKind::Awake => vec!['a', 'w', 'a', 'k', 'e'],
        };
        assert(v@ =~= state_kind_word(*self));
        crate::text::string_of(&v)
    }

    /// Reads `asleep` or `awake`.
    pub fn try_from(value: &str) -> (r: Result<StateKind, StateError>)
        ensures
            value@ == asleep_word() ==> r == Ok::<StateKind, StateError>(StateKind::Asleep),
            value@ == awake_word() ==> r == Ok::<StateKind, StateError>(StateKind::Awake),
            value@ != asleep_word() && value@ != awake_word() ==> r matches Err(
                StateError::InvalidStateKindError(_),
            ),
    {
        let v = chars_of(value);
        if v.len() == 6 && v[0] == 'a' && v[1] == 's' && v[2] == 'l' && v[3] == 'e' && v[4] == 'e'
            && v[5] == 'p' {
            assert(v@ =~= asleep_word());
            return Ok(StateKind::Asleep);
        }
        if v.len() == 5 && v[0] == 'a' && v[1] == 'w' && v[2] == 'a' && v[3] == 'k' && v[4] == 'e' {
            assert(v@ =~= awake_word());
            return Ok(StateKind::Awake);
        }
        proof {
            if v@ == asleep_word() {
                assert(v@[5] == 'p');
            }
            if v@ == awake_word() {
                assert(v@[4] == 'e');
            }
        }
        Err(
            StateError::InvalidStateKindError(
                String::from_str("valid regimes are 'asleep' and 'awake'"),
            ),
        )
    }
}

/// One row of the transition table: the regime and the notification that opened the
/// current run, an incoming notification, and the idle threshold give the new regime,
/// the new opening notification and the action to take, if any.
pub open spec fn step(
    kind: StateKind,
    since: Notification,
    n: Notification,
    threshold: int,
) -> (StateKind, Notification, Option<StateKind>) {
    match (since.kind, n.kind) {
        (NotificationKind::Activity, NotificationKind::Activity) => (kind, since, None),
        (NotificationKind::Activity, NotificationKind::NoActivity) => (kind, n, None),
        (NotificationKind::NoActivity, NotificationKind::NoActivity) => {
            if n.timestamp - since.timestamp >= threshold && kind != StateKind::Asleep {
                (StateKind::Asleep, since, Some(StateKind::Asleep))
            } else {
                (kind, since, None)
            }
        },
        (NotificationKind::NoActivity, NotificationKind::Activity) => (
            StateKind::Awake,
            n,
            Some(StateKind::Awake),
        ),
    }
}

/// The regime, opening notification and actions after a sequence of notifications.
pub open spec fn run(
    kind: StateKind,
    since: Notification,
    ns: Seq<Notification>,
    threshold: int,
) -> (StateKind, Notification, Seq<Option<StateKind>>)
    decreases ns.len(),
{
    if ns.len() == 0 {
        (kind, since, Seq::empty())
    } else {
        let (k1, s1, acts) = run(kind, since, ns.drop_last(), threshold);
        let (k2, s2, a) = step(k1, s1, ns.last(), threshold);
        (k2, s2, acts.push(a))
    }
}

/// The regime shared by the interception endpoint and the scheduler.
pub struct State {
    pub kind: StateKind,
    /// The first notification of the current run of notifications of one kind.
    pub since: Notification,
    /// The last sample of request counters.
    pub metrics: MetricSample,
}

impl State {
    pub open spec fn wf(&self) -> bool {
        self.metrics.wf()
    }

    /// The regime at start: awake, as if activity had just been seen, with no counters.
    pub fn new(now: u64) -> (r: State)
        ensures
            r.wf(),
            r.kind == StateKind::Awake,
            r.since == (Notification { kind: NotificationKind::Activity, timestamp: now }),
            r.metrics@ == Map::<Seq<char>, Map<Seq<char>, u64>>::empty(),
    {
        State {
            kind: StateKind::Awake,
            since: Notification::new(NotificationKind::Activity, now),
            metrics: MetricSample::new(),
        }
    }

    /// The notification that a new sample of counters amounts to, against the last one.
    pub fn create_notification_from_metrics(&self, new_metrics: &MetricSample, now: u64) -> (r:
        Notification)
        requires
            self.wf(),
            new_metrics.wf(),
        ensures
            r.timestamp == now,
            r.kind == if activity(self.metrics@, new_metrics@) {
                NotificationKind::Activity
            } else {
                NotificationKind::NoActivity
            },
    {
        if classify(&self.metrics, new_metrics) {
            Notification::new(NotificationKind::Activity, now)
        } else {
            Notification::new(NotificationKind::NoActivity, now)
        }
    }

    /// Applies the transition table to a notification; returns the action to take.
    pub fn update_from_notification(
        &mut self,
        notification: Notification,
        sleepiness_duration: u64,
    ) -> (action: Option<StateKind>)
        ensures
            (final(self).kind, final(self).since, action) == step(
                old(self).kind,
                old(self).since,
                notification,
                sleepiness_duration as int,
            ),
            final(self).metrics == old(self).metrics,
    {
        match (self.since.kind, notification.kind) {
            (NotificationKind::Activity, NotificationKind::Activity) => None,
            (NotificationKind::Activity, NotificationKind::NoActivity) => {
                self.since = notification;
                None
            },
            (NotificationKind::NoActivity, NotificationKind::NoActivity) => {
                if notification.timestamp >= self.since.timestamp && notification.timestamp
                    - self.since.timestamp >= sleepiness_duration && self.kind != StateKind::Asleep {
                    self.kind = StateKind::Asleep;
                    Some(StateKind::Asleep)
                } else {
                    None
                }
            },
            (NotificationKind::NoActivity, NotificationKind::Activity) => {
                self.since = notification;
                self.kind = StateKind::Awake;
                Some(StateKind::Awake)
            },
        }
    }

    /// Classifies a new sample against the last one, applies the result to the regime and
    /// keeps the new sample; returns the action to take.
    pub fn update_from_metrics(
        &mut self,
        new_metrics: MetricSample,
        now: u64,
        sleepiness_duration: u64,
    ) -> (action: Option<StateKind>)
        requires
            old(self).wf(),
            new_metrics.wf(),
        ensures
            final(self).wf(),
            (final(self).kind, final(self).since, action) == step(
                old(self).kind,
                old(self).since,
                Notification {
                    kind: if activity(old(self).metrics@, new_metrics@) {
                        NotificationKind::Activity
                    } else {
                        NotificationKind::NoActivity
                    },
                    timestamp: now,
                },
                sleepiness_duration as int,
            ),
            final(self).metrics@ == new_metrics@,
    {
        let n = self.create_notification_from_metrics(&new_metrics, now);
        let action = self.update_from_notification(n, sleepiness_duration);
        self.metrics = new_metrics;
        action
    }
}

/// A part of carrying out a transition.
#[derive(Clone, Copy, PartialEq, Eq, Structural, Debug)]
pub enum Phase {
    /// Put every target Deployment in the new regime.
    Deployments,
    /// Put every target Service in the new regime.
    Services,
    /// Wait until every woken Deployment has its replicas ready.
    WaitReady,
}

/// The order in which a transition is carried out: to sleep, Deployments then Services;
/// to wake, Services, then Deployments, then the wait for readiness.
pub fn execution_order(action: StateKind) -> (r: Vec<Phase>)
    ensures
        action == StateKind::Asleep ==> r@ == seq![Phase::Deployments, Phase::Services],
        action == StateKind::Awake ==> r@ == seq![Phase::Services, Phase::Deployments, Phase::WaitReady],
{
    match action {
        StateKind::Asleep => {
            let r = vec![Phase::Deployments, Phase::Services];
            assert(r@ =~= seq![Phase::Deployments, Phase::Services]);
            r
        },
        StateKind::Awake => {
            let r = vec![Phase::Services, Phase::Deployments, Phase::WaitReady];
            assert(r@ =~= seq![Phase::Services, Phase::Deployments, Phase::WaitReady]);
            r
        },
    }
}

/// `count` "no activity" notifications, `delta` apart, the first at `t0`.
pub open spec fn idle_ticks(t0: int, delta: int, count: nat) -> Seq<Notification> {
    Seq::new(
        count,
        |k: int| Notification { kind: NotificationKind::NoActivity, timestamp: (t0 + k * delta) as u64 },
    )
}

/// Whether tick `k` of a run of idle ticks `delta` apart is the first one at least
/// `threshold` after the first tick.
pub open spec fn first_ripe(k: int, delta: int, threshold: int) -> bool {
    k * delta >= threshold && (k - 1) * delta < threshold
}

/// Hysteresis: starting awake after activity at `t0`, a run of "no activity"
/// notifications at `t0`, `t0 + delta`, `t0 + 2 delta`, ... puts the regime to sleep at
/// the first tick `k` with `k * delta >= threshold`, with one Sleep action there and no
/// other action.
pub proof fn lemma_idle_run_sleeps_once(t0: u64, delta: u64, threshold: int, count: nat)
    requires
        threshold > 0,
        delta > 0,
        t0 + count * delta <= u64::MAX,
    ensures
        ({
            let (k, s, acts) = run(
                StateKind::Awake,
                Notification { kind: NotificationKind::Activity, timestamp: t0 },
                idle_ticks(t0 as int, delta as int, count),
                threshold,
            );
            &&& acts.len() == count
            &&& forall|j: int| 0 <= j < count ==> #[trigger] acts[j] == if first_ripe(j, delta as int, threshold) {
                Some(StateKind::Asleep)
            } else {
                None
            }
            &&& forall|j1: int, j2: int| 0 <= j1 < count && 0 <= j2 < count && #[trigger] acts[j1] is Some
                && #[trigger] acts[j2] is Some ==> j1 == j2
            &&& k == if count >= 1 && (count - 1) * delta >= threshold {
                StateKind::Asleep
            } else {
                StateKind::Awake
            }
        }),
    decreases count,
{
    let d = delta as int;
    let init = Notification { kind: NotificationKind::Activity, timestamp: t0 };
    let ns = idle_ticks(t0 as int, d, count);
    let (k, s, acts) = run(StateKind::Awake, init, ns, threshold);
    lemma_idle_run_state(t0, delta, threshold, count);
    assert forall|j1: int, j2: int| 0 <= j1 < count && 0 <= j2 < count && #[trigger] acts[j1] is Some
        && #[trigger] acts[j2] is Some implies j1 == j2 by {
        if j1 < j2 {
            assert(first_ripe(j1, d, threshold) && first_ripe(j2, d, threshold));
            assert(j1 * d <= (j2 - 1) * d) by (nonlinear_arith)
                requires
                    j1 <= j2 - 1,
                    d > 0,
            ;
        } else if j2 < j1 {
            assert(first_ripe(j1, d, threshold) && first_ripe(j2, d, threshold));
            assert(j2 * d <= (j1 - 1) * d) by (nonlinear_arith)
                requires
                    j2 <= j1 - 1,
                    d > 0,
            ;
        }
    }
}

proof fn lemma_idle_run_state(t0: u64, delta: u64, threshold: int, count: nat)
    requires
        threshold > 0,
        delta > 0,
        t0 + count * delta <= u64::MAX,
    ensures
        ({
            let (k, s, acts) = run(
                StateKind::Awake,
                Notification { kind: NotificationKind::Activity, timestamp: t0 },
                idle_ticks(t0 as int, delta as int, count),
                threshold,
            );
            &&& acts.len() == count
            &&& forall|j: int| 0 <= j < count ==> #[trigger] acts[j] == if first_ripe(j, delta as int, threshold) {
                Some(StateKind::Asleep)
            } else {
                None
            }
            &&& k == if count >= 1 && (count - 1) * delta >= threshold {
                StateKind::Asleep
            } else {
                StateKind::Awake
            }
            &&& count >= 1 ==> s == (Notification { kind: NotificationKind::NoActivity, timestamp: t0 })
            &&& count == 0 ==> s == (Notification { kind: NotificationKind::Activity, timestamp: t0 })
        }),
    decreases count,
{
    let d = delta as int;
    let init = Notification { kind: NotificationKind::Activity, timestamp: t0 };
    let ns = idle_ticks(t0 as int, d, count);
    if count > 0 {
        let m = (count - 1) as nat;
        assert(m * d <= count * d) by (nonlinear_arith)
            requires
                m <= count,
                d > 0,
        ;
        lemma_idle_run_state(t0, delta, threshold, m);
        assert(ns.drop_last() =~= idle_ticks(t0 as int, d, m));
        let (k1, s1, acts1) = run(StateKind::Awake, init, idle_ticks(t0 as int, d, m), threshold);
        let last = ns.last();
        assert(last.timestamp == t0 + m * d);
        assert(m * d >= 0) by (nonlinear_arith)
            requires
                d > 0,
        ;
        let (k, s, acts) = run(StateKind::Awake, init, ns, threshold);
        assert(acts == acts1.push(step(k1, s1, last, threshold).2));
        if m == 0 {
            assert(0 * d == 0);
        } else {
            assert((m - 1) * d == m * d - d) by (nonlinear_arith);
            assert(last.timestamp - s1.timestamp == m * d);
        }
        assert forall|j: int| 0 <= j < count implies #[trigger] acts[j] == if first_ripe(j, d, threshold) {
            Some(StateKind::Asleep)
        } else {
            None
        } by {
            if j < m {
                assert(acts[j] == acts1[j]);
            }
        }
    }
}

/// Successive calls of `update_from_notification` are the run: one more notification
/// takes the regime of the run so far one `step` further, which is exactly what one call's
/// contract states. So m calls under the lock, in whatever order the lock grants them,
/// give the actions of `run` over the notifications in that order.
pub proof fn lemma_run_extends(
    kind: StateKind,
    since: Notification,
    ns: Seq<Notification>,
    n: Notification,
    threshold: int,
)
    ensures
        ({
            let (k1, s1, acts1) = run(kind, since, ns, threshold);
            let (k2, s2, a) = step(k1, s1, n, threshold);
            run(kind, since, ns.push(n), threshold) == (k2, s2, acts1.push(a))
        }),
{
    assert(ns.push(n).drop_last() =~= ns);
}

/// No double wake: however many "activity" notifications arrive, only the first can
/// carry a Wake action, and it does exactly when the regime was in a run of "no activity".
pub proof fn lemma_activity_wakes_once(
    kind: StateKind,
    since: Notification,
    ns: Seq<Notification>,
    threshold: int,
)
    requires
        forall|j: int| 0 <= j < ns.len() ==> (#[trigger] ns[j]).kind == NotificationKind::Activity,
    ensures
        ({
            let (k, s, acts) = run(kind, since, ns, threshold);
            &&& acts.len() == ns.len()
            &&& ns.len() > 0 ==> acts[0] == if since.kind == NotificationKind::NoActivity {
                Some(StateKind::Awake)
            } else {
                None
            }
            &&& forall|j: int| 0 < j < ns.len() ==> #[trigger] acts[j] is None
            &&& ns.len() > 0 ==> s.kind == NotificationKind::Activity
            &&& ns.len() > 0 && since.kind == NotificationKind::NoActivity ==> k == StateKind::Awake
            &&& since.kind == NotificationKind::Activity ==> k == kind
        }),
    decreases ns.len(),
{
    if ns.len() > 0 {
        let p = ns.drop_last();
        assert forall|j: int| 0 <= j < p.len() implies (#[trigger] p[j]).kind
            == NotificationKind::Activity by {
            assert(p[j] == ns[j]);
        }
        lemma_activity_wakes_once(kind, since, p, threshold);
        let (k1, s1, acts1) = run(kind, since, p, threshold);
        let (k, s, acts) = run(kind, since, ns, threshold);
        assert(ns.last().kind == NotificationKind::Activity);
        assert(acts == acts1.push(step(k1, s1, ns.last(), threshold).2));
        assert forall|j: int| 0 < j < ns.len() implies #[trigger] acts[j] is None by {
            if j < p.len() {
                assert(acts[j] == acts1[j]);
            }
        }
        if p.len() > 0 {
            assert(acts[0] == acts1[0]);
        }
    }
}

} // verus!
