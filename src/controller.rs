//! Decisions around the controller itself: finding its own Deployment, answering the
//! interception endpoint, reporting the state of targets, and the manual commands.
use vstd::prelude::*;
use crate::deploy::join_id;
use crate::resource::{ResourceParse, TargetResource, find_target};
use crate::service::{sentinel_key, sentinel_value};
use crate::state::StateKind;
use crate::strmap::StrMap;
use crate::text::{chars_of, string_of, push_decimal_i32, decimal_int};

verus! {

/// Why the controller's own Deployment could not be confirmed.
pub enum ControllerError {
    ResourceParse(ResourceParse),
    MissingKubesleeperDeploy,
    TooMuchKubesleeperDeploy(usize),
}

/// What the controller reads of a Deployment named like itself.
pub struct DeploymentMeta {
    pub namespace: Option<String>,
    pub name: Option<String>,
    pub labels: Option<StrMap>,
}

/// The labels exist and hold an `app` label.
pub open spec fn has_app_label(labels: Option<StrMap>) -> bool {
    match labels {
        Some(m) => m@.contains_key(sentinel_key()),
        None => false,
    }
}

pub open spec fn labels_wf(labels: Option<StrMap>) -> bool {
    match labels {
        Some(m) => m.wf(),
        None => true,
    }
}

/// Checks that exactly one Deployment is named like the controller and that it carries
/// the label `app: kubesleeper`.
pub fn check_kubesleeper(found: &Vec<DeploymentMeta>) -> (r: Result<(), ControllerError>)
    requires
        forall|i: int| 0 <= i < found@.len() ==> labels_wf(#[trigger] found@[i].labels),
    ensures
        found@.len() > 1 ==> r == Err::<(), ControllerError>(
            ControllerError::TooMuchKubesleeperDeploy(found@.len() as usize),
        ),
        found@.len() == 0 ==> r matches Err(ControllerError::MissingKubesleeperDeploy),
        found@.len() == 1 ==> (r is Ok <==> (found@[0].labels matches Some(m) && m@.contains_key(
            sentinel_key(),
        ) && m@[sentinel_key()] == sentinel_value())),
        found@.len() == 1 && !has_app_label(found@[0].labels) ==> r matches Err(
            ControllerError::ResourceParse(ResourceParse::MissingValue { .. }),
        ),
        found@.len() == 1 && has_app_label(found@[0].labels) && !labelled_controller(
            found@[0].labels,
        ) ==> r matches Err(ControllerError::ResourceParse(ResourceParse::ParseFailed { .. })),
{
    if found.len() > 1 {
        return Err(ControllerError::TooMuchKubesleeperDeploy(found.len()));
    }
    if found.len() == 0 {
        return Err(ControllerError::MissingKubesleeperDeploy);
    }
    let ks = &found[0];
    let unknown = String::from_str("?");
    let namespace = match &ks.namespace {
        Some(n) => n.clone(),
        None => unknown.clone(),
    };
    let name = match &ks.name {
        Some(n) => n.clone(),
        None => unknown,
    };
    let id = join_id(&namespace, &name);
    let labels = match &ks.labels {
        Some(l) => l,
        None => {
            return Err(
                ControllerError::ResourceParse(
                    ResourceParse::MissingValue { id, value: String::from_str(".metadata.labels") },
                ),
            );
        },
    };
    proof {
        reveal_strlit("app");
        reveal_strlit("kubesleeper");
    }
    let key = String::from_str("app");
    let expected = String::from_str("kubesleeper");
    assert(key@ =~= sentinel_key());
    assert(expected@ =~= sentinel_value());
    match labels.get(&key) {
        Some(v) => {
            if *v == expected {
                Ok(())
            } else {
                Err(
                    ControllerError::ResourceParse(
                        ResourceParse::ParseFailed {
                            id,
                            value: String::from_str(".metadata.labels.app"),
                            error: String::from_str("must be 'kubesleeper'"),
                        },
                    ),
                )
            }
        },
        None => Err(
            ControllerError::ResourceParse(
                ResourceParse::MissingValue { id, value: String::from_str(".metadata.labels.app") },
            ),
        ),
    }
}

pub open spec fn labelled_controller(labels: Option<StrMap>) -> bool {
    labels matches Some(m) && m@.contains_key(sentinel_key()) && m@[sentinel_key()] == sentinel_value()
}

/// How many of the Deployments carry the label `app: kubesleeper`.
pub open spec fn labelled_count(all: Seq<DeploymentMeta>) -> nat
    decreases all.len(),
{
    if all.len() == 0 {
        0
    } else {
        labelled_count(all.drop_last()) + if labelled_controller(all.last().labels) {
            1nat
        } else {
            0nat
        }
    }
}

/// The position of the one Deployment labelled `app: kubesleeper` among all Deployments.
pub fn select_kubesleeper(all: &Vec<DeploymentMeta>) -> (r: Result<usize, ControllerError>)
    requires
        forall|i: int| 0 <= i < all@.len() ==> labels_wf(#[trigger] all@[i].labels),
    ensures
        r matches Ok(i) ==> i < all@.len() && labelled_controller(all@[i as int].labels) && forall|
            j: int,
        | 0 <= j < all@.len() && j != i ==> !labelled_controller(#[trigger] all@[j].labels),
        r matches Err(ControllerError::MissingKubesleeperDeploy) ==> forall|j: int|
            0 <= j < all@.len() ==> !labelled_controller(#[trigger] all@[j].labels),
        r matches Err(ControllerError::TooMuchKubesleeperDeploy(n)) ==> n >= 2 && n == labelled_count(
            all@,
        ) && exists|
            a: int,
            b: int,
        | 0 <= a < b < all@.len() && labelled_controller(#[trigger] all@[a].labels)
            && labelled_controller(#[trigger] all@[b].labels),
        r is Err ==> !(r matches Err(ControllerError::ResourceParse(_))),
{
    proof {
        reveal_strlit("app");
        reveal_strlit("kubesleeper");
    }
    let key = String::from_str("app");
    let expected = String::from_str("kubesleeper");
    assert(key@ =~= sentinel_key());
    assert(expected@ =~= sentinel_value());
    let mut first: Option<usize> = None;
    let mut count: usize = 0;
    let mut i: usize = 0;
    while i < all.len()
        invariant
            i <= all@.len(),
            count <= i,
            count == labelled_count(all@.take(i as int)),
            key@ == sentinel_key(),
            expected@ == sentinel_value(),
            forall|j: int| 0 <= j < all@.len() ==> labels_wf(#[trigger] all@[j].labels),
            count == 0 <==> first is None,
            count == 0 ==> forall|j: int| 0 <= j < i ==> !labelled_controller(#[trigger] all@[j].labels),
            first matches Some(f) ==> f < i && labelled_controller(all@[f as int].labels),
            count == 1 ==> (first is Some && forall|j: int| 0 <= j < i && j != first->0
                ==> !labelled_controller(#[trigger] all@[j].labels)),
            count >= 2 ==> exists|a: int, b: int| 0 <= a < b < i && labelled_controller(
                #[trigger] all@[a].labels,
            ) && labelled_controller(#[trigger] all@[b].labels),
        decreases all@.len() - i,
    {
        let hit = match &all[i].labels {
            Some(m) => match m.get(&key) {
                Some(v) => *v == expected,
                None => false,
            },
            None => false,
        };
        if hit {
            if count == 1 {
                let f = first.unwrap();
                assert(labelled_controller(all@[f as int].labels));
                assert(labelled_controller(all@[i as int].labels));
            }
            if count == 0 {
                first = Some(i);
            }
            count = count + 1;
        }
        assert(all@.take(i + 1).drop_last() =~= all@.take(i as int));
        i = i + 1;
    }
    assert(all@.take(i as int) =~= all@);
    if count == 0 {
        Err(ControllerError::MissingKubesleeperDeploy)
    } else if count == 1 {
        Ok(first.unwrap())
    } else {
        Err(ControllerError::TooMuchKubesleeperDeploy(count))
    }
}

/// What the catch-all route answers.
pub enum AppResponse {
    /// Redirect to this location.
    Success(String),
    /// Not for the catch-all route: answer 404.
    Ignored,
    /// Answer 500 with this page.
    InternalError(String),
}

/// `kubesleeper`, the first path segment of the controller's own routes.
pub open spec fn controller_segment() -> Seq<char> {
    seq!['k', 'u', 'b', 'e', 's', 'l', 'e', 'e', 'p', 'e', 'r']
}

/// Whether a request path (without its leading `/`) lies under the controller's own
/// routes: its first segment is `kubesleeper`.
pub open spec fn under_prefix(path: Seq<char>) -> bool {
    path.len() >= controller_segment().len() && path.take(controller_segment().len() as int)
        == controller_segment() && (path.len() == controller_segment().len() || path[controller_segment().len() as int] == '/')
}

/// `/kubesleeper/wait`
pub open spec fn wait_location() -> Seq<char> {
    seq!['/'] + controller_segment() + seq!['/', 'w', 'a', 'i', 't']
}

/// Whether a request to `path` is intercepted: it is, unless it lies under the
/// controller's own routes.
pub fn intercepts(path: &str) -> (r: bool)
    ensures
        r == !under_prefix(path@),
{
    let v = chars_of(path);
    let seg = vec!['k', 'u', 'b', 'e', 's', 'l', 'e', 'e', 'p', 'e', 'r'];
    assert(seg@ =~= controller_segment());
    if v.len() < seg.len() {
        return true;
    }
    let mut i: usize = 0;
    while i < seg.len()
        invariant
            i <= seg@.len() <= v@.len(),
            v@ == path@,
            seg@ == controller_segment(),
            v@.take(i as int) == seg@.take(i as int),
        decreases seg@.len() - i,
    {
        if v[i] != seg[i] {
            assert(v@.take(seg@.len() as int)[i as int] != seg@[i as int]);
            return true;
        }
        assert(v@.take(i + 1) =~= v@.take(i as int).push(v@[i as int]));
        assert(seg@.take(i + 1) =~= seg@.take(i as int).push(seg@[i as int]));
        i = i + 1;
    }
    assert(seg@.take(i as int) =~= seg@);
    !(v.len() == seg.len() || v[seg.len()] == '/')
}

/// The answer of the catch-all route to a request for `path`, given the outcome of
/// reporting activity (which is only consulted for intercepted requests).
pub fn app_response(path: &str, update: Result<(), String>) -> (r: AppResponse)
    ensures
        under_prefix(path@) ==> r is Ignored,
        !under_prefix(path@) && update is Ok ==> (r matches AppResponse::Success(l) && l@
            == wait_location()),
        !under_prefix(path@) && update is Err ==> (r matches AppResponse::InternalError(page)
            && page@ == error_page_spec(update->Err_0@)),
{
    if !intercepts(path) {
        return AppResponse::Ignored;
    }
    match update {
        Ok(()) => {
            let v = vec!['/', 'k', 'u', 'b', 'e', 's', 'l', 'e', 'e', 'p', 'e', 'r', '/', 'w', 'a', 'i', 't'];
            assert(v@ =~= wait_location());
            AppResponse::Success(string_of(&v))
        },
        Err(message) => AppResponse::InternalError(error_page(&message)),
    }
}

/// The message with each line break written as `<br>`.
pub open spec fn html_lines(m: Seq<char>) -> Seq<char>
    decreases m.len(),
{
    if m.len() == 0 {
        Seq::empty()
    } else {
        html_lines(m.drop_last()) + if m.last() == '\n' {
            seq!['<', 'b', 'r', '>']
        } else {
            seq![m.last()]
        }
    }
}

pub open spec fn page_head() -> Seq<char> {
    seq![
        '<', '!', 'D', 'O', 'C', 'T', 'Y', 'P', 'E', ' ', 'h', 't', 'm', 'l', '>', '<', 'h', 't',
        'm', 'l', '>', '<', 'b', 'o', 'd', 'y', '>', '<', 'h', '1', '>', '5', '0', '0', '<', '/',
        'h', '1', '>', '<', 'c', 'o', 'd', 'e', '>',
    ]
}

pub open spec fn page_tail() -> Seq<char> {
    seq!['<', '/', 'c', 'o', 'd', 'e', '>', '<', '/', 'b', 'o', 'd', 'y', '>', '<', '/', 'h', 't', 'm', 'l', '>']
}

/// The error page: a 500 heading and the message, line breaks kept.
pub open spec fn error_page_spec(m: Seq<char>) -> Seq<char> {
    page_head() + html_lines(m) + page_tail()
}

pub fn error_page(message: &String) -> (r: String)
    ensures
        r@ == error_page_spec(message@),
{
    let head = [
        '<', '!', 'D', 'O', 'C', 'T', 'Y', 'P', 'E', ' ', 'h', 't', 'm', 'l', '>', '<', 'h', 't',
        'm', 'l', '>', '<', 'b', 'o', 'd', 'y', '>', '<', 'h', '1', '>', '5', '0', '0', '<', '/',
        'h', '1', '>', '<', 'c', 'o', 'd', 'e', '>',
    ];
    let tail = ['<', '/', 'c', 'o', 'd', 'e', '>', '<', '/', 'b', 'o', 'd', 'y', '>', '<', '/', 'h', 't', 'm', 'l', '>'];
    assert(head@ =~= page_head());
    assert(tail@ =~= page_tail());
    let mut out: Vec<char> = Vec::new();
    push_all(&mut out, &head);
    let m = chars_of(message.as_str());
    let mut k: usize = 0;
    while k < m.len()
        invariant
            k <= m@.len(),
            m@ == message@,
            out@ == page_head() + html_lines(m@.take(k as int)),
        decreases m@.len() - k,
    {
        assert(m@.take(k + 1).drop_last() =~= m@.take(k as int));
        let ghost before = out@;
        if m[k] == '\n' {
            out.push('<');
            out.push('b');
            out.push('r');
            out.push('>');
        } else {
            out.push(m[k]);
        }
        assert(out@ =~= page_head() + html_lines(m@.take(k + 1)));
        k = k + 1;
    }
    assert(m@.take(k as int) =~= m@);
    push_all(&mut out, &tail);
    string_of(&out)
}

fn push_all(out: &mut Vec<char>, cs: &[char])
    ensures
        final(out)@ == old(out)@ + cs@,
{
    let ghost start = out@;
    let mut k: usize = 0;
    while k < cs.len()
        invariant
            k <= cs@.len(),
            out@ == start + cs@.take(k as int),
        decreases cs@.len() - k,
    {
        out.push(cs[k]);
        assert(cs@.take(k + 1) =~= cs@.take(k as int).push(cs@[k as int]));
        k = k + 1;
    }
    assert(cs@.take(k as int) =~= cs@);
}

/// How a Deployment is reported: `asleep`, `waking up (ready/wanted)` or `awake`.
pub open spec fn deploy_state_spec(replicas: i32, ready: i32) -> Seq<char> {
    if replicas == 0 {
        seq!['a', 's', 'l', 'e', 'e', 'p']
    } else if ready != replicas {
        seq!['w', 'a', 'k', 'i', 'n', 'g', ' ', 'u', 'p', ' ', '('] + decimal_int(ready as int)
            + seq!['/'] + decimal_int(replicas as int) + seq![')']
    } else {
        seq!['a', 'w', 'a', 'k', 'e']
    }
}

pub fn deploy_state(replicas: i32, ready: i32) -> (r: String)
    ensures
        r@ == deploy_state_spec(replicas, ready),
{
    let mut out: Vec<char> = Vec::new();
    if replicas == 0 {
        push_all(&mut out, &['a', 's', 'l', 'e', 'e', 'p']);
    } else if ready != replicas {
        push_all(&mut out, &['w', 'a', 'k', 'i', 'n', 'g', ' ', 'u', 'p', ' ', '(']);
        push_decimal_i32(ready, &mut out);
        out.push('/');
        push_decimal_i32(replicas, &mut out);
        out.push(')');
    } else {
        push_all(&mut out, &['a', 'w', 'a', 'k', 'e']);
    }
    assert(out@ =~= deploy_state_spec(replicas, ready));
    string_of(&out)
}

/// `kube-system`
pub open spec fn system_namespace() -> Seq<char> {
    seq!['k', 'u', 'b', 'e', '-', 's', 'y', 's', 't', 'e', 'm']
}

/// `kubernetes`, in namespace `default`: the cluster API service.
pub open spec fn api_service(namespace: Seq<char>, name: Seq<char>) -> bool {
    namespace == seq!['d', 'e', 'f', 'a', 'u', 'l', 't'] && name == seq![
        'k', 'u', 'b', 'e', 'r', 'n', 'e', 't', 'e', 's',
    ]
}

/// Whether a resource is one the controller manages: not the controller itself (named
/// or labelled `kubesleeper`), not in the system namespace, and, for Services, not the
/// cluster API service.
pub open spec fn is_target_spec(
    kind: ResourceKind,
    namespace: Seq<char>,
    name: Seq<char>,
    labels: Option<StrMap>,
) -> bool {
    &&& namespace != system_namespace()
    &&& name != controller_segment()
    &&& !labelled_controller(labels)
    &&& !(kind is Service && api_service(namespace, name))
}

fn chars_are(s: &String, w: &[char]) -> (r: bool)
    ensures
        r == (s@ == w@),
{
    let v = chars_of(s.as_str());
    if v.len() != w.len() {
        return false;
    }
    let mut i: usize = 0;
    while i < v.len()
        invariant
            i <= v@.len() == w@.len(),
            v@ == s@,
            forall|j: int| 0 <= j < i ==> v@[j] == w@[j],
        decreases v@.len() - i,
    {
        if v[i] != w[i] {
            return false;
        }
        i = i + 1;
    }
    assert(v@ =~= w@);
    true
}

pub fn is_target(kind: ResourceKind, namespace: &String, name: &String, labels: Option<&StrMap>) -> (r:
    bool)
    requires
        labels matches Some(m) ==> m.wf(),
    ensures
        r == is_target_spec(
            kind,
            namespace@,
            name@,
            match labels {
                Some(m) => Some(*m),
                None => None,
            },
        ),
{
    let system = ['k', 'u', 'b', 'e', '-', 's', 'y', 's', 't', 'e', 'm'];
    let controller = ['k', 'u', 'b', 'e', 's', 'l', 'e', 'e', 'p', 'e', 'r'];
    let default_ns = ['d', 'e', 'f', 'a', 'u', 'l', 't'];
    let api = ['k', 'u', 'b', 'e', 'r', 'n', 'e', 't', 'e', 's'];
    assert(system@ =~= system_namespace());
    assert(controller@ =~= controller_segment());
    assert(default_ns@ =~= seq!['d', 'e', 'f', 'a', 'u', 'l', 't']);
    assert(api@ =~= seq!['k', 'u', 'b', 'e', 'r', 'n', 'e', 't', 'e', 's']);
    if chars_are(namespace, &system) || chars_are(name, &controller) {
        return false;
    }
    proof {
        reveal_strlit("app");
        reveal_strlit("kubesleeper");
    }
    let key = String::from_str("app");
    let expected = String::from_str("kubesleeper");
    assert(key@ =~= sentinel_key());
    assert(expected@ =~= sentinel_value());
    let labelled = match labels {
        Some(m) => match m.get(&key) {
            Some(v) => *v == expected,
            None => false,
        },
        None => false,
    };
    if labelled {
        return false;
    }
    match kind {
        ResourceKind::Service => !(chars_are(namespace, &default_ns) && chars_are(name, &api)),
        ResourceKind::Deploy => true,
    }
}

/// The manual commands.
pub enum Message {
    /// Print the configuration in use.
    DumpConfig,
    /// Put every target in this regime.
    SetState { state: StateKind },
    /// Put one Deployment or Service in this regime.
    SetRsc { resource_type: ResourceType, resource_id: String, state: StateKind },
    /// Run the interception endpoint alone.
    StartServer,
}

pub enum ResourceType {
    Svc,
    Deploy,
}

pub enum ResourceKind {
    Deploy,
    Service,
}

/// Why a manual command failed.
pub enum Msg {
    ResourceNotFound { resource_id: String },
    ServerError(String),
}

/// The position of the target named `resource_id`, or the error that names it.
pub fn locate_target<T: TargetResource>(targets: &Vec<T>, resource_id: &String) -> (r: Result<
    usize,
    Msg,
>)
    ensures
        r matches Ok(i) ==> i < targets@.len() && targets@[i as int].id_view() == resource_id@,
        r is Err <==> forall|j: int| 0 <= j < targets@.len() ==> #[trigger] targets@[j].id_view()
            != resource_id@,
        r matches Err(Msg::ResourceNotFound { resource_id: id }) ==> id@ == resource_id@,
        r is Err ==> r matches Err(Msg::ResourceNotFound { .. }),
{
    match find_target(targets, resource_id) {
        Some(i) => Ok(i),
        None => Err(Msg::ResourceNotFound { resource_id: resource_id.clone() }),
    }
}

} // verus!
