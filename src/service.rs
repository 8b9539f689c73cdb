//! Services under control: their selector and ports, and how they are redirected to the
//! interception endpoint while asleep.
use vstd::prelude::*;
use crate::annotations::{
    Annotations, prefix, store_selector_key, store_ports_key, owned, prefixed, lemma_prefix_join,
    annotation_field, annotations_field_head,
};
use crate::deploy::join_id;
use crate::json::{Scalar, decode_selector, decode_ports, decode_selector_spec, decode_ports_spec, encode_selector, encode_ports, encode_selector_spec, encode_ports_spec};
use crate::resource::{ResourceParse, TargetResource};
use crate::strmap::{StrMap, map_of, lemma_map_of_len};

verus! {

/// Where a service port sends traffic: a port number or the name of a container port.
pub enum TargetPort {
    Number(i32),
    Name(String),
}

impl View for TargetPort {
    type V = Scalar;

    open spec fn view(&self) -> Scalar {
        match self {
            TargetPort::Number(n) => Scalar::Int(*n as int),
            TargetPort::Name(s) => Scalar::Str(s@),
        }
    }
}

pub struct ServicePort {
    pub port: i32,
    pub target_port: TargetPort,
}

impl View for ServicePort {
    type V = (int, Scalar);

    open spec fn view(&self) -> (int, Scalar) {
        (self.port as int, self.target_port@)
    }
}

pub open spec fn ports_view(ps: Seq<ServicePort>) -> Seq<(int, Scalar)> {
    ps.map_values(|p: ServicePort| p@)
}

/// The port of the interception endpoint, where sleeping services send their traffic.
pub const SENTINEL_PORT: i32 = 8000;

/// `app`
pub open spec fn sentinel_key() -> Seq<char> {
    seq!['a', 'p', 'p']
}

/// `kubesleeper`
pub open spec fn sentinel_value() -> Seq<char> {
    seq!['k', 'u', 'b', 'e', 's', 'l', 'e', 'e', 'p', 'e', 'r']
}

/// The selector of a sleeping service: `{app: kubesleeper}`, which selects the
/// controller's own pods.
pub open spec fn sentinel_selector() -> Map<Seq<char>, Seq<char>> {
    Map::empty().insert(sentinel_key(), sentinel_value())
}

/// The ports of a sleeping service: the same ports, all sent to the endpoint's port.
pub open spec fn redirected(ps: Seq<(int, Scalar)>) -> Seq<(int, Scalar)> {
    ps.map_values(|p: (int, Scalar)| (p.0, Scalar::Int(SENTINEL_PORT as int)))
}

fn copy_target(t: &TargetPort) -> (r: TargetPort)
    ensures
        r@ == t@,
{
    match t {
        TargetPort::Number(n) => TargetPort::Number(*n),
        TargetPort::Name(s) => TargetPort::Name(s.clone()),
    }
}

pub fn copy_ports(ps: &Vec<ServicePort>) -> (r: Vec<ServicePort>)
    ensures
        ports_view(r@) == ports_view(ps@),
{
    let mut out: Vec<ServicePort> = Vec::new();
    let mut k: usize = 0;
    while k < ps.len()
        invariant
            k <= ps@.len(),
            out@.len() == k,
            forall|j: int| 0 <= j < k ==> (#[trigger] out@[j])@ == ps@[j]@,
        decreases ps@.len() - k,
    {
        out.push(ServicePort { port: ps[k].port, target_port: copy_target(&ps[k].target_port) });
        k = k + 1;
    }
    assert(ports_view(out@) =~= ports_view(ps@));
    out
}

/// What the controller reads of one port of a Kubernetes Service.
pub struct RawServicePort {
    pub port: i32,
    pub target_port: Option<TargetPort>,
}

/// What the controller reads of a Kubernetes Service.
pub struct RawService {
    pub name: Option<String>,
    pub namespace: Option<String>,
    pub selector: Option<StrMap>,
    pub ports: Option<Vec<RawServicePort>>,
    pub annotations: Option<StrMap>,
}

/// A port as read: the target defaults to the port itself.
pub open spec fn raw_port_view(p: RawServicePort) -> (int, Scalar) {
    (
        p.port as int,
        match p.target_port {
            Some(t) => t@,
            None => Scalar::Int(p.port as int),
        },
    )
}

pub open spec fn raw_service_annotations(raw: &RawService) -> Map<Seq<char>, Seq<char>> {
    match raw.annotations {
        Some(m) => m@,
        None => Map::empty(),
    }
}

/// The stored selector that the annotations of `raw` hold, if it is there and readable.
pub open spec fn stored_selector_of(raw: &RawService) -> Option<Seq<(Seq<char>, Seq<char>)>> {
    let key = prefix() + store_selector_key();
    if raw_service_annotations(raw).contains_key(key) {
        decode_selector_spec(raw_service_annotations(raw)[key])
    } else {
        None
    }
}

/// The stored ports that the annotations of `raw` hold, if they are there and readable.
pub open spec fn stored_ports_of(raw: &RawService) -> Option<Seq<(int, Scalar)>> {
    let key = prefix() + store_ports_key();
    if raw_service_annotations(raw).contains_key(key) {
        decode_ports_spec(raw_service_annotations(raw)[key])
    } else {
        None
    }
}

/// `namespace/name` of a raw Service that has both.
pub open spec fn service_id(raw: &RawService) -> Seq<char> {
    raw.namespace->0@ + seq!['/'] + raw.name->0@
}

pub struct Service {
    /// `namespace/name`
    pub id: String,
    pub name: String,
    pub namespace: String,
    pub selector: StrMap,
    pub ports: Vec<ServicePort>,
    /// The selector to restore on wake.
    pub store_selector: StrMap,
    /// The ports to restore on wake.
    pub store_ports: Vec<ServicePort>,
}

/// The fields of a Service that a merge patch sets.
pub struct ServicePatch {
    pub selector: StrMap,
    pub ports: Vec<ServicePort>,
    /// The value of the `kubesleeper/store.selectors` annotation.
    pub store_selector: String,
    /// The value of the `kubesleeper/store.ports` annotation.
    pub store_ports: String,
}

fn is_sentinel(m: &StrMap) -> (r: bool)
    requires
        m.wf(),
    ensures
        r == (m@ == sentinel_selector()),
{
    proof {
        lemma_map_of_len(m.pairs());
        reveal_strlit("app");
        reveal_strlit("kubesleeper");
    }
    if m.entries.len() != 1 {
        proof {
            if m@ == sentinel_selector() {
                assert(sentinel_selector().dom() =~= set![sentinel_key()]);
                assert(m@.len() == 1);
            }
        }
        return false;
    }
    let ghost only = m.pairs()[0];
    assert(m.pairs().drop_last() =~= Seq::<(Seq<char>, Seq<char>)>::empty());
    assert(map_of(m.pairs().drop_last()) == Map::<Seq<char>, Seq<char>>::empty());
    assert(m.pairs().last() == only);
    assert(m@ == Map::<Seq<char>, Seq<char>>::empty().insert(only.0, only.1));
    let key = String::from_str("app");
    let value = String::from_str("kubesleeper");
    assert(key@ =~= sentinel_key());
    assert(value@ =~= sentinel_value());
    let r = m.entries[0].0 == key && m.entries[0].1 == value;
    proof {
        if m@ == sentinel_selector() {
            assert(m@.contains_key(only.0));
            assert(sentinel_selector().contains_key(only.0));
            assert(only.0 == sentinel_key());
            assert(m@[only.0] == only.1);
        }
    }
    r
}

fn sentinel_map() -> (r: StrMap)
    ensures
        r.wf(),
        r@ == sentinel_selector(),
{
    let mut m = StrMap::new();
    proof {
        reveal_strlit("app");
        reveal_strlit("kubesleeper");
    }
    let key = String::from_str("app");
    let value = String::from_str("kubesleeper");
    assert(key@ =~= sentinel_key());
    assert(value@ =~= sentinel_value());
    m.insert(key, value);
    m
}

impl Service {
    /// What a merge patch of this Service sets: selector, ports and the two stored-state
    /// annotations.
    pub fn patch_fields(&self) -> (r: ServicePatch)
        ensures
            r.selector.pairs() == self.selector.pairs(),
            ports_view(r.ports@) == ports_view(self.ports@),
            r.store_selector@ == encode_selector_spec(self.store_selector.pairs()),
            r.store_ports@ == encode_ports_spec(ports_view(self.store_ports@)),
    {
        ServicePatch {
            selector: self.selector.copy(),
            ports: copy_ports(&self.ports),
            store_selector: encode_selector(&self.store_selector),
            store_ports: encode_ports(&self.store_ports),
        }
    }

    /// Reads a Service. A Service whose selector is the sentinel one is asleep and must
    /// carry readable stored-selector and stored-ports annotations.
    pub fn try_from(raw: &RawService) -> (r: Result<Service, ResourceParse>)
        requires
            raw.annotations matches Some(m) ==> m.wf(),
            raw.selector matches Some(m) ==> m.wf(),
        ensures
            raw.name is None ==> r matches Err(ResourceParse::MissingValue { .. }),
            raw.name is Some && raw.namespace is None ==> r matches Err(
                ResourceParse::MissingValue { .. },
            ),
            raw.name is Some && raw.namespace is Some && (raw.selector is None || raw.ports is None)
                ==> r matches Err(ResourceParse::MissingValue { .. }),
            raw.name is Some && raw.namespace is Some && raw.selector is Some && raw.ports is Some
                && raw.selector->0@ == sentinel_selector() ==> {
                &&& !raw_service_annotations(raw).contains_key(prefix() + store_selector_key())
                    ==> (r matches Err(ResourceParse::MissingAnnotationInSleepState { id, annotation })
                    && annotation@ == prefix() + store_selector_key() && id@ == service_id(raw))
                &&& raw_service_annotations(raw).contains_key(prefix() + store_selector_key())
                    && stored_selector_of(raw) is None ==> (r matches Err(
                    ResourceParse::ParseFailed { id, value, .. },
                ) && id@ == service_id(raw) && value@ == annotations_field_head() + prefix()
                    + store_selector_key())
                &&& stored_selector_of(raw) is Some && !raw_service_annotations(raw).contains_key(
                    prefix() + store_ports_key(),
                ) ==> (r matches Err(ResourceParse::MissingAnnotationInSleepState { id, annotation })
                    && annotation@ == prefix() + store_ports_key() && id@ == service_id(raw))
                &&& stored_selector_of(raw) is Some && raw_service_annotations(raw).contains_key(
                    prefix() + store_ports_key(),
                ) && stored_ports_of(raw) is None ==> (r matches Err(
                    ResourceParse::ParseFailed { id, value, .. },
                ) && id@ == service_id(raw) && value@ == annotations_field_head() + prefix()
                    + store_ports_key())
            },
            r is Ok <==> (raw.name is Some && raw.namespace is Some && raw.selector is Some
                && raw.ports is Some && (raw.selector->0@ == sentinel_selector() ==> (
            stored_selector_of(raw) is Some && stored_ports_of(raw) is Some))),
            r matches Ok(s) ==> {
                &&& s.wf()
                &&& s.name@ == raw.name->0@
                &&& s.namespace@ == raw.namespace->0@
                &&& s.id@ == raw.namespace->0@ + seq!['/'] + raw.name->0@
                &&& s.selector.pairs() == raw.selector->0.pairs()
                &&& ports_view(s.ports@) == raw.ports->0@.map_values(
                    |p: RawServicePort| raw_port_view(p),
                )
                &&& if s.asleep() {
                    &&& s.store_selector@ == map_of(stored_selector_of(raw)->0)
                    &&& ports_view(s.store_ports@) == stored_ports_of(raw)->0
                } else {
                    &&& s.store_selector.pairs() == s.selector.pairs()
                    &&& ports_view(s.store_ports@) == ports_view(s.ports@)
                }
            },
    {
        let name = match &raw.name {
            Some(n) => n.clone(),
            None => {
                return Err(
                    ResourceParse::MissingValue {
                        id: String::from_str("?/?"),
                        value: String::from_str("name"),
                    },
                );
            },
        };
        let namespace = match &raw.namespace {
            Some(n) => n.clone(),
            None => {
                return Err(
                    ResourceParse::MissingValue { id: name, value: String::from_str("namespace") },
                );
            },
        };
        let id = join_id(&namespace, &name);
        let selector = match &raw.selector {
            Some(m) => m.copy(),
            None => {
                return Err(
                    ResourceParse::MissingValue { id, value: String::from_str(".spec.selector") },
                );
            },
        };
        let raw_ports = match &raw.ports {
            Some(p) => p,
            None => {
                return Err(
                    ResourceParse::MissingValue { id, value: String::from_str(".spec.ports") },
                );
            },
        };
        let mut ports: Vec<ServicePort> = Vec::new();
        let mut k: usize = 0;
        while k < raw_ports.len()
            invariant
                k <= raw_ports@.len(),
                ports@.len() == k,
                forall|j: int| 0 <= j < k ==> (#[trigger] ports@[j])@ == raw_port_view(raw_ports@[j]),
            decreases raw_ports@.len() - k,
        {
            let target = match &raw_ports[k].target_port {
                Some(t) => copy_target(t),
                None => TargetPort::Number(raw_ports[k].port),
            };
            ports.push(ServicePort { port: raw_ports[k].port, target_port: target });
            k = k + 1;
        }
        assert(ports_view(ports@) =~= raw_ports@.map_values(|p: RawServicePort| raw_port_view(p)));
        if !is_sentinel(&selector) {
            let store_selector = selector.copy();
            let store_ports = copy_ports(&ports);
            return Ok(Service { id, name, namespace, selector, ports, store_selector, store_ports });
        }
        let empty = StrMap::new();
        let annotations = match &raw.annotations {
            Some(m) => Annotations::from_raw(m),
            None => Annotations::from_raw(&empty),
        };
        proof {
            reveal_strlit("store.selectors");
            reveal_strlit("store.ports");
            assert("store.selectors"@ =~= store_selector_key());
            assert("store.ports"@ =~= store_ports_key());
            lemma_prefix_join(store_selector_key());
            lemma_prefix_join(store_ports_key());
            assert(owned(raw_service_annotations(raw)).contains_key(prefix() + store_selector_key())
                == raw_service_annotations(raw).contains_key(prefix() + store_selector_key()));
            assert(owned(raw_service_annotations(raw)).contains_key(prefix() + store_ports_key())
                == raw_service_annotations(raw).contains_key(prefix() + store_ports_key()));
        }
        let store_selector = match annotations.get("store.selectors") {
            None => {
                return Err(
                    ResourceParse::MissingAnnotationInSleepState {
                        id,
                        annotation: prefixed("store.selectors"),
                    },
                );
            },
            Some(text) => match decode_selector(text.as_str()) {
                Some(m) => m,
                None => {
                    return Err(
                        ResourceParse::ParseFailed {
                            id,
                            value: annotation_field("store.selectors"),
                            error: String::from_str("not a JSON object of strings"),
                        },
                    );
                },
            },
        };
        let store_ports = match annotations.get("store.ports") {
            None => {
                return Err(
                    ResourceParse::MissingAnnotationInSleepState {
                        id,
                        annotation: prefixed("store.ports"),
                    },
                );
            },
            Some(text) => match decode_ports(text.as_str()) {
                Some(p) => p,
                None => {
                    return Err(
                        ResourceParse::ParseFailed {
                            id,
                            value: annotation_field("store.ports"),
                            error: String::from_str("not a JSON array of service ports"),
                        },
                    );
                },
            },
        };
        Ok(Service { id, name, namespace, selector, ports, store_selector, store_ports })
    }
}

impl TargetResource for Service {
    open spec fn wf(&self) -> bool {
        self.selector.wf() && self.store_selector.wf()
    }

    open spec fn asleep(&self) -> bool {
        self.selector@ == sentinel_selector()
    }

    open spec fn slept(&self, after: &Service) -> bool {
        if self.asleep() {
            *after == *self
        } else {
            &&& after.selector@ == sentinel_selector()
            &&& ports_view(after.ports@) == redirected(ports_view(self.ports@))
            &&& after.store_selector.pairs() == self.selector.pairs()
            &&& ports_view(after.store_ports@) == ports_view(self.ports@)
            &&& after.id == self.id
            &&& after.name == self.name
            &&& after.namespace == self.namespace
        }
    }

    open spec fn woken(&self, after: &Service) -> bool {
        if !self.asleep() {
            *after == *self
        } else {
            &&& after.selector.pairs() == self.store_selector.pairs()
            &&& ports_view(after.ports@) == ports_view(self.store_ports@)
            &&& after.store_selector == self.store_selector
            &&& after.store_ports == self.store_ports
            &&& after.id == self.id
            &&& after.name == self.name
            &&& after.namespace == self.namespace
        }
    }

    open spec fn id_view(&self) -> Seq<char> {
        self.id@
    }

    fn id(&self) -> (r: String) {
        self.id.clone()
    }

    fn is_asleep(&self) -> (r: bool) {
        is_sentinel(&self.selector)
    }

    fn sleep(&mut self) -> (changed: bool) {
        if is_sentinel(&self.selector) {
            return false;
        }
        let ghost before = ports_view(self.ports@);
        let mut ports = copy_ports(&self.ports);
        let mut k: usize = 0;
        while k < ports.len()
            invariant
                k <= ports@.len(),
                ports@.len() == before.len(),
                forall|j: int| 0 <= j < k ==> (#[trigger] ports@[j])@ == (before[j].0, Scalar::Int(
                    SENTINEL_PORT as int,
                )),
                forall|j: int| k <= j < ports@.len() ==> (#[trigger] ports@[j])@ == before[j],
            decreases ports@.len() - k,
        {
            let port = ports[k].port;
            ports.set(k, ServicePort { port, target_port: TargetPort::Number(SENTINEL_PORT) });
            k = k + 1;
        }
        self.store_selector = self.selector.copy();
        self.store_ports = copy_ports(&self.ports);
        self.selector = sentinel_map();
        self.ports = ports;
        assert(ports_view(self.ports@) =~= redirected(before));
        true
    }

    fn wake(&mut self) -> (changed: bool) {
        if !is_sentinel(&self.selector) {
            return false;
        }
        self.selector = self.store_selector.copy();
        self.ports = copy_ports(&self.store_ports);
        true
    }
}

} // verus!
