//! Deployments under control: scaled to zero while asleep, their replica count kept in
//! the `kubesleeper/store.replicas` annotation.
use vstd::prelude::*;
use crate::annotations::{
    Annotations, prefix, store_replicas_key, owned, prefixed, lemma_prefix_join, annotation_field,
    annotations_field_head,
};
use crate::resource::{ResourceParse, TargetResource};
use crate::strmap::StrMap;
use crate::text::{chars_of, parse_i32, parse_i32_spec, decimal_int, i32_to_string};

verus! {

/// What the controller reads of a Kubernetes Deployment.
pub struct RawDeployment {
    pub name: Option<String>,
    pub namespace: Option<String>,
    /// `.spec.replicas`
    pub replicas: Option<i32>,
    pub annotations: Option<StrMap>,
}

pub struct Deploy {
    /// `namespace/name`
    pub id: String,
    pub name: String,
    pub namespace: String,
    pub replicas: i32,
    /// The replica count to restore on wake.
    pub store_replicas: i32,
}

/// The fields of a Deployment that a merge patch sets.
pub struct DeployPatch {
    pub replicas: i32,
    /// The value of the `kubesleeper/store.replicas` annotation.
    pub store_replicas: String,
}

pub open spec fn raw_annotations(raw: &RawDeployment) -> Map<Seq<char>, Seq<char>> {
    match raw.annotations {
        Some(m) => m@,
        None => Map::empty(),
    }
}

/// The stored replica count that the annotations of `raw` hold, if they can be read as
/// a positive `i32`.
pub open spec fn stored_replicas_of(raw: &RawDeployment) -> Option<i32> {
    let key = prefix() + store_replicas_key();
    if raw_annotations(raw).contains_key(key) {
        match parse_i32_spec(raw_annotations(raw)[key]) {
            Some(n) => if n >= 1 {
                Some(n)
            } else {
                None
            },
            None => None,
        }
    } else {
        None
    }
}

/// `namespace/name` of a raw resource that has both.
pub open spec fn raw_id(raw: &RawDeployment) -> Seq<char> {
    raw.namespace->0@ + seq!['/'] + raw.name->0@
}

pub fn join_id(namespace: &String, name: &String) -> (r: String)
    ensures
        r@ == namespace@ + seq!['/'] + name@,
{
    let mut v = chars_of(namespace.as_str());
    v.push('/');
    let n = chars_of(name.as_str());
    let mut i: usize = 0;
    let ghost start = v@;
    while i < n.len()
        invariant
            i <= n@.len(),
            n@ == name@,
            start == namespace@ + seq!['/'],
            v@ == start + n@.take(i as int),
        decreases n@.len() - i,
    {
        v.push(n[i]);
        assert(n@.take(i + 1) =~= n@.take(i as int).push(n@[i as int]));
        i = i + 1;
    }
    assert(n@.take(i as int) =~= n@);
    crate::text::string_of(&v)
}

impl Deploy {
    /// Reads a Deployment. A Deployment at zero replicas is asleep and must carry a
    /// positive stored replica count.
    pub fn try_from(raw: &RawDeployment) -> (r: Result<Deploy, ResourceParse>)
        requires
            raw.annotations matches Some(m) ==> m.wf(),
        ensures
            raw.name is None ==> r matches Err(ResourceParse::MissingValue { .. }),
            raw.name is Some && raw.namespace is None ==> r matches Err(
                ResourceParse::MissingValue { .. },
            ),
            raw.name is Some && raw.namespace is Some && raw.replicas is None ==> (r matches Err(
                ResourceParse::MissingValue { id, .. },
            ) && id@ == raw_id(raw)),
            raw.name is Some && raw.namespace is Some && raw.replicas is Some && raw.replicas->0 < 0
                ==> (r matches Err(ResourceParse::ParseFailed { id, .. }) && id@ == raw_id(raw)),
            raw.name is Some && raw.namespace is Some && raw.replicas == Some(0i32)
                && !raw_annotations(raw).contains_key(prefix() + store_replicas_key()) ==> (r matches Err(
                ResourceParse::MissingAnnotationInSleepState { id, annotation },
            ) && annotation@ == prefix() + store_replicas_key() && id@ == raw_id(raw)),
            raw.name is Some && raw.namespace is Some && raw.replicas == Some(0i32)
                && raw_annotations(raw).contains_key(prefix() + store_replicas_key())
                && stored_replicas_of(raw) is None ==> (r matches Err(
                ResourceParse::ParseFailed { id, value, .. },
            ) && id@ == raw_id(raw) && value@ == annotations_field_head() + prefix()
                + store_replicas_key()),
            r is Ok <==> (raw.name is Some && raw.namespace is Some && raw.replicas is Some
                && raw.replicas->0 >= 0 && (raw.replicas->0 == 0 ==> stored_replicas_of(raw) is Some)),
            r matches Ok(d) ==> {
                &&& d.wf()
                &&& d.name@ == raw.name->0@
                &&& d.namespace@ == raw.namespace->0@
                &&& d.id@ == raw.namespace->0@ + seq!['/'] + raw.name->0@
                &&& d.replicas == raw.replicas->0
                &&& d.store_replicas == if d.replicas == 0 {
                    stored_replicas_of(raw)->0
                } else {
                    d.replicas
                }
            },
    {
        let name = match &raw.name {
            Some(n) => n.clone(),
            None => {
                return Err(
                    ResourceParse::MissingValue {
                        id: String::from_str("?/?"),
                        value: String::from_str("name"),
                    },
                );
            },
        };
        let namespace = match &raw.namespace {
            Some(n) => n.clone(),
            None => {
                return Err(
                    ResourceParse::MissingValue { id: name, value: String::from_str("namespace") },
                );
            },
        };
        let id = join_id(&namespace, &name);
        let replicas = match raw.replicas {
            Some(n) => n,
            None => {
                return Err(
                    ResourceParse::MissingValue { id, value: String::from_str(".spec.replicas") },
                );
            },
        };
        if replicas < 0 {
            return Err(
                ResourceParse::ParseFailed {
                    id,
                    value: String::from_str(".spec.replicas"),
                    error: String::from_str("must not be negative"),
                },
            );
        }
        let store_replicas = if replicas == 0 {
            let empty = StrMap::new();
            let annotations = match &raw.annotations {
                Some(m) => Annotations::from_raw(m),
                None => Annotations::from_raw(&empty),
            };
            proof {
                reveal_strlit("store.replicas");
                assert("store.replicas"@ =~= store_replicas_key());
                lemma_prefix_join(store_replicas_key());
                assert(owned(raw_annotations(raw)).contains_key(prefix() + store_replicas_key())
                    == raw_annotations(raw).contains_key(prefix() + store_replicas_key()));
            }
            match annotations.get("store.replicas") {
                None => {
                    return Err(
                        ResourceParse::MissingAnnotationInSleepState {
                            id,
                            annotation: prefixed("store.replicas"),
                        },
                    );
                },
                Some(text) => {
                    let cs = chars_of(text.as_str());
                    match parse_i32(&cs) {
                        Some(n) => {
                            if n < 1 {
                                return Err(
                                    ResourceParse::ParseFailed {
                                        id,
                                        value: annotation_field("store.replicas"),
                                        error: String::from_str("must be at least 1"),
                                    },
                                );
                            }
                            n
                        },
                        None => {
                            return Err(
                                ResourceParse::ParseFailed {
                                    id,
                                    value: annotation_field("store.replicas"),
                                    error: String::from_str("not a 32-bit decimal integer"),
                                },
                            );
                        },
                    }
                },
            }
        } else {
            replicas
        };
        Ok(Deploy { id, name, namespace, replicas, store_replicas })
    }

    /// What a merge patch of this Deployment sets: the replica count and the stored one.
    pub fn patch_fields(&self) -> (r: DeployPatch)
        ensures
            r.replicas == self.replicas,
            r.store_replicas@ == decimal_int(self.store_replicas as int),
    {
        DeployPatch { replicas: self.replicas, store_replicas: i32_to_string(self.store_replicas) }
    }
}

impl TargetResource for Deploy {
    open spec fn wf(&self) -> bool {
        self.replicas >= 0 && (self.replicas == 0 ==> self.store_replicas >= 1)
    }

    open spec fn asleep(&self) -> bool {
        self.replicas == 0
    }

    open spec fn slept(&self, after: &Deploy) -> bool {
        if self.replicas == 0 {
            *after == *self
        } else {
            &&& after.replicas == 0
            &&& after.store_replicas == self.replicas
            &&& after.id == self.id
            &&& after.name == self.name
            &&& after.namespace == self.namespace
        }
    }

    open spec fn woken(&self, after: &Deploy) -> bool {
        if self.replicas != 0 {
            *after == *self
        } else {
            &&& after.replicas == self.store_replicas
            &&& after.store_replicas == self.store_replicas
            &&& after.id == self.id
            &&& after.name == self.name
            &&& after.namespace == self.namespace
        }
    }

    open spec fn id_view(&self) -> Seq<char> {
        self.id@
    }

    fn id(&self) -> (r: String) {
        self.id.clone()
    }

    fn is_asleep(&self) -> (r: bool) {
        self.replicas == 0
    }

    fn sleep(&mut self) -> (changed: bool) {
        if self.replicas == 0 {
            return false;
        }
        self.store_replicas = self.replicas;
        self.replicas = 0;
        true
    }

    fn wake(&mut self) -> (changed: bool) {
        if self.replicas != 0 {
            return false;
        }
        self.replicas = self.store_replicas;
        true
    }
}

/// The number of readiness polls after which waking is given up.
pub const MAX_READY_POLLS: u32 = 1000;

pub open spec fn pow2(n: nat) -> nat
    decreases n,
{
    if n == 0 {
        1
    } else {
        2 * pow2((n - 1) as nat)
    }
}

/// The pause after readiness poll number `attempt` (from zero): 100 ms doubled at each
/// poll, up to 12.8 s.
pub open spec fn backoff_spec(attempt: nat) -> nat {
    100 * pow2(if attempt < 7 {
        attempt
    } else {
        7
    })
}

pub fn backoff_millis(attempt: u32) -> (r: u64)
    ensures
        r == backoff_spec(attempt as nat),
{
    let e: u32 = if attempt < 7 {
        attempt
    } else {
        7
    };
    let mut p: u64 = 1;
    let mut k: u32 = 0;
    while k < e
        invariant
            k <= e <= 7,
            p == pow2(k as nat),
            p <= 128,
        decreases e - k,
    {
        p = p * 2;
        k = k + 1;
        assert(pow2(k as nat) == 2 * pow2((k - 1) as nat));
        assert(p <= 128) by {
            reveal_with_fuel(pow2, 8);
        }
    }
    100 * p
}

/// What to do after a readiness poll while waking a Deployment.
pub enum WaitStep {
    /// All wanted replicas are ready.
    Ready,
    /// Poll again after this many milliseconds.
    Wait(u64),
    /// Too many polls: report the readiness timeout.
    GiveUp,
}

/// The decision after readiness poll number `attempt` (from zero) found `ready` of the
/// `replicas` wanted ones ready: done when they are all ready, else wait and poll again,
/// up to `MAX_READY_POLLS` polls in all.
pub fn wait_ready_step(replicas: i32, ready: i32, attempt: u32) -> (r: WaitStep)
    ensures
        attempt >= MAX_READY_POLLS ==> r is GiveUp,
        attempt < MAX_READY_POLLS && ready == replicas ==> r is Ready,
        attempt + 1 >= MAX_READY_POLLS && ready != replicas ==> r is GiveUp,
        attempt + 1 < MAX_READY_POLLS && ready != replicas ==> r == WaitStep::Wait(
            backoff_spec(attempt as nat) as u64,
        ),
{
    if attempt >= MAX_READY_POLLS {
        WaitStep::GiveUp
    } else if ready == replicas {
        WaitStep::Ready
    } else if attempt >= MAX_READY_POLLS - 1 {
        WaitStep::GiveUp
    } else {
        WaitStep::Wait(backoff_millis(attempt))
    }
}

} // verus!
