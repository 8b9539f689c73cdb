//! Properties that tie several parts of the library together.
use vstd::prelude::*;
use crate::deploy::Deploy;
use crate::json::{
    Scalar, port_ok, encode_selector_spec, decode_selector_spec, encode_ports_spec,
    decode_ports_spec, lemma_selector_round_trip, lemma_ports_round_trip,
};
use crate::metrics::{activity, service_active};
use crate::resource::TargetResource;
use crate::service::{
    Service, RawService, ports_view, sentinel_selector, stored_selector_of, stored_ports_of,
    raw_service_annotations,
};
use crate::annotations::{prefix, store_selector_key, store_ports_key};
use crate::strmap::map_of;
use crate::text::{decimal_int, parse_i32_spec, lemma_signed_decimal};

verus! {

/// The stored-state annotations read back what was written: the replica count, the
/// selector (the same entries in the same order, hence the same map) and the ports.
pub proof fn annotation_round_trip(
    replicas: i32,
    selector: Seq<(Seq<char>, Seq<char>)>,
    ports: Seq<(int, Scalar)>,
)
    requires
        forall|k: int| 0 <= k < ports.len() ==> port_ok(#[trigger] ports[k]),
    ensures
        parse_i32_spec(decimal_int(replicas as int)) == Some(replicas),
        decode_selector_spec(encode_selector_spec(selector)) == Some(selector),
        map_of(decode_selector_spec(encode_selector_spec(selector))->0) == map_of(selector),
        decode_ports_spec(encode_ports_spec(ports)) == Some(ports),
{
    lemma_signed_decimal(replicas as int);
    lemma_selector_round_trip(selector);
    lemma_ports_round_trip(ports);
}

/// Putting a Deployment to sleep twice is putting it to sleep once.
pub proof fn deploy_sleep_idempotent(d0: Deploy, d1: Deploy, d2: Deploy)
    requires
        d0.slept(&d1),
        d1.slept(&d2),
    ensures
        d2 == d1,
{
}

/// Waking a Deployment that was just put to sleep restores its replica count.
pub proof fn deploy_wake_restores(d0: Deploy, d1: Deploy, d2: Deploy)
    requires
        !d0.asleep(),
        d0.slept(&d1),
        d1.woken(&d2),
    ensures
        d2.replicas == d0.replicas,
        !d2.asleep(),
        d2.id == d0.id,
{
}

/// Putting a Service to sleep twice is putting it to sleep once.
pub proof fn service_sleep_idempotent(s0: Service, s1: Service, s2: Service)
    requires
        s0.slept(&s1),
        s1.slept(&s2),
    ensures
        s2 == s1,
{
}

/// Waking a Service that was just put to sleep restores its selector, entry for entry,
/// and its ports.
pub proof fn service_wake_restores(s0: Service, s1: Service, s2: Service)
    requires
        !s0.asleep(),
        s0.slept(&s1),
        s1.woken(&s2),
    ensures
        s2.selector.pairs() == s0.selector.pairs(),
        s2.selector@ == s0.selector@,
        ports_view(s2.ports@) == ports_view(s0.ports@),
        s2.id == s0.id,
{
    assert(s1.selector@ == sentinel_selector());
}

/// The stored-state annotations that putting a Service to sleep writes read back as the
/// selector, entry for entry, and the ports it had before.
pub proof fn service_sleep_annotations_read_back(s0: Service, s1: Service)
    requires
        !s0.asleep(),
        s0.slept(&s1),
    ensures
        decode_selector_spec(encode_selector_spec(s1.store_selector.pairs())) == Some(
            s0.selector.pairs(),
        ),
        decode_ports_spec(encode_ports_spec(ports_view(s1.store_ports@))) == Some(
            ports_view(s0.ports@),
        ),
{
    let pv = ports_view(s1.store_ports@);
    assert forall|k: int| 0 <= k < pv.len() implies port_ok(#[trigger] pv[k]) by {
        assert(pv[k] == s1.store_ports@[k]@);
    }
    lemma_selector_round_trip(s1.store_selector.pairs());
    lemma_ports_round_trip(pv);
}

/// The stored replica count that putting a Deployment to sleep writes reads back as the
/// replica count it had before.
pub proof fn deploy_sleep_annotation_reads_back(d0: Deploy, d1: Deploy)
    requires
        !d0.asleep(),
        d0.slept(&d1),
    ensures
        parse_i32_spec(decimal_int(d1.store_replicas as int)) == Some(d0.replicas),
{
    lemma_signed_decimal(d1.store_replicas as int);
}

/// A sleeping Service whose annotations hold the encoded selector and ports reads back
/// exactly that selector and those ports as its stored state.
pub proof fn service_stored_state_read_back(
    raw: RawService,
    selector: Seq<(Seq<char>, Seq<char>)>,
    ports: Seq<(int, Scalar)>,
)
    requires
        forall|k: int| 0 <= k < ports.len() ==> port_ok(#[trigger] ports[k]),
        raw_service_annotations(&raw).contains_key(prefix() + store_selector_key()),
        raw_service_annotations(&raw)[prefix() + store_selector_key()] == encode_selector_spec(
            selector,
        ),
        raw_service_annotations(&raw).contains_key(prefix() + store_ports_key()),
        raw_service_annotations(&raw)[prefix() + store_ports_key()] == encode_ports_spec(ports),
    ensures
        stored_selector_of(&raw) == Some(selector),
        stored_ports_of(&raw) == Some(ports),
{
    lemma_selector_round_trip(selector);
    lemma_ports_round_trip(ports);
}

/// When every counter of `prev` is still there in `next`, none lower, and one is higher,
/// the classifier sees activity.
pub proof fn classify_monotone(
    prev: Map<Seq<char>, Map<Seq<char>, u64>>,
    next: Map<Seq<char>, Map<Seq<char>, u64>>,
    s: Seq<char>,
    u: Seq<char>,
)
    requires
        forall|t: Seq<char>| #[trigger] prev.contains_key(t) ==> next.contains_key(t) && forall|
            v: Seq<char>,
        | #[trigger] prev[t].contains_key(v) ==> next[t].contains_key(v) && next[t][v]
            >= prev[t][v],
        prev.contains_key(s),
        prev[s].contains_key(u),
        next[s][u] > prev[s][u],
    ensures
        activity(prev, next),
{
    assert(next.contains_key(s));
    assert(next[s].contains_key(u));
    assert(service_active(prev, next, s));
}

/// A sample compared with itself shows no activity.
pub proof fn classify_same(m: Map<Seq<char>, Map<Seq<char>, u64>>)
    ensures
        !activity(m, m),
{
}

} // verus!
