//! Request counters scraped from the ingress pods, and what they say about activity.
use vstd::prelude::*;
use crate::strmap::{map_of, keys_unique, lemma_map_of_dom, lemma_map_of_unique, lemma_map_of_push, lemma_map_of_update};
use crate::text::{chars_of, parse_u64, parse_u64_spec, string_of};

verus! {

/// Per-service, per-ingress-pod request counters:
/// `service -> ingress pod uid -> requests`.
pub struct MetricSample {
    pub services: Vec<(String, Vec<(String, u64)>)>,
}

pub open spec fn counts_view(v: Seq<(String, u64)>) -> Seq<(Seq<char>, u64)> {
    v.map_values(|p: (String, u64)| (p.0@, p.1))
}

pub open spec fn service_entry_view(e: (String, Vec<(String, u64)>)) -> (Seq<char>, Map<Seq<char>, u64>) {
    (e.0@, map_of(counts_view(e.1@)))
}

impl View for MetricSample {
    type V = Map<Seq<char>, Map<Seq<char>, u64>>;

    open spec fn view(&self) -> Map<Seq<char>, Map<Seq<char>, u64>> {
        map_of(self.services@.map_values(|e: (String, Vec<(String, u64)>)| service_entry_view(e)))
    }
}

impl MetricSample {
    pub open spec fn entries(&self) -> Seq<(Seq<char>, Map<Seq<char>, u64>)> {
        self.services@.map_values(|e: (String, Vec<(String, u64)>)| service_entry_view(e))
    }

    pub open spec fn wf(&self) -> bool {
        &&& keys_unique(self.entries())
        &&& forall|i: int| 0 <= i < self.services@.len() ==> keys_unique(
            counts_view(#[trigger] self.services@[i].1@),
        )
    }

    pub fn new() -> (r: MetricSample)
        ensures
            r.wf(),
            r@ == Map::<Seq<char>, Map<Seq<char>, u64>>::empty(),
    {
        let r = MetricSample { services: Vec::new() };
        assert(r.entries() =~= Seq::empty());
        r
    }
}

/// Whether `next` shows traffic since `prev`: a service that `prev` lacks, an ingress pod
/// that `prev` lacks for a service, or a counter that grew.
pub open spec fn activity(
    prev: Map<Seq<char>, Map<Seq<char>, u64>>,
    next: Map<Seq<char>, Map<Seq<char>, u64>>,
) -> bool {
    exists|s: Seq<char>| #[trigger] next.contains_key(s) && service_active(prev, next, s)
}

pub open spec fn service_active(
    prev: Map<Seq<char>, Map<Seq<char>, u64>>,
    next: Map<Seq<char>, Map<Seq<char>, u64>>,
    s: Seq<char>,
) -> bool {
    !prev.contains_key(s) || exists|u: Seq<char>| #[trigger] next[s].contains_key(u) && (
    !prev[s].contains_key(u) || next[s][u] > prev[s][u])
}

/// The counter of `u` is in `op` and not lower there than in `np`.
pub open spec fn counter_kept(op: Seq<(Seq<char>, u64)>, np: Seq<(Seq<char>, u64)>, u: Seq<char>) -> bool {
    map_of(op).contains_key(u) && map_of(np)[u] <= map_of(op)[u]
}

/// The position of the entry keyed `key`, if any.
pub fn find_entry<V>(entries: &Vec<(String, V)>, key: &String) -> (r: Option<usize>)
    ensures
        match r {
            Some(i) => i < entries@.len() && entries@[i as int].0@ == key@,
            None => forall|j: int| 0 <= j < entries@.len() ==> #[trigger] entries@[j].0@ != key@,
        },
{
    let mut i: usize = 0;
    while i < entries.len()
        invariant
            i <= entries@.len(),
            forall|j: int| 0 <= j < i ==> #[trigger] entries@[j].0@ != key@,
        decreases entries@.len() - i,
    {
        if entries[i].0 == *key {
            return Some(i);
        }
        i = i + 1;
    }
    None
}

proof fn lemma_entry_lookup<V>(s: Seq<(Seq<char>, V)>, i: int)
    requires
        keys_unique(s),
        0 <= i < s.len(),
    ensures
        map_of(s).contains_key(s[i].0),
        map_of(s)[s[i].0] == s[i].1,
{
    lemma_map_of_unique(s, i);
}

proof fn lemma_entry_absent<V>(s: Seq<(Seq<char>, V)>, k: Seq<char>)
    requires
        forall|j: int| 0 <= j < s.len() ==> #[trigger] s[j].0 != k,
    ensures
        !map_of(s).contains_key(k),
{
    lemma_map_of_dom(s, k);
}

/// Activity if `next` shows traffic since `prev`.
pub fn classify(prev: &MetricSample, next: &MetricSample) -> (r: bool)
    requires
        prev.wf(),
        next.wf(),
    ensures
        r == activity(prev@, next@),
{
    let ghost pe = prev.entries();
    let ghost ne = next.entries();
    let mut i: usize = 0;
    while i < next.services.len()
        invariant
            i <= next.services@.len(),
            pe == prev.entries(),
            ne == next.entries(),
            prev.wf(),
            next.wf(),
            forall|a: int| 0 <= a < i ==> !service_active(prev@, next@, #[trigger] ne[a].0),
        decreases next.services@.len() - i,
    {
        proof {
            lemma_entry_lookup(ne, i as int);
        }
        let ghost s = ne[i as int].0;
        let found = find_entry(&prev.services, &next.services[i].0);
        match found {
            None => {
                proof {
                    assert forall|j: int| 0 <= j < pe.len() implies #[trigger] pe[j].0 != s by {
                        assert(pe[j].0 == prev.services@[j].0@);
                    }
                    lemma_entry_absent(pe, s);
                    assert(service_active(prev@, next@, s));
                }
                return true;
            },
            Some(p) => {
                proof {
                    assert(pe[p as int].0 == s);
                    lemma_entry_lookup(pe, p as int);
                }
                let pods = &next.services[i].1;
                let old_pods = &prev.services[p].1;
                let ghost np = counts_view(pods@);
                let ghost op = counts_view(old_pods@);
                assert(keys_unique(np));
                assert(keys_unique(op));
                assert(next@[s] == map_of(np));
                assert(prev@[s] == map_of(op));
                let mut j: usize = 0;
                while j < pods.len()
                    invariant
                        j <= pods@.len(),
                        np == counts_view(pods@),
                        op == counts_view(old_pods@),
                        keys_unique(np),
                        keys_unique(op),
                        next@.contains_key(s) && next@[s] == map_of(np),
                        prev@.contains_key(s) && prev@[s] == map_of(op),
                        i < next.services@.len(),
                        s == ne[i as int].0,
                        pe == prev.entries(),
                        ne == next.entries(),
                        prev.wf(),
                        next.wf(),
                        forall|a: int| 0 <= a < i ==> !service_active(prev@, next@, #[trigger] ne[a].0),
                        forall|b: int| 0 <= b < j ==> counter_kept(op, np, #[trigger] np[b].0),
                    decreases pods@.len() - j,
                {
                    proof {
                        lemma_entry_lookup(np, j as int);
                    }
                    let ghost u = np[j as int].0;
                    match find_entry(old_pods, &pods[j].0) {
                        None => {
                            proof {
                                assert forall|k: int| 0 <= k < op.len() implies #[trigger] op[k].0
                                    != u by {
                                    assert(op[k].0 == old_pods@[k].0@);
                                }
                                lemma_entry_absent(op, u);
                                assert(next@[s].contains_key(u));
                            }
                            return true;
                        },
                        Some(q) => {
                            proof {
                                assert(op[q as int].0 == u);
                                lemma_entry_lookup(op, q as int);
                            }
                            if pods[j].1 > old_pods[q].1 {
                                proof {
                                    assert(next@[s].contains_key(u));
                                    assert(next@[s][u] > prev@[s][u]);
                                }
                                return true;
                            }
                            proof {
                                assert(map_of(np)[u] == pods@[j as int].1);
                                assert(map_of(op)[u] == old_pods@[q as int].1);
                                assert(counter_kept(op, np, u));
                            }
                        },
                    }
                    j = j + 1;
                }
                proof {
                    assert forall|u: Seq<char>| #[trigger] next@[s].contains_key(u) implies prev@[s].contains_key(
                        u,
                    ) && next@[s][u] <= prev@[s][u] by {
                        lemma_map_of_dom(np, u);
                        let b = choose|b: int| 0 <= b < np.len() && #[trigger] np[b].0 == u;
                        assert(counter_kept(op, np, np[b].0));
                    }
                }
            },
        }
        i = i + 1;
    }
    proof {
        assert forall|s: Seq<char>| #[trigger] next@.contains_key(s) implies !service_active(
            prev@,
            next@,
            s,
        ) by {
            lemma_map_of_dom(ne, s);
            let a = choose|a: int| 0 <= a < ne.len() && #[trigger] ne[a].0 == s;
            assert(!service_active(prev@, next@, ne[a].0));
        }
    }
    false
}

pub open spec fn sat_add(a: u64, b: u64) -> u64 {
    if a + b > u64::MAX {
        u64::MAX
    } else {
        (a + b) as u64
    }
}

/// The counters `m` after adding `n` to the one of `u` (absent counts as zero); the sum
/// stops at `u64::MAX`.
pub open spec fn add_count(m: Map<Seq<char>, u64>, u: Seq<char>, n: u64) -> Map<Seq<char>, u64> {
    m.insert(u, sat_add(if m.contains_key(u) { m[u] } else { 0 }, n))
}

/// The sample `m` after adding `n` requests of service `s` through ingress pod `u`.
pub open spec fn add_sample(
    m: Map<Seq<char>, Map<Seq<char>, u64>>,
    s: Seq<char>,
    u: Seq<char>,
    n: u64,
) -> Map<Seq<char>, Map<Seq<char>, u64>> {
    m.insert(s, add_count(if m.contains_key(s) { m[s] } else { Map::empty() }, u, n))
}

/// The sample `m` after recording the per-service counters `counts` of ingress pod `u`.
pub open spec fn record_spec(
    m: Map<Seq<char>, Map<Seq<char>, u64>>,
    u: Seq<char>,
    counts: Seq<(Seq<char>, u64)>,
) -> Map<Seq<char>, Map<Seq<char>, u64>>
    decreases counts.len(),
{
    if counts.len() == 0 {
        m
    } else {
        add_sample(record_spec(m, u, counts.drop_last()), counts.last().0, u, counts.last().1)
    }
}

fn sat_add_exec(a: u64, b: u64) -> (r: u64)
    ensures
        r == sat_add(a, b),
{
    if a > u64::MAX - b {
        u64::MAX
    } else {
        a + b
    }
}

fn copy_counts(v: &Vec<(String, u64)>) -> (r: Vec<(String, u64)>)
    ensures
        counts_view(r@) == counts_view(v@),
{
    let mut out: Vec<(String, u64)> = Vec::new();
    let mut k: usize = 0;
    while k < v.len()
        invariant
            k <= v@.len(),
            out@.len() == k,
            forall|j: int| 0 <= j < k ==> (#[trigger] out@[j]).0@ == v@[j].0@ && out@[j].1 == v@[j].1,
        decreases v@.len() - k,
    {
        out.push((v[k].0.clone(), v[k].1));
        k = k + 1;
    }
    assert(counts_view(out@) =~= counts_view(v@));
    out
}

/// Adds `n` to the counter of `u`.
pub fn add_to_counts(v: &mut Vec<(String, u64)>, u: &String, n: u64)
    requires
        keys_unique(counts_view(old(v)@)),
    ensures
        keys_unique(counts_view(final(v)@)),
        map_of(counts_view(final(v)@)) == add_count(map_of(counts_view(old(v)@)), u@, n),
{
    let ghost before = counts_view(v@);
    match find_entry(v, u) {
        Some(j) => {
            proof {
                assert(before[j as int].0 == u@);
                lemma_map_of_unique(before, j as int);
            }
            let total = sat_add_exec(v[j].1, n);
            let key = v[j].0.clone();
            v.set(j, (key, total));
            proof {
                let after = counts_view(v@);
                assert(after =~= before.update(j as int, (before[j as int].0, total)));
                lemma_map_of_update(before, j as int, total);
                assert(keys_unique(after)) by {
                    assert forall|a: int, b: int| 0 <= a < b < after.len() implies #[trigger] after[a].0
                        != #[trigger] after[b].0 by {
                        assert(before[a].0 != before[b].0);
                    }
                }
            }
        },
        None => {
            proof {
                assert forall|k: int| 0 <= k < before.len() implies #[trigger] before[k].0 != u@ by {
                    assert(before[k].0 == v@[k].0@);
                }
                lemma_map_of_dom(before, u@);
            }
            v.push((u.clone(), n));
            proof {
                let after = counts_view(v@);
                assert(after =~= before.push((u@, n)));
                lemma_map_of_push(before, (u@, n));
                assert(keys_unique(after)) by {
                    assert forall|a: int, b: int| 0 <= a < b < after.len() implies #[trigger] after[a].0
                        != #[trigger] after[b].0 by {
                        if b < before.len() {
                            assert(before[a].0 != before[b].0);
                        }
                    }
                }
            }
        },
    }
}

impl MetricSample {
    /// Adds `n` requests of service `service` through ingress pod `uid`.
    pub fn add(&mut self, service: &String, uid: &String, n: u64)
        requires
            old(self).wf(),
        ensures
            final(self).wf(),
            final(self)@ == add_sample(old(self)@, service@, uid@, n),
    {
        let ghost before = self.entries();
        match find_entry(&self.services, service) {
            Some(i) => {
                proof {
                    assert(before[i as int].0 == service@);
                    lemma_map_of_unique(before, i as int);
                    assert(keys_unique(counts_view(self.services@[i as int].1@)));
                }
                let mut pods = copy_counts(&self.services[i].1);
                add_to_counts(&mut pods, uid, n);
                let ghost pv = map_of(counts_view(pods@));
                let key = self.services[i].0.clone();
                self.services.set(i, (key, pods));
                proof {
                    let after = self.entries();
                    assert(after =~= before.update(i as int, (before[i as int].0, pv)));
                    lemma_map_of_update(before, i as int, pv);
                    assert(keys_unique(after)) by {
                        assert forall|a: int, b: int| 0 <= a < b < after.len() implies #[trigger] after[a].0
                            != #[trigger] after[b].0 by {
                            assert(before[a].0 != before[b].0);
                        }
                    }
                }
            },
            None => {
                proof {
                    assert forall|k: int| 0 <= k < before.len() implies #[trigger] before[k].0
                        != service@ by {
                        assert(before[k].0 == self.services@[k].0@);
                    }
                    lemma_map_of_dom(before, service@);
                }
                let mut pods: Vec<(String, u64)> = Vec::new();
                assert(counts_view(pods@) =~= Seq::empty());
                add_to_counts(&mut pods, uid, n);
                let ghost pv = map_of(counts_view(pods@));
                assert(pv == add_count(Map::empty(), uid@, n));
                self.services.push((service.clone(), pods));
                proof {
                    let after = self.entries();
                    assert(after =~= before.push((service@, pv)));
                    lemma_map_of_push(before, (service@, pv));
                    assert(keys_unique(after)) by {
                        assert forall|a: int, b: int| 0 <= a < b < after.len() implies #[trigger] after[a].0
                            != #[trigger] after[b].0 by {
                            if b < before.len() {
                                assert(before[a].0 != before[b].0);
                            }
                        }
                    }
                }
            },
        }
    }

    /// Records the per-service counters of one ingress pod.
    pub fn record_pod(&mut self, uid: &String, counts: &Vec<(String, u64)>)
        requires
            old(self).wf(),
        ensures
            final(self).wf(),
            final(self)@ == record_spec(old(self)@, uid@, counts_view(counts@)),
    {
        let ghost start = self@;
        let ghost cv = counts_view(counts@);
        let mut k: usize = 0;
        while k < counts.len()
            invariant
                k <= counts@.len(),
                cv == counts_view(counts@),
                self.wf(),
                self@ == record_spec(start, uid@, cv.take(k as int)),
            decreases counts@.len() - k,
        {
            assert(cv.take(k + 1).drop_last() =~= cv.take(k as int));
            self.add(&counts[k].0, uid, counts[k].1);
            k = k + 1;
        }
        assert(cv.take(k as int) =~= cv);
    }
}

/// Why metrics could not be had from an ingress pod.
pub enum IngressError {
    /// The pod lacks something needed to reach its metrics endpoint.
    ResourceDataError(String),
    /// The metrics text holds a counter that cannot be read.
    ParsingMetricError(String),
}

/// The regex matching Traefik's per-service request counter; group 1 is the service,
/// group 2 the count.
pub const TRAEFIK_METRIC_PATTERN: &'static str = r#"traefik_service_requests_total\{.*service="(.+)".*\} (\d+)"#;

/// The capture groups 1 and 2 of each successive non-overlapping match of the regex
/// `pattern` in `text`.
pub uninterp spec fn capture_pairs(pattern: Seq<char>, text: Seq<char>) -> Seq<(Option<Seq<char>>, Option<Seq<char>>)>;

pub open spec fn opt_view(o: Option<String>) -> Option<Seq<char>> {
    match o {
        Some(s) => Some(s@),
        None => None,
    }
}

pub open spec fn captures_view(v: Seq<(Option<String>, Option<String>)>) -> Seq<(Option<Seq<char>>, Option<Seq<char>>)> {
    v.map_values(|c: (Option<String>, Option<String>)| (opt_view(c.0), opt_view(c.1)))
}

/// Relies on `regex::Regex::new`, which compiles `pattern` or fails, and on
/// `Regex::captures_iter`, which yields the successive non-overlapping matches in `text`;
/// of each match the groups 1 and 2 are kept. The Traefik counter pattern (literal text,
/// `.*`, two groups and `\d+`) is a valid regex, so for it the compilation succeeds.
#[verifier::external_body]
fn regex_capture_pairs(pattern: &str, text: &str) -> (r: Option<Vec<(Option<String>, Option<String>)>>)
    ensures
        r matches Some(v) ==> captures_view(v@) == capture_pairs(pattern@, text@),
        pattern@ == TRAEFIK_METRIC_PATTERN@ ==> r is Some,
{
    match regex::Regex::new(pattern) {
        Ok(re) => Some(
            re.captures_iter(text).map(
                |c| (c.get(1).map(|m| m.as_str().to_string()), c.get(2).map(|m| m.as_str().to_string())),
            ).collect(),
        ),
        Err(_) => None,
    }
}

/// The per-service totals of a list of captured `(service, count)` pairs, when every
/// pair is complete and every count is a `u64`.
pub open spec fn sum_captures(cs: Seq<(Option<Seq<char>>, Option<Seq<char>>)>) -> Option<Map<Seq<char>, u64>>
    decreases cs.len(),
{
    if cs.len() == 0 {
        Some(Map::empty())
    } else {
        match sum_captures(cs.drop_last()) {
            Some(m) => match cs.last() {
                (Some(svc), Some(num)) => match parse_u64_spec(num) {
                    Some(n) => Some(add_count(m, svc, n)),
                    None => None,
                },
                _ => None,
            },
            None => None,
        }
    }
}

/// Sums the captured `(service, count)` pairs per service.
pub fn sum_metric_captures(captures: &Vec<(Option<String>, Option<String>)>) -> (r: Result<Vec<(String, u64)>, IngressError>)
    ensures
        r is Ok <==> sum_captures(captures_view(captures@)) is Some,
        r is Err ==> r matches Err(IngressError::ParsingMetricError(_)),
        r matches Ok(v) ==> keys_unique(counts_view(v@)) && map_of(counts_view(v@)) == sum_captures(
            captures_view(captures@),
        )->0,
{
    let ghost cv = captures_view(captures@);
    let mut out: Vec<(String, u64)> = Vec::new();
    assert(counts_view(out@) =~= Seq::empty());
    let mut k: usize = 0;
    while k < captures.len()
        invariant
            k <= captures@.len(),
            cv == captures_view(captures@),
            keys_unique(counts_view(out@)),
            sum_captures(cv.take(k as int)) == Some(map_of(counts_view(out@))),
        decreases captures@.len() - k,
    {
        assert(cv.take(k + 1).drop_last() =~= cv.take(k as int));
        assert(cv.take(k + 1).last() == cv[k as int]);
        match (&captures[k].0, &captures[k].1) {
            (Some(svc), Some(num)) => {
                let digits = chars_of(num.as_str());
                match parse_u64(&digits) {
                    Some(n) => {
                        add_to_counts(&mut out, svc, n);
                    },
                    None => {
                        proof {
                            lemma_sum_captures_stuck(cv, k as int);
                        }
                        return Err(
                            IngressError::ParsingMetricError(
                                String::from_str("a request count is not a 64-bit decimal integer"),
                            ),
                        );
                    },
                }
            },
            _ => {
                proof {
                    lemma_sum_captures_stuck(cv, k as int);
                }
                return Err(
                    IngressError::ParsingMetricError(
                        String::from_str("a metric line lacks its service or its count"),
                    ),
                );
            },
        }
        k = k + 1;
    }
    assert(cv.take(k as int) =~= cv);
    Ok(out)
}

/// Once a prefix of the captures cannot be summed, neither can the whole list.
proof fn lemma_sum_captures_stuck(cs: Seq<(Option<Seq<char>>, Option<Seq<char>>)>, k: int)
    requires
        0 <= k < cs.len(),
        sum_captures(cs.take(k + 1)) is None,
    ensures
        sum_captures(cs) is None,
    decreases cs.len() - k,
{
    if k + 1 < cs.len() {
        assert(cs.take(k + 2).drop_last() =~= cs.take(k + 1));
        lemma_sum_captures_stuck(cs, k + 1);
    } else {
        assert(cs.take(k + 1) =~= cs);
    }
}

/// The Traefik ingress: its pods expose per-service request counters.
pub struct Traefik;

impl Traefik {
    /// The per-service request totals in a Traefik metrics dump.
    pub fn parse_prometheus_metrics(raw_metrics_dump: &str) -> (r: Result<Vec<(String, u64)>, IngressError>)
        ensures
            r matches Ok(v) ==> keys_unique(counts_view(v@)) && Some(map_of(counts_view(v@)))
                == sum_captures(capture_pairs(TRAEFIK_METRIC_PATTERN@, raw_metrics_dump@)),
            r is Ok <==> sum_captures(capture_pairs(TRAEFIK_METRIC_PATTERN@, raw_metrics_dump@)) is Some,
            r is Err ==> r matches Err(IngressError::ParsingMetricError(_)),
    {
        match regex_capture_pairs(TRAEFIK_METRIC_PATTERN, raw_metrics_dump) {
            Some(captures) => sum_metric_captures(&captures),
            None => Err(IngressError::ParsingMetricError(String::from_str("invalid metric pattern"))),
        }
    }
}

/// The address of an ingress pod's metrics: `http://{ip}:{port}{path}`, the port and
/// path taken from its `prometheus.io/port` and `prometheus.io/path` annotations.
pub fn scrape_url(ip: Option<&String>, port: Option<&String>, path: Option<&String>) -> (r: Result<String, IngressError>)
    ensures
        r is Ok <==> (ip is Some && port is Some && path is Some),
        r matches Ok(u) ==> u@ == seq!['h', 't', 't', 'p', ':', '/', '/'] + ip->0@ + seq![':'] + port->0@
            + path->0@,
{
    let port = match port {
        Some(p) => p,
        None => {
            return Err(IngressError::ResourceDataError(String::from_str("No port annotation")));
        },
    };
    let ip = match ip {
        Some(i) => i,
        None => {
            return Err(IngressError::ResourceDataError(String::from_str("No ip")));
        },
    };
    let path = match path {
        Some(p) => p,
        None => {
            return Err(IngressError::ResourceDataError(String::from_str("No path annotation")));
        },
    };
    let mut out: Vec<char> = vec!['h', 't', 't', 'p', ':', '/', '/'];
    let ghost head = out@;
    append_chars(&mut out, &chars_of(ip.as_str()));
    out.push(':');
    append_chars(&mut out, &chars_of(port.as_str()));
    append_chars(&mut out, &chars_of(path.as_str()));
    assert(out@ =~= seq!['h', 't', 't', 'p', ':', '/', '/'] + ip@ + seq![':'] + port@ + path@);
    Ok(string_of(&out))
}

fn append_chars(out: &mut Vec<char>, cs: &Vec<char>)
    ensures
        final(out)@ == old(out)@ + cs@,
{
    let ghost start = out@;
    let mut k: usize = 0;
    while k < cs.len()
        invariant
            k <= cs@.len(),
            out@ == start + cs@.take(k as int),
        decreases cs@.len() - k,
    {
        out.push(cs[k]);
        assert(cs@.take(k + 1) =~= cs@.take(k as int).push(cs@[k as int]));
        k = k + 1;
    }
    assert(cs@.take(k as int) =~= cs@);
}

} // verus!
