//! DNS records as exchanged with the controller, and their identity.
use vstd::prelude::*;

verus! {

/// `dashmap::DashMap`, the map type of the endpoint metadata, carried along
/// as an opaque value.
#[verifier::external_type_specification]
#[verifier::external_body]
#[verifier::reject_recursive_types(K)]
#[verifier::reject_recursive_types(V)]
#[verifier::reject_recursive_types(S)]
pub struct ExDashMap<K, V, S>(dashmap::DashMap<K, V, S>);

/// The record types the controller knows.
#[derive(Debug, Clone, Copy, PartialEq, Eq, Hash, Structural)]
pub enum RecordType {
    A,
    AAAA,
    CNAME,
    TXT,
    SRV,
    NS,
    PTR,
    MX,
    NAPTR,
}

/// A DNS record with optional metadata.
///
/// Two endpoints are the same record when their name, targets, type and TTL
/// agree; `set_identifier`, `labels` and `provider_specific` ride along.
#[derive(Debug, Clone)]
pub struct Endpoint {
    pub dns_name: Option<String>,
    pub targets: Option<Vec<String>>,
    pub record_type: Option<RecordType>,
    pub set_identifier: Option<String>,
    pub record_ttl: Option<u32>,
    pub labels: Option<dashmap::DashMap<String, String>>,
    pub provider_specific: Option<dashmap::DashMap<String, String>>,
}

/// The identity of an endpoint: the four fields that decide set membership.
pub struct EndpointKey {
    pub dns_name: Option<Seq<char>>,
    pub targets: Option<Seq<Seq<char>>>,
    pub record_type: Option<RecordType>,
    pub record_ttl: Option<u32>,
}

pub open spec fn opt_str_view(s: Option<String>) -> Option<Seq<char>> {
    match s {
        Some(x) => Some(x@),
        None => None,
    }
}

pub open spec fn strs_view(v: Seq<String>) -> Seq<Seq<char>> {
    v.map_values(|s: String| s@)
}

pub open spec fn opt_strs_view(v: Option<Vec<String>>) -> Option<Seq<Seq<char>>> {
    match v {
        Some(x) => Some(strs_view(x@)),
        None => None,
    }
}

/// The identity key of `e`.
pub open spec fn key(e: Endpoint) -> EndpointKey {
    EndpointKey {
        dns_name: opt_str_view(e.dns_name),
        targets: opt_strs_view(e.targets),
        record_type: e.record_type,
        record_ttl: e.record_ttl,
    }
}

/// The identities of the endpoints of `s`.
pub open spec fn key_set(s: Seq<Endpoint>) -> Set<EndpointKey> {
    s.map_values(|e: Endpoint| key(e)).to_set()
}

/// No identity occurs twice in `s`.
pub open spec fn unique_keys(s: Seq<Endpoint>) -> bool {
    forall|i: int, j: int| 0 <= i < j < s.len() ==> key(#[trigger] s[i]) != key(#[trigger] s[j])
}

/// `k` is the identity of some endpoint of `s`.
pub proof fn lemma_key_set_contains(s: Seq<Endpoint>, k: EndpointKey)
    ensures
        key_set(s).contains(k) <==> exists|i: int| 0 <= i < s.len() && key(#[trigger] s[i]) == k,
{
    let ks = s.map_values(|e: Endpoint| key(e));
    if key_set(s).contains(k) {
        assert(ks.contains(k));
        let i = choose|i: int| 0 <= i < ks.len() && #[trigger] ks[i] == k;
        assert(key(s[i]) == k);
    }
    if exists|i: int| 0 <= i < s.len() && key(#[trigger] s[i]) == k {
        let i = choose|i: int| 0 <= i < s.len() && key(#[trigger] s[i]) == k;
        assert(ks[i] == k);
    }
}

pub proof fn lemma_key_set_push(s: Seq<Endpoint>, e: Endpoint)
    ensures
        key_set(s.push(e)) == key_set(s).insert(key(e)),
{
    assert(s.push(e).map_values(|x: Endpoint| key(x)) =~= s.map_values(|x: Endpoint| key(x)).push(
        key(e),
    ));
    s.map_values(|x: Endpoint| key(x)).lemma_push_to_set_commute(key(e));
}

pub proof fn lemma_key_set_concat(a: Seq<Endpoint>, b: Seq<Endpoint>)
    ensures
        key_set(a + b) == key_set(a).union(key_set(b)),
{
    assert forall|k: EndpointKey| key_set(a).union(key_set(b)).contains(k) implies #[trigger] key_set(
        a + b,
    ).contains(k) by {
        lemma_key_set_contains(a + b, k);
        lemma_key_set_contains(a, k);
        lemma_key_set_contains(b, k);
        if key_set(a).contains(k) {
            let i = choose|i: int| 0 <= i < a.len() && key(#[trigger] a[i]) == k;
            assert(key((a + b)[i]) == k);
        } else {
            let i = choose|i: int| 0 <= i < b.len() && key(#[trigger] b[i]) == k;
            assert(key((a + b)[a.len() + i]) == k);
        }
    }
    assert forall|k: EndpointKey| #[trigger] key_set(a + b).contains(k) implies key_set(a).union(
        key_set(b),
    ).contains(k) by {
        lemma_key_set_contains(a + b, k);
        lemma_key_set_contains(a, k);
        lemma_key_set_contains(b, k);
        let i = choose|i: int| 0 <= i < (a + b).len() && key(#[trigger] (a + b)[i]) == k;
        if i >= a.len() {
            assert(key(b[i - a.len()]) == k);
        } else {
            assert(key(a[i]) == k);
        }
    }
    assert(key_set(a + b) =~= key_set(a).union(key_set(b)));
}

pub proof fn lemma_unique_push(s: Seq<Endpoint>, e: Endpoint)
    requires
        unique_keys(s),
        !key_set(s).contains(key(e)),
    ensures
        unique_keys(s.push(e)),
{
    lemma_key_set_contains(s, key(e));
    assert forall|i: int, j: int| 0 <= i < j < s.push(e).len() implies key(
        #[trigger] s.push(e)[i],
    ) != key(#[trigger] s.push(e)[j]) by {
        if j == s.len() {
            assert(s.push(e)[i] == s[i]);
        } else {
            assert(s.push(e)[i] == s[i] && s.push(e)[j] == s[j]);
        }
    }
}

pub proof fn lemma_unique_concat(a: Seq<Endpoint>, b: Seq<Endpoint>)
    requires
        unique_keys(a),
        unique_keys(b),
        key_set(a).disjoint(key_set(b)),
    ensures
        unique_keys(a + b),
{
    assert forall|i: int, j: int| 0 <= i < j < (a + b).len() implies key(#[trigger] (a + b)[i])
        != key(#[trigger] (a + b)[j]) by {
        if i < a.len() && j >= a.len() {
            lemma_key_set_contains(a, key(a[i]));
            lemma_key_set_contains(b, key(b[j - a.len()]));
            assert(key_set(a).contains(key(a[i])));
            assert(key_set(b).contains(key(b[j - a.len()])));
        } else if j < a.len() {
            assert((a + b)[i] == a[i] && (a + b)[j] == a[j]);
        } else {
            assert((a + b)[i] == b[i - a.len()] && (a + b)[j] == b[j - a.len()]);
        }
    }
}

pub fn opt_str_eq(a: &Option<String>, b: &Option<String>) -> (r: bool)
    ensures
        r == (opt_str_view(*a) == opt_str_view(*b)),
{
    match a {
        Some(x) => match b {
            Some(y) => {
                let r = *x == *y;
                r
            },
            None => false,
        },
        None => b.is_none(),
    }
}

/// Whether two string lists hold the same strings in the same order.
pub fn strs_eq(a: &Vec<String>, b: &Vec<String>) -> (r: bool)
    ensures
        r == (strs_view(a@) == strs_view(b@)),
{
    if a.len() != b.len() {
        assert(strs_view(a@).len() != strs_view(b@).len());
        return false;
    }
    let mut i: usize = 0;
    while i < a.len()
        invariant
            a.len() == b.len(),
            i <= a.len(),
            forall|k: int| 0 <= k < i ==> a@[k]@ == b@[k]@,
        decreases a.len() - i,
    {
        if a[i] != b[i] {
            assert(strs_view(a@)[i as int] != strs_view(b@)[i as int]);
            return false;
        }
        i = i + 1;
    }
    assert(strs_view(a@) =~= strs_view(b@));
    true
}

impl Endpoint {
    /// Whether `self` and `other` are the same record.
    pub fn same_identity(&self, other: &Endpoint) -> (r: bool)
        ensures
            r == (key(*self) == key(*other)),
    {
        let names = opt_str_eq(&self.dns_name, &other.dns_name);
        let targets = match &self.targets {
            Some(x) => match &other.targets {
                Some(y) => strs_eq(x, y),
                None => false,
            },
            None => other.targets.is_none(),
        };
        names && targets && self.record_type == other.record_type
            && self.record_ttl == other.record_ttl
    }
}

/// Whether some endpoint of `v` has the identity of `e`.
pub fn contains_key(v: &Vec<Endpoint>, e: &Endpoint) -> (r: bool)
    ensures
        r == key_set(v@).contains(key(*e)),
{
    proof {
        lemma_key_set_contains(v@, key(*e));
    }
    let mut i: usize = 0;
    while i < v.len()
        invariant
            i <= v.len(),
            forall|k: int| 0 <= k < i ==> key(#[trigger] v@[k]) != key(*e),
        decreases v.len() - i,
    {
        if v[i].same_identity(e) {
            proof {
                lemma_key_set_contains(v@, key(*e));
                assert(key(v@[i as int]) == key(*e));
            }
            return true;
        }
        i = i + 1;
    }
    false
}

impl PartialEq for Endpoint {
    fn eq(&self, other: &Endpoint) -> (r: bool) {
        self.same_identity(other)
    }
}

impl Eq for Endpoint {}

/// Relies on `Option`'s `Hash`, which feeds the hasher and returns nothing.
pub assume_specification<T: core::hash::Hash, H: core::hash::Hasher>[ <Option<T> as core::hash::Hash>::hash::<H> ](
    v: &Option<T>,
    state: &mut H,
);

impl core::hash::Hash for Endpoint {
    /// Hashes the identity fields only, as `==` compares them.
    fn hash<H: core::hash::Hasher>(&self, state: &mut H) {
        self.dns_name.hash(state);
        self.targets.hash(state);
        self.record_type.hash(state);
        self.record_ttl.hash(state);
    }
}

impl vstd::std_specs::cmp::PartialEqSpecImpl for Endpoint {
    open spec fn obeys_eq_spec() -> bool {
        true
    }

    open spec fn eq_spec(&self, other: &Endpoint) -> bool {
        key(*self) == key(*other)
    }
}

} // verus!
