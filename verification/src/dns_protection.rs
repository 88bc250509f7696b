//! DNS Protection Module
//!
//! Countermeasures against DNS leakage: DoH (DNS-over-HTTPS, RFC 8484), DoT
//! (DNS-over-TLS, RFC 7858), a cache and a query firewall. Messages are in the
//! wire format of RFC 1035.
//!
//! The module decides and encodes; its caller carries the messages. A lookup
//! is [`DnsGuard::resolve_secure`], then one HTTPS request where it asks for
//! one, then [`DnsGuard::finish_resolution`] with what came back.

use crate::address::IpAddr;
use crate::names::{text_set, texts, NameMap};
use crate::random;
use crate::text;
use crate::time::{Duration, Instant};
use crate::wire;
use crate::wire::{big_endian, spelled};
use crate::{RoutingConfig, RoutingError, RoutingFailure};
use vstd::arithmetic::div_mod::{lemma_mod_self_0, lemma_small_mod};
use vstd::prelude::*;
use vstd::string::*;
use vstd::utf8::encode_utf8;

verus! {

/// DNS guard for preventing DNS leaks
pub struct DnsGuard {
    /// Routing configuration
    pub config: RoutingConfig,
    /// DoH resolver
    pub doh_resolver: DoHResolver,
    /// Cache
    pub cache: DnsCache,
    /// Firewall rules
    pub firewall: DnsFirewall,
    /// IPv6 policy
    pub ipv6_policy: Ipv6Policy,
}

/// DNS-over-HTTPS resolver
#[derive(Debug, Clone)]
pub struct DoHResolver {
    /// Resolver endpoints
    pub endpoints: Vec<String>,
    /// Current endpoint index
    pub current: usize,
    /// Request timeout
    pub timeout: Duration,
}

/// DNS cache
pub struct DnsCache {
    /// What has been resolved
    pub entries: NameMap<CacheEntry>,
    /// Max TTL
    pub max_ttl: Duration,
}

/// The most entries that a cleaned cache holds.
pub const MAX_CACHE_ENTRIES: usize = 10000;

/// Whether `kept` is what is left of `all` where only so many entries may stay:
/// all of them where they fit, else as many as fit, the oldest being dropped.
pub open spec fn trimmed(
    all: Map<Seq<char>, CacheEntry>,
    kept: Map<Seq<char>, CacheEntry>,
    most: nat,
) -> bool {
    &&& keeps_newest(all, kept)
    &&& kept.dom().finite()
    &&& kept.len() <= most
    &&& kept == all || kept.len() == most
}

/// Whether `kept` is a part of `all`, and no entry that was dropped expires
/// later than one that was kept.
pub open spec fn keeps_newest(
    all: Map<Seq<char>, CacheEntry>,
    kept: Map<Seq<char>, CacheEntry>,
) -> bool {
    &&& forall|k: Seq<char>| #[trigger]
        kept.dom().contains(k) ==> all.dom().contains(k) && kept[k] == all[k]
    &&& forall|a: Seq<char>, b: Seq<char>| #[trigger]
        kept.dom().contains(a) && #[trigger] all.dom().contains(b) && !kept.dom().contains(b)
            ==> all[b].expires_at.nanos <= all[a].expires_at.nanos
}

impl DnsCache {
    /// Drops the entry that expires first.
    fn drop_oldest(&mut self)
        requires
            old(self).entries.wf(),
            old(self).entries@.len() > 0,
        ensures
            final(self).entries.wf(),
            final(self).max_ttl == old(self).max_ttl,
            exists|name: Seq<char>|
                {
                    &&& #[trigger] old(self).entries@.dom().contains(name)
                    &&& final(self).entries@ == old(self).entries@.remove(name)
                    &&& forall|k: Seq<char>| #[trigger]
                        old(self).entries@.dom().contains(k)
                            ==> old(self).entries@[name].expires_at.nanos <= old(
                            self,
                        ).entries@[k].expires_at.nanos
                },
    {
        let count: usize = self.entries.len();
        let mut best: usize = 0;
        let mut i: usize = 1;
        proof {
            self.entries.lemma_places();
        }
        while i < count
            invariant
                self.entries.wf(),
                *self == *old(self),
                count == self.entries@.len(),
                best < i <= count,
                forall|j: int|
                    0 <= j < i ==> self.entries@[self.entries.name_at(
                        best as int,
                    )].expires_at.nanos <= self.entries@[#[trigger] self.entries.name_at(
                        j,
                    )].expires_at.nanos,
            decreases count - i,
        {
            let (_, leader) = self.entries.entry(best);
            let (_, rival) = self.entries.entry(i);
            if rival.expires_at.nanos < leader.expires_at.nanos {
                best = i;
            }
            i = i + 1;
        }
        let (found, _) = self.entries.entry(best);
        let name = found.to_owned();
        self.entries.remove(name.as_str());
        assert(old(self).entries@.dom().contains(name@));
    }
}

/// Cache entry
#[derive(Debug, Clone)]
pub struct CacheEntry {
    /// The addresses of the name
    pub addresses: Vec<IpAddr>,
    /// When the entry ceases to count
    pub expires_at: Instant,
}

/// DNS firewall
#[derive(Debug, Clone)]
pub struct DnsFirewall {
    /// Blocked DNS servers
    pub blocked_servers: Vec<IpAddr>,
    /// Allowed DNS servers (VPN)
    pub allowed_servers: Vec<IpAddr>,
    /// Interception rules
    pub intercept_rules: Vec<InterceptRule>,
}

/// Intercept rule
#[derive(Debug, Clone)]
pub struct InterceptRule {
    /// What a query must hold for the rule to apply
    pub pattern: String,
    /// What is done with such a query
    pub action: InterceptAction,
}

/// What a rule does with a query.
#[derive(Debug, Clone, Copy, PartialEq, Eq, Structural)]
pub enum InterceptAction {
    /// Refuse it.
    Block,
    /// Resolve it by the safe resolver.
    Redirect,
    /// Note that there was one.
    Log,
}

/// IPv6 policy
#[derive(Debug, Clone, Copy, PartialEq, Eq, Structural)]
pub enum Ipv6Policy {
    /// IPv6 may be used.
    Allow,
    /// IPv6 may not be used.
    Block,
    /// IPv6 is used where there is a choice.
    Prefer,
}

/// A DoH request to be made.
#[derive(Debug, Clone)]
pub struct DohRequest {
    /// Where to post to.
    pub endpoint: String,
    /// The query in wire format.
    pub body: Vec<u8>,
    /// How long to wait.
    pub timeout: Duration,
}

/// What came back from a DoH request.
#[derive(Debug, Clone)]
pub enum DohReply {
    /// No request could be made, for the given reason.
    NoClient(String),
    /// A success, with its body.
    Body(Vec<u8>),
    /// A success whose body could not be read, for the given reason.
    BodyLost(String),
    /// Any other status, or no reply.
    Failed,
}

/// What [`DnsGuard::resolve_secure`] decides.
#[derive(Debug, Clone)]
pub enum Resolution {
    /// The answer is in the cache.
    Cached(Vec<u8>),
    /// The query is refused.
    Refused(RoutingError),
    /// A request is to be made.
    Ask(DohRequest),
}

// ---------------------------------------------------------------------------
// Wire format
// ---------------------------------------------------------------------------

/// The octets of `address`.
pub open spec fn octets(address: IpAddr) -> Seq<u8> {
    match address {
        IpAddr::V4(n) => spelled(n as nat, 4),
        IpAddr::V6(n) => spelled(n as nat, 16),
    }
}

/// The octets of `addresses`, one address after the other.
pub open spec fn all_octets(addresses: Seq<IpAddr>) -> Seq<u8>
    decreases addresses.len(),
{
    if addresses.len() == 0 {
        Seq::empty()
    } else {
        all_octets(addresses.drop_last()) + octets(addresses.last())
    }
}

/// Serialize DNS response
pub fn serialize_response(addresses: &Vec<IpAddr>) -> (r: Vec<u8>)
    ensures
        r@ == all_octets(addresses@),
{
    let mut r: Vec<u8> = Vec::new();
    let mut i: usize = 0;
    while i < addresses.len()
        invariant
            i <= addresses@.len(),
            r@ == all_octets(addresses@.take(i as int)),
        decreases addresses@.len() - i,
    {
        match addresses[i] {
            IpAddr::V4(n) => {
                proof {
                    wire::lemma_four_is_spelled(n);
                }
                wire::push_u32(&mut r, n);
            },
            IpAddr::V6(n) => {
                wire::push_u128(&mut r, n);
            },
        }
        i = i + 1;
        assert(addresses@.take(i as int).drop_last() =~= addresses@.take(i - 1));
    }
    assert(addresses@.take(i as int) =~= addresses@);
    r
}

/// The place of the first dot, or the length where there is none.
pub open spec fn first_dot(b: Seq<u8>) -> int
    decreases b.len(),
{
    if b.len() == 0 || b[0] == 0x2E {
        0
    } else {
        1 + first_dot(b.skip(1))
    }
}

/// The labels of a domain name: what stands between its dots.
pub open spec fn labels(b: Seq<u8>) -> Seq<Seq<u8>>
    decreases b.len(),
{
    let i = first_dot(b);
    if i < 0 || i >= b.len() {
        seq![b]
    } else {
        seq![b.take(i)] + labels(b.skip(i + 1))
    }
}

/// Whether no label is too long for the wire.
pub open spec fn fits(ls: Seq<Seq<u8>>) -> bool {
    forall|i: int| 0 <= i < ls.len() ==> (#[trigger] ls[i]).len() <= 63
}

/// A name on the wire: each label behind its length, then the root label.
pub open spec fn wire_name(ls: Seq<Seq<u8>>) -> Seq<u8>
    decreases ls.len(),
{
    if ls.len() == 0 {
        seq![0u8]
    } else {
        seq![ls[0].len() as u8] + ls[0] + wire_name(ls.skip(1))
    }
}

/// A query for the IPv4 address of a name: one question, recursion desired.
pub open spec fn query_bytes(transaction: u16, name: Seq<u8>) -> Seq<u8> {
    wire::two_bytes(transaction as int) + seq![1u8, 0, 0, 1, 0, 0, 0, 0, 0, 0] + wire_name(
        labels(name),
    ) + seq![0u8, 1, 0, 1]
}

proof fn lemma_first_dot(b: Seq<u8>, i: int)
    requires
        0 <= i <= b.len(),
        forall|k: int| 0 <= k < i ==> b[k] != 0x2E,
        i < b.len() ==> b[i] == 0x2E,
    ensures
        first_dot(b) == i,
    decreases i,
{
    if i > 0 {
        assert forall|k: int| 0 <= k < i - 1 implies b.skip(1)[k] != 0x2E by {
            assert(b.skip(1)[k] == b[k + 1]);
        }
        lemma_first_dot(b.skip(1), i - 1);
    }
}

/// The first dot is a dot, and none stands before it.
pub proof fn law_first_dot(b: Seq<u8>)
    ensures
        0 <= first_dot(b) <= b.len(),
        forall|k: int| 0 <= k < first_dot(b) ==> b[k] != 0x2E,
        first_dot(b) < b.len() ==> b[first_dot(b)] == 0x2E,
    decreases b.len(),
{
    if b.len() > 0 && b[0] != 0x2E {
        let rest = b.skip(1);
        law_first_dot(rest);
        assert forall|k: int| 0 <= k < first_dot(b) implies b[k] != 0x2E by {
            if k > 0 {
                assert(rest[k - 1] == b[k]);
            }
        }
        if first_dot(b) < b.len() {
            assert(rest[first_dot(rest)] == b[first_dot(b)]);
        }
    }
}

/// Labels with a dot between every two.
pub open spec fn dotted(ls: Seq<Seq<u8>>) -> Seq<u8>
    decreases ls.len(),
{
    if ls.len() == 0 {
        Seq::empty()
    } else if ls.len() == 1 {
        ls[0]
    } else {
        ls[0] + seq![0x2Eu8] + dotted(ls.skip(1))
    }
}

/// The labels of a name hold no dot, and with dots between them they are the name.
pub proof fn law_labels_make_up_the_name(b: Seq<u8>)
    ensures
        dotted(labels(b)) == b,
        labels(b).len() > 0,
        forall|i: int, k: int|
            0 <= i < labels(b).len() && 0 <= k < labels(b)[i].len() ==> #[trigger] labels(b)[i][k]
                != 0x2E,
    decreases b.len(),
{
    let i = first_dot(b);
    law_first_dot(b);
    let ls = labels(b);
    if i < b.len() {
        let rest = b.skip(i + 1);
        law_labels_make_up_the_name(rest);
        assert(ls.skip(1) =~= labels(rest));
        assert(b.take(i) + seq![0x2Eu8] + rest =~= b);
        assert forall|j: int, k: int|
            0 <= j < ls.len() && 0 <= k < ls[j].len() implies #[trigger] ls[j][k] != 0x2E by {
            if j > 0 {
                assert(ls[j] == labels(rest)[j - 1]);
                assert(labels(rest)[j - 1][k] != 0x2E);
            }
        }
    }
}

#[verifier::rlimit(40)]
proof fn lemma_name_on_the_wire(b: Seq<u8>)
    requires
        fits(labels(b)),
    ensures
        ({
            let w = wire_name(labels(b));
            &&& w.len() == b.len() + 2
            &&& w[0] == first_dot(b)
            &&& w[w.len() - 1] == 0
            &&& forall|i: int|
                0 <= i < b.len() ==> #[trigger] w[i + 1] == if b[i] == 0x2E {
                    first_dot(b.skip(i + 1))
                } else {
                    b[i] as int
                }
        }),
    decreases b.len(),
{
    let ls = labels(b);
    let w = wire_name(ls);
    let d = first_dot(b);
    law_first_dot(b);
    assert(ls[0].len() <= 63);
    if d < b.len() {
        let rest = b.skip(d + 1);
        assert(ls.skip(1) =~= labels(rest));
        assert(fits(labels(rest))) by {
            assert forall|k: int| 0 <= k < labels(rest).len() implies (
            #[trigger] labels(rest)[k]).len() <= 63 by {
                assert(labels(rest)[k] == ls[k + 1]);
            }
        }
        lemma_name_on_the_wire(rest);
        let v = wire_name(labels(rest));
        assert forall|i: int| 0 <= i < b.len() implies #[trigger] w[i + 1] == if b[i] == 0x2E {
            first_dot(b.skip(i + 1))
        } else {
            b[i] as int
        } by {
            if i > d {
                let j = i - d - 1;
                assert(w[i + 1] == v[j + 1]);
                assert(rest[j] == b[i]);
                assert(rest.skip(j + 1) =~= b.skip(i + 1));
            } else if i == d {
                assert(w[i + 1] == v[0]);
            }
        }
    } else {
        assert(ls.skip(1) =~= Seq::<Seq<u8>>::empty());
        assert(wire_name(Seq::<Seq<u8>>::empty()) =~= seq![0u8]);
        assert(w =~= seq![b.len() as u8] + b + seq![0u8]);
    }
}

/// A query holds, behind its transaction, the request for recursion and the count of
/// one question, the name with each dot replaced by the length of the label behind
/// it, the length of the first label before it and a zero behind it, and asks for an
/// IPv4 address in the Internet.
#[verifier::rlimit(40)]
pub proof fn law_layout_of_a_query(transaction: u16, name: Seq<u8>)
    requires
        fits(labels(name)),
    ensures
        ({
            let q = query_bytes(transaction, name);
            let n = name.len() as int;
            &&& q.len() == n + 18
            &&& big_endian(q.subrange(0, 2)) == transaction
            &&& big_endian(q.subrange(2, 4)) == 0x0100
            &&& big_endian(q.subrange(4, 6)) == 1
            &&& forall|i: int| 6 <= i < 12 ==> #[trigger] q[i] == 0
            &&& q[12] == first_dot(name)
            &&& forall|i: int|
                0 <= i < n ==> #[trigger] q[i + 13] == if name[i] == 0x2E {
                    first_dot(name.skip(i + 1))
                } else {
                    name[i] as int
                }
            &&& q[n + 13] == 0
            &&& big_endian(q.subrange(n + 14, n + 16)) == 1
            &&& big_endian(q.subrange(n + 16, n + 18)) == 1
        }),
{
    let q = query_bytes(transaction, name);
    let n = name.len() as int;
    let w = wire_name(labels(name));
    lemma_name_on_the_wire(name);
    wire::law_two_bytes_round_trip(transaction as int);
    wire::law_two_bytes_round_trip(0x0100);
    wire::law_two_bytes_round_trip(1);
    assert(q.subrange(0, 2) =~= wire::two_bytes(transaction as int));
    assert(q.subrange(2, 4) =~= wire::two_bytes(0x0100));
    assert(q.subrange(4, 6) =~= wire::two_bytes(1));
    assert(q.subrange(n + 14, n + 16) =~= wire::two_bytes(1));
    assert(q.subrange(n + 16, n + 18) =~= wire::two_bytes(1));
    assert forall|i: int| 0 <= i < n implies #[trigger] q[i + 13] == if name[i] == 0x2E {
        first_dot(name.skip(i + 1))
    } else {
        name[i] as int
    } by {
        assert(q[i + 13] == w[i + 1]);
    }
    assert(q[n + 13] == w[n + 1]);
}

/// The octets of addresses stand one address after the other, four for a short one
/// and sixteen for a long one.
#[verifier::rlimit(40)]
pub proof fn law_addresses_in_a_row(a: Seq<IpAddr>, b: Seq<IpAddr>, one: IpAddr)
    ensures
        all_octets(a + b) == all_octets(a) + all_octets(b),
        all_octets(seq![one]) == octets(one),
        octets(one).len() == if one is V4 {
            4nat
        } else {
            16
        },
        a.len() == 0 ==> all_octets(a).len() == 0,
    decreases b.len(),
{
    lemma_octets(one);
    assert(seq![one].drop_last() =~= Seq::<IpAddr>::empty());
    assert(all_octets(Seq::<IpAddr>::empty()) =~= Seq::<u8>::empty());
    assert(all_octets(seq![one]) =~= octets(one));
    if b.len() == 0 {
        assert(a + b =~= a);
        assert(all_octets(a) + all_octets(b) =~= all_octets(a));
    } else {
        law_addresses_in_a_row(a, b.drop_last(), one);
        assert((a + b).drop_last() =~= a + b.drop_last());
        assert(all_octets(a + b) =~= all_octets(a) + all_octets(b));
    }
}

/// Build DNS query in wire format (RFC 1035), with a fresh transaction
pub fn build_dns_query(domain: &str) -> (r: Result<Vec<u8>, RoutingError>)
    ensures
        match r {
            Ok(q) => fits(labels(domain.spec_bytes())) && exists|t: u16|
                q@ == #[trigger] query_bytes(t, domain.spec_bytes()),
            Err(e) => !fits(labels(domain.spec_bytes())) && e@
                == RoutingFailure::ResourceAllocationFailed("Label too long"@),
        },
{
    let transaction: u16 = random::random_u16();
    dns_query(domain, transaction)
}

/// The query for `domain` with the given transaction.
pub fn dns_query(domain: &str, transaction: u16) -> (r: Result<Vec<u8>, RoutingError>)
    ensures
        match r {
            Ok(q) => fits(labels(domain.spec_bytes())) && q@ == query_bytes(
                transaction,
                domain.spec_bytes(),
            ),
            Err(e) => !fits(labels(domain.spec_bytes())) && e@
                == RoutingFailure::ResourceAllocationFailed("Label too long"@),
        },
{
    let mut q: Vec<u8> = Vec::new();
    wire::push_u16(&mut q, transaction);
    wire::push_u16(&mut q, 0x0100);
    wire::push_u16(&mut q, 1);
    wire::push_u16(&mut q, 0);
    wire::push_u16(&mut q, 0);
    wire::push_u16(&mut q, 0);
    let name: &[u8] = domain.as_bytes();
    let ghost head = wire::two_bytes(transaction as int) + seq![1u8, 0, 0, 1, 0, 0, 0, 0, 0, 0];
    let ghost all = labels(name@);
    assert(q@ =~= head);
    assert(name@.skip(0) =~= name@);
    let mut start: usize = 0;
    loop
        invariant_except_break
            start <= name@.len(),
            fits(all) == fits(labels(name@.skip(start as int))),
            head + wire_name(all) == q@ + wire_name(labels(name@.skip(start as int))),
        invariant
            name@ == domain.spec_bytes(),
            all == labels(name@),
        ensures
            fits(all),
            head + wire_name(all) == q@ + seq![0u8],
        decreases name@.len() - start,
    {
        let ghost rest = name@.skip(start as int);
        let mut end: usize = start;
        while end < name.len() && name[end] != 0x2E
            invariant
                start <= end <= name@.len(),
                forall|k: int| start <= k < end ==> name@[k] != 0x2E,
            decreases name@.len() - end,
        {
            end = end + 1;
        }
        let ghost i = end - start;
        proof {
            assert forall|k: int| 0 <= k < i implies rest[k] != 0x2E by {
                assert(rest[k] == name@[start + k]);
            }
            lemma_first_dot(rest, i);
            assert(labels(rest)[0] =~= rest.take(i));
            if end == name@.len() {
                assert(rest.take(i) =~= rest);
                assert(labels(rest).skip(1) =~= Seq::<Seq<u8>>::empty());
            } else {
                assert(labels(rest).skip(1) =~= labels(rest.skip(i + 1)));
                assert(rest.skip(i + 1) =~= name@.skip(end + 1));
            }
        }
        if end - start > 63 {
            assert(!fits(labels(rest)));
            return Err(RoutingError::ResourceAllocationFailed("Label too long".to_owned()));
        }
        let ghost before = q@;
        q.push((end - start) as u8);
        let label: &[u8] = &name[start..end];
        q.extend_from_slice(label);
        proof {
            assert(label@ =~= rest.take(i));
            assert(q@ =~= before + (seq![i as u8] + rest.take(i)));
            assert(wire_name(labels(rest)) == seq![i as u8] + rest.take(i) + wire_name(
                labels(rest).skip(1),
            ));
            assert(before + (seq![i as u8] + rest.take(i) + wire_name(labels(rest).skip(1))) =~= q@
                + wire_name(labels(rest).skip(1)));
        }
        if end == name.len() {
            assert(fits(labels(rest)));
            break;
        }
        proof {
            let ls = labels(rest);
            if fits(ls) {
                assert forall|k: int| 0 <= k < ls.skip(1).len() implies (#[trigger] ls.skip(
                    1,
                )[k]).len() <= 63 by {
                    assert(ls.skip(1)[k] == ls[k + 1]);
                }
            }
            if fits(ls.skip(1)) {
                assert forall|k: int| 0 <= k < ls.len() implies (#[trigger] ls[k]).len() <= 63 by {
                    if k > 0 {
                        assert(ls.skip(1)[k - 1] == ls[k]);
                    }
                }
            }
        }
        start = end + 1;
    }
    q.push(0);
    wire::push_u16(&mut q, 1);
    wire::push_u16(&mut q, 1);
    assert(q@ =~= query_bytes(transaction, name@));
    Ok(q)
}

/// The place of the root label of the name at `at`, or the end of the data.
pub open spec fn name_end(data: Seq<u8>, at: int) -> int
    decreases data.len() - at,
{
    if at < 0 || at >= data.len() {
        data.len() as int
    } else if data[at] == 0 {
        at
    } else if at + data[at] + 1 >= data.len() {
        data.len() as int
    } else {
        name_end(data, at + data[at] + 1)
    }
}

/// Where a record goes on behind the name at `at`: a compression pointer takes
/// two bytes.
pub open spec fn after_name(data: Seq<u8>, at: int) -> int {
    if data[at] >= 0xC0 {
        at + 2
    } else {
        name_end(data, at) + 1
    }
}

/// The address in a record of type `typ` with data `d`, if there is one.
pub open spec fn record_address(typ: nat, d: Seq<u8>) -> Seq<IpAddr> {
    if typ == 1 && d.len() == 4 {
        seq![IpAddr::V4(big_endian(d) as u32)]
    } else if typ == 28 && d.len() == 16 {
        seq![IpAddr::V6(big_endian(d) as u128)]
    } else {
        Seq::empty()
    }
}

/// The addresses in the records from `at` on. A record that runs over the data
/// ends the list.
pub open spec fn answers(data: Seq<u8>, at: int) -> Seq<IpAddr>
    decreases data.len() - at,
{
    if at < 0 || at + 12 > data.len() {
        Seq::empty()
    } else {
        let n = after_name(data, at);
        if n <= at || n + 10 > data.len() {
            Seq::empty()
        } else {
            let typ = big_endian(data.subrange(n, n + 2));
            let len = big_endian(data.subrange(n + 8, n + 10)) as int;
            if n + 10 + len > data.len() {
                Seq::empty()
            } else {
                record_address(typ, data.subrange(n + 10, n + 10 + len)) + answers(
                    data,
                    n + 10 + len,
                )
            }
        }
    }
}

/// What a response says: its addresses, or what is wrong with it.
pub open spec fn response_says(data: Seq<u8>) -> Result<Seq<IpAddr>, Seq<char>> {
    let q = name_end(data, 12);
    if data.len() < 12 {
        Err("Invalid DNS response"@)
    } else if 12 < data.len() && q == data.len() {
        Err("Malformed question"@)
    } else {
        let found = answers(data, q + 5);
        if found.len() == 0 {
            Err("No addresses in response"@)
        } else {
            Ok(found)
        }
    }
}

proof fn lemma_name_end(data: Seq<u8>, at: int)
    requires
        0 <= at <= data.len(),
    ensures
        at <= name_end(data, at) <= data.len(),
    decreases data.len() - at,
{
    if at < data.len() && data[at] != 0 && at + data[at] + 1 < data.len() {
        lemma_name_end(data, at + data[at] + 1);
    }
}

fn find_name_end(data: &[u8], from: usize) -> (r: usize)
    requires
        from <= data@.len(),
    ensures
        r == name_end(data@, from as int),
        from <= r <= data@.len(),
{
    proof {
        lemma_name_end(data@, from as int);
    }
    let mut at: usize = from;
    while at < data.len() && data[at] != 0
        invariant
            from <= at <= data@.len(),
            name_end(data@, from as int) == name_end(data@, at as int),
        decreases data@.len() - at,
    {
        let step: usize = data[at] as usize + 1;
        if step > data.len() - at {
            return data.len();
        }
        at = at + step;
    }
    at
}

/// Parse DNS response (RFC 1035)
pub fn parse_dns_response(data: &[u8]) -> (r: Result<Vec<IpAddr>, RoutingError>)
    ensures
        match (r, response_says(data@)) {
            (Ok(v), Ok(found)) => v@ == found,
            (Err(e), Err(m)) => e@ == RoutingFailure::ResourceAllocationFailed(m),
            _ => false,
        },
{
    if data.len() < 12 {
        return Err(RoutingError::ResourceAllocationFailed("Invalid DNS response".to_owned()));
    }
    let question: usize = find_name_end(data, 12);
    if 12 < data.len() && question == data.len() {
        return Err(RoutingError::ResourceAllocationFailed("Malformed question".to_owned()));
    }
    let mut addresses: Vec<IpAddr> = Vec::new();
    assert(data.len() <= usize::MAX);
    let mut left: usize = if data.len() - question >= 5 {
        data.len() - question - 5
    } else {
        0
    };
    let ghost start = question + 5;
    proof {
        assert(answers(data@, start) == addresses@ + answers(data@, data@.len() - left)) by {
            assert(addresses@ =~= Seq::<IpAddr>::empty());
            if data@.len() - question < 5 {
                assert(answers(data@, start) =~= Seq::<IpAddr>::empty());
                assert(answers(data@, data@.len() - left) =~= Seq::<IpAddr>::empty());
            }
        }
    }
    while left >= 12
        invariant_except_break
            left <= data@.len() - 12,
            data@.len() <= usize::MAX,
            answers(data@, start) == addresses@ + answers(data@, data@.len() - left),
        ensures
            answers(data@, start) == addresses@,
        decreases left,
    {
        let at: usize = data.len() - left;
        let first: u8 = data[at];
        assert((first & 0xC0 == 0xC0) == (first >= 0xC0)) by (bit_vector);
        let after: usize = if first & 0xC0 == 0xC0 {
            at + 2
        } else {
            let end: usize = find_name_end(data, at);
            if end == data.len() {
                assert(answers(data@, at as int) =~= Seq::<IpAddr>::empty());
                assert(addresses@ + answers(data@, at as int) =~= addresses@);
                break;
            }
            end + 1
        };
        if data.len() - after < 10 {
            assert(addresses@ + answers(data@, at as int) =~= addresses@);
            break;
        }
        let typ: u16 = wire::read_u16(data, after);
        let len: usize = wire::read_u16(data, after + 8) as usize;
        if len > data.len() - after - 10 {
            assert(addresses@ + answers(data@, at as int) =~= addresses@);
            break;
        }
        let ghost d = data@.subrange(after + 10, after + 10 + len);
        let ghost before = addresses@;
        if typ == 1 && len == 4 {
            addresses.push(IpAddr::V4(wire::read_u32(data, after + 10)));
        } else if typ == 28 && len == 16 {
            addresses.push(IpAddr::V6(wire::read_u128(data, after + 10)));
        }
        left = data.len() - after - 10 - len;
        proof {
            assert(addresses@ =~= before + record_address(typ as nat, d));
            assert(before + (record_address(typ as nat, d) + answers(data@, after + 10 + len))
                =~= addresses@ + answers(data@, data@.len() - left));
            if left < 12 {
                assert(answers(data@, data@.len() - left) =~= Seq::<IpAddr>::empty());
                assert(addresses@ + answers(data@, data@.len() - left) =~= addresses@);
            }
        }
    }
    if addresses.len() == 0 {
        return Err(RoutingError::ResourceAllocationFailed("No addresses in response".to_owned()));
    }
    Ok(addresses)
}

/// A record that gives an address to the name at byte 12, by a compression
/// pointer.
pub open spec fn address_record(address: IpAddr, ttl: Seq<u8>) -> Seq<u8> {
    seq![0xC0u8, 0x0C] + wire::two_bytes(
        if address is V4 {
            1
        } else {
            28
        },
    ) + seq![0u8, 1] + ttl + wire::two_bytes(octets(address).len() as int) + octets(address)
}

/// The records of `addresses`, in order.
pub open spec fn address_records(addresses: Seq<IpAddr>, ttl: Seq<u8>) -> Seq<u8>
    decreases addresses.len(),
{
    if addresses.len() == 0 {
        Seq::empty()
    } else {
        address_record(addresses[0], ttl) + address_records(addresses.skip(1), ttl)
    }
}

proof fn lemma_name_is_skipped(before: Seq<u8>, ls: Seq<Seq<u8>>, after: Seq<u8>)
    requires
        fits(ls),
        forall|i: int| 0 <= i < ls.len() ==> (#[trigger] ls[i]).len() > 0,
    ensures
        name_end(before + (wire_name(ls) + after), before.len() as int) == before.len() + wire_name(
            ls,
        ).len() - 1,
        wire_name(ls).len() >= 1,
    decreases ls.len(),
{
    let data = before + (wire_name(ls) + after);
    let at = before.len() as int;
    assert(data[at] == wire_name(ls)[0]);
    if ls.len() > 0 {
        let one = seq![ls[0].len() as u8] + ls[0];
        let rest = ls.skip(1);
        assert forall|i: int| 0 <= i < rest.len() implies (#[trigger] rest[i]).len() <= 63
            && rest[i].len() > 0 by {
            assert(rest[i] == ls[i + 1]);
        }
        lemma_name_is_skipped(before + one, rest, after);
        assert(data =~= (before + one) + (wire_name(rest) + after));
        assert(at + data[at] + 1 == (before + one).len());
    }
}

proof fn lemma_octets(address: IpAddr)
    ensures
        octets(address).len() == (if address is V4 {
            4int
        } else {
            16int
        }),
        record_address(
            if address is V4 {
                1
            } else {
                28
            },
            octets(address),
        ) == seq![address],
{
    let (n, k): (nat, nat) = match address {
        IpAddr::V4(n) => (n as nat, 4),
        IpAddr::V6(n) => (n as nat, 16),
    };
    wire::lemma_spelled_length(n, k);
    assert(n < wire::pow256(k)) by {
        reveal_with_fuel(wire::pow256, 17);
    }
    wire::law_spelled_round_trip(n, k);
}

proof fn lemma_records_are_read(before: Seq<u8>, addresses: Seq<IpAddr>, ttl: Seq<u8>)
    requires
        ttl.len() == 4,
    ensures
        answers(before + address_records(addresses, ttl), before.len() as int) == addresses,
    decreases addresses.len(),
{
    let data = before + address_records(addresses, ttl);
    let at = before.len() as int;
    if addresses.len() == 0 {
        assert(addresses =~= Seq::<IpAddr>::empty());
    } else {
        let a = addresses[0];
        let one = address_record(a, ttl);
        let rest = addresses.skip(1);
        let len = octets(a).len() as int;
        let typ: int = if a is V4 {
            1
        } else {
            28
        };
        lemma_octets(a);
        lemma_records_are_read(before + one, rest, ttl);
        assert(data =~= (before + one) + address_records(rest, ttl));
        assert(data[at] == one[0]);
        assert(data.subrange(at + 2, at + 4) =~= wire::two_bytes(typ));
        wire::law_two_bytes_round_trip(typ);
        assert(data.subrange(at + 10, at + 12) =~= wire::two_bytes(len));
        wire::law_two_bytes_round_trip(len);
        assert(data.subrange(at + 12, at + 12 + len) =~= octets(a));
        assert(answers(data, at) =~= seq![a] + rest);
        assert(seq![a] + rest =~= addresses);
    }
}

/// A response that repeats the question and answers it with address records
/// gives exactly those addresses, in their order.
pub proof fn law_answers_are_read_back(
    header: Seq<u8>,
    ls: Seq<Seq<u8>>,
    question_type: Seq<u8>,
    addresses: Seq<IpAddr>,
    ttl: Seq<u8>,
)
    requires
        header.len() == 12,
        fits(ls),
        forall|i: int| 0 <= i < ls.len() ==> (#[trigger] ls[i]).len() > 0,
        question_type.len() == 4,
        ttl.len() == 4,
        addresses.len() > 0,
    ensures
        response_says(header + (wire_name(ls) + (question_type + address_records(addresses, ttl))))
            == Ok::<Seq<IpAddr>, Seq<char>>(addresses),
{
    let records = address_records(addresses, ttl);
    let data = header + (wire_name(ls) + (question_type + records));
    lemma_name_is_skipped(header, ls, question_type + records);
    let before = header + wire_name(ls) + question_type;
    assert(data =~= before + records);
    lemma_records_are_read(before, addresses, ttl);
}

/// The name that a record begins with.
pub enum OwnerName {
    /// Label by label.
    Spelled(Seq<Seq<u8>>),
    /// By a pointer to where it stands already.
    Pointer(u8, u8),
}

impl OwnerName {
    /// Whether the name can stand in a response: no label is empty or too long,
    /// and a pointer is marked as one.
    pub open spec fn sound(self) -> bool {
        match self {
            OwnerName::Spelled(ls) => fits(ls) && forall|i: int|
                0 <= i < ls.len() ==> (#[trigger] ls[i]).len() > 0,
            OwnerName::Pointer(a, _) => a >= 0xC0,
        }
    }

    /// The name on the wire.
    pub open spec fn bytes(self) -> Seq<u8> {
        match self {
            OwnerName::Spelled(ls) => wire_name(ls),
            OwnerName::Pointer(a, b) => seq![a, b],
        }
    }
}

/// What a record of a response says.
pub enum RecordContent {
    /// The address of its owner.
    Address(IpAddr),
    /// Anything else.
    Other {
        /// The type of the record.
        typ: u16,
        /// Its data.
        data: Seq<u8>,
    },
}

/// A record of a response.
pub struct ResponseRecord {
    /// The owner.
    pub name: OwnerName,
    /// The class.
    pub class: Seq<u8>,
    /// The time to live.
    pub ttl: Seq<u8>,
    /// What the record says.
    pub content: RecordContent,
}

impl ResponseRecord {
    /// Whether the record is well-formed, and gives an address only where it is
    /// said to.
    pub open spec fn sound(self) -> bool {
        &&& self.name.sound()
        &&& self.class.len() == 2
        &&& self.ttl.len() == 4
        &&& self.content matches RecordContent::Other { typ, data } ==> data.len() <= 0xFFFF && !(
        typ == 1 && data.len() == 4) && !(typ == 28 && data.len() == 16)
    }

    /// The type of the record: 1 for a short address, 28 for a long one.
    pub open spec fn typ(self) -> int {
        match self.content {
            RecordContent::Address(IpAddr::V4(_)) => 1,
            RecordContent::Address(IpAddr::V6(_)) => 28,
            RecordContent::Other { typ, .. } => typ as int,
        }
    }

    /// The data of the record.
    pub open spec fn data(self) -> Seq<u8> {
        match self.content {
            RecordContent::Address(address) => octets(address),
            RecordContent::Other { data, .. } => data,
        }
    }

    /// The record on the wire.
    pub open spec fn bytes(self) -> Seq<u8> {
        self.name.bytes() + (wire::two_bytes(self.typ()) + self.class + self.ttl + wire::two_bytes(
            self.data().len() as int,
        ) + self.data())
    }
}

/// The records on the wire, one after the other.
pub open spec fn record_bytes(records: Seq<ResponseRecord>) -> Seq<u8>
    decreases records.len(),
{
    if records.len() == 0 {
        Seq::empty()
    } else {
        records[0].bytes() + record_bytes(records.skip(1))
    }
}

/// The addresses that the records give, in their order.
pub open spec fn addresses_of(records: Seq<ResponseRecord>) -> Seq<IpAddr>
    decreases records.len(),
{
    if records.len() == 0 {
        Seq::empty()
    } else {
        (match records[0].content {
            RecordContent::Address(address) => seq![address],
            RecordContent::Other { .. } => Seq::empty(),
        }) + addresses_of(records.skip(1))
    }
}

proof fn lemma_rest_is_sound(records: Seq<ResponseRecord>)
    requires
        records.len() > 0,
        forall|i: int| 0 <= i < records.len() ==> (#[trigger] records[i]).sound(),
    ensures
        forall|i: int| 0 <= i < records.skip(1).len() ==> (#[trigger] records.skip(1)[i]).sound(),
{
    assert forall|i: int| 0 <= i < records.skip(1).len() implies (#[trigger] records.skip(
        1,
    )[i]).sound() by {
        assert(records.skip(1)[i] == records[i + 1]);
    }
}

/// Eleven bytes hold no address.
proof fn lemma_short_records(records: Seq<ResponseRecord>)
    requires
        forall|i: int| 0 <= i < records.len() ==> (#[trigger] records[i]).sound(),
        record_bytes(records).len() < 12,
    ensures
        addresses_of(records) == Seq::<IpAddr>::empty(),
    decreases records.len(),
{
    if records.len() > 0 {
        lemma_rest_is_sound(records);
        if let RecordContent::Address(address) = records[0].content {
            lemma_octets(address);
        }
        if let OwnerName::Spelled(ls) = records[0].name {
            assert(wire_name(ls).len() >= 1);
        }
        lemma_short_records(records.skip(1));
    }
}

/// Where a record goes on behind its name.
proof fn lemma_record_name(before: Seq<u8>, name: OwnerName, after: Seq<u8>)
    requires
        name.sound(),
    ensures
        after_name(before + (name.bytes() + after), before.len() as int) == before.len()
            + name.bytes().len(),
{
    let data = before + (name.bytes() + after);
    let at = before.len() as int;
    match name {
        OwnerName::Spelled(ls) => {
            lemma_name_is_skipped(before, ls, after);
            assert(data[at] == wire_name(ls)[0]);
            if ls.len() > 0 {
                assert(ls[0].len() <= 63);
            }
        },
        OwnerName::Pointer(a, _) => {
            assert(data[at] == a);
        },
    }
}

/// One record gives its address, if it gives one, and then come the others.
#[verifier::rlimit(40)]
proof fn lemma_one_record(before: Seq<u8>, one: ResponseRecord, after: Seq<u8>)
    requires
        one.sound(),
        one.bytes().len() + after.len() >= 12,
    ensures
        ({
            let data = (before + one.bytes()) + after;
            answers(data, before.len() as int) == record_address(one.typ() as nat, one.data())
                + answers(data, (before + one.bytes()).len() as int)
        }),
{
    let data = (before + one.bytes()) + after;
    let at = before.len() as int;
    let body = wire::two_bytes(one.typ()) + one.class + one.ttl + wire::two_bytes(
        one.data().len() as int,
    ) + one.data();
    let len = one.data().len() as int;
    let n = at + one.name.bytes().len();
    if let RecordContent::Address(address) = one.content {
        lemma_octets(address);
    }
    if let OwnerName::Spelled(ls) = one.name {
        assert(wire_name(ls).len() >= 1);
    }
    lemma_record_name(before, one.name, body + after);
    assert(data =~= before + (one.name.bytes() + (body + after)));
    assert(data.subrange(n, n + 2) =~= wire::two_bytes(one.typ()));
    wire::law_two_bytes_round_trip(one.typ());
    assert(data.subrange(n + 8, n + 10) =~= wire::two_bytes(len));
    wire::law_two_bytes_round_trip(len);
    assert(data.subrange(n + 10, n + 10 + len) =~= one.data());
    assert(n + 10 + len == (before + one.bytes()).len());
}

#[verifier::rlimit(40)]
proof fn lemma_mixed_records(before: Seq<u8>, records: Seq<ResponseRecord>, tail: Seq<u8>)
    requires
        forall|i: int| 0 <= i < records.len() ==> (#[trigger] records[i]).sound(),
    ensures
        ({
            let data = before + (record_bytes(records) + tail);
            answers(data, before.len() as int) == addresses_of(records) + answers(
                data,
                data.len() - tail.len(),
            )
        }),
    decreases records.len(),
{
    let data = before + (record_bytes(records) + tail);
    let more = answers(data, data.len() - tail.len());
    assert(Seq::<IpAddr>::empty() + more =~= more);
    if before.len() + 12 > data.len() {
        lemma_short_records(records);
    } else if records.len() > 0 {
        let one = records[0];
        let rest = records.skip(1);
        let after = record_bytes(rest) + tail;
        lemma_rest_is_sound(records);
        lemma_mixed_records(before + one.bytes(), rest, tail);
        assert(data =~= (before + one.bytes()) + after);
        lemma_one_record(before, one, after);
        let found = record_address(one.typ() as nat, one.data());
        assert(found + (addresses_of(rest) + more) =~= (found + addresses_of(rest)) + more);
        if let RecordContent::Address(address) = one.content {
            lemma_octets(address);
        }
    }
}

/// A name that is cut short ends with the data.
proof fn lemma_cut_name(before: Seq<u8>, ls: Seq<Seq<u8>>, k: int)
    requires
        fits(ls),
        forall|i: int| 0 <= i < ls.len() ==> (#[trigger] ls[i]).len() > 0,
        0 <= k < wire_name(ls).len(),
    ensures
        name_end(before + wire_name(ls).take(k), before.len() as int) == before.len() + k,
    decreases ls.len(),
{
    let data = before + wire_name(ls).take(k);
    let at = before.len() as int;
    if k > 0 {
        assert(ls.len() > 0);
        let one = seq![ls[0].len() as u8] + ls[0];
        let rest = ls.skip(1);
        assert forall|i: int| 0 <= i < rest.len() implies (#[trigger] rest[i]).len() <= 63
            && rest[i].len() > 0 by {
            assert(rest[i] == ls[i + 1]);
        }
        assert(ls[0].len() <= 63 && ls[0].len() > 0);
        assert(data[at] == ls[0].len());
        if k > one.len() {
            lemma_cut_name(before + one, rest, k - one.len());
            assert(data =~= (before + one) + wire_name(rest).take(k - one.len()));
        }
    }
}

/// A record that is cut short gives nothing.
#[verifier::rlimit(40)]
proof fn lemma_cut_record(before: Seq<u8>, one: ResponseRecord, k: int)
    requires
        one.sound(),
        0 <= k < one.bytes().len(),
    ensures
        answers(before + one.bytes().take(k), before.len() as int) == Seq::<IpAddr>::empty(),
{
    let data = before + one.bytes().take(k);
    let at = before.len() as int;
    let name = one.name.bytes();
    let body = wire::two_bytes(one.typ()) + one.class + one.ttl + wire::two_bytes(
        one.data().len() as int,
    ) + one.data();
    if at + 12 <= data.len() {
        let n = at + name.len();
        let len = one.data().len() as int;
        if let RecordContent::Address(address) = one.content {
            lemma_octets(address);
        }
        match one.name {
            OwnerName::Spelled(ls) => {
                assert(wire_name(ls).len() >= 1);
                assert(data[at] == wire_name(ls)[0]);
                if ls.len() > 0 {
                    assert(ls[0].len() <= 63);
                }
                if k < name.len() {
                    lemma_cut_name(before, ls, k);
                    assert(data =~= before + wire_name(ls).take(k));
                } else {
                    lemma_name_is_skipped(before, ls, body.take(k - name.len()));
                    assert(data =~= before + (wire_name(ls) + body.take(k - name.len())));
                }
            },
            OwnerName::Pointer(a, _) => {
                assert(data[at] == a);
            },
        }
        if k >= name.len() + 10 {
            assert(after_name(data, at) == n);
            assert(data.subrange(n + 8, n + 10) =~= wire::two_bytes(len));
            wire::law_two_bytes_round_trip(len);
        }
    }
}

/// A response on the wire: a header, the question, and the records.
pub open spec fn response_bytes(
    header: Seq<u8>,
    name: Seq<Seq<u8>>,
    question_type: Seq<u8>,
    records: Seq<ResponseRecord>,
) -> Seq<u8> {
    header + (wire_name(name) + (question_type + record_bytes(records)))
}

/// Of a response that repeats a question, the addresses are those of the address
/// records behind it, all of them and in their order, whatever other records
/// stand among them and however their owners are written. Where there is none,
/// that is the error.
#[verifier::rlimit(40)]
pub proof fn law_every_address_record_is_read(
    header: Seq<u8>,
    name: Seq<Seq<u8>>,
    question_type: Seq<u8>,
    records: Seq<ResponseRecord>,
)
    requires
        header.len() == 12,
        OwnerName::Spelled(name).sound(),
        question_type.len() == 4,
        forall|i: int| 0 <= i < records.len() ==> (#[trigger] records[i]).sound(),
    ensures
        response_says(response_bytes(header, name, question_type, records)) == (if addresses_of(
            records,
        ).len() > 0 {
            Ok::<Seq<IpAddr>, Seq<char>>(addresses_of(records))
        } else {
            Err("No addresses in response"@)
        }),
{
    let before = header + wire_name(name) + question_type;
    let all = record_bytes(records);
    let none = Seq::<u8>::empty();
    lemma_behind_the_question(header, name, question_type, all);
    lemma_mixed_records(before, records, none);
    assert(all + none =~= all);
    assert(answers(before + all, (before + all).len() as int) =~= Seq::<IpAddr>::empty());
    assert(addresses_of(records) + Seq::<IpAddr>::empty() =~= addresses_of(records));
}

/// What a response says is what stands behind its question.
proof fn lemma_behind_the_question(
    header: Seq<u8>,
    name: Seq<Seq<u8>>,
    question_type: Seq<u8>,
    rest: Seq<u8>,
)
    requires
        header.len() == 12,
        OwnerName::Spelled(name).sound(),
        question_type.len() == 4,
    ensures
        ({
            let before = header + wire_name(name) + question_type;
            let found = answers(before + rest, before.len() as int);
            &&& header + (wire_name(name) + (question_type + rest)) == before + rest
            &&& response_says(before + rest) == if found.len() == 0 {
                Err::<Seq<IpAddr>, Seq<char>>("No addresses in response"@)
            } else {
                Ok(found)
            }
        }),
{
    let before = header + wire_name(name) + question_type;
    let data = header + (wire_name(name) + (question_type + rest));
    lemma_name_is_skipped(header, name, question_type + rest);
    assert(data =~= before + rest);
}

/// A record at the end that is cut short, anywhere, is as if it were not there.
#[verifier::rlimit(40)]
pub proof fn law_cut_records_are_dropped(
    header: Seq<u8>,
    name: Seq<Seq<u8>>,
    question_type: Seq<u8>,
    records: Seq<ResponseRecord>,
    last: ResponseRecord,
    k: int,
)
    requires
        header.len() == 12,
        OwnerName::Spelled(name).sound(),
        question_type.len() == 4,
        forall|i: int| 0 <= i < records.len() ==> (#[trigger] records[i]).sound(),
        last.sound(),
        0 <= k < last.bytes().len(),
    ensures
        response_says(response_bytes(header, name, question_type, records) + last.bytes().take(k))
            == response_says(response_bytes(header, name, question_type, records)),
{
    let before = header + wire_name(name) + question_type;
    let all = record_bytes(records);
    let cut = last.bytes().take(k);
    law_every_address_record_is_read(header, name, question_type, records);
    lemma_behind_the_question(header, name, question_type, all);
    lemma_behind_the_question(header, name, question_type, all + cut);
    assert((before + all) + cut =~= before + (all + cut));
    lemma_mixed_records(before, records, cut);
    lemma_cut_record(before + all, last, k);
    assert(addresses_of(records) + Seq::<IpAddr>::empty() =~= addresses_of(records));
}

/// What is shorter than a header is no response; a header alone gives no address;
/// and a question whose name is cut short is malformed.
pub proof fn law_broken_responses(header: Seq<u8>, name: Seq<Seq<u8>>, k: int)
    requires
        header.len() <= 12,
        OwnerName::Spelled(name).sound(),
        0 < k < wire_name(name).len(),
    ensures
        header.len() < 12 ==> response_says(header) == Err::<Seq<IpAddr>, Seq<char>>(
            "Invalid DNS response"@,
        ),
        header.len() == 12 ==> response_says(header) == Err::<Seq<IpAddr>, Seq<char>>(
            "No addresses in response"@,
        ),
        header.len() == 12 ==> response_says(header + wire_name(name).take(k)) == Err::<
            Seq<IpAddr>,
            Seq<char>,
        >("Malformed question"@),
{
    if header.len() == 12 {
        lemma_cut_name(header, name, k);
    }
}

proof fn lemma_addresses_append(a: Seq<ResponseRecord>, b: Seq<ResponseRecord>)
    ensures
        addresses_of(a + b) == addresses_of(a) + addresses_of(b),
    decreases a.len(),
{
    if a.len() == 0 {
        assert(a + b =~= b);
        assert(addresses_of(a) + addresses_of(b) =~= addresses_of(b));
    } else {
        lemma_addresses_append(a.skip(1), b);
        assert((a + b).skip(1) =~= a.skip(1) + b);
        assert(addresses_of(a + b) =~= addresses_of(a) + addresses_of(b));
    }
}

/// A record of another type, put in anywhere, changes nothing in the answer.
pub proof fn law_other_records_do_not_matter(
    header: Seq<u8>,
    name: Seq<Seq<u8>>,
    question_type: Seq<u8>,
    first: Seq<ResponseRecord>,
    other: ResponseRecord,
    last: Seq<ResponseRecord>,
)
    requires
        header.len() == 12,
        OwnerName::Spelled(name).sound(),
        question_type.len() == 4,
        forall|i: int| 0 <= i < first.len() ==> (#[trigger] first[i]).sound(),
        forall|i: int| 0 <= i < last.len() ==> (#[trigger] last[i]).sound(),
        other.sound(),
        other.content is Other,
    ensures
        response_says(response_bytes(header, name, question_type, first + seq![other] + last))
            == response_says(response_bytes(header, name, question_type, first + last)),
{
    let with = first + seq![other] + last;
    let without = first + last;
    law_every_address_record_is_read(header, name, question_type, with);
    law_every_address_record_is_read(header, name, question_type, without);
    lemma_addresses_append(first + seq![other], last);
    lemma_addresses_append(first, seq![other]);
    lemma_addresses_append(first, last);
    assert(seq![other].skip(1) =~= Seq::<ResponseRecord>::empty());
    assert(addresses_of(Seq::<ResponseRecord>::empty()) =~= Seq::<IpAddr>::empty());
    assert(addresses_of(seq![other]) =~= Seq::<IpAddr>::empty());
    assert(addresses_of(first) + Seq::<IpAddr>::empty() =~= addresses_of(first));
}

/// The octets of an address spell its number, the most significant first.
pub proof fn law_octets_spell_the_address(address: IpAddr)
    ensures
        address matches IpAddr::V4(n) ==> octets(address).len() == 4 && n == octets(address)[0]
            * 0x100_0000 + octets(address)[1] * 0x1_0000 + octets(address)[2] * 0x100 + octets(
            address,
        )[3],
        address matches IpAddr::V6(n) ==> octets(address).len() == 16 && n == big_endian(
            octets(address),
        ),
{
    lemma_octets(address);
    match address {
        IpAddr::V4(n) => {
            wire::lemma_four_is_spelled(n);
        },
        IpAddr::V6(n) => {
            assert(n < wire::pow256(16)) by {
                reveal_with_fuel(wire::pow256, 17);
            }
            wire::law_spelled_round_trip(n as nat, 16);
        },
    }
}

// ---------------------------------------------------------------------------
// The guard
// ---------------------------------------------------------------------------

/// What the first rule that applies to `query` does, if one applies: a rule
/// applies where its pattern is part of the query.
pub open spec fn first_action(rules: Seq<InterceptRule>, query: Seq<u8>) -> Option<InterceptAction>
    decreases rules.len(),
{
    if rules.len() == 0 {
        None
    } else if text::occurs_in(encode_utf8(rules[0].pattern@), query) {
        Some(rules[0].action)
    } else {
        first_action(rules.skip(1), query)
    }
}

/// What is done with a query is what the first rule says whose pattern is part of
/// it; a rule behind it, or one whose pattern is no part of it, says nothing; and
/// without such a rule nothing is done.
pub proof fn law_the_first_rule_decides(rules: Seq<InterceptRule>, query: Seq<u8>, i: int)
    requires
        0 <= i <= rules.len(),
        forall|k: int|
            0 <= k < i ==> !text::occurs_in(
                encode_utf8((#[trigger] rules[k]).pattern@),
                query,
            ),
    ensures
        i == rules.len() ==> first_action(rules, query) is None,
        i < rules.len() && text::occurs_in(encode_utf8(rules[i].pattern@), query) ==> first_action(
            rules,
            query,
        ) == Some(rules[i].action),
    decreases i,
{
    if i > 0 {
        let rest = rules.skip(1);
        assert forall|k: int| 0 <= k < i - 1 implies !text::occurs_in(
            encode_utf8((#[trigger] rest[k]).pattern@),
            query,
        ) by {
            assert(rest[k] == rules[k + 1]);
        }
        law_the_first_rule_decides(rest, query, i - 1);
        assert(!text::occurs_in(encode_utf8(rules[0].pattern@), query));
        if i < rules.len() {
            assert(rest[i - 1] == rules[i]);
        }
    }
}

impl DnsFirewall {
    /// Check query against rules
    pub fn check_query(&self, query: &str) -> (r: Option<InterceptAction>)
        ensures
            r == first_action(self.intercept_rules@, query.spec_bytes()),
    {
        let mut i: usize = 0;
        assert(self.intercept_rules@.skip(0) =~= self.intercept_rules@);
        while i < self.intercept_rules.len()
            invariant
                i <= self.intercept_rules@.len(),
                first_action(self.intercept_rules@, query.spec_bytes()) == first_action(
                    self.intercept_rules@.skip(i as int),
                    query.spec_bytes(),
                ),
            decreases self.intercept_rules@.len() - i,
        {
            let rule = &self.intercept_rules[i];
            assert(self.intercept_rules@.skip(i as int).skip(1) =~= self.intercept_rules@.skip(
                i + 1,
            ));
            if text::contains(query, rule.pattern.as_str()) {
                return Some(rule.action);
            }
            i = i + 1;
        }
        None
    }

    /// Block ISP DNS servers
    pub fn block_isp_dns(&mut self, isp_servers: Vec<IpAddr>)
        ensures
            final(self).blocked_servers@ == old(self).blocked_servers@ + isp_servers@,
            final(self).allowed_servers == old(self).allowed_servers,
            final(self).intercept_rules == old(self).intercept_rules,
    {
        let mut isp_servers = isp_servers;
        self.blocked_servers.append(&mut isp_servers);
    }

    /// Allow only VPN DNS
    pub fn allow_only_vpn(&mut self, vpn_servers: Vec<IpAddr>)
        ensures
            final(self).allowed_servers == vpn_servers,
            final(self).blocked_servers == old(self).blocked_servers,
            final(self).intercept_rules == old(self).intercept_rules,
    {
        self.allowed_servers = vpn_servers;
    }
}

impl DoHResolver {
    /// Whether there is a current endpoint.
    pub open spec fn wf(self) -> bool {
        self.current < self.endpoints@.len()
    }
}

impl DnsGuard {
    /// Whether the cache is sound and the resolver has an endpoint.
    pub open spec fn wf(self) -> bool {
        self.cache.entries.wf() && self.doh_resolver.wf()
    }

    /// Whether the cache holds a live entry for `query`.
    pub open spec fn has_live(self, query: Seq<char>, now: Instant) -> bool {
        self.cache.entries@.dom().contains(query) && self.cache.entries@[query].expires_at.nanos
            > now.nanos
    }

    /// Whether the firewall refuses `query`.
    pub open spec fn blocks(self, query: Seq<u8>) -> bool {
        first_action(self.firewall.intercept_rules@, query) == Some(InterceptAction::Block)
    }

    /// Whether the guard is new: nothing is cached and there are no rules.
    pub open spec fn is_new(self, config: RoutingConfig) -> bool {
        &&& self.config == config
        &&& texts(self.doh_resolver.endpoints@) == seq![
            "https://cloudflare-dns.com/dns-query"@,
            "https://dns.google/dns-query"@,
            "https://dns.quad9.net/dns-query"@,
        ]
        &&& self.doh_resolver.current == 0
        &&& self.doh_resolver.timeout.nanos == 5_000_000_000
        &&& self.cache.entries@ == Map::<Seq<char>, CacheEntry>::empty()
        &&& self.cache.max_ttl.nanos == 300_000_000_000
        &&& self.firewall.blocked_servers@.len() == 0
        &&& self.firewall.allowed_servers@.len() == 0
        &&& self.firewall.intercept_rules@.len() == 0
        &&& self.ipv6_policy == Ipv6Policy::Prefer
    }

    /// Create new DNS guard
    pub fn new(config: RoutingConfig) -> (r: DnsGuard)
        ensures
            r.wf(),
            r.is_new(config),
    {
        let mut endpoints: Vec<String> = Vec::new();
        endpoints.push("https://cloudflare-dns.com/dns-query".to_owned());
        endpoints.push("https://dns.google/dns-query".to_owned());
        endpoints.push("https://dns.quad9.net/dns-query".to_owned());
        assert(texts(endpoints@) =~= seq![
            "https://cloudflare-dns.com/dns-query"@,
            "https://dns.google/dns-query"@,
            "https://dns.quad9.net/dns-query"@,
        ]);
        DnsGuard {
            config,
            doh_resolver: DoHResolver { endpoints, current: 0, timeout: Duration::from_secs(5) },
            cache: DnsCache { entries: NameMap::new(), max_ttl: Duration::from_secs(300) },
            firewall: DnsFirewall {
                blocked_servers: Vec::new(),
                allowed_servers: Vec::new(),
                intercept_rules: Vec::new(),
            },
            ipv6_policy: Ipv6Policy::Prefer,
        }
    }

    /// Drops the cache entries that have expired, and the oldest ones beyond what
    /// the cache may hold.
    pub fn clean_cache(&mut self, now: Instant)
        requires
            old(self).wf(),
        ensures
            final(self).wf(),
            trimmed(
                old(self).cache.entries@.restrict(
                    Set::new(|k: Seq<char>| old(self).has_live(k, now)),
                ),
                final(self).cache.entries@,
                MAX_CACHE_ENTRIES as nat,
            ),
            final(self).cache.max_ttl == old(self).cache.max_ttl,
            final(self).config == old(self).config,
            final(self).doh_resolver == old(self).doh_resolver,
            final(self).firewall == old(self).firewall,
            final(self).ipv6_policy == old(self).ipv6_policy,
    {
        let mut expired: Vec<String> = Vec::new();
        let ghost entries = self.cache.entries@;
        let mut i: usize = 0;
        let count: usize = self.cache.entries.len();
        while i < count
            invariant
                self.wf(),
                self == old(self),
                entries == self.cache.entries@,
                count == entries.len(),
                i <= count,
                forall|k: int|
                    0 <= k < expired@.len() ==> {
                        let name = #[trigger] expired@[k]@;
                        entries.dom().contains(name) && entries[name].expires_at.nanos <= now.nanos
                    },
                forall|j: int|
                    0 <= j < i ==> {
                        let name = #[trigger] self.cache.entries.name_at(j);
                        entries[name].expires_at.nanos <= now.nanos ==> text_set(
                            expired@,
                        ).contains(name)
                    },
            decreases count - i,
        {
            let (name, entry) = self.cache.entries.entry(i);
            if entry.expires_at.nanos <= now.nanos {
                let ghost before = expired@;
                expired.push(name.to_owned());
                proof {
                    assert(expired@[before.len() as int]@ == name@);
                    assert forall|j: int| 0 <= j <= i implies ({
                        let n = #[trigger] self.cache.entries.name_at(j);
                        entries[n].expires_at.nanos <= now.nanos ==> text_set(expired@).contains(n)
                    }) by {
                        let n = self.cache.entries.name_at(j);
                        if j < i && text_set(before).contains(n) {
                            let k = choose|k: int|
                                0 <= k < before.len() && (#[trigger] before[k])@ == n;
                            assert(expired@[k]@ == n);
                        }
                    }
                }
            }
            i = i + 1;
        }
        proof {
            self.cache.entries.lemma_places();
            let live = Set::new(|k: Seq<char>| old(self).has_live(k, now));
            assert forall|k: Seq<char>| #[trigger] entries.dom().contains(k) implies text_set(
                expired@,
            ).contains(k) == !live.contains(k) by {
                let j = choose|j: int|
                    0 <= j < entries.len() && #[trigger] self.cache.entries.name_at(j) == k;
                if text_set(expired@).contains(k) {
                    let e = choose|e: int|
                        0 <= e < expired@.len() && (#[trigger] expired@[e])@ == k;
                }
            }
            assert(entries.remove_keys(text_set(expired@)) =~= entries.restrict(live));
        }
        self.cache.entries.remove_all(&expired);
        let ghost live = old(self).cache.entries@.restrict(
            Set::new(|k: Seq<char>| old(self).has_live(k, now)),
        );
        let mut left: usize = self.cache.entries.len();
        while left > MAX_CACHE_ENTRIES
            invariant
                self.wf(),
                self.cache.max_ttl == old(self).cache.max_ttl,
                self.config == old(self).config,
                self.doh_resolver == old(self).doh_resolver,
                self.firewall == old(self).firewall,
                self.ipv6_policy == old(self).ipv6_policy,
                left == self.cache.entries@.len(),
                self.cache.entries@.dom().finite(),
                keeps_newest(live, self.cache.entries@),
                self.cache.entries@ == live || left >= MAX_CACHE_ENTRIES,
            decreases left,
        {
            let ghost before = self.cache.entries@;
            self.cache.drop_oldest();
            proof {
                let name = choose|name: Seq<char>|
                    {
                        &&& #[trigger] before.dom().contains(name)
                        &&& self.cache.entries@ == before.remove(name)
                        &&& forall|k: Seq<char>| #[trigger]
                            before.dom().contains(k) ==> before[name].expires_at.nanos
                                <= before[k].expires_at.nanos
                    };
                let kept = self.cache.entries@;
                assert forall|a: Seq<char>, b: Seq<char>| #[trigger]
                    kept.dom().contains(a) && #[trigger] live.dom().contains(b)
                        && !kept.dom().contains(b) implies live[b].expires_at.nanos
                    <= live[a].expires_at.nanos by {
                    assert(before.dom().contains(a));
                    assert(live[a] == before[a]);
                    if b == name {
                        assert(live[b] == before[b]);
                    }
                }
            }
            left = left - 1;
        }
    }

    /// Resolve DNS query securely: from the cache, or past the firewall by a
    /// request that is to be made.
    pub fn resolve_secure(&self, query: &str, now: Instant) -> (r: Resolution)
        requires
            self.wf(),
        ensures
            exists|t: u16| #[trigger] resolves(*self, query@, query.spec_bytes(), t, now, r),
    {
        let transaction: u16 = random::random_u16();
        self.resolve_with(query, transaction, now)
    }

    /// [`DnsGuard::resolve_secure`] with the given transaction.
    pub fn resolve_with(&self, query: &str, transaction: u16, now: Instant) -> (r: Resolution)
        requires
            self.wf(),
        ensures
            resolves(*self, query@, query.spec_bytes(), transaction, now, r),
    {
        match self.cache.entries.get(query) {
            Some(entry) => {
                if entry.expires_at.nanos > now.nanos {
                    return Resolution::Cached(serialize_response(&entry.addresses));
                }
            },
            None => {},
        }
        match self.firewall.check_query(query) {
            Some(InterceptAction::Block) => {
                return Resolution::Refused(
                    RoutingError::ResourceAllocationFailed("DNS query blocked".to_owned()),
                );
            },
            _ => {},
        }
        match dns_query(query, transaction) {
            Err(e) => Resolution::Refused(e),
            Ok(body) => Resolution::Ask(
                DohRequest {
                    endpoint: self.doh_resolver.endpoints[self.doh_resolver.current].clone(),
                    body,
                    timeout: self.doh_resolver.timeout,
                },
            ),
        }
    }

    /// Takes the reply to a DoH request: its addresses, or the error.
    /// A failed endpoint gives way to the next.
    pub fn resolve_doh(&mut self, reply: DohReply) -> (r: Result<Vec<IpAddr>, RoutingError>)
        requires
            old(self).wf(),
        ensures
            final(self).wf(),
            match reply_says(reply) {
                Ok(found) => r matches Ok(v) && v@ == found,
                Err(m) => r matches Err(e) && e@ == RoutingFailure::ResourceAllocationFailed(m),
            },
            final(self).doh_resolver.endpoints == old(self).doh_resolver.endpoints,
            final(self).doh_resolver.timeout == old(self).doh_resolver.timeout,
            final(self).doh_resolver.current == (if reply is Failed {
                (old(self).doh_resolver.current + 1) % (
                old(self).doh_resolver.endpoints@.len() as int)
            } else {
                old(self).doh_resolver.current as int
            }),
            final(self).cache == old(self).cache,
            final(self).config == old(self).config,
            final(self).firewall == old(self).firewall,
            final(self).ipv6_policy == old(self).ipv6_policy,
    {
        match reply {
            DohReply::NoClient(reason) => Err(
                RoutingError::ResourceAllocationFailed(
                    text::joined("DoH client error: ", reason.as_str()),
                ),
            ),
            DohReply::Body(body) => parse_dns_response(body.as_slice()),
            DohReply::BodyLost(reason) => Err(
                RoutingError::ResourceAllocationFailed(
                    text::joined("DoH response error: ", reason.as_str()),
                ),
            ),
            DohReply::Failed => {
                let count: usize = self.doh_resolver.endpoints.len();
                proof {
                    if self.doh_resolver.current + 1 < count {
                        lemma_small_mod((self.doh_resolver.current + 1) as nat, count as nat);
                    } else {
                        lemma_mod_self_0(count as int);
                    }
                }
                self.doh_resolver.current = if count - self.doh_resolver.current > 1 {
                    self.doh_resolver.current + 1
                } else {
                    0
                };
                Err(RoutingError::ResourceAllocationFailed("DoH resolution failed".to_owned()))
            },
        }
    }

    /// Takes the reply to the request for `query`: caches the addresses and
    /// returns them, or the error.
    pub fn finish_resolution(&mut self, query: &str, reply: DohReply, now: Instant) -> (r: Result<
        Vec<u8>,
        RoutingError,
    >)
        requires
            old(self).wf(),
            now.nanos + old(self).cache.max_ttl.nanos <= u64::MAX,
        ensures
            final(self).wf(),
            match reply_says(reply) {
                Ok(found) => {
                    &&& r matches Ok(v) && v@ == all_octets(found)
                    &&& final(self).cache.entries@.dom().contains(query@)
                    &&& final(self).cache.entries@[query@].addresses@ == found
                    &&& final(self).cache.entries@[query@].expires_at.nanos == now.nanos + old(
                        self,
                    ).cache.max_ttl.nanos
                    &&& final(self).cache.entries@.remove(query@) == old(
                        self,
                    ).cache.entries@.remove(query@)
                },
                Err(m) => {
                    &&& r matches Err(e) && e@ == RoutingFailure::ResourceAllocationFailed(m)
                    &&& final(self).cache.entries@ == old(self).cache.entries@
                },
            },
            final(self).doh_resolver.endpoints == old(self).doh_resolver.endpoints,
            final(self).doh_resolver.timeout == old(self).doh_resolver.timeout,
            final(self).doh_resolver.current == (if reply is Failed {
                (old(self).doh_resolver.current + 1) % (
                old(self).doh_resolver.endpoints@.len() as int)
            } else {
                old(self).doh_resolver.current as int
            }),
            final(self).cache.max_ttl == old(self).cache.max_ttl,
            final(self).config == old(self).config,
            final(self).firewall == old(self).firewall,
            final(self).ipv6_policy == old(self).ipv6_policy,
    {
        match self.resolve_doh(reply) {
            Err(e) => Err(e),
            Ok(addresses) => {
                let bytes = serialize_response(&addresses);
                let entry = CacheEntry {
                    addresses,
                    expires_at: now.after(self.cache.max_ttl),
                };
                let ghost before = self.cache.entries@;
                self.cache.entries.insert(query, entry);
                assert(self.cache.entries@.remove(query@) =~= before.remove(query@));
                Ok(bytes)
            },
        }
    }

    /// Configure DNS leak prevention: the system's firewall is not reached from
    /// here, so nothing changes.
    pub fn configure_leak_prevention(&self) -> (r: Result<(), RoutingError>)
        ensures
            r is Ok,
    {
        Ok(())
    }

    /// Test for DNS leak: there is no probe, so none is found.
    pub fn test_for_leak(&self) -> (r: Option<DnsLeakResult>)
        ensures
            r is None,
    {
        None
    }

    /// Update IPv6 policy
    pub fn set_ipv6_policy(&mut self, policy: Ipv6Policy)
        ensures
            final(self).ipv6_policy == policy,
            final(self).config == old(self).config,
            final(self).doh_resolver == old(self).doh_resolver,
            final(self).cache == old(self).cache,
            final(self).firewall == old(self).firewall,
    {
        self.ipv6_policy = policy;
    }
}

/// What the guard decides on `query`: a live cache entry is the answer; else a
/// blocked or unencodable query is refused; else the current endpoint is asked.
pub open spec fn resolves(
    guard: DnsGuard,
    query: Seq<char>,
    bytes: Seq<u8>,
    transaction: u16,
    now: Instant,
    r: Resolution,
) -> bool {
    if guard.has_live(query, now) {
        r matches Resolution::Cached(v) && v@ == all_octets(
            guard.cache.entries@[query].addresses@,
        )
    } else if guard.blocks(bytes) {
        r matches Resolution::Refused(e) && e@ == RoutingFailure::ResourceAllocationFailed(
            "DNS query blocked"@,
        )
    } else if !fits(labels(bytes)) {
        r matches Resolution::Refused(e) && e@ == RoutingFailure::ResourceAllocationFailed(
            "Label too long"@,
        )
    } else {
        r matches Resolution::Ask(req) && req.endpoint
            == guard.doh_resolver.endpoints@[guard.doh_resolver.current as int] && req.body@
            == query_bytes(transaction, bytes) && req.timeout == guard.doh_resolver.timeout
    }
}

/// What a reply comes to: addresses, or what went wrong.
pub open spec fn reply_says(reply: DohReply) -> Result<Seq<IpAddr>, Seq<char>> {
    match reply {
        DohReply::NoClient(reason) => Err("DoH client error: "@ + reason@),
        DohReply::Body(body) => response_says(body@),
        DohReply::BodyLost(reason) => Err("DoH response error: "@ + reason@),
        DohReply::Failed => Err("DoH resolution failed"@),
    }
}

/// A reply gives addresses exactly if it has a body that does, and then all that the
/// body gives; every other reply is an error.
pub proof fn law_what_replies_give(reply: DohReply)
    ensures
        reply matches DohReply::Body(body) ==> reply_says(reply) == response_says(body@),
        reply_says(reply) is Ok ==> reply is Body,
        reply is Failed ==> reply_says(reply) == Err::<Seq<IpAddr>, Seq<char>>(
            "DoH resolution failed"@,
        ),
{
}

/// A blocked query never leaves: whatever the transaction, no request is made
/// for it.
pub proof fn law_blocked_queries_never_leave(
    guard: DnsGuard,
    query: Seq<char>,
    bytes: Seq<u8>,
    transaction: u16,
    now: Instant,
    r: Resolution,
)
    requires
        guard.blocks(bytes),
        resolves(guard, query, bytes, transaction, now, r),
    ensures
        !(r is Ask),
{
}

/// What has been resolved is answered from the cache until it expires, with
/// the same bytes.
pub proof fn law_resolved_names_are_cached(
    before: DnsGuard,
    after: DnsGuard,
    query: Seq<char>,
    bytes: Seq<u8>,
    found: Seq<IpAddr>,
    transaction: u16,
    resolved_at: Instant,
    later: Instant,
    r: Resolution,
)
    requires
        after.cache.entries@.dom().contains(query),
        after.cache.entries@[query].addresses@ == found,
        after.cache.entries@[query].expires_at.nanos == resolved_at.nanos
            + before.cache.max_ttl.nanos,
        later.nanos < resolved_at.nanos + before.cache.max_ttl.nanos,
        resolves(after, query, bytes, transaction, later, r),
    ensures
        r matches Resolution::Cached(v) && v@ == all_octets(found),
{
}

/// An entry answers until the very moment at which it expires; from then on the
/// query is treated as one that was never resolved.
pub proof fn law_expired_entries_do_not_answer(
    guard: DnsGuard,
    forgetful: DnsGuard,
    query: Seq<char>,
    bytes: Seq<u8>,
    transaction: u16,
    now: Instant,
    r: Resolution,
)
    requires
        guard.cache.entries@.dom().contains(query),
        forgetful.firewall == guard.firewall,
        forgetful.doh_resolver == guard.doh_resolver,
        !forgetful.cache.entries@.dom().contains(query),
    ensures
        guard.cache.entries@[query].expires_at.nanos <= now.nanos ==> resolves(
            guard,
            query,
            bytes,
            transaction,
            now,
            r,
        ) == resolves(forgetful, query, bytes, transaction, now, r),
        now.nanos < guard.cache.entries@[query].expires_at.nanos && resolves(
            guard,
            query,
            bytes,
            transaction,
            now,
            r,
        ) ==> r is Cached,
        resolves(forgetful, query, bytes, transaction, now, r) ==> !(r is Cached),
{
}

/// A query that is neither cached nor blocked leaves exactly if no label of it is
/// too long; and what leaves is the query for this very name, to the current
/// endpoint.
pub proof fn law_what_leaves(
    guard: DnsGuard,
    query: Seq<char>,
    bytes: Seq<u8>,
    transaction: u16,
    now: Instant,
    r: Resolution,
)
    requires
        !guard.has_live(query, now),
        !guard.blocks(bytes),
        resolves(guard, query, bytes, transaction, now, r),
    ensures
        r is Ask <==> forall|i: int|
            0 <= i < labels(bytes).len() ==> (#[trigger] labels(bytes)[i]).len() < 64,
        r matches Resolution::Ask(request) ==> request.body@.len() == bytes.len() + 18
            && request.endpoint == guard.doh_resolver.endpoints@[guard.doh_resolver.current as int],
{
    if fits(labels(bytes)) {
        law_layout_of_a_query(transaction, bytes);
    }
}

/// A cache that is cleaned keeps ten thousand entries at most: all of them where there
/// are no more, and else as many as that, none of which expires before one that was
/// dropped.
pub proof fn law_what_a_cache_keeps(
    all: Map<Seq<char>, CacheEntry>,
    kept: Map<Seq<char>, CacheEntry>,
    a: Seq<char>,
    b: Seq<char>,
)
    requires
        trimmed(all, kept, MAX_CACHE_ENTRIES as nat),
        all.dom().finite(),
    ensures
        all.len() <= 10_000 ==> kept == all,
        all.len() > 10_000 ==> kept.len() == 10_000,
        kept.dom().contains(a) ==> all.dom().contains(a) && kept[a] == all[a],
        kept.dom().contains(a) && all.dom().contains(b) && all[b].expires_at.nanos
            > all[a].expires_at.nanos ==> kept.dom().contains(b),
{
    assert(kept.dom().subset_of(all.dom()));
    vstd::set_lib::lemma_len_subset(kept.dom(), all.dom());
    if all.len() <= 10_000 && kept != all {
        vstd::set_lib::lemma_subset_equality(kept.dom(), all.dom());
        assert(kept =~= all);
    }
}

/// DNS leak test result
#[derive(Debug, Clone)]
pub struct DnsLeakResult {
    /// Address of the resolver that was seen.
    pub resolver_ip: IpAddr,
    /// Provider of that resolver.
    pub resolver_isp: String,
    /// Whether queries leak.
    pub is_leaking: bool,
}

/// System DNS configuration manager
pub struct SystemDnsManager {
    /// The servers that were set before.
    pub original_servers: Vec<IpAddr>,
    /// The servers of the VPN.
    pub vpn_servers: Vec<IpAddr>,
}

impl SystemDnsManager {
    /// Create new DNS manager
    pub fn new(vpn_servers: Vec<IpAddr>) -> (r: SystemDnsManager)
        ensures
            r.original_servers@ == Seq::<IpAddr>::empty(),
            r.vpn_servers == vpn_servers,
    {
        SystemDnsManager { original_servers: Vec::new(), vpn_servers }
    }

    /// Apply VPN DNS configuration
    pub fn apply_vpn_dns(&mut self) -> (r: Result<(), DnsConfigError>)
        ensures
            r is Ok,
            final(self).original_servers@ == Seq::<IpAddr>::empty(),
            final(self).vpn_servers == old(self).vpn_servers,
    {
        match self.get_system_dns() {
            Err(e) => Err(e),
            Ok(servers) => {
                self.original_servers = servers;
                self.set_system_dns(&self.vpn_servers)
            },
        }
    }

    /// Restore original DNS
    pub fn restore_original_dns(&self) -> (r: Result<(), DnsConfigError>)
        ensures
            r is Ok,
    {
        self.set_system_dns(&self.original_servers)
    }

    /// Get system DNS servers: no platform is supported, so there are none.
    fn get_system_dns(&self) -> (r: Result<Vec<IpAddr>, DnsConfigError>)
        ensures
            r matches Ok(v) && v@ == Seq::<IpAddr>::empty(),
    {
        Ok(Vec::new())
    }

    /// Set system DNS servers: no platform is supported, so nothing is set.
    fn set_system_dns(&self, _servers: &Vec<IpAddr>) -> (r: Result<(), DnsConfigError>)
        ensures
            r is Ok,
    {
        Ok(())
    }
}

/// DNS configuration error
#[derive(Debug, Clone)]
pub enum DnsConfigError {
    /// The system's servers could not be read.
    ReadError(String),
    /// The system's servers could not be set.
    WriteError(String),
    /// Not allowed.
    PermissionDenied,
}

impl DnsConfigError {
    /// The error in words.
    pub open spec fn words(self) -> Seq<char> {
        match self {
            DnsConfigError::ReadError(m) => "Failed to read system DNS: "@ + m@,
            DnsConfigError::WriteError(m) => "Failed to set system DNS: "@ + m@,
            DnsConfigError::PermissionDenied => "Permission denied"@,
        }
    }

    /// The error in words.
    pub fn to_string(&self) -> (r: String)
        ensures
            r@ == self.words(),
    {
        match self {
            DnsConfigError::ReadError(m) => text::joined(
                "Failed to read system DNS: ",
                m.as_str(),
            ),
            DnsConfigError::WriteError(m) => text::joined(
                "Failed to set system DNS: ",
                m.as_str(),
            ),
            DnsConfigError::PermissionDenied => "Permission denied".to_owned(),
        }
    }
}

// ---------------------------------------------------------------------------
// DNS over TLS
// ---------------------------------------------------------------------------

/// DNS-over-TLS resolver
pub struct DoTResolver {
    /// Resolver endpoints
    pub endpoints: Vec<String>,
    /// TLS configuration
    pub tls_config: TlsConfig,
}

/// TLS configuration of a [`DoTResolver`].
#[derive(Debug, Clone)]
pub struct TlsConfig {
    /// Certificate pinning hashes
    pub pinned_certs: Vec<String>,
    /// ALPN protocols
    pub alpn: Vec<String>,
}

/// What became of the attempt at one endpoint.
#[derive(Debug, Clone)]
pub enum DotEvent {
    /// The endpoint is no socket address, for the given reason.
    InvalidEndpoint(String),
    /// The host is no server name, for the given reason.
    InvalidServerName(String),
    /// The endpoint could not be reached, or the connection broke.
    Unreachable,
    /// A whole response came.
    Response(Vec<u8>),
}

/// What follows an attempt.
#[derive(Debug, Clone)]
pub enum DotStep {
    /// The next endpoint is to be tried.
    Next(usize),
    /// The addresses have come.
    Done(Vec<IpAddr>),
    /// Resolution failed.
    Failed(DnsError),
}

/// What an attempt comes to: addresses, an error that ends the resolution, or
/// nothing.
pub enum DotVerdict {
    /// The addresses have come.
    Found(Seq<IpAddr>),
    /// An error that ends the resolution.
    Fatal(DnsFailure),
    /// Nothing; the next endpoint is to be tried.
    Nothing,
}

/// What `event` comes to.
pub open spec fn dot_verdict(event: DotEvent) -> DotVerdict {
    match event {
        DotEvent::InvalidEndpoint(reason) => DotVerdict::Fatal(
            DnsFailure::ResolutionFailed("Invalid endpoint: "@ + reason@),
        ),
        DotEvent::InvalidServerName(reason) => DotVerdict::Fatal(
            DnsFailure::TlsError("Invalid server name: "@ + reason@),
        ),
        DotEvent::Unreachable => DotVerdict::Nothing,
        DotEvent::Response(bytes) => match response_says(bytes@) {
            Ok(found) => DotVerdict::Found(found),
            Err(_) => DotVerdict::Nothing,
        },
    }
}

/// What comes of trying the endpoints in turn, `events[i]` being what became
/// of the attempt at endpoint `i`.
pub open spec fn dot_outcome(events: Seq<DotEvent>) -> Result<Seq<IpAddr>, DnsFailure>
    decreases events.len(),
{
    if events.len() == 0 {
        Err(DnsFailure::ResolutionFailed("All endpoints failed"@))
    } else {
        match dot_verdict(events[0]) {
            DotVerdict::Found(found) => Ok(found),
            DotVerdict::Fatal(e) => Err(e),
            DotVerdict::Nothing => dot_outcome(events.skip(1)),
        }
    }
}

impl Default for DoTResolver {
    fn default() -> (r: DoTResolver)
        ensures
            texts(r.endpoints@) == seq!["1.1.1.1:853"@, "8.8.8.8:853"@, "9.9.9.9:853"@],
            r.tls_config.pinned_certs@.len() == 0,
            texts(r.tls_config.alpn@) == seq!["dot"@],
    {
        Self::new()
    }
}

impl DoTResolver {
    /// Create new DoT resolver
    pub fn new() -> (r: DoTResolver)
        ensures
            texts(r.endpoints@) == seq!["1.1.1.1:853"@, "8.8.8.8:853"@, "9.9.9.9:853"@],
            r.tls_config.pinned_certs@.len() == 0,
            texts(r.tls_config.alpn@) == seq!["dot"@],
    {
        let mut endpoints: Vec<String> = Vec::new();
        endpoints.push("1.1.1.1:853".to_owned());
        endpoints.push("8.8.8.8:853".to_owned());
        endpoints.push("9.9.9.9:853".to_owned());
        let mut alpn: Vec<String> = Vec::new();
        alpn.push("dot".to_owned());
        assert(texts(endpoints@) =~= seq!["1.1.1.1:853"@, "8.8.8.8:853"@, "9.9.9.9:853"@]);
        assert(texts(alpn@) =~= seq!["dot"@]);
        DoTResolver { endpoints, tls_config: TlsConfig { pinned_certs: Vec::new(), alpn } }
    }

    /// The query for `domain`, to be sent to the endpoints.
    pub fn query(&self, domain: &str) -> (r: Result<Vec<u8>, DnsError>)
        ensures
            match r {
                Ok(q) => fits(labels(domain.spec_bytes())) && exists|t: u16|
                    q@ == #[trigger] query_bytes(t, domain.spec_bytes()),
                Err(e) => !fits(labels(domain.spec_bytes())) && e@ == DnsFailure::ResolutionFailed(
                    "Resource allocation failed: "@ + "Label too long"@,
                ),
            },
    {
        match build_dns_query(domain) {
            Ok(q) => Ok(q),
            Err(e) => Err(DnsError::ResolutionFailed(e.to_string())),
        }
    }

    /// The first step of a resolution: the first endpoint is to be tried, unless
    /// there is none
    pub fn start(&self) -> (r: DotStep)
        ensures
            if self.endpoints@.len() > 0 {
                r matches DotStep::Next(first) && first == 0
            } else {
                r matches DotStep::Failed(e) && e@ == DnsFailure::ResolutionFailed(
                    "All endpoints failed"@,
                )
            },
    {
        if self.endpoints.len() > 0 {
            DotStep::Next(0)
        } else {
            DotStep::Failed(DnsError::ResolutionFailed("All endpoints failed".to_owned()))
        }
    }

    /// Takes what became of the attempt at endpoint `at`.
    pub fn take(&self, at: usize, event: DotEvent) -> (r: DotStep)
        requires
            at < self.endpoints@.len(),
        ensures
            match dot_verdict(event) {
                DotVerdict::Found(found) => r matches DotStep::Done(v) && v@ == found,
                DotVerdict::Fatal(f) => r matches DotStep::Failed(e) && e@ == f,
                DotVerdict::Nothing => if at + 1 < self.endpoints@.len() {
                    r matches DotStep::Next(next) && next == at + 1
                } else {
                    r matches DotStep::Failed(e) && e@ == DnsFailure::ResolutionFailed(
                        "All endpoints failed"@,
                    )
                },
            },
    {
        match event {
            DotEvent::InvalidEndpoint(reason) => DotStep::Failed(
                DnsError::ResolutionFailed(text::joined("Invalid endpoint: ", reason.as_str())),
            ),
            DotEvent::InvalidServerName(reason) => DotStep::Failed(
                DnsError::TlsError(text::joined("Invalid server name: ", reason.as_str())),
            ),
            DotEvent::Unreachable => self.next_after(at),
            DotEvent::Response(bytes) => match parse_dns_response(bytes.as_slice()) {
                Ok(addresses) => DotStep::Done(addresses),
                Err(_) => self.next_after(at),
            },
        }
    }

    fn next_after(&self, at: usize) -> (r: DotStep)
        requires
            at < self.endpoints@.len(),
        ensures
            if at + 1 < self.endpoints@.len() {
                r matches DotStep::Next(next) && next == at + 1
            } else {
                r matches DotStep::Failed(e) && e@ == DnsFailure::ResolutionFailed(
                    "All endpoints failed"@,
                )
            },
    {
        if self.endpoints.len() - at > 1 {
            DotStep::Next(at + 1)
        } else {
            DotStep::Failed(DnsError::ResolutionFailed("All endpoints failed".to_owned()))
        }
    }

    /// Resolve via DNS-over-TLS (RFC 7858), given what becomes of the attempt
    /// at each endpoint.
    pub fn resolve(&self, events: Vec<DotEvent>) -> (r: Result<Vec<IpAddr>, DnsError>)
        requires
            events@.len() == self.endpoints@.len(),
        ensures
            match (r, dot_outcome(events@)) {
                (Ok(v), Ok(found)) => v@ == found,
                (Err(e), Err(f)) => e@ == f,
                _ => false,
            },
    {
        let ghost all = events@;
        let mut at: usize = 0;
        assert(all.skip(0) =~= all);
        for event in it: events
            invariant
                it.seq() == all,
                all.len() == self.endpoints@.len(),
                at == it.index(),
                dot_outcome(all) == dot_outcome(all.skip(at as int)),
        {
            assert(all.skip(at as int).skip(1) =~= all.skip(at + 1));
            match self.take(at, event) {
                DotStep::Done(v) => {
                    return Ok(v);
                },
                DotStep::Failed(e) => {
                    assert(at + 1 == all.len() ==> dot_outcome(all.skip(at + 1)) == Err::<
                        Seq<IpAddr>,
                        DnsFailure,
                    >(DnsFailure::ResolutionFailed("All endpoints failed"@)));
                    return Err(e);
                },
                DotStep::Next(next) => {
                    at = next;
                },
            }
        }
        Err(DnsError::ResolutionFailed("All endpoints failed".to_owned()))
    }
}

/// Trying the endpoints one by one comes to what trying them all comes to: an
/// attempt that settles nothing leaves it to the rest.
pub proof fn law_attempts_in_turn(event: DotEvent, rest: Seq<DotEvent>)
    ensures
        dot_outcome(seq![event] + rest) == (match dot_verdict(event) {
            DotVerdict::Found(found) => Ok(found),
            DotVerdict::Fatal(e) => Err(e),
            DotVerdict::Nothing => dot_outcome(rest),
        }),
{
    assert((seq![event] + rest).skip(1) =~= rest);
}

/// Endpoints that cannot be reached, or whose response says nothing, are passed
/// over, and the first that gives addresses gives the outcome; where none does,
/// resolution fails.
pub proof fn law_the_first_answer_counts(events: Seq<DotEvent>, i: int)
    requires
        0 <= i <= events.len(),
        forall|k: int|
            0 <= k < i ==> #[trigger] events[k] is Unreachable || (events[k] is Response
                && response_says(events[k]->Response_0@) is Err),
    ensures
        i == events.len() ==> dot_outcome(events) == Err::<Seq<IpAddr>, DnsFailure>(
            DnsFailure::ResolutionFailed("All endpoints failed"@),
        ),
        i < events.len() ==> (events[i] matches DotEvent::Response(bytes) ==> (response_says(
            bytes@,
        ) matches Ok(found) ==> dot_outcome(events) == Ok::<Seq<IpAddr>, DnsFailure>(found))),
    decreases i,
{
    if i > 0 {
        let rest = events.skip(1);
        assert forall|k: int| 0 <= k < i - 1 implies #[trigger] rest[k] is Unreachable || (
        rest[k] is Response && response_says(rest[k]->Response_0@) is Err) by {
            assert(rest[k] == events[k + 1]);
        }
        law_the_first_answer_counts(rest, i - 1);
        assert(events[0] is Unreachable || events[0] is Response);
        if i < events.len() {
            assert(rest[i - 1] == events[i]);
        }
    }
}

/// A query behind its length is read back: the two bytes before it tell where it
/// ends.
pub proof fn law_framing_tells_the_length(query: Seq<u8>)
    requires
        query.len() < 0x1_0000,
    ensures
        ({
            let framed = wire::two_bytes(query.len() as int % 0x1_0000) + query;
            &&& big_endian(framed.take(2)) == framed.len() - 2
            &&& framed.skip(2) == query
        }),
{
    let framed = wire::two_bytes(query.len() as int % 0x1_0000) + query;
    assert(framed.take(2) =~= wire::two_bytes(query.len() as int));
    assert(framed.skip(2) =~= query);
    wire::law_two_bytes_round_trip(query.len() as int);
}

/// The query behind its length, as TLS carries it. The length is that of the
/// query modulo 65536.
pub fn frame_query(query: &Vec<u8>) -> (r: Vec<u8>)
    ensures
        r@ == wire::two_bytes(query@.len() as int % 0x1_0000) + query@,
{
    let mut r: Vec<u8> = Vec::new();
    wire::push_u16(&mut r, (query.len() % 0x1_0000) as u16);
    r.extend_from_slice(query.as_slice());
    assert(r@ =~= wire::two_bytes(query@.len() as int % 0x1_0000) + query@);
    r
}

/// The length of the response that two bytes announce.
pub fn framed_length(prefix: &[u8]) -> (r: usize)
    requires
        prefix@.len() == 2,
    ensures
        r == big_endian(prefix@),
{
    assert(prefix@.subrange(0, 2) =~= prefix@);
    wire::read_u16(prefix, 0) as usize
}

/// The host of an endpoint: what stands before its first colon.
pub fn endpoint_host(endpoint: &str) -> (r: String)
    ensures
        exists|i: int|
            0 <= i <= endpoint.spec_bytes().len() && r@ == vstd::utf8::decode_utf8(
                #[trigger] endpoint.spec_bytes().subrange(0, i),
            ) && (forall|k: int| 0 <= k < i ==> endpoint.spec_bytes()[k] != 0x3A) && (i
                < endpoint.spec_bytes().len() ==> endpoint.spec_bytes()[i] == 0x3A),
{
    let bytes: &[u8] = endpoint.as_bytes();
    let mut i: usize = 0;
    while i < bytes.len() && bytes[i] != 0x3A
        invariant
            bytes@ == endpoint.spec_bytes(),
            i <= bytes@.len(),
            forall|k: int| 0 <= k < i ==> bytes@[k] != 0x3A,
        decreases bytes@.len() - i,
    {
        i = i + 1;
    }
    proof {
        vstd::utf8::encode_utf8_valid_utf8(endpoint@);
        if i < bytes@.len() {
            vstd::utf8::is_char_boundary_iff_not_is_continuation_byte(bytes@, i as int);
            assert(!vstd::utf8::is_continuation_byte(0x3A)) by (bit_vector);
        } else {
            vstd::utf8::is_char_boundary_start_end_of_seq(bytes@);
        }
    }
    let (host, _) = endpoint.split_at(i);
    proof {
        vstd::utf8::encode_utf8_decode_utf8(host@);
        assert(host.spec_bytes() == bytes@.subrange(0, i as int));
    }
    host.to_owned()
}

/// DNS error
#[derive(Debug, Clone)]
pub enum DnsError {
    /// The name could not be resolved.
    ResolutionFailed(String),
    /// TLS failed.
    TlsError(String),
    /// Resolution took too long.
    Timeout,
}

/// The contents of a [`DnsError`].
pub enum DnsFailure {
    /// The name could not be resolved.
    ResolutionFailed(Seq<char>),
    /// TLS failed.
    TlsError(Seq<char>),
    /// Resolution took too long.
    Timeout,
}

impl View for DnsError {
    type V = DnsFailure;

    open spec fn view(&self) -> DnsFailure {
        match self {
            DnsError::ResolutionFailed(m) => DnsFailure::ResolutionFailed(m@),
            DnsError::TlsError(m) => DnsFailure::TlsError(m@),
            DnsError::Timeout => DnsFailure::Timeout,
        }
    }
}

impl DnsFailure {
    /// The failure in words.
    pub open spec fn words(self) -> Seq<char> {
        match self {
            DnsFailure::ResolutionFailed(m) => "Resolution failed: "@ + m,
            DnsFailure::TlsError(m) => "TLS error: "@ + m,
            DnsFailure::Timeout => "Timeout"@,
        }
    }
}

impl DnsError {
    /// The error in words.
    pub fn to_string(&self) -> (r: String)
        ensures
            r@ == self@.words(),
    {
        match self {
            DnsError::ResolutionFailed(m) => text::joined("Resolution failed: ", m.as_str()),
            DnsError::TlsError(m) => text::joined("TLS error: ", m.as_str()),
            DnsError::Timeout => "Timeout".to_owned(),
        }
    }
}

/// Transparent DNS proxy detector
pub struct TransparentProxyDetector {
    /// Known proxy indicators
    pub indicators: Vec<String>,
}

impl Default for TransparentProxyDetector {
    fn default() -> (r: TransparentProxyDetector)
        ensures
            texts(r.indicators@) == seq!["dns.msftncsi.com"@, "resolver1.opendns.com"@],
    {
        Self::new()
    }
}

impl TransparentProxyDetector {
    /// Create new detector
    pub fn new() -> (r: TransparentProxyDetector)
        ensures
            texts(r.indicators@) == seq!["dns.msftncsi.com"@, "resolver1.opendns.com"@],
    {
        let mut indicators: Vec<String> = Vec::new();
        indicators.push("dns.msftncsi.com".to_owned());
        indicators.push("resolver1.opendns.com".to_owned());
        assert(texts(indicators@) =~= seq!["dns.msftncsi.com"@, "resolver1.opendns.com"@]);
        TransparentProxyDetector { indicators }
    }

    /// Detect transparent proxy: there is no probe, so none is found.
    pub fn detect(&self) -> (r: Option<String>)
        ensures
            r is None,
    {
        None
    }
}

} // verus!
