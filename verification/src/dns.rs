//! DNS configuration resolver.
//!
//! Turns a snapshot of the host's routing table and network adapters into the
//! DNS configuration a freshly-connected client on the host would use: the
//! ordered, deduplicated nameservers and search suffixes of the best
//! internet-facing adapters.
//!
//! The documented policy is route-driven pairing: each internet route is
//! paired with the adapter owning its interface index, the pairs compete by
//! effective metric (route metric plus the adapter's metric for the route's
//! family, mirroring the OS's own rule for effective interface preference),
//! and the IPv4 and IPv6 winners are chosen independently; only the winning
//! adapters' DNS data are merged, never the routes themselves.

use crate::text::{first_index_of, lemma_first_index_of};
use vstd::prelude::*;

verus! {

/// An IP address as plain values: four octets for IPv4, eight 16-bit groups
/// for IPv6.
#[derive(Clone, Copy, Debug, PartialEq, Eq, Structural)]
pub enum IpAddress {
    V4(u8, u8, u8, u8),
    V6(u16, u16, u16, u16, u16, u16, u16, u16),
}

impl IpAddress {
    /// Whether this is an IPv4 address.
    pub open spec fn spec_is_ipv4(self) -> bool {
        self is V4
    }

    /// Whether this is the all-zero (unspecified) address of its family.
    pub open spec fn spec_is_unspecified(self) -> bool {
        match self {
            IpAddress::V4(a, b, c, d) => a == 0 && b == 0 && c == 0 && d == 0,
            IpAddress::V6(a, b, c, d, e, f, g, h) => a == 0 && b == 0 && c == 0 && d == 0 && e == 0
                && f == 0 && g == 0 && h == 0,
        }
    }

    /// Whether this is an IPv4 address.
    pub fn is_ipv4(&self) -> (r: bool)
        ensures
            r == self.spec_is_ipv4(),
    {
        match self {
            IpAddress::V4(..) => true,
            IpAddress::V6(..) => false,
        }
    }

    /// Whether this is the all-zero (unspecified) address of its family.
    pub fn is_unspecified(&self) -> (r: bool)
        ensures
            r == self.spec_is_unspecified(),
    {
        match self {
            IpAddress::V4(a, b, c, d) => *a == 0 && *b == 0 && *c == 0 && *d == 0,
            IpAddress::V6(a, b, c, d, e, f, g, h) => *a == 0 && *b == 0 && *c == 0 && *d == 0
                && *e == 0 && *f == 0 && *g == 0 && *h == 0,
        }
    }
}

/// One entry of the host's IP routing table.
#[derive(Clone, Copy, Debug, PartialEq, Eq, Structural)]
pub struct Route {
    /// Interface index of the adapter the route goes through, specific to the
    /// route's address family.
    pub interface_index: u32,
    /// The route's own metric; lower is preferred.
    pub metric: u32,
    /// Destination network address.
    pub destination_prefix_ip: IpAddress,
    /// Destination prefix length in bits.
    pub destination_prefix_len: u8,
}

impl Route {
    /// A route to the internet: its destination is 0.0.0.0/0 or ::/0.
    pub open spec fn spec_is_internet_route(self) -> bool {
        self.destination_prefix_ip.spec_is_unspecified() && self.destination_prefix_len == 0
    }

    /// A route to the internet: its destination is 0.0.0.0/0 or ::/0.
    pub fn is_internet_route(&self) -> (r: bool)
        ensures
            r == self.spec_is_internet_route(),
    {
        self.destination_prefix_ip.is_unspecified() && self.destination_prefix_len == 0
    }
}

/// One host network adapter, with its per-family metrics and interface
/// indices and its ordered DNS data.
#[derive(Debug)]
pub struct Adapter {
    /// Textual description of the adapter.
    pub description: String,
    /// Interface metric for IPv4; lower is preferred.
    pub ipv4_metric: u32,
    /// Interface metric for IPv6; lower is preferred.
    pub ipv6_metric: u32,
    /// Interface index for IPv4.
    pub ipv4_interface_index: u32,
    /// Interface index for IPv6.
    pub ipv6_interface_index: u32,
    /// DNS server addresses, in the adapter's order.
    pub dns_servers: Vec<IpAddress>,
    /// DNS suffixes: the primary suffix first, then the additional suffixes.
    pub dns_suffixes: Vec<String>,
}

/// Mathematical model of an `Adapter`.
pub struct AdapterView {
    pub description: Seq<char>,
    pub ipv4_metric: u32,
    pub ipv6_metric: u32,
    pub ipv4_interface_index: u32,
    pub ipv6_interface_index: u32,
    pub dns_servers: Seq<IpAddress>,
    pub dns_suffixes: Seq<Seq<char>>,
}

impl View for Adapter {
    type V = AdapterView;

    open spec fn view(&self) -> AdapterView {
        AdapterView {
            description: self.description@,
            ipv4_metric: self.ipv4_metric,
            ipv6_metric: self.ipv6_metric,
            ipv4_interface_index: self.ipv4_interface_index,
            ipv6_interface_index: self.ipv6_interface_index,
            dns_servers: self.dns_servers@,
            dns_suffixes: self.dns_suffixes@.map_values(|s: String| s@),
        }
    }
}

/// The models of a snapshot's adapters, in snapshot order.
pub open spec fn adapter_views(adapters: Seq<Adapter>) -> Seq<AdapterView> {
    adapters.map_values(|a: Adapter| a@)
}

/// Failure of a resolution pass.
#[derive(Clone, Copy, Debug, PartialEq, Eq, Structural)]
pub enum Error {
    /// An internet route's interface index matches no enumerated adapter: a
    /// transient race between reading routes and reading adapters.
    RouteInterfaceMismatch,
    /// Two adapter queries returned different buffer sizes: a transient race.
    GetAdaptersAddressesOverflow,
    /// The routing table query failed, with the OS error code.
    GetIpForwardTable2(i32),
    /// The adapter query failed, with the OS error code.
    GetAdaptersAddresses(i32),
}

impl Error {
    /// Whether a fresh snapshot may succeed where this error occurred:
    /// true exactly for the two transient races.
    pub open spec fn spec_is_retryable(self) -> bool {
        self == Error::RouteInterfaceMismatch || self == Error::GetAdaptersAddressesOverflow
    }

    /// Whether a fresh snapshot may succeed where this error occurred.
    pub fn is_retryable(&self) -> (r: bool)
        ensures
            r == self.spec_is_retryable(),
    {
        match self {
            Error::RouteInterfaceMismatch => true,
            Error::GetAdaptersAddressesOverflow => true,
            Error::GetIpForwardTable2(_) => false,
            Error::GetAdaptersAddresses(_) => false,
        }
    }

    /// A short description of the error, for logs.
    pub fn message(&self) -> String {
        match self {
            Error::RouteInterfaceMismatch => String::from_str(
                "a route's interface index matches no adapter",
            ),
            Error::GetAdaptersAddressesOverflow => String::from_str(
                "calls to the adapter query returned different buffer sizes",
            ),
            Error::GetIpForwardTable2(_) => String::from_str("the routing table query failed"),
            Error::GetAdaptersAddresses(_) => String::from_str("the adapter query failed"),
        }
    }
}

/// The resolved DNS configuration: ordered, deduplicated server addresses and
/// search suffixes.
#[derive(Debug)]
pub struct DnsConfiguration {
    /// Nameserver addresses, first-seen order, no duplicates.
    pub servers: Vec<IpAddress>,
    /// Search suffixes, first-seen order, no duplicates.
    pub suffixes: Vec<String>,
}

/// Mathematical model of a `DnsConfiguration`.
pub struct DnsConfigurationView {
    pub servers: Seq<IpAddress>,
    pub suffixes: Seq<Seq<char>>,
}

impl View for DnsConfiguration {
    type V = DnsConfigurationView;

    open spec fn view(&self) -> DnsConfigurationView {
        DnsConfigurationView {
            servers: self.servers@,
            suffixes: self.suffixes@.map_values(|s: String| s@),
        }
    }
}

impl Default for DnsConfiguration {
    /// An empty configuration: no servers, no suffixes.
    fn default() -> (r: Self)
        ensures
            r@.servers == Seq::<IpAddress>::empty(),
            r@.suffixes == Seq::<Seq<char>>::empty(),
    {
        let r = DnsConfiguration { servers: Vec::new(), suffixes: Vec::new() };
        proof {
            assert(r@.suffixes =~= Seq::<Seq<char>>::empty());
        }
        r
    }
}

/// `s` with every repeated element removed, keeping the first occurrence of
/// each and the order of first occurrences.
pub open spec fn dedup<A>(s: Seq<A>) -> Seq<A>
    decreases s.len(),
{
    if s.len() == 0 {
        Seq::empty()
    } else {
        let rest = dedup(s.drop_last());
        if rest.contains(s.last()) {
            rest
        } else {
            rest.push(s.last())
        }
    }
}

/// Appending an element does not move the first occurrence of an element that
/// was already present.
proof fn lemma_first_index_of_push<A>(s: Seq<A>, y: A, x: A)
    requires
        s.contains(x),
    ensures
        first_index_of(s.push(y), x) == first_index_of(s, x),
    decreases s.len(),
{
    if s.first() == x {
        assert(s.push(y).first() == x);
    } else {
        let rest = s.drop_first();
        assert(rest.contains(x)) by {
            let i = choose|i: int| 0 <= i < s.len() && s[i] == x;
            assert(rest[i - 1] == x);
        }
        lemma_first_index_of_push(rest, y, x);
        assert(s.push(y).first() == s.first());
        assert(s.push(y).drop_first() =~= rest.push(y));
    }
}

/// An element first present in the appended position has its first occurrence
/// there.
proof fn lemma_first_index_of_push_new<A>(s: Seq<A>, y: A)
    requires
        !s.contains(y),
    ensures
        first_index_of(s.push(y), y) == s.len(),
    decreases s.len(),
{
    if s.len() == 0 {
        assert(s.push(y).first() == y);
    } else {
        assert(s.push(y).first() == s.first());
        assert(s.first() != y);
        assert(s.push(y).drop_first() =~= s.drop_first().push(y));
        assert(!s.drop_first().contains(y)) by {
            assert forall|i: int| 0 <= i < s.drop_first().len() implies s.drop_first()[i] != y by {
                assert(s[i + 1] != y);
            }
        }
        lemma_first_index_of_push_new(s.drop_first(), y);
    }
}

/// Deduplication keeps exactly the distinct elements of its input: the result
/// has no duplicates, contains the same elements, and lists them in the order
/// of their first occurrence in the input.
pub proof fn lemma_dedup_properties<A>(s: Seq<A>)
    ensures
        dedup(s).no_duplicates(),
        forall|x: A| s.contains(x) <==> dedup(s).contains(x),
        forall|i: int, j: int|
            0 <= i < j < dedup(s).len() ==> first_index_of(s, dedup(s)[i]) < first_index_of(
                s,
                dedup(s)[j],
            ),
    decreases s.len(),
{
    if s.len() == 0 {
        assert forall|x: A| s.contains(x) <==> dedup(s).contains(x) by {
            if dedup(s).contains(x) {
                let i = choose|i: int| 0 <= i < dedup(s).len() && dedup(s)[i] == x;
            }
        }
    } else {
        let s0 = s.drop_last();
        let y = s.last();
        let d0 = dedup(s0);
        let d = dedup(s);
        lemma_dedup_properties(s0);
        assert(s0.push(y) =~= s);
        // Membership in s splits into membership in s0 or equality with y.
        assert forall|x: A| s.contains(x) <==> (s0.contains(x) || x == y) by {
            if s.contains(x) {
                let i = choose|i: int| 0 <= i < s.len() && s[i] == x;
                if i < s0.len() {
                    assert(s0[i] == x);
                }
            }
            if s0.contains(x) {
                let i = choose|i: int| 0 <= i < s0.len() && s0[i] == x;
                assert(s[i] == x);
            }
            if x == y {
                assert(s[s.len() - 1] == x);
            }
        };
        if d0.contains(y) {
            // d == d0: first occurrences within s0 are unchanged by the push.
            assert(d == d0);
            assert forall|x: A| s.contains(x) <==> d.contains(x) by {
                assert(s.contains(x) <==> (s0.contains(x) || x == y));
                assert(s0.contains(x) <==> d0.contains(x));
                assert(s0.contains(y) <==> d0.contains(y));
            }
            assert forall|i: int, j: int| 0 <= i < j < d.len() implies first_index_of(s, d[i])
                < first_index_of(s, d[j]) by {
                assert(d0.contains(d[i]));
                assert(d0.contains(d[j]));
                assert(s0.contains(d[i]));
                assert(s0.contains(d[j]));
                lemma_first_index_of_push(s0, y, d[i]);
                lemma_first_index_of_push(s0, y, d[j]);
            }
        } else {
            // d == d0.push(y), and y was not in s0.
            assert(d =~= d0.push(y));
            assert(!s0.contains(y));
            assert forall|x: A| d.contains(x) <==> (d0.contains(x) || x == y) by {
                if d.contains(x) {
                    let i = choose|i: int| 0 <= i < d.len() && d[i] == x;
                    if i < d0.len() {
                        assert(d0[i] == x);
                    }
                }
                if d0.contains(x) {
                    let i = choose|i: int| 0 <= i < d0.len() && d0[i] == x;
                    assert(d[i] == x);
                }
                if x == y {
                    assert(d[d.len() - 1] == x);
                }
            }
            assert forall|x: A| s.contains(x) <==> d.contains(x) by {
                assert(s.contains(x) <==> (s0.contains(x) || x == y));
                assert(s0.contains(x) <==> d0.contains(x));
            }
            assert(d.no_duplicates()) by {
                assert forall|i: int, j: int| 0 <= i < j < d.len() implies d[i] != d[j] by {
                    if j < d0.len() {
                        assert(d0[i] != d0[j]);
                    } else {
                        assert(d[j] == y);
                        assert(d0.contains(d0[i]));
                    }
                }
            }
            assert forall|i: int, j: int| 0 <= i < j < d.len() implies first_index_of(s, d[i])
                < first_index_of(s, d[j]) by {
                if j < d0.len() {
                    assert(s0.contains(d0[i]));
                    assert(s0.contains(d0[j]));
                    lemma_first_index_of_push(s0, y, d[i]);
                    lemma_first_index_of_push(s0, y, d[j]);
                } else {
                    assert(d[j] == y);
                    assert(d0.contains(d[i]));
                    assert(s0.contains(d[i]));
                    lemma_first_index_of_push(s0, y, d[i]);
                    lemma_first_index_of(s0, d[i]);
                    lemma_first_index_of_push_new(s0, y);
                }
            }
        }
    }
}

/// Whether `v` holds `x`.
fn contains_address(v: &Vec<IpAddress>, x: IpAddress) -> (r: bool)
    ensures
        r == v@.contains(x),
{
    let n = v.len();
    let mut j: usize = 0;
    while j < n
        invariant
            0 <= j <= n,
            n == v@.len(),
            forall|k: int| 0 <= k < j ==> v@[k] != x,
        decreases n - j,
    {
        if v[j] == x {
            return true;
        }
        j = j + 1;
    }
    false
}

/// `v` with repeated addresses removed, keeping first occurrences in order.
pub fn dedup_addresses(v: &Vec<IpAddress>) -> (r: Vec<IpAddress>)
    ensures
        r@ == dedup(v@),
{
    let n = v.len();
    let mut out: Vec<IpAddress> = Vec::new();
    proof {
        assert(v@.take(0) =~= Seq::<IpAddress>::empty());
    }
    let mut i: usize = 0;
    while i < n
        invariant
            0 <= i <= n,
            n == v@.len(),
            out@ == dedup(v@.take(i as int)),
        decreases n - i,
    {
        let x = v[i];
        proof {
            assert(v@.take(i as int + 1).drop_last() =~= v@.take(i as int));
            assert(v@.take(i as int + 1).last() == x);
        }
        if !contains_address(&out, x) {
            out.push(x);
        }
        i = i + 1;
    }
    proof {
        assert(v@.take(n as int) =~= v@);
    }
    out
}

/// Whether `v` holds a string whose characters equal those of `x`.
fn contains_string(v: &Vec<String>, x: &String) -> (r: bool)
    ensures
        r == v@.map_values(|s: String| s@).contains(x@),
{
    let n = v.len();
    let mut j: usize = 0;
    while j < n
        invariant
            0 <= j <= n,
            n == v@.len(),
            forall|k: int| 0 <= k < j ==> v@[k]@ != x@,
        decreases n - j,
    {
        if v[j] == *x {
            assert(v@.map_values(|s: String| s@)[j as int] == x@);
            return true;
        }
        j = j + 1;
    }
    proof {
        let mapped = v@.map_values(|s: String| s@);
        assert forall|k: int| 0 <= k < mapped.len() implies mapped[k] != x@ by {
            assert(v@[k]@ != x@);
        }
    }
    false
}

/// `v` with repeated strings removed, keeping first occurrences in order.
/// Two strings are the same entry when their characters are equal.
pub fn dedup_strings(v: &Vec<String>) -> (r: Vec<String>)
    ensures
        r@.map_values(|s: String| s@) == dedup(v@.map_values(|s: String| s@)),
{
    let n = v.len();
    let mut out: Vec<String> = Vec::new();
    proof {
        assert(v@.take(0).map_values(|s: String| s@) =~= Seq::<Seq<char>>::empty());
        assert(out@.map_values(|s: String| s@) =~= Seq::<Seq<char>>::empty());
    }
    let mut i: usize = 0;
    while i < n
        invariant
            0 <= i <= n,
            n == v@.len(),
            out@.map_values(|s: String| s@) == dedup(
                v@.take(i as int).map_values(|s: String| s@),
            ),
        decreases n - i,
    {
        let x = v[i].clone();
        proof {
            assert(x@ == v@[i as int]@);
            let mapped_next = v@.take(i as int + 1).map_values(|s: String| s@);
            let mapped_cur = v@.take(i as int).map_values(|s: String| s@);
            assert(mapped_next.drop_last() =~= mapped_cur);
            assert(mapped_next.last() == x@);
        }
        if !contains_string(&out, &x) {
            let ghost old_out = out@;
            out.push(x);
            proof {
                assert(out@.map_values(|s: String| s@) =~= old_out.map_values(
                    |s: String| s@,
                ).push(v@[i as int]@));
            }
        }
        i = i + 1;
    }
    proof {
        assert(v@.take(n as int) =~= v@);
    }
    out
}

/// Whether a route belongs to the IPv4 family.
pub open spec fn route_is_v4(r: Route) -> bool {
    r.destination_prefix_ip is V4
}

/// The adapter's interface index for the given family.
pub open spec fn adapter_index_for(a: AdapterView, v4: bool) -> u32 {
    if v4 {
        a.ipv4_interface_index
    } else {
        a.ipv6_interface_index
    }
}

/// The adapter's interface metric for the given family.
pub open spec fn adapter_metric_for(a: AdapterView, v4: bool) -> u32 {
    if v4 {
        a.ipv4_metric
    } else {
        a.ipv6_metric
    }
}

/// Whether the adapter owns the route: its interface index for the route's
/// family equals the route's interface index.
pub open spec fn adapter_matches_route(a: AdapterView, r: Route) -> bool {
    adapter_index_for(a, route_is_v4(r)) == r.interface_index
}

/// The first adapter that owns the route, if any.
pub open spec fn matching_adapter(adapters: Seq<AdapterView>, r: Route) -> Option<AdapterView>
    decreases adapters.len(),
{
    if adapters.len() == 0 {
        None
    } else if adapter_matches_route(adapters.first(), r) {
        Some(adapters.first())
    } else {
        matching_adapter(adapters.drop_first(), r)
    }
}

/// A route matched to the adapter that owns it, with the derived effective
/// metric: route metric plus the adapter's metric for the route's family.
/// Lower effective metric wins.
pub struct RouteAdapterPair {
    pub route: Route,
    pub adapter: AdapterView,
    pub effective_metric: int,
}

/// The pair formed by a route and its first matching adapter (meaningful only
/// when a matching adapter exists).
pub open spec fn pair_for(adapters: Seq<AdapterView>, r: Route) -> RouteAdapterPair {
    let a = match matching_adapter(adapters, r) {
        Some(a) => a,
        None => arbitrary(),
    };
    RouteAdapterPair {
        route: r,
        adapter: a,
        effective_metric: r.metric + adapter_metric_for(a, route_is_v4(r)),
    }
}

/// Whether some internet route's interface index matches no adapter.
pub open spec fn route_mismatch(routes: Seq<Route>, adapters: Seq<AdapterView>) -> bool {
    exists|i: int|
        0 <= i < routes.len() && routes[i].spec_is_internet_route() && matching_adapter(
            adapters,
            routes[i],
        ) is None
}

/// The winning pair of the given family: among the internet routes of that
/// family, the pair with the least effective metric, the earliest enumerated
/// route winning ties.
pub open spec fn best_pair(routes: Seq<Route>, adapters: Seq<AdapterView>, v4: bool) -> Option<
    RouteAdapterPair,
>
    decreases routes.len(),
{
    if routes.len() == 0 {
        None
    } else {
        let prev = best_pair(routes.drop_last(), adapters, v4);
        let r = routes.last();
        if r.spec_is_internet_route() && route_is_v4(r) == v4 {
            let cand = pair_for(adapters, r);
            match prev {
                None => Some(cand),
                Some(p) => if cand.effective_metric < p.effective_metric {
                    Some(cand)
                } else {
                    Some(p)
                },
            }
        } else {
            prev
        }
    }
}

/// The DNS servers contributed by a winning pair; none when the family has no
/// internet route.
pub open spec fn pair_servers(p: Option<RouteAdapterPair>) -> Seq<IpAddress> {
    match p {
        None => Seq::empty(),
        Some(p) => p.adapter.dns_servers,
    }
}

/// The DNS suffixes contributed by a winning pair.
pub open spec fn pair_suffixes(p: Option<RouteAdapterPair>) -> Seq<Seq<char>> {
    match p {
        None => Seq::empty(),
        Some(p) => p.adapter.dns_suffixes,
    }
}

/// What resolution returns on a given snapshot: an interface-mismatch error
/// when an internet route matches no adapter; otherwise the winning IPv4 and
/// IPv6 adapters' DNS data, IPv4 first, each list deduplicated keeping first
/// occurrences.
pub open spec fn spec_resolve(routes: Seq<Route>, adapters: Seq<AdapterView>) -> Result<
    DnsConfigurationView,
    Error,
> {
    if route_mismatch(routes, adapters) {
        Err(Error::RouteInterfaceMismatch)
    } else {
        let b4 = best_pair(routes, adapters, true);
        let b6 = best_pair(routes, adapters, false);
        Ok(
            DnsConfigurationView {
                servers: dedup(pair_servers(b4) + pair_servers(b6)),
                suffixes: dedup(pair_suffixes(b4) + pair_suffixes(b6)),
            },
        )
    }
}

/// Whether a route is an internet route of the given family.
pub open spec fn family_route(r: Route, v4: bool) -> bool {
    r.spec_is_internet_route() && route_is_v4(r) == v4
}

/// The concatenated DNS servers of the winning IPv4 and IPv6 pairs, before
/// deduplication.
pub open spec fn winning_servers(routes: Seq<Route>, adapters: Seq<AdapterView>) -> Seq<
    IpAddress,
> {
    pair_servers(best_pair(routes, adapters, true)) + pair_servers(
        best_pair(routes, adapters, false),
    )
}

/// The concatenated DNS suffixes of the winning IPv4 and IPv6 pairs, before
/// deduplication.
pub open spec fn winning_suffixes(routes: Seq<Route>, adapters: Seq<AdapterView>) -> Seq<
    Seq<char>,
> {
    pair_suffixes(best_pair(routes, adapters, true)) + pair_suffixes(
        best_pair(routes, adapters, false),
    )
}

/// Law: a successfully resolved configuration holds no duplicate server and
/// no duplicate suffix, holds exactly the winners' servers and suffixes, and
/// lists them in the order of their first occurrence in the winners' data
/// (IPv4 winner first).
pub proof fn lemma_resolve_deduplicates(routes: Seq<Route>, adapters: Seq<AdapterView>)
    ensures
        spec_resolve(routes, adapters) matches Ok(c) ==> {
            &&& c.servers.no_duplicates()
            &&& c.suffixes.no_duplicates()
            &&& (forall|x: IpAddress|
                c.servers.contains(x) <==> winning_servers(routes, adapters).contains(x))
            &&& (forall|x: Seq<char>|
                c.suffixes.contains(x) <==> winning_suffixes(routes, adapters).contains(x))
            &&& (forall|i: int, j: int|
                0 <= i < j < c.servers.len() ==> first_index_of(
                    winning_servers(routes, adapters),
                    c.servers[i],
                ) < first_index_of(winning_servers(routes, adapters), c.servers[j]))
            &&& (forall|i: int, j: int|
                0 <= i < j < c.suffixes.len() ==> first_index_of(
                    winning_suffixes(routes, adapters),
                    c.suffixes[i],
                ) < first_index_of(winning_suffixes(routes, adapters), c.suffixes[j]))
        },
{
    if !route_mismatch(routes, adapters) {
        lemma_dedup_properties(winning_servers(routes, adapters));
        lemma_dedup_properties(winning_suffixes(routes, adapters));
    }
}

/// No internet route of the given family means no winning pair of it.
proof fn lemma_best_pair_none(routes: Seq<Route>, adapters: Seq<AdapterView>, v4: bool)
    requires
        forall|i: int| 0 <= i < routes.len() ==> !family_route(#[trigger] routes[i], v4),
    ensures
        best_pair(routes, adapters, v4) is None,
    decreases routes.len(),
{
    if routes.len() > 0 {
        let s0 = routes.drop_last();
        assert forall|i: int| 0 <= i < s0.len() implies !family_route(#[trigger] s0[i], v4) by {
            assert(s0[i] == routes[i]);
        }
        lemma_best_pair_none(s0, adapters, v4);
        assert(!family_route(routes.last(), v4));
    }
}

/// Law: when no route's destination is the unspecified network, resolution
/// succeeds with an empty server list and an empty suffix list.
pub proof fn lemma_resolve_no_internet_route(routes: Seq<Route>, adapters: Seq<AdapterView>)
    requires
        forall|i: int| 0 <= i < routes.len() ==> !(#[trigger] routes[i]).spec_is_internet_route(),
    ensures
        spec_resolve(routes, adapters) == Ok::<DnsConfigurationView, Error>(
            DnsConfigurationView {
                servers: Seq::<IpAddress>::empty(),
                suffixes: Seq::<Seq<char>>::empty(),
            },
        ),
{
    assert(!route_mismatch(routes, adapters));
    assert forall|i: int| 0 <= i < routes.len() implies !family_route(#[trigger] routes[i], true) by {}
    assert forall|i: int| 0 <= i < routes.len() implies !family_route(
        #[trigger] routes[i],
        false,
    ) by {}
    lemma_best_pair_none(routes, adapters, true);
    lemma_best_pair_none(routes, adapters, false);
    assert(winning_servers(routes, adapters) =~= Seq::<IpAddress>::empty());
    assert(winning_suffixes(routes, adapters) =~= Seq::<Seq<char>>::empty());
}

/// Law: an internet route whose interface index matches no adapter makes the
/// whole resolution fail with `RouteInterfaceMismatch`.
pub proof fn lemma_resolve_mismatch(routes: Seq<Route>, adapters: Seq<AdapterView>, i: int)
    requires
        0 <= i < routes.len(),
        routes[i].spec_is_internet_route(),
        matching_adapter(adapters, routes[i]) is None,
    ensures
        spec_resolve(routes, adapters) == Err::<DnsConfigurationView, Error>(
            Error::RouteInterfaceMismatch,
        ),
{
    assert(route_mismatch(routes, adapters));
}

/// Law: the winning pair of a family exists exactly when the family has an
/// internet route; it is the pair of one of the family's internet routes, and
/// no such route's pair has a smaller effective metric.
pub proof fn lemma_best_pair_minimal(routes: Seq<Route>, adapters: Seq<AdapterView>, v4: bool)
    ensures
        (best_pair(routes, adapters, v4) is None) <==> (forall|i: int|
            0 <= i < routes.len() ==> !family_route(#[trigger] routes[i], v4)),
        best_pair(routes, adapters, v4) matches Some(p) ==> exists|i: int|
            0 <= i < routes.len() && family_route(#[trigger] routes[i], v4) && p == pair_for(
                adapters,
                routes[i],
            ),
        best_pair(routes, adapters, v4) matches Some(p) ==> forall|j: int|
            0 <= j < routes.len() && family_route(#[trigger] routes[j], v4) ==> pair_for(
                adapters,
                routes[j],
            ).effective_metric >= p.effective_metric,
    decreases routes.len(),
{
    if routes.len() > 0 {
        let s0 = routes.drop_last();
        let r = routes.last();
        lemma_best_pair_minimal(s0, adapters, v4);
        assert forall|i: int| 0 <= i < s0.len() implies s0[i] == routes[i] by {}
        assert(r == routes[routes.len() - 1]);
        match best_pair(routes, adapters, v4) {
            None => {
                assert(!family_route(r, v4));
            },
            Some(p) => {
                if family_route(r, v4) {
                    match best_pair(s0, adapters, v4) {
                        None => {
                            assert(p == pair_for(adapters, r));
                        },
                        Some(p0) => {
                            let i0 = choose|i: int|
                                0 <= i < s0.len() && family_route(#[trigger] s0[i], v4) && p0
                                    == pair_for(adapters, s0[i]);
                            if pair_for(adapters, r).effective_metric < p0.effective_metric {
                                assert(p == pair_for(adapters, r));
                            } else {
                                assert(p == p0);
                                assert(routes[i0] == s0[i0]);
                            }
                        },
                    }
                } else {
                    assert(best_pair(routes, adapters, v4) == best_pair(s0, adapters, v4));
                    let i0 = choose|i: int|
                        0 <= i < s0.len() && family_route(#[trigger] s0[i], v4) && p == pair_for(
                            adapters,
                            s0[i],
                        );
                    assert(routes[i0] == s0[i0]);
                }
            },
        }
    }
}

/// Law: ties in effective metric break by enumeration order: the winning
/// pair comes from a route that strictly beats every earlier internet route
/// of its family.
pub proof fn lemma_best_pair_earliest(routes: Seq<Route>, adapters: Seq<AdapterView>, v4: bool)
    ensures
        best_pair(routes, adapters, v4) matches Some(p) ==> exists|i: int|
            {
                &&& 0 <= i < routes.len()
                &&& family_route(#[trigger] routes[i], v4)
                &&& p == pair_for(adapters, routes[i])
                &&& (forall|j: int|
                    0 <= j < i && family_route(#[trigger] routes[j], v4) ==> pair_for(
                        adapters,
                        routes[j],
                    ).effective_metric > p.effective_metric)
            },
    decreases routes.len(),
{
    if routes.len() > 0 {
        let s0 = routes.drop_last();
        let r = routes.last();
        lemma_best_pair_earliest(s0, adapters, v4);
        lemma_best_pair_minimal(s0, adapters, v4);
        assert forall|i: int| 0 <= i < s0.len() implies s0[i] == routes[i] by {}
        assert(r == routes[routes.len() - 1]);
        match best_pair(routes, adapters, v4) {
            None => {},
            Some(p) => {
                let prev = best_pair(s0, adapters, v4);
                if family_route(r, v4) {
                    let cand = pair_for(adapters, r);
                    match prev {
                        None => {
                            // No earlier internet route of the family exists.
                            assert(p == cand);
                            let i = routes.len() - 1;
                            assert(forall|j: int|
                                0 <= j < i ==> !family_route(#[trigger] routes[j], v4));
                            assert(0 <= i < routes.len() && family_route(routes[i], v4) && p
                                == pair_for(adapters, routes[i]) && (forall|j: int|
                                0 <= j < i && family_route(#[trigger] routes[j], v4) ==> pair_for(
                                    adapters,
                                    routes[j],
                                ).effective_metric > p.effective_metric));
                        },
                        Some(p0) => {
                            if cand.effective_metric < p0.effective_metric {
                                // The last route strictly beats every earlier one.
                                assert(p == cand);
                                let i = routes.len() - 1;
                                assert forall|j: int|
                                    0 <= j < i && family_route(#[trigger] routes[j], v4) implies
                                    pair_for(adapters, routes[j]).effective_metric
                                        > p.effective_metric by {
                                    assert(pair_for(adapters, s0[j]).effective_metric
                                        >= p0.effective_metric);
                                }
                                assert(0 <= i < routes.len() && family_route(routes[i], v4) && p
                                    == pair_for(adapters, routes[i]) && (forall|j: int|
                                    0 <= j < i && family_route(#[trigger] routes[j], v4)
                                        ==> pair_for(
                                        adapters,
                                        routes[j],
                                    ).effective_metric > p.effective_metric));
                            } else {
                                assert(p == p0);
                                let i0 = choose|i: int|
                                    {
                                        &&& 0 <= i < s0.len()
                                        &&& family_route(#[trigger] s0[i], v4)
                                        &&& p0 == pair_for(adapters, s0[i])
                                        &&& (forall|j: int|
                                            0 <= j < i && family_route(#[trigger] s0[j], v4)
                                                ==> pair_for(
                                                adapters,
                                                s0[j],
                                            ).effective_metric > p0.effective_metric)
                                    };
                                assert(0 <= i0 < routes.len() && family_route(routes[i0], v4) && p
                                    == pair_for(adapters, routes[i0]) && (forall|j: int|
                                    0 <= j < i0 && family_route(#[trigger] routes[j], v4)
                                        ==> pair_for(
                                        adapters,
                                        routes[j],
                                    ).effective_metric > p.effective_metric));
                            }
                        },
                    }
                } else {
                    let i0 = choose|i: int|
                        {
                            &&& 0 <= i < s0.len()
                            &&& family_route(#[trigger] s0[i], v4)
                            &&& p == pair_for(adapters, s0[i])
                            &&& (forall|j: int|
                                0 <= j < i && family_route(#[trigger] s0[j], v4) ==> pair_for(
                                    adapters,
                                    s0[j],
                                ).effective_metric > p.effective_metric)
                        };
                    assert(0 <= i0 < routes.len() && family_route(routes[i0], v4) && p == pair_for(
                        adapters,
                        routes[i0],
                    ) && (forall|j: int|
                        0 <= j < i0 && family_route(#[trigger] routes[j], v4) ==> pair_for(
                            adapters,
                            routes[j],
                        ).effective_metric > p.effective_metric));
                }
            },
        }
    }
}

/// The index of the first adapter that owns `route`, if any.
fn find_adapter(adapters: &Vec<Adapter>, route: &Route) -> (r: Option<usize>)
    ensures
        match r {
            Some(j) => j < adapters@.len() && matching_adapter(adapter_views(adapters@), *route)
                == Some(adapters@[j as int]@),
            None => matching_adapter(adapter_views(adapters@), *route) is None,
        },
{
    let ghost av = adapter_views(adapters@);
    let v4 = route.destination_prefix_ip.is_ipv4();
    let n = adapters.len();
    proof {
        assert(av.skip(0) =~= av);
    }
    let mut j: usize = 0;
    while j < n
        invariant
            0 <= j <= n,
            n == adapters@.len(),
            av == adapter_views(adapters@),
            av.len() == n,
            v4 == route_is_v4(*route),
            matching_adapter(av, *route) == matching_adapter(av.skip(j as int), *route),
        decreases n - j,
    {
        let index = if v4 {
            adapters[j].ipv4_interface_index
        } else {
            adapters[j].ipv6_interface_index
        };
        proof {
            assert(av.skip(j as int).first() == av[j as int]);
            assert(av[j as int] == adapters@[j as int]@);
        }
        if index == route.interface_index {
            assert(adapter_matches_route(av[j as int], *route));
            return Some(j);
        }
        proof {
            assert(!adapter_matches_route(av[j as int], *route));
            assert(av.skip(j as int).drop_first() =~= av.skip(j as int + 1));
        }
        j = j + 1;
    }
    proof {
        assert(av.skip(n as int) =~= Seq::<AdapterView>::empty());
    }
    None
}

/// Extending a mismatch-free prefix of the routes by one route that either is
/// no internet route or has a matching adapter keeps it mismatch-free.
proof fn lemma_mismatch_take_step(routes: Seq<Route>, adapters: Seq<AdapterView>, i: int)
    requires
        0 <= i < routes.len(),
        !route_mismatch(routes.take(i), adapters),
        !(routes[i].spec_is_internet_route() && matching_adapter(adapters, routes[i]) is None),
    ensures
        !route_mismatch(routes.take(i + 1), adapters),
{
    if route_mismatch(routes.take(i + 1), adapters) {
        let k = choose|k: int|
            0 <= k < routes.take(i + 1).len() && (#[trigger] routes.take(i + 1)[k])
                .spec_is_internet_route() && matching_adapter(adapters, routes.take(i + 1)[k]) is None;
        if k < i {
            assert(routes.take(i)[k] == routes.take(i + 1)[k]);
            assert(route_mismatch(routes.take(i), adapters));
        } else {
            assert(routes.take(i + 1)[k] == routes[i]);
        }
    }
}

/// Whether an exec candidate (adapter index and effective metric) stands for
/// the spec-level winning pair.
pub open spec fn tracks_best(
    b: Option<(usize, u64)>,
    p: Option<RouteAdapterPair>,
    adapters: Seq<Adapter>,
) -> bool {
    match (b, p) {
        (Option::None, Option::None) => true,
        (Option::Some((j, m)), Option::Some(p)) => j < adapters.len() && adapters[j as int]@
            == p.adapter && m as int == p.effective_metric,
        _ => false,
    }
}

/// Copies the elements of `src` onto the end of `out`.
fn append_addresses(out: &mut Vec<IpAddress>, src: &Vec<IpAddress>)
    ensures
        final(out)@ == old(out)@ + src@,
{
    let n = src.len();
    proof {
        assert(out@ + src@.take(0) =~= out@);
    }
    let mut i: usize = 0;
    while i < n
        invariant
            0 <= i <= n,
            n == src@.len(),
            out@ == old(out)@ + src@.take(i as int),
        decreases n - i,
    {
        out.push(src[i]);
        proof {
            assert(old(out)@ + src@.take(i as int + 1) =~= (old(out)@ + src@.take(i as int)).push(
                src@[i as int],
            ));
        }
        i = i + 1;
    }
    proof {
        assert(src@.take(n as int) =~= src@);
    }
}

/// Copies the strings of `src` onto the end of `out`.
fn append_strings(out: &mut Vec<String>, src: &Vec<String>)
    ensures
        final(out)@.map_values(|s: String| s@) == old(out)@.map_values(|s: String| s@)
            + src@.map_values(|s: String| s@),
{
    let n = src.len();
    proof {
        assert(out@.map_values(|s: String| s@) + src@.take(0).map_values(|s: String| s@)
            =~= out@.map_values(|s: String| s@));
    }
    let mut i: usize = 0;
    while i < n
        invariant
            0 <= i <= n,
            n == src@.len(),
            out@.map_values(|s: String| s@) == old(out)@.map_values(|s: String| s@) + src@.take(
                i as int,
            ).map_values(|s: String| s@),
        decreases n - i,
    {
        let s = src[i].clone();
        proof {
            assert(s@ == src@[i as int]@);
        }
        let ghost prev = out@.map_values(|s: String| s@);
        out.push(s);
        proof {
            assert(out@.map_values(|s: String| s@) =~= prev.push(src@[i as int]@));
            assert(old(out)@.map_values(|s: String| s@) + src@.take(i as int + 1).map_values(
                |s: String| s@,
            ) =~= prev.push(src@[i as int]@));
        }
        i = i + 1;
    }
    proof {
        assert(src@.take(n as int) =~= src@);
    }
}

/// Resolves the DNS configuration a client of this host would use, from a
/// routing-table snapshot and an adapter snapshot.
///
/// Internet routes (destination 0.0.0.0/0 or ::/0) are paired with the
/// adapter owning their interface index; the IPv4 and IPv6 pairs with the
/// least effective metric win independently, and the winners' DNS servers and
/// suffixes are concatenated (IPv4 first) and deduplicated keeping first
/// occurrences. An internet route that matches no adapter is a
/// `RouteInterfaceMismatch` error.
pub fn get_configuration(routes: &Vec<Route>, adapters: &Vec<Adapter>) -> (r: Result<
    DnsConfiguration,
    Error,
>)
    ensures
        match r {
            Ok(c) => spec_resolve(routes@, adapter_views(adapters@)) == Ok::<
                DnsConfigurationView,
                Error,
            >(c@),
            Err(e) => spec_resolve(routes@, adapter_views(adapters@)) == Err::<
                DnsConfigurationView,
                Error,
            >(e),
        },
{
    let ghost av = adapter_views(adapters@);
    let mut best4: Option<(usize, u64)> = None;
    let mut best6: Option<(usize, u64)> = None;
    let n = routes.len();
    proof {
        assert(routes@.take(0) =~= Seq::<Route>::empty());
    }
    let mut i: usize = 0;
    while i < n
        invariant
            0 <= i <= n,
            n == routes@.len(),
            av == adapter_views(adapters@),
            av.len() == adapters@.len(),
            !route_mismatch(routes@.take(i as int), av),
            tracks_best(best4, best_pair(routes@.take(i as int), av, true), adapters@),
            tracks_best(best6, best_pair(routes@.take(i as int), av, false), adapters@),
        decreases n - i,
    {
        let route = routes[i];
        proof {
            assert(routes@.take(i as int + 1).drop_last() =~= routes@.take(i as int));
            assert(routes@.take(i as int + 1).last() == route);
        }
        if route.is_internet_route() {
            match find_adapter(adapters, &route) {
                None => {
                    proof {
                        assert(routes@[i as int].spec_is_internet_route() && matching_adapter(
                            av,
                            routes@[i as int],
                        ) is None);
                    }
                    return Err(Error::RouteInterfaceMismatch);
                },
                Some(j) => {
                    let v4 = route.destination_prefix_ip.is_ipv4();
                    let fam_metric = if v4 {
                        adapters[j].ipv4_metric
                    } else {
                        adapters[j].ipv6_metric
                    };
                    let em: u64 = route.metric as u64 + fam_metric as u64;
                    proof {
                        assert(pair_for(av, route).adapter == adapters@[j as int]@);
                        assert(pair_for(av, route).effective_metric == em as int);
                        lemma_mismatch_take_step(routes@, av, i as int);
                    }
                    if v4 {
                        best4 = match best4 {
                            None => Some((j, em)),
                            Some((bj, bm)) => if em < bm {
                                Some((j, em))
                            } else {
                                Some((bj, bm))
                            },
                        };
                    } else {
                        best6 = match best6 {
                            None => Some((j, em)),
                            Some((bj, bm)) => if em < bm {
                                Some((j, em))
                            } else {
                                Some((bj, bm))
                            },
                        };
                    }
                },
            }
        } else {
            proof {
                lemma_mismatch_take_step(routes@, av, i as int);
            }
        }
        i = i + 1;
    }
    proof {
        assert(routes@.take(n as int) =~= routes@);
    }
    let ghost b4 = best_pair(routes@, av, true);
    let ghost b6 = best_pair(routes@, av, false);

    let mut servers: Vec<IpAddress> = Vec::new();
    let mut suffixes: Vec<String> = Vec::new();
    proof {
        assert(suffixes@.map_values(|s: String| s@) =~= Seq::<Seq<char>>::empty());
    }
    if let Some((j, _m)) = best4 {
        append_addresses(&mut servers, &adapters[j].dns_servers);
        append_strings(&mut suffixes, &adapters[j].dns_suffixes);
    }
    let ghost servers4 = servers@;
    let ghost suffixes4 = suffixes@.map_values(|s: String| s@);
    proof {
        assert(servers4 =~= pair_servers(b4));
        assert(suffixes4 =~= pair_suffixes(b4));
    }
    if let Some((j, _m)) = best6 {
        append_addresses(&mut servers, &adapters[j].dns_servers);
        append_strings(&mut suffixes, &adapters[j].dns_suffixes);
    }
    proof {
        assert(servers@ =~= pair_servers(b4) + pair_servers(b6));
        assert(suffixes@.map_values(|s: String| s@) =~= pair_suffixes(b4) + pair_suffixes(b6));
    }
    let config = DnsConfiguration {
        servers: dedup_addresses(&servers),
        suffixes: dedup_strings(&suffixes),
    };
    proof {
        assert(config@.servers == dedup(pair_servers(b4) + pair_servers(b6)));
        assert(config@.suffixes == dedup(pair_suffixes(b4) + pair_suffixes(b6)));
    }
    Ok(config)
}

} // verus!
