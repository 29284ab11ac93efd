//! Network facts: host name, domain, interfaces and the primary interface.
use vstd::prelude::*;
use crate::table::{map_of_pairs, TextMap};
use crate::text;

verus! {

/// The facts about the network.
pub struct NetworkFacts {
    pub hostname: String,
    pub domain: Option<String>,
    pub fqdn: Option<String>,
    pub primary: Option<String>,
    pub ip: Option<String>,
    pub ip6: Option<String>,
    pub mac: Option<String>,
    pub mtu: Option<u32>,
    pub interfaces: TextMap<Interface>,
}

/// A network interface.
pub struct Interface {
    pub name: String,
    pub ip: Option<String>,
    pub prefix: Option<u32>,
    pub ip6: Option<String>,
    pub prefix6: Option<u32>,
    pub mtu: Option<u32>,
    pub mac: Option<String>,
    pub operational_state: String,
    pub link_type: String,
}

/// A network interface, each text taken by its characters.
pub struct InterfaceSpec {
    pub name: Seq<char>,
    pub ip: Option<Seq<char>>,
    pub prefix: Option<u32>,
    pub ip6: Option<Seq<char>>,
    pub prefix6: Option<u32>,
    pub mtu: Option<u32>,
    pub mac: Option<Seq<char>>,
    pub operational_state: Seq<char>,
    pub link_type: Seq<char>,
}

impl View for Interface {
    type V = InterfaceSpec;

    open spec fn view(&self) -> InterfaceSpec {
        InterfaceSpec {
            name: self.name@,
            ip: text::opt_view(self.ip),
            prefix: self.prefix,
            ip6: text::opt_view(self.ip6),
            prefix6: self.prefix6,
            mtu: self.mtu,
            mac: text::opt_view(self.mac),
            operational_state: self.operational_state@,
            link_type: self.link_type@,
        }
    }
}

/// The network facts, each text taken by its characters.
pub struct NetworkSpec {
    pub hostname: Seq<char>,
    pub domain: Option<Seq<char>>,
    pub fqdn: Option<Seq<char>>,
    pub primary: Option<Seq<char>>,
    pub ip: Option<Seq<char>>,
    pub ip6: Option<Seq<char>>,
    pub mac: Option<Seq<char>>,
    pub mtu: Option<u32>,
    pub interfaces: Map<Seq<char>, InterfaceSpec>,
}

impl View for NetworkFacts {
    type V = NetworkSpec;

    open spec fn view(&self) -> NetworkSpec {
        NetworkSpec {
            hostname: self.hostname@,
            domain: text::opt_view(self.domain),
            fqdn: text::opt_view(self.fqdn),
            primary: text::opt_view(self.primary),
            ip: text::opt_view(self.ip),
            ip6: text::opt_view(self.ip6),
            mac: text::opt_view(self.mac),
            mtu: self.mtu,
            interfaces: self.interfaces@.map_values(|i: Interface| i@),
        }
    }
}

/// Collects the network facts.
pub struct NetworkComponent;

impl NetworkComponent {
    /// The component; it holds nothing.
    pub fn new() -> (r: Self)
        ensures
            r == NetworkComponent,
    {
        NetworkComponent
    }
}

/// Why the network facts could not be read from the output of the Windows script.
#[derive(Debug, Clone, Copy, PartialEq, Eq, Structural)]
pub enum NetworkError {
    MissingHostname,
    MissingDomain,
}

/// A domain name: none for the empty text and for `(none)`.
pub open spec fn domain_of(s: Seq<char>) -> Option<Seq<char>> {
    if s.len() == 0 || s == "(none)"@ {
        None
    } else {
        Some(s)
    }
}

/// The domain name in `s`, such as the contents of `/proc/sys/kernel/domainname`.
pub fn parse_domain(s: &str) -> (r: Option<String>)
    ensures
        text::opt_view(r) == domain_of(s@),
{
    let c = text::chars_of(s);
    if c.len() == 0 || text::eq_str(c.as_slice(), "(none)") {
        return None;
    }
    Some(s.to_owned())
}

/// The fully qualified name of a host in a domain: `{hostname}.{domain}`.
pub open spec fn fqdn_of(hostname: Seq<char>, domain: Option<Seq<char>>) -> Option<Seq<char>> {
    match domain {
        Some(d) => Some(hostname + "."@ + d),
        None => None,
    }
}

/// The fully qualified name of `hostname` in `domain`; none without a domain.
pub fn build_fqdn(hostname: &str, domain: &Option<String>) -> (r: Option<String>)
    ensures
        text::opt_view(r) == fqdn_of(hostname@, text::opt_view(*domain)),
{
    match domain {
        Some(d) => {
            let h = text::chars_of(hostname);
            let dot = text::chars_of(".");
            let dc = text::chars_of(d.as_str());
            let hd = text::concat_chars(h.as_slice(), dot.as_slice());
            Some(text::string_of(text::concat_chars(hd.as_slice(), dc.as_slice()).as_slice()))
        },
        None => None,
    }
}

/// The text, or none when it is empty.
pub open spec fn nonempty(s: Seq<char>) -> Option<Seq<char>> {
    if s.len() == 0 {
        None
    } else {
        Some(s)
    }
}

/// The text as a string, or none when it is empty.
pub fn opt_str(s: &str) -> (r: Option<String>)
    ensures
        text::opt_view(r) == nonempty(s@),
{
    let c = text::chars_of(s);
    if c.len() == 0 {
        None
    } else {
        Some(s.to_owned())
    }
}

/// The number of ones in the binary digits of `n`.
pub open spec fn count_ones(n: nat) -> nat
    decreases n,
{
    if n == 0 {
        0
    } else {
        n % 2 + count_ones(n / 2)
    }
}

/// The prefix length of a netmask such as `0xffffff00`: the number of ones in
/// the hexadecimal number after the leading `0x` prefixes.
pub open spec fn netmask_prefix(mask: Seq<char>) -> Option<u32> {
    match text::parse_hex_u32(text::trim_start_str(mask, "0x"@)) {
        Some(n) => Some(count_ones(n as nat) as u32),
        None => None,
    }
}

fn count_ones_of(n: u32) -> (r: u32)
    ensures
        r == count_ones(n as nat),
{
    let mut x = n;
    let mut c: u32 = 0;
    while x > 0
        invariant
            count_ones(n as nat) == c + count_ones(x as nat),
            c + x <= n,
        decreases x,
    {
        assert(count_ones(x as nat) == x % 2 + count_ones((x / 2) as nat));
        c = c + x % 2;
        x = x / 2;
    }
    c
}

/// The prefix length of a netmask as `ifconfig` prints it.
pub fn netmask_to_prefix(mask: &str) -> (r: Option<u32>)
    ensures
        r == netmask_prefix(mask@),
{
    let m = text::chars_of(mask);
    let p = text::chars_of("0x");
    let digits = text::trim_start_str_chars(m.as_slice(), p.as_slice());
    match text::parse_hex_u32_of(digits.as_slice()) {
        Some(n) => Some(count_ones_of(n)),
        None => None,
    }
}


/// An address of an interface, as `ip -j addr show` reports it.
pub struct AddrInfo {
    pub family: String,
    pub local: String,
    pub prefixlen: u32,
    pub scope: String,
}

/// A network device, as `ip -j addr show` reports it.
pub struct IPDevice {
    pub ifname: String,
    pub mtu: u32,
    pub operstate: String,
    pub link_type: String,
    pub address: String,
    pub addr_info: Vec<AddrInfo>,
}

/// The address and prefix length of `a` when it is of `family` and its scope
/// is not `link`.
pub open spec fn addr_of(a: AddrInfo, family: Seq<char>) -> Option<(Seq<char>, u32)> {
    if a.scope@ != "link"@ && a.family@ == family {
        Some((a.local@, a.prefixlen))
    } else {
        None
    }
}

/// The last address of `family` whose scope is not `link`, with its prefix length.
pub open spec fn last_addr(infos: Seq<AddrInfo>, family: Seq<char>) -> Option<(Seq<char>, u32)> {
    text::last_some(infos, |a: AddrInfo| addr_of(a, family))
}

/// The address and the prefix length, each optional.
pub open spec fn addr_parts(a: Option<(Seq<char>, u32)>) -> (Option<Seq<char>>, Option<u32>) {
    match a {
        Some((ip, prefix)) => (Some(ip), Some(prefix)),
        None => (None, None),
    }
}

fn last_addr_of(addr_infos: &[AddrInfo], family: &str) -> (r: Option<(String, u32)>)
    ensures
        match r {
            Some((ip, prefix)) => last_addr(addr_infos@, family@) == Some((ip@, prefix)),
            None => last_addr(addr_infos@, family@) is None,
        },
{
    let ghost v = addr_infos@;
    let ghost f = |a: AddrInfo| addr_of(a, family@);
    let mut cur: Option<(String, u32)> = None;
    let mut i: usize = 0;
    assert(v.take(0) =~= Seq::<AddrInfo>::empty());
    while i < addr_infos.len()
        invariant
            i <= v.len(),
            v == addr_infos@,
            f == (|a: AddrInfo| addr_of(a, family@)),
            match cur {
                Some((ip, prefix)) => text::last_some(v.take(i as int), f) == Some((ip@, prefix)),
                None => text::last_some(v.take(i as int), f) is None,
            },
        decreases addr_infos.len() - i,
    {
        proof {
            text::lemma_last_some_step(v, f, i as int);
        }
        let a = &addr_infos[i];
        let scope = text::chars_of(a.scope.as_str());
        let fam = text::chars_of(a.family.as_str());
        if !text::eq_str(scope.as_slice(), "link") && text::eq_str(fam.as_slice(), family) {
            cur = Some((a.local.clone(), a.prefixlen));
        }
        i = i + 1;
    }
    assert(v.take(i as int) =~= v);
    cur
}

/// The last IPv4 and the last IPv6 address whose scope is not `link`, each
/// with its prefix length.
pub fn extract_addrs(addr_infos: &[AddrInfo]) -> (r: (Option<String>, Option<u32>, Option<String>, Option<u32>))
    ensures
        (text::opt_view(r.0), r.1) == addr_parts(last_addr(addr_infos@, "inet"@)),
        (text::opt_view(r.2), r.3) == addr_parts(last_addr(addr_infos@, "inet6"@)),
{
    let (ip, prefix) = match last_addr_of(addr_infos, "inet") {
        Some((a, p)) => (Some(a), Some(p)),
        None => (None, None),
    };
    let (ip6, prefix6) = match last_addr_of(addr_infos, "inet6") {
        Some((a, p)) => (Some(a), Some(p)),
        None => (None, None),
    };
    (ip, prefix, ip6, prefix6)
}

/// Whether an interface can be the primary one: it is an Ethernet link and,
/// when `ip_required`, it has an IPv4 address.
pub open spec fn is_primary(i: InterfaceSpec, ip_required: bool) -> bool {
    i.link_type == "ether"@ && (!ip_required || i.ip is Some)
}

/// The first interface that can be the primary one.
pub open spec fn primary_of(ifaces: Seq<InterfaceSpec>, ip_required: bool) -> Option<InterfaceSpec> {
    text::first_some(
        ifaces,
        |i: InterfaceSpec|
            if is_primary(i, ip_required) {
                Some(i)
            } else {
                None
            },
    )
}

/// The interfaces keyed by name; a later interface with the same name
/// replaces an earlier one.
pub open spec fn interface_map(ifaces: Seq<InterfaceSpec>) -> Map<Seq<char>, InterfaceSpec> {
    map_of_pairs(ifaces.map_values(|i: InterfaceSpec| (i.name, i)))
}

/// The network facts of a host with these interfaces: the primary interface
/// gives the host's address, MAC address and MTU.
pub open spec fn network_spec_of(
    hostname: Seq<char>,
    domain: Option<Seq<char>>,
    ifaces: Seq<InterfaceSpec>,
    ip_required: bool,
) -> NetworkSpec {
    let p = primary_of(ifaces, ip_required);
    NetworkSpec {
        hostname,
        domain,
        fqdn: fqdn_of(hostname, domain),
        primary: match p {
            Some(i) => Some(i.name),
            None => None,
        },
        ip: match p {
            Some(i) => i.ip,
            None => None,
        },
        ip6: match p {
            Some(i) => i.ip6,
            None => None,
        },
        mac: match p {
            Some(i) => i.mac,
            None => None,
        },
        mtu: match p {
            Some(i) => i.mtu,
            None => None,
        },
        interfaces: interface_map(ifaces),
    }
}

/// The primary interface is one of the interfaces: the first that can be the
/// primary one. It is an Ethernet link, it has an IPv4 address when one is
/// required, and there is no primary interface only when no interface can be
/// the primary one.
pub proof fn lemma_primary_interface(
    hostname: Seq<char>,
    domain: Option<Seq<char>>,
    ifaces: Seq<InterfaceSpec>,
    ip_required: bool,
)
    ensures
        ({
            let n = network_spec_of(hostname, domain, ifaces, ip_required);
            match n.primary {
                Some(name) => {
                    &&& n.interfaces.contains_key(name)
                    &&& exists|i: int|
                        0 <= i < ifaces.len() && ifaces[i].name == name && is_primary(
                            #[trigger] ifaces[i],
                            ip_required,
                        ) && n.ip == ifaces[i].ip && n.ip6 == ifaces[i].ip6 && n.mac
                            == ifaces[i].mac && n.mtu == ifaces[i].mtu && forall|j: int|
                            0 <= j < i ==> !is_primary(#[trigger] ifaces[j], ip_required)
                    &&& ip_required ==> n.ip is Some
                },
                None => {
                    &&& n.ip is None && n.ip6 is None && n.mac is None && n.mtu is None
                    &&& forall|i: int|
                        0 <= i < ifaces.len() ==> !is_primary(#[trigger] ifaces[i], ip_required)
                },
            }
        }),
{
    let pf = |i: InterfaceSpec|
        if is_primary(i, ip_required) {
            Some(i)
        } else {
            None
        };
    text::lemma_first_some_found(ifaces, pf);
    let p = ifaces.map_values(|i: InterfaceSpec| (i.name, i));
    crate::table::lemma_map_of_pairs_dom(p);
    match primary_of(ifaces, ip_required) {
        Some(b) => {
            let i = choose|i: int|
                0 <= i < ifaces.len() && pf(#[trigger] ifaces[i]) == Some(b) && forall|j: int|
                    0 <= j < i ==> pf(#[trigger] ifaces[j]) is None;
            assert(p[i].0 == b.name);
            assert forall|j: int| 0 <= j < i implies !is_primary(#[trigger] ifaces[j], ip_required) by {
                assert(pf(ifaces[j]) is None);
            }
        },
        None => {
            assert forall|i: int| 0 <= i < ifaces.len() implies !is_primary(
                #[trigger] ifaces[i],
                ip_required,
            ) by {
                assert(pf(ifaces[i]) is None);
            }
        },
    }
}

/// The fully qualified name is present exactly when the domain is, and is
/// then the host name, a `.` and the domain; neither an empty domain name
/// nor `(none)` is a domain.
pub proof fn lemma_fqdn(hostname: Seq<char>, domain_text: Seq<char>)
    ensures
        fqdn_of(hostname, domain_of(domain_text)) is Some <==> (domain_text.len() > 0
            && domain_text != "(none)"@),
        domain_of(domain_text) is Some ==> fqdn_of(hostname, domain_of(domain_text)) == Some(
            hostname + "."@ + domain_text,
        ),
{
}

/// The views of a sequence of interfaces.
pub open spec fn interface_views(v: Seq<Interface>) -> Seq<InterfaceSpec> {
    v.map_values(|i: Interface| i@)
}

fn clone_opt(o: &Option<String>) -> (r: Option<String>)
    ensures
        text::opt_view(r) == text::opt_view(*o),
{
    match o {
        Some(s) => Some(s.clone()),
        None => None,
    }
}

/// The network facts of a host with these interfaces (see `network_spec_of`).
pub fn assemble_network_facts(
    hostname: String,
    domain: Option<String>,
    interfaces: Vec<Interface>,
    ip_required: bool,
) -> (r: NetworkFacts)
    ensures
        r@ == network_spec_of(hostname@, text::opt_view(domain), interface_views(interfaces@), ip_required),
{
    let ghost iv = interface_views(interfaces@);
    let ghost pf = |i: InterfaceSpec|
        if is_primary(i, ip_required) {
            Some(i)
        } else {
            None
        };
    let fqdn = build_fqdn(hostname.as_str(), &domain);
    let mut primary: Option<String> = None;
    let mut ip: Option<String> = None;
    let mut ip6: Option<String> = None;
    let mut mac: Option<String> = None;
    let mut mtu: Option<u32> = None;
    let mut i: usize = 0;
    proof {
        text::lemma_take_all(iv);
    }
    while i < interfaces.len()
        invariant_except_break
            text::first_some(iv, pf) == text::first_some(iv.skip(i as int), pf),
            primary is None,
            ip is None,
            ip6 is None,
            mac is None,
            mtu is None,
        invariant
            i <= interfaces@.len(),
            iv == interface_views(interfaces@),
            pf == (|i: InterfaceSpec|
                if is_primary(i, ip_required) {
                    Some(i)
                } else {
                    None
                }),
        ensures
            match text::first_some(iv, pf) {
                Some(p) => text::opt_view(primary) == Some(p.name) && text::opt_view(ip) == p.ip
                    && text::opt_view(ip6) == p.ip6 && text::opt_view(mac) == p.mac && mtu == p.mtu,
                None => primary is None && ip is None && ip6 is None && mac is None && mtu is None,
            },
        decreases interfaces.len() - i,
    {
        proof {
            text::lemma_first_some_step(iv, pf, i as int);
        }
        let it = &interfaces[i];
        assert(iv[i as int] == it@);
        let lt = text::chars_of(it.link_type.as_str());
        if text::eq_str(lt.as_slice(), "ether") && (!ip_required || it.ip.is_some()) {
            primary = Some(it.name.clone());
            ip = clone_opt(&it.ip);
            ip6 = clone_opt(&it.ip6);
            mac = clone_opt(&it.mac);
            mtu = it.mtu;
            break;
        }
        i = i + 1;
        if i == interfaces.len() {
            proof {
                text::lemma_first_some_end(iv, pf);
            }
        }
    }
    if interfaces.len() == 0 {
        proof {
            text::lemma_first_some_end(iv, pf);
        }
    }
    let ghost all = interfaces@;
    let ghost kf = |x: Interface| (x.name@, x);
    let mut rest = interfaces;
    let mut table: TextMap<Interface> = TextMap::new();
    let mut k: usize = 0;
    assert(all.take(0).map_values(kf) =~= Seq::<(Seq<char>, Interface)>::empty());
    assert(all.skip(0) =~= all);
    assert(all.len() == rest.len());
    while rest.len() > 0
        invariant
            k <= all.len(),
            all.len() <= usize::MAX,
            rest@ == all.skip(k as int),
            kf == (|x: Interface| (x.name@, x)),
            table@ == map_of_pairs(all.take(k as int).map_values(kf)),
        decreases rest.len(),
    {
        let x = rest.remove(0);
        let key = x.name.clone();
        assert(x == all[k as int]);
        proof {
            let p = all.take(k + 1).map_values(kf);
            assert(p.drop_last() =~= all.take(k as int).map_values(kf));
            assert(p.last() == (key@, x));
        }
        table.insert(key, x);
        assert(rest@ =~= all.skip(k + 1));
        k = k + 1;
    }
    proof {
        assert(all.take(k as int) =~= all);
        let vf = |x: Interface| x@;
        crate::table::lemma_map_of_pairs_map_values(all.map_values(kf), vf);
        assert(all.map_values(kf).map_values(|e: (Seq<char>, Interface)| (e.0, vf(e.1))) =~= iv.map_values(
            |i: InterfaceSpec| (i.name, i),
        ));
    }
    let r = NetworkFacts { hostname, domain, fqdn, primary, ip, ip6, mac, mtu, interfaces: table };
    assert(r@.interfaces =~= interface_map(iv));
    r
}

/// The interface that `ip -j addr show` reports for a device.
pub open spec fn interface_of_device(d: IPDevice) -> InterfaceSpec {
    let (ip, prefix) = addr_parts(last_addr(d.addr_info@, "inet"@));
    let (ip6, prefix6) = addr_parts(last_addr(d.addr_info@, "inet6"@));
    InterfaceSpec {
        name: d.ifname@,
        ip,
        prefix,
        ip6,
        prefix6,
        mtu: Some(d.mtu),
        mac: Some(d.address@),
        operational_state: d.operstate@,
        link_type: d.link_type@,
    }
}

/// Whether an address is of `family` and its scope is not `link`.
pub open spec fn qualifies(a: AddrInfo, family: Seq<char>) -> bool {
    a.family@ == family && a.scope@ != "link"@
}

/// Whether `ip` and `prefix` are the address and the prefix length of one and
/// the same entry of `infos`: the last one of `family` whose scope is not
/// `link`; both are absent when there is none.
pub open spec fn reports_last_address(
    infos: Seq<AddrInfo>,
    family: Seq<char>,
    ip: Option<Seq<char>>,
    prefix: Option<u32>,
) -> bool {
    match ip {
        Some(a) => exists|k: int|
            0 <= k < infos.len() && qualifies(#[trigger] infos[k], family) && a == infos[k].local@
                && prefix == Some(infos[k].prefixlen) && forall|j: int|
                k < j < infos.len() ==> !qualifies(#[trigger] infos[j], family),
        None => prefix is None && forall|k: int|
            0 <= k < infos.len() ==> !qualifies(#[trigger] infos[k], family),
    }
}

proof fn lemma_last_addr_reported(infos: Seq<AddrInfo>, family: Seq<char>)
    ensures
        ({
            let (ip, prefix) = addr_parts(last_addr(infos, family));
            reports_last_address(infos, family, ip, prefix)
        }),
{
    let f = |a: AddrInfo| addr_of(a, family);
    text::lemma_last_some_found(infos, f);
    match last_addr(infos, family) {
        Some(b) => {
            let i = choose|i: int|
                0 <= i < infos.len() && f(#[trigger] infos[i]) == Some(b) && forall|j: int|
                    i < j < infos.len() ==> f(#[trigger] infos[j]) is None;
            assert(qualifies(infos[i], family));
            assert forall|j: int| i < j < infos.len() implies !qualifies(
                #[trigger] infos[j],
                family,
            ) by {
                assert(f(infos[j]) is None);
            }
        },
        None => {
            assert forall|k: int| 0 <= k < infos.len() implies !qualifies(
                #[trigger] infos[k],
                family,
            ) by {
                assert(f(infos[k]) is None);
            }
        },
    }
}

/// Each interface of the Linux network facts is that of a device with its
/// name: its IPv4 address and prefix length are those of one and the same
/// entry of the device's addresses (the last `inet` one whose scope is not
/// `link`), its IPv6 address and prefix length those of the last such `inet6`
/// entry, and its MTU and MAC address those of the device.
pub proof fn lemma_linux_interface_addresses(
    hostname: Seq<char>,
    domain_text: Seq<char>,
    devices: Seq<IPDevice>,
)
    ensures
        ({
            let m = network_spec_of(
                hostname,
                domain_of(domain_text),
                devices.map_values(|d: IPDevice| interface_of_device(d)),
                false,
            ).interfaces;
            forall|n: Seq<char>| #[trigger]
                m.contains_key(n) ==> exists|i: int|
                    0 <= i < devices.len() && devices[i].ifname@ == n && reports_last_address(
                        devices[i].addr_info@,
                        "inet"@,
                        m[n].ip,
                        m[n].prefix,
                    ) && reports_last_address(
                        devices[i].addr_info@,
                        "inet6"@,
                        m[n].ip6,
                        m[n].prefix6,
                    ) && m[n].mtu == Some(devices[i].mtu) && m[n].mac == Some(
                        #[trigger] devices[i].address@,
                    )
        }),
{
    let ifaces = devices.map_values(|d: IPDevice| interface_of_device(d));
    let p = ifaces.map_values(|i: InterfaceSpec| (i.name, i));
    let m = map_of_pairs(p);
    assert forall|n: Seq<char>| #[trigger] m.contains_key(n) implies exists|i: int|
        0 <= i < devices.len() && devices[i].ifname@ == n && reports_last_address(
            devices[i].addr_info@,
            "inet"@,
            m[n].ip,
            m[n].prefix,
        ) && reports_last_address(devices[i].addr_info@, "inet6"@, m[n].ip6, m[n].prefix6)
            && m[n].mtu == Some(devices[i].mtu) && m[n].mac == Some(
            #[trigger] devices[i].address@,
        ) by {
        crate::table::lemma_map_of_pairs_from_pair(p, n);
        let i = choose|i: int| 0 <= i < p.len() && p[i].0 == n && p[i].1 == m[n];
        assert(p[i] == (ifaces[i].name, ifaces[i]));
        assert(ifaces[i] == interface_of_device(devices[i]));
        lemma_last_addr_reported(devices[i].addr_info@, "inet"@);
        lemma_last_addr_reported(devices[i].addr_info@, "inet6"@);
    }
}

/// The network facts of a Linux host from its host name, the contents of
/// `/proc/sys/kernel/domainname` and the devices that `ip -j addr show`
/// reports; the primary interface is the first Ethernet device.
pub fn build_network_facts(hostname: String, domain_str: &str, devices: Vec<IPDevice>) -> (r: NetworkFacts)
    ensures
        r@ == network_spec_of(
            hostname@,
            domain_of(domain_str@),
            devices@.map_values(|d: IPDevice| interface_of_device(d)),
            false,
        ),
{
    let domain = parse_domain(domain_str);
    let ghost dv = devices@.map_values(|d: IPDevice| interface_of_device(d));
    let mut ifaces: Vec<Interface> = Vec::new();
    let mut i: usize = 0;
    assert(interface_views(ifaces@) =~= dv.take(0));
    while i < devices.len()
        invariant
            i <= devices@.len(),
            dv == devices@.map_values(|d: IPDevice| interface_of_device(d)),
            interface_views(ifaces@) == dv.take(i as int),
        decreases devices.len() - i,
    {
        let d = &devices[i];
        let (ip, prefix, ip6, prefix6) = extract_addrs(d.addr_info.as_slice());
        let it = Interface {
            name: d.ifname.clone(),
            operational_state: d.operstate.clone(),
            mtu: Some(d.mtu),
            mac: Some(d.address.clone()),
            link_type: d.link_type.clone(),
            ip,
            prefix,
            ip6,
            prefix6,
        };
        assert(it@ == interface_of_device(devices@[i as int]));
        let ghost old_v = ifaces@;
        ifaces.push(it);
        assert(interface_views(ifaces@) =~= interface_views(old_v) + seq![it@]);
        assert(dv.take(i + 1) =~= dv.take(i as int) + seq![dv[i as int]]);
        i = i + 1;
    }
    assert(dv.take(i as int) =~= dv);
    assemble_network_facts(hostname, domain, ifaces, false)
}

/// The text after `domain ` or `search ` at the start of a trimmed line.
pub open spec fn resolv_rest(l: Seq<char>) -> Option<Seq<char>> {
    let t = text::trim(l);
    if text::starts_with(t, "domain "@) {
        Some(t.skip("domain "@.len() as int))
    } else if text::starts_with(t, "search "@) {
        Some(t.skip("search "@.len() as int))
    } else {
        None
    }
}

/// The domain in the contents of `/etc/resolv.conf`: the first word after
/// the first `domain` or `search` line (none if that line holds no word).
pub open spec fn resolv_domain(content: Seq<char>) -> Option<Seq<char>> {
    match text::first_some(text::lines(content), |l: Seq<char>| resolv_rest(l)) {
        Some(rest) => {
            let ws = text::words(rest);
            if ws.len() == 0 {
                None
            } else {
                domain_of(ws[0])
            }
        },
        None => None,
    }
}

fn resolv_rest_of(l: &[char]) -> (r: Option<Vec<char>>)
    ensures
        text::opt_chars_view(r) == resolv_rest(l@),
{
    let t = text::trim_chars(l);
    let d = text::chars_of("domain ");
    let s = text::chars_of("search ");
    if text::starts_with_chars(t.as_slice(), d.as_slice()) {
        let r = text::slice_chars(t.as_slice(), d.len(), t.len());
        assert(r@ =~= t@.skip(d@.len() as int));
        Some(r)
    } else if text::starts_with_chars(t.as_slice(), s.as_slice()) {
        let r = text::slice_chars(t.as_slice(), s.len(), t.len());
        assert(r@ =~= t@.skip(s@.len() as int));
        Some(r)
    } else {
        None
    }
}

/// The domain in the contents of `/etc/resolv.conf`.
pub fn parse_resolv_conf(content: &str) -> (r: Option<String>)
    ensures
        text::opt_view(r) == resolv_domain(content@),
{
    let c = text::chars_of(content);
    let ls = text::lines_of(c.as_slice());
    let ghost lv = text::lines(content@);
    let ghost f = |l: Seq<char>| resolv_rest(l);
    let mut i: usize = 0;
    proof {
        text::lemma_take_all(lv);
    }
    while i < ls.len()
        invariant
            i <= ls@.len(),
            text::views(ls@) == lv,
            lv == text::lines(content@),
            f == (|l: Seq<char>| resolv_rest(l)),
            text::first_some(lv, f) == text::first_some(lv.skip(i as int), f),
        decreases ls.len() - i,
    {
        assert(ls@[i as int]@ == lv[i as int]);
        proof {
            text::lemma_first_some_step(lv, f, i as int);
        }
        match resolv_rest_of(ls[i].as_slice()) {
            Some(rest) => {
                let ws = text::words_of(rest.as_slice());
                if ws.len() == 0 {
                    return None;
                }
                return parse_domain(text::string_of(ws[0].as_slice()).as_str());
            },
            None => {},
        }
        i = i + 1;
    }
    proof {
        text::lemma_first_some_end(lv, f);
    }
    None
}

/// The `k`-th tab-separated field, trimmed (empty when there is none).
pub open spec fn field(p: Seq<Seq<char>>, k: int) -> Seq<char> {
    if 0 <= k < p.len() {
        text::trim(p[k])
    } else {
        Seq::empty()
    }
}

/// The interface on a line of the output of the Windows script: name, MAC
/// address, IPv4 address, prefix, IPv6 address, prefix, MTU, state and link
/// type, separated by tabs; a line with an empty name holds none.
pub open spec fn windows_interface_of_line(l: Seq<char>) -> Option<InterfaceSpec> {
    let p = text::splitn(l, 9, '\t');
    let name = field(p, 0);
    if name.len() == 0 {
        None
    } else {
        Some(
            InterfaceSpec {
                name,
                mac: nonempty(field(p, 1)),
                ip: nonempty(field(p, 2)),
                prefix: text::parse_u32(field(p, 3)),
                ip6: nonempty(field(p, 4)),
                prefix6: text::parse_u32(field(p, 5)),
                mtu: text::parse_u32(field(p, 6)),
                operational_state: field(p, 7),
                link_type: field(p, 8),
            },
        )
    }
}

/// The network facts in the output of the Windows script: host name and
/// domain on the first two lines, then one interface per line.
pub open spec fn windows_network_of(s: Seq<char>) -> Result<NetworkSpec, NetworkError> {
    let ls = text::lines(s);
    if ls.len() < 1 {
        Err(NetworkError::MissingHostname)
    } else if ls.len() < 2 {
        Err(NetworkError::MissingDomain)
    } else {
        Ok(
            network_spec_of(
                text::trim(ls[0]),
                domain_of(text::trim(ls[1])),
                ls.skip(2).filter_map(|l: Seq<char>| windows_interface_of_line(l)),
                false,
            ),
        )
    }
}

/// The `k`-th of the tab-separated columns of a line of the Windows script,
/// as `splitn(9, '\t')` cuts them, trimmed (empty when there is none).
pub open spec fn column(l: Seq<char>, k: int) -> Seq<char> {
    field(text::splitn(l, 9, '\t'), k)
}

/// Each interface of the Windows network facts comes from an interface line
/// (from the third line on) whose first column is its name: its MAC address
/// is column 1, its IPv4 address column 2 and its prefix length column 3 read
/// as a number, its IPv6 address column 4 and its prefix length column 5, its
/// MTU column 6; an empty column gives no value.
pub proof fn lemma_windows_interface_columns(s: Seq<char>)
    ensures
        windows_network_of(s) matches Ok(w) ==> forall|n: Seq<char>| #[trigger]
            w.interfaces.contains_key(n) ==> exists|k: int|
                2 <= k < text::lines(s).len() && column(#[trigger] text::lines(s)[k], 0) == n
                    && w.interfaces[n].mac == nonempty(column(text::lines(s)[k], 1))
                    && w.interfaces[n].ip == nonempty(column(text::lines(s)[k], 2))
                    && w.interfaces[n].prefix == text::parse_u32(column(text::lines(s)[k], 3))
                    && w.interfaces[n].ip6 == nonempty(column(text::lines(s)[k], 4))
                    && w.interfaces[n].prefix6 == text::parse_u32(column(text::lines(s)[k], 5))
                    && w.interfaces[n].mtu == text::parse_u32(column(text::lines(s)[k], 6)),
{
    let ls = text::lines(s);
    if ls.len() >= 2 {
        let w = windows_network_of(s)->Ok_0;
        let rest = ls.skip(2);
        let g = |l: Seq<char>| windows_interface_of_line(l);
        let ifaces = rest.filter_map(g);
        let p = ifaces.map_values(|i: InterfaceSpec| (i.name, i));
        let m = map_of_pairs(p);
        assert(w.interfaces == m);
        assert forall|n: Seq<char>| #[trigger] m.contains_key(n) implies exists|k: int|
            2 <= k < ls.len() && column(#[trigger] ls[k], 0) == n && m[n].mac == nonempty(
                column(ls[k], 1),
            ) && m[n].ip == nonempty(column(ls[k], 2)) && m[n].prefix == text::parse_u32(
                column(ls[k], 3),
            ) && m[n].ip6 == nonempty(column(ls[k], 4)) && m[n].prefix6 == text::parse_u32(
                column(ls[k], 5),
            ) && m[n].mtu == text::parse_u32(column(ls[k], 6)) by {
            crate::table::lemma_map_of_pairs_from_pair(p, n);
            let i = choose|i: int| 0 <= i < p.len() && p[i].0 == n && p[i].1 == m[n];
            assert(p[i] == (ifaces[i].name, ifaces[i]));
            text::lemma_filter_map_from(rest, g, i);
            let j = choose|j: int| 0 <= j < rest.len() && g(#[trigger] rest[j]) == Some(ifaces[i]);
            assert(rest[j] == ls[j + 2]);
        }
    }
}

fn field_of(p: &Vec<Vec<char>>, k: usize) -> (r: Vec<char>)
    ensures
        r@ == field(text::views(p@), k as int),
{
    if k < p.len() {
        text::trim_chars(p[k].as_slice())
    } else {
        Vec::new()
    }
}

fn opt_nonempty(v: Vec<char>) -> (r: Option<String>)
    ensures
        text::opt_view(r) == nonempty(v@),
{
    if v.len() == 0 {
        None
    } else {
        Some(text::string_of(v.as_slice()))
    }
}

fn windows_interface_of_line_of(l: &[char]) -> (r: Option<Interface>)
    ensures
        match r {
            Some(i) => windows_interface_of_line(l@) == Some(i@),
            None => windows_interface_of_line(l@) is None,
        },
{
    let p = text::splitn_of(l, 9, '\t');
    let name = field_of(&p, 0);
    if name.len() == 0 {
        return None;
    }
    let mac = opt_nonempty(field_of(&p, 1));
    let ip = opt_nonempty(field_of(&p, 2));
    let prefix = text::parse_u32_of(field_of(&p, 3).as_slice());
    let ip6 = opt_nonempty(field_of(&p, 4));
    let prefix6 = text::parse_u32_of(field_of(&p, 5).as_slice());
    let mtu = text::parse_u32_of(field_of(&p, 6).as_slice());
    let operational_state = text::string_of(field_of(&p, 7).as_slice());
    let link_type = text::string_of(field_of(&p, 8).as_slice());
    Some(
        Interface {
            name: text::string_of(name.as_slice()),
            ip,
            prefix,
            ip6,
            prefix6,
            mtu,
            mac,
            operational_state,
            link_type,
        },
    )
}

/// The network facts in the output of the Windows script, such as
/// `myhost`, `example.com`, then `Ethernet\t00-11-22-33-44-55\t10.0.0.5\t24\t...`.
pub fn parse_network_output_windows(s: &str) -> (r: Result<NetworkFacts, NetworkError>)
    ensures
        match (r, windows_network_of(s@)) {
            (Ok(f), Ok(w)) => f@ == w,
            (Err(e), Err(w)) => e == w,
            _ => false,
        },
{
    let c = text::chars_of(s);
    let ls = text::lines_of(c.as_slice());
    if ls.len() < 1 {
        return Err(NetworkError::MissingHostname);
    }
    let hostname = text::string_of(text::trim_chars(ls[0].as_slice()).as_slice());
    if ls.len() < 2 {
        return Err(NetworkError::MissingDomain);
    }
    let domain = parse_domain(text::string_of(text::trim_chars(ls[1].as_slice()).as_slice()).as_str());
    let ghost lv = text::lines(s@).skip(2);
    let ghost f = |l: Seq<char>| windows_interface_of_line(l);
    let mut ifaces: Vec<Interface> = Vec::new();
    let mut i: usize = 2;
    assert(lv.take(0) =~= Seq::<Seq<char>>::empty());
    assert(interface_views(ifaces@) =~= Seq::<InterfaceSpec>::empty());
    while i < ls.len()
        invariant
            2 <= i <= ls@.len(),
            text::views(ls@) == text::lines(s@),
            lv == text::lines(s@).skip(2),
            f == (|l: Seq<char>| windows_interface_of_line(l)),
            interface_views(ifaces@) == lv.take(i - 2).filter_map(f),
        decreases ls.len() - i,
    {
        assert(ls@[i as int]@ == lv[i - 2]);
        proof {
            text::lemma_filter_map_step(lv, f, i - 2);
        }
        match windows_interface_of_line_of(ls[i].as_slice()) {
            Some(it) => {
                let ghost old_v = ifaces@;
                ifaces.push(it);
                assert(interface_views(ifaces@) =~= interface_views(old_v) + seq![it@]);
            },
            None => {},
        }
        i = i + 1;
    }
    assert(lv.take(i - 2) =~= lv);
    Ok(assemble_network_facts(hostname, domain, ifaces, false))
}

/// An interface as `ifconfig` describes it on macOS.
pub struct IfconfigEntry {
    pub name: String,
    pub mtu: Option<u32>,
    pub mac: Option<String>,
    pub ip: Option<String>,
    pub prefix: Option<u32>,
    pub ip6: Option<String>,
    pub prefix6: Option<u32>,
    pub link_type: String,
    pub operational_state: String,
}

impl View for IfconfigEntry {
    type V = InterfaceSpec;

    open spec fn view(&self) -> InterfaceSpec {
        InterfaceSpec {
            name: self.name@,
            ip: text::opt_view(self.ip),
            prefix: self.prefix,
            ip6: text::opt_view(self.ip6),
            prefix6: self.prefix6,
            mtu: self.mtu,
            mac: text::opt_view(self.mac),
            operational_state: self.operational_state@,
            link_type: self.link_type@,
        }
    }
}

/// The views of a sequence of `ifconfig` entries.
pub open spec fn entry_views(v: Seq<IfconfigEntry>) -> Seq<InterfaceSpec> {
    v.map_values(|e: IfconfigEntry| e@)
}

/// Whether the pattern `p` occurs in `s`.
pub open spec fn contains_str(s: Seq<char>, p: Seq<char>) -> bool {
    text::find_str(s, p) is Some
}

/// The word after the first word `w` in `ws`, if any.
pub open spec fn word_after(ws: Seq<Seq<char>>, w: Seq<char>) -> Option<Seq<char>> {
    match text::position_of(ws, w) {
        Some(k) => if k + 1 < ws.len() {
            Some(ws[k + 1])
        } else {
            None
        },
        None => None,
    }
}

/// The first word of `ws`, if any.
pub open spec fn first_word(ws: Seq<Seq<char>>) -> Option<Seq<char>> {
    if ws.len() > 0 {
        Some(ws[0])
    } else {
        None
    }
}

/// Whether a line of `ifconfig` starts an interface: it is not indented.
pub open spec fn is_header_line(l: Seq<char>) -> bool {
    !(l.len() > 0 && (l[0] == '\t' || l[0] == ' '))
}

/// The interface that a header line of `ifconfig` starts, such as
/// `en0: flags=8863<UP,BROADCAST> mtu 1500`: the name before the first `:`,
/// the MTU after the word `mtu`, `loopback` as link type when the flags hold
/// `LOOPBACK` (else `other`), and `UP` as state when they hold `UP` (else `DOWN`).
pub open spec fn ifconfig_header(l: Seq<char>) -> Option<InterfaceSpec> {
    match text::split_once(l, ':') {
        None => None,
        Some((name, rest)) => Some(
            InterfaceSpec {
                name,
                mtu: match word_after(text::words(rest), "mtu"@) {
                    Some(m) => text::parse_u32(m),
                    None => None,
                },
                mac: None,
                ip: None,
                prefix: None,
                ip6: None,
                prefix6: None,
                link_type: if contains_str(rest, "LOOPBACK"@) {
                    "loopback"@
                } else {
                    "other"@
                },
                operational_state: if contains_str(rest, "UP"@) {
                    "UP"@
                } else {
                    "DOWN"@
                },
            },
        ),
    }
}

/// What an indented line of `ifconfig` adds to the interface `e`: `ether`
/// gives the MAC address and makes it an Ethernet link; `inet6` gives the
/// first IPv6 address that is not link-local (`fe80`), with its prefix
/// length; `inet` gives the IPv4 address and the prefix of its netmask;
/// `status:` gives the state (`UP` when `active`, else `DOWN`).
pub open spec fn ifconfig_detail(e: InterfaceSpec, l: Seq<char>) -> InterfaceSpec {
    let t = text::trim(l);
    if text::starts_with(t, "ether "@) {
        InterfaceSpec {
            mac: first_word(text::words(t.skip("ether "@.len() as int))),
            link_type: "ether"@,
            ..e
        }
    } else if text::starts_with(t, "inet6 "@) {
        let ws = text::words(t.skip("inet6 "@.len() as int));
        let first = if ws.len() > 0 {
            ws[0]
        } else {
            Seq::empty()
        };
        let addr = text::before_first(first, '%');
        if !text::starts_with(addr, "fe80"@) && e.ip6 is None {
            InterfaceSpec {
                ip6: Some(addr),
                prefix6: match word_after(ws, "prefixlen"@) {
                    Some(p) => text::parse_u32(p),
                    None => None,
                },
                ..e
            }
        } else {
            e
        }
    } else if text::starts_with(t, "inet "@) {
        let ws = text::words(t.skip("inet "@.len() as int));
        let rest = if ws.len() > 0 {
            ws.drop_first()
        } else {
            ws
        };
        InterfaceSpec {
            ip: first_word(ws),
            prefix: match word_after(rest, "netmask"@) {
                Some(m) => netmask_prefix(m),
                None => None,
            },
            ..e
        }
    } else if text::starts_with(t, "status: "@) {
        InterfaceSpec {
            operational_state: if text::trim(t.skip("status: "@.len() as int)) == "active"@ {
                "UP"@
            } else {
                "DOWN"@
            },
            ..e
        }
    } else {
        e
    }
}

/// The interfaces found so far while reading `ifconfig`, and the one being read.
pub struct IfconfigState {
    pub entries: Seq<InterfaceSpec>,
    pub current: Option<InterfaceSpec>,
}

/// The entries with the one being read, if any, appended.
pub open spec fn ifconfig_finish(st: IfconfigState) -> Seq<InterfaceSpec> {
    match st.current {
        Some(c) => st.entries.push(c),
        None => st.entries,
    }
}

/// Reading one line of `ifconfig`: a header line ends the interface being read
/// and starts the one it names (none if it has no `:`); an indented line adds
/// to the interface being read, if any.
pub open spec fn ifconfig_step(st: IfconfigState, l: Seq<char>) -> IfconfigState {
    if is_header_line(l) {
        IfconfigState { entries: ifconfig_finish(st), current: ifconfig_header(l) }
    } else {
        match st.current {
            Some(c) => IfconfigState { entries: st.entries, current: Some(ifconfig_detail(c, l)) },
            None => st,
        }
    }
}

/// The interfaces described by the output of `ifconfig`.
pub open spec fn ifconfig_entries(s: Seq<char>) -> Seq<InterfaceSpec> {
    ifconfig_finish(
        text::lines(s).fold_left(
            IfconfigState { entries: Seq::empty(), current: None },
            |st: IfconfigState, l: Seq<char>| ifconfig_step(st, l),
        ),
    )
}

/// Whether the IPv6 address of an interface, if any, is not link-local.
pub open spec fn ip6_not_link_local(i: InterfaceSpec) -> bool {
    match i.ip6 {
        Some(a) => !text::starts_with(a, "fe80"@),
        None => true,
    }
}

/// Whether every interface of a reading state has no link-local IPv6 address.
spec fn state_not_link_local(st: IfconfigState) -> bool {
    &&& forall|k: int| 0 <= k < st.entries.len() ==> ip6_not_link_local(#[trigger] st.entries[k])
    &&& (st.current matches Some(c) ==> ip6_not_link_local(c))
}

proof fn lemma_ifconfig_fold_not_link_local(ls: Seq<Seq<char>>)
    ensures
        state_not_link_local(
            ls.fold_left(
                IfconfigState { entries: Seq::empty(), current: None },
                |st: IfconfigState, l: Seq<char>| ifconfig_step(st, l),
            ),
        ),
    decreases ls.len(),
{
    if ls.len() > 0 {
        lemma_ifconfig_fold_not_link_local(ls.drop_last());
        let st = ls.drop_last().fold_left(
            IfconfigState { entries: Seq::empty(), current: None },
            |st: IfconfigState, l: Seq<char>| ifconfig_step(st, l),
        );
        let n = ifconfig_step(st, ls.last());
        assert forall|k: int| 0 <= k < n.entries.len() implies ip6_not_link_local(
            #[trigger] n.entries[k],
        ) by {
            if is_header_line(ls.last()) && k == st.entries.len() {
                assert(n.entries[k] == st.current->0);
            } else {
                assert(n.entries[k] == st.entries[k]);
            }
        }
    }
}

/// No interface read from the output of `ifconfig` has a link-local (`fe80`)
/// IPv6 address: such addresses are skipped.
pub proof fn lemma_ifconfig_skips_link_local(s: Seq<char>)
    ensures
        forall|k: int|
            0 <= k < ifconfig_entries(s).len() ==> ip6_not_link_local(
                #[trigger] ifconfig_entries(s)[k],
            ),
{
    let st = text::lines(s).fold_left(
        IfconfigState { entries: Seq::empty(), current: None },
        |st: IfconfigState, l: Seq<char>| ifconfig_step(st, l),
    );
    lemma_ifconfig_fold_not_link_local(text::lines(s));
    let e = ifconfig_entries(s);
    assert forall|k: int| 0 <= k < e.len() implies ip6_not_link_local(#[trigger] e[k]) by {
        if k == st.entries.len() {
            assert(e[k] == st.current->0);
        } else {
            assert(e[k] == st.entries[k]);
        }
    }
}

/// Whether a line of `ifconfig` is indented (a detail line of an interface).
pub open spec fn is_indented(l: Seq<char>) -> bool {
    l.len() > 0 && (l[0] == '\t' || l[0] == ' ')
}

/// The state of reading the first `n` lines of one interface block whose
/// detail lines hold no `status:` line.
proof fn lemma_ifconfig_block_state(ls: Seq<Seq<char>>, n: int)
    requires
        1 <= n <= ls.len(),
        !is_indented(ls[0]),
        text::split_once(ls[0], ':') is Some,
        forall|j: int|
            1 <= j < ls.len() ==> is_indented(#[trigger] ls[j]) && !text::starts_with(
                text::trim(ls[j]),
                "status: "@,
            ),
    ensures
        ({
            let st = ls.take(n).fold_left(
                IfconfigState { entries: Seq::empty(), current: None },
                |st: IfconfigState, l: Seq<char>| ifconfig_step(st, l),
            );
            let (name, rest) = text::split_once(ls[0], ':')->0;
            &&& st.entries.len() == 0
            &&& st.current matches Some(c) && c.name == name && c.operational_state == (
                if text::find_str(rest, "UP"@) is Some {
                    "UP"@
                } else {
                    "DOWN"@
                })
        }),
    decreases n,
{
    let t = ls.take(n);
    assert(t.drop_last() =~= ls.take(n - 1));
    assert(t.last() == ls[n - 1]);
    if n > 1 {
        lemma_ifconfig_block_state(ls, n - 1);
        assert(is_indented(ls[n - 1]));
    } else {
        assert(ls.take(0) =~= Seq::<Seq<char>>::empty());
    }
}

/// For an interface block of `ifconfig` (a header line, then indented lines)
/// with no `status:` line, the one interface read has the name before the
/// header's first `:`, and its state is `UP` exactly when the header text
/// after that `:` holds `UP`, and `DOWN` otherwise.
pub proof fn lemma_ifconfig_state_without_status(s: Seq<char>)
    requires
        text::lines(s).len() >= 1,
        !is_indented(text::lines(s)[0]),
        text::split_once(text::lines(s)[0], ':') is Some,
        forall|j: int|
            1 <= j < text::lines(s).len() ==> is_indented(#[trigger] text::lines(s)[j])
                && !text::starts_with(text::trim(text::lines(s)[j]), "status: "@),
    ensures
        ({
            let (name, rest) = text::split_once(text::lines(s)[0], ':')->0;
            &&& ifconfig_entries(s).len() == 1
            &&& ifconfig_entries(s)[0].name == name
            &&& ifconfig_entries(s)[0].operational_state == if text::find_str(rest, "UP"@) is Some {
                "UP"@
            } else {
                "DOWN"@
            }
        }),
{
    let ls = text::lines(s);
    lemma_ifconfig_block_state(ls, ls.len() as int);
    assert(ls.take(ls.len() as int) =~= ls);
}

/// The link type of an interface block read so far: `ether` once a detail
/// line (trimmed) starts with `ether `, else `loopback` when the header's flags
/// hold `LOOPBACK`, else `other`.
spec fn block_link_type(ls: Seq<Seq<char>>, rest: Seq<char>, n: int) -> Seq<char> {
    if exists|j: int| 1 <= j < n && text::starts_with(text::trim(#[trigger] ls[j]), "ether "@) {
        "ether"@
    } else if text::find_str(rest, "LOOPBACK"@) is Some {
        "loopback"@
    } else {
        "other"@
    }
}

proof fn lemma_ifconfig_block_fields(ls: Seq<Seq<char>>, n: int)
    requires
        1 <= n <= ls.len(),
        !is_indented(ls[0]),
        text::split_once(ls[0], ':') is Some,
        forall|j: int| 1 <= j < ls.len() ==> is_indented(#[trigger] ls[j]),
    ensures
        ({
            let st = ls.take(n).fold_left(
                IfconfigState { entries: Seq::empty(), current: None },
                |st: IfconfigState, l: Seq<char>| ifconfig_step(st, l),
            );
            let (name, rest) = text::split_once(ls[0], ':')->0;
            &&& st.entries.len() == 0
            &&& st.current matches Some(c) && c.name == name && c.mtu == (match word_after(
                text::words(rest),
                "mtu"@,
            ) {
                Some(m) => text::parse_u32(m),
                None => None,
            }) && c.link_type == block_link_type(ls, rest, n)
        }),
    decreases n,
{
    let t = ls.take(n);
    assert(t.drop_last() =~= ls.take(n - 1));
    assert(t.last() == ls[n - 1]);
    let rest = (text::split_once(ls[0], ':')->0).1;
    if n > 1 {
        lemma_ifconfig_block_fields(ls, n - 1);
        assert(is_indented(ls[n - 1]));
        if text::starts_with(text::trim(ls[n - 1]), "ether "@) {
            assert(block_link_type(ls, rest, n) == "ether"@);
        } else {
            assert forall|j: int|
                1 <= j < n && text::starts_with(text::trim(#[trigger] ls[j]), "ether "@) implies j
                < n - 1 by {}
            assert(block_link_type(ls, rest, n) == block_link_type(ls, rest, n - 1));
        }
    } else {
        assert(ls.take(0) =~= Seq::<Seq<char>>::empty());
    }
}

/// For an interface block of `ifconfig` (a header line, then indented lines),
/// the one interface read has the MTU that follows the word `mtu` in the
/// header, and its link type is `ether` when a detail line starts with
/// `ether `, else `loopback` when the header's flags hold `LOOPBACK`, else
/// `other`.
pub proof fn lemma_ifconfig_header_fields(s: Seq<char>)
    requires
        text::lines(s).len() >= 1,
        !is_indented(text::lines(s)[0]),
        text::split_once(text::lines(s)[0], ':') is Some,
        forall|j: int| 1 <= j < text::lines(s).len() ==> is_indented(#[trigger] text::lines(s)[j]),
    ensures
        ({
            let ls = text::lines(s);
            let (name, rest) = text::split_once(ls[0], ':')->0;
            &&& ifconfig_entries(s).len() == 1
            &&& ifconfig_entries(s)[0].name == name
            &&& ifconfig_entries(s)[0].mtu == match word_after(text::words(rest), "mtu"@) {
                Some(m) => text::parse_u32(m),
                None => None,
            }
            &&& ifconfig_entries(s)[0].link_type == if exists|j: int|
                1 <= j < ls.len() && text::starts_with(text::trim(#[trigger] ls[j]), "ether "@) {
                "ether"@
            } else if text::find_str(rest, "LOOPBACK"@) is Some {
                "loopback"@
            } else {
                "other"@
            }
        }),
{
    let ls = text::lines(s);
    lemma_ifconfig_block_fields(ls, ls.len() as int);
    assert(ls.take(ls.len() as int) =~= ls);
}

fn contains_str_of(s: &[char], p: &str) -> (r: bool)
    ensures
        r == contains_str(s@, p@),
{
    let pc = text::chars_of(p);
    assert(s@.skip(0) =~= s@);
    text::find_str_from(s, pc.as_slice(), 0).is_some()
}

fn word_after_of(ws: &Vec<Vec<char>>, w: &str) -> (r: Option<Vec<char>>)
    ensures
        text::opt_chars_view(r) == word_after(text::views(ws@), w@),
{
    match text::position_of_word(ws, w) {
        Some(k) => {
            if k < ws.len() && ws.len() - k > 1 {
                Some(text::slice_chars(ws[k + 1].as_slice(), 0, ws[k + 1].len()))
            } else {
                None
            }
        },
        None => None,
    }
}

fn first_word_of(ws: &Vec<Vec<char>>) -> (r: Option<String>)
    ensures
        text::opt_view(r) == first_word(text::views(ws@)),
{
    if ws.len() > 0 {
        Some(text::string_of(ws[0].as_slice()))
    } else {
        None
    }
}

fn ifconfig_header_of(l: &[char]) -> (r: Option<IfconfigEntry>)
    ensures
        match r {
            Some(e) => ifconfig_header(l@) == Some(e@),
            None => ifconfig_header(l@) is None,
        },
{
    match text::split_once_chars(l, ':') {
        None => None,
        Some((name, rest)) => {
            let ws = text::words_of(rest.as_slice());
            let mtu = match word_after_of(&ws, "mtu") {
                Some(m) => text::parse_u32_of(m.as_slice()),
                None => None,
            };
            let link_type = if contains_str_of(rest.as_slice(), "LOOPBACK") {
                "loopback".to_owned()
            } else {
                "other".to_owned()
            };
            let operational_state = if contains_str_of(rest.as_slice(), "UP") {
                "UP".to_owned()
            } else {
                "DOWN".to_owned()
            };
            Some(
                IfconfigEntry {
                    name: text::string_of(name.as_slice()),
                    mtu,
                    mac: None,
                    ip: None,
                    prefix: None,
                    ip6: None,
                    prefix6: None,
                    link_type,
                    operational_state,
                },
            )
        },
    }
}

fn skip_prefix(t: &Vec<char>, p: &Vec<char>) -> (r: Vec<char>)
    requires
        text::starts_with(t@, p@),
    ensures
        r@ == t@.skip(p@.len() as int),
{
    let r = text::slice_chars(t.as_slice(), p.len(), t.len());
    assert(r@ =~= t@.skip(p@.len() as int));
    r
}

fn ifconfig_detail_of(e: IfconfigEntry, l: &[char]) -> (r: IfconfigEntry)
    ensures
        r@ == ifconfig_detail(e@, l@),
{
    let ghost e0 = e@;
    let mut e = e;
    let t = text::trim_chars(l);
    let ether = text::chars_of("ether ");
    let inet6 = text::chars_of("inet6 ");
    let inet = text::chars_of("inet ");
    let status = text::chars_of("status: ");
    if text::starts_with_chars(t.as_slice(), ether.as_slice()) {
        let rest = skip_prefix(&t, &ether);
        let ws = text::words_of(rest.as_slice());
        e.mac = first_word_of(&ws);
        e.link_type = "ether".to_owned();
        assert(e@ == ifconfig_detail(e0, l@));
    } else if text::starts_with_chars(t.as_slice(), inet6.as_slice()) {
        let rest = skip_prefix(&t, &inet6);
        let ws = text::words_of(rest.as_slice());
        let first: Vec<char> = if ws.len() > 0 {
            text::slice_chars(ws[0].as_slice(), 0, ws[0].len())
        } else {
            Vec::new()
        };
        assert(first@ == (if text::views(ws@).len() > 0 {
            text::views(ws@)[0]
        } else {
            Seq::<char>::empty()
        }));
        let addr = text::before_first_chars(first.as_slice(), '%');
        let fe80 = text::chars_of("fe80");
        if !text::starts_with_chars(addr.as_slice(), fe80.as_slice()) && e.ip6.is_none() {
            e.ip6 = Some(text::string_of(addr.as_slice()));
            e.prefix6 = match word_after_of(&ws, "prefixlen") {
                Some(p) => text::parse_u32_of(p.as_slice()),
                None => None,
            };
        }
        assert(e@ == ifconfig_detail(e0, l@));
    } else if text::starts_with_chars(t.as_slice(), inet.as_slice()) {
        let rest = skip_prefix(&t, &inet);
        let ws = text::words_of(rest.as_slice());
        e.ip = first_word_of(&ws);
        let others = if ws.len() > 0 {
            text::slice_vecs(ws.as_slice(), 1, ws.len())
        } else {
            text::slice_vecs(ws.as_slice(), 0, 0)
        };
        assert(text::views(others@) =~= (if text::views(ws@).len() > 0 {
            text::views(ws@).drop_first()
        } else {
            text::views(ws@)
        }));
        e.prefix = match word_after_of(&others, "netmask") {
            Some(m) => netmask_to_prefix(text::string_of(m.as_slice()).as_str()),
            None => None,
        };
        assert(e@ == ifconfig_detail(e0, l@));
    } else if text::starts_with_chars(t.as_slice(), status.as_slice()) {
        let rest = skip_prefix(&t, &status);
        let st = text::trim_chars(rest.as_slice());
        e.operational_state = if text::eq_str(st.as_slice(), "active") {
            "UP".to_owned()
        } else {
            "DOWN".to_owned()
        };
        assert(e@ == ifconfig_detail(e0, l@));
    }
    e
}

/// The interfaces described by the output of `ifconfig` on macOS.
pub fn parse_ifconfig_output(s: &str) -> (r: Vec<IfconfigEntry>)
    ensures
        entry_views(r@) == ifconfig_entries(s@),
{
    let c = text::chars_of(s);
    let ls = text::lines_of(c.as_slice());
    let ghost lv = text::lines(s@);
    let ghost init = IfconfigState { entries: Seq::empty(), current: None };
    let ghost step = |st: IfconfigState, l: Seq<char>| ifconfig_step(st, l);
    let mut entries: Vec<IfconfigEntry> = Vec::new();
    let mut current: Option<IfconfigEntry> = None;
    let mut i: usize = 0;
    assert(lv.take(0) =~= Seq::<Seq<char>>::empty());
    assert(entry_views(entries@) =~= Seq::<InterfaceSpec>::empty());
    while i < ls.len()
        invariant
            i <= ls@.len(),
            text::views(ls@) == lv,
            step == (|st: IfconfigState, l: Seq<char>| ifconfig_step(st, l)),
            ({
                let st = lv.take(i as int).fold_left(init, step);
                &&& entry_views(entries@) == st.entries
                &&& match current {
                    Some(e) => st.current == Some(e@),
                    None => st.current is None,
                }
            }),
        decreases ls.len() - i,
    {
        let l = ls[i].as_slice();
        assert(l@ == lv[i as int]);
        assert(lv.take(i + 1).drop_last() =~= lv.take(i as int));
        assert(lv.take(i + 1).last() == lv[i as int]);
        let header = !(l.len() > 0 && (l[0] == '\t' || l[0] == ' '));
        if header {
            let ghost old_e = entries@;
            match current {
                Some(e) => {
                    entries.push(e);
                    assert(entry_views(entries@) =~= entry_views(old_e).push(e@));
                },
                None => {},
            }
            current = ifconfig_header_of(l);
        } else {
            current = match current {
                Some(e) => Some(ifconfig_detail_of(e, l)),
                None => None,
            };
        }
        i = i + 1;
    }
    assert(lv.take(i as int) =~= lv);
    let ghost old_e = entries@;
    match current {
        Some(e) => {
            entries.push(e);
            assert(entry_views(entries@) =~= entry_views(old_e).push(e@));
        },
        None => {},
    }
    entries
}

/// The network facts of a macOS host from its host name, the domain of
/// `/etc/resolv.conf` and the output of `ifconfig`; the primary interface is
/// the first Ethernet interface with an IPv4 address.
pub fn build_network_facts_macos(hostname: String, domain: Option<String>, entries: Vec<IfconfigEntry>) -> (r: NetworkFacts)
    ensures
        r@ == network_spec_of(hostname@, text::opt_view(domain), entry_views(entries@), true),
{
    let ghost all = entries@;
    let mut rest = entries;
    let mut ifaces: Vec<Interface> = Vec::new();
    let mut k: usize = 0;
    assert(interface_views(ifaces@) =~= entry_views(all.take(0)));
    assert(all.skip(0) =~= all);
    assert(all.len() == rest.len());
    while rest.len() > 0
        invariant
            k <= all.len(),
            all.len() <= usize::MAX,
            rest@ == all.skip(k as int),
            interface_views(ifaces@) == entry_views(all.take(k as int)),
        decreases rest.len(),
    {
        let e = rest.remove(0);
        assert(e == all[k as int]);
        let it = Interface {
            name: e.name,
            ip: e.ip,
            prefix: e.prefix,
            ip6: e.ip6,
            prefix6: e.prefix6,
            mtu: e.mtu,
            mac: e.mac,
            operational_state: e.operational_state,
            link_type: e.link_type,
        };
        let ghost old_v = ifaces@;
        ifaces.push(it);
        assert(interface_views(ifaces@) =~= interface_views(old_v) + seq![it@]);
        assert(entry_views(all.take(k + 1)) =~= entry_views(all.take(k as int)) + seq![all[k as int]@]);
        assert(rest@ =~= all.skip(k + 1));
        k = k + 1;
    }
    assert(all.take(k as int) =~= all);
    assemble_network_facts(hostname, domain, ifaces, true)
}

} // verus!
