//! What a receiver announces on the local network: the IPv4 addresses of
//! its LAN interfaces, its instance and host names, and the properties that
//! tell senders its name and the port of its PIN check.  Registering the
//! announcement with the mDNS daemon is the caller's.

use vstd::prelude::*;
use vstd::string::StringSliceAdditionalSpecFns;
use vstd::utf8::encode_utf8;

use crate::text::{append_str, ascii_to_string, decimal, decimal_bytes, lemma_decimal_ascii, push_decimal};

verus! {

/// An address of a network interface.
#[derive(Debug, Clone, Copy)]
pub enum IfAddr {
    V4([u8; 4]),
    V6,
}

/// A network interface: its name and addresses.
#[derive(Debug, Clone)]
pub struct NetInterface {
    pub name: String,
    pub addrs: Vec<IfAddr>,
}

/// `s` begins with `p`.
pub open spec fn has_prefix(s: Seq<u8>, p: Seq<u8>) -> bool {
    p.len() <= s.len() && s.subrange(0, p.len() as int) == p
}

/// Interfaces named like tunnels, point-to-point links, loopback or
/// bridges are not advertised (checked on the name's UTF-8 bytes).
pub open spec fn excluded_interface(name: Seq<u8>) -> bool {
    ||| has_prefix(name, "utun".spec_bytes())
    ||| has_prefix(name, "tun".spec_bytes())
    ||| has_prefix(name, "ppp".spec_bytes())
    ||| has_prefix(name, "lo".spec_bytes())
    ||| has_prefix(name, "bridge".spec_bytes())
}

/// Loopback (127.0.0.0/8) or link-local (169.254.0.0/16).
pub open spec fn loopback_or_link_local(ip: [u8; 4]) -> bool {
    ip[0] == 127 || (ip[0] == 169 && ip[1] == 254)
}

/// The IPv4 addresses among `addrs` that are neither loopback nor
/// link-local, in order.
pub open spec fn usable_v4(addrs: Seq<IfAddr>) -> Seq<[u8; 4]>
    decreases addrs.len(),
{
    if addrs.len() == 0 {
        Seq::empty()
    } else {
        let r = usable_v4(addrs.drop_last());
        match addrs.last() {
            IfAddr::V4(ip) => if loopback_or_link_local(ip) {
                r
            } else {
                r.push(ip)
            },
            IfAddr::V6 => r,
        }
    }
}

/// The addresses to advertise: those of `usable_v4` on every interface
/// that is not excluded, interface by interface.
pub open spec fn lan_addrs(ifaces: Seq<NetInterface>) -> Seq<[u8; 4]>
    decreases ifaces.len(),
{
    if ifaces.len() == 0 {
        Seq::empty()
    } else {
        let last = ifaces.last();
        lan_addrs(ifaces.drop_last()) + if excluded_interface(encode_utf8(last.name@)) {
            Seq::empty()
        } else {
            usable_v4(last.addrs@)
        }
    }
}

fn starts_with_bytes(s: &[u8], p: &[u8]) -> (r: bool)
    ensures
        r == has_prefix(s@, p@),
{
    if p.len() > s.len() {
        return false;
    }
    let mut i: usize = 0;
    while i < p.len()
        invariant
            p@.len() <= s@.len(),
            i <= p@.len(),
            forall|k: int| 0 <= k < i ==> s@[k] == p@[k],
        decreases p@.len() - i,
    {
        if s[i] != p[i] {
            assert(s@.subrange(0, p@.len() as int)[i as int] != p@[i as int]);
            return false;
        }
        i = i + 1;
    }
    assert(s@.subrange(0, p@.len() as int) =~= p@);
    true
}

fn is_excluded_name(name: &String) -> (r: bool)
    ensures
        r == excluded_interface(encode_utf8(name@)),
{
    let b = name.as_str().as_bytes();
    starts_with_bytes(b, "utun".as_bytes()) || starts_with_bytes(b, "tun".as_bytes())
        || starts_with_bytes(b, "ppp".as_bytes()) || starts_with_bytes(b, "lo".as_bytes())
        || starts_with_bytes(b, "bridge".as_bytes())
}

/// The LAN IPv4 addresses to advertise, from the machine's interfaces.
pub fn lan_ipv4_addrs(ifaces: &Vec<NetInterface>) -> (out: Vec<[u8; 4]>)
    ensures
        out@ == lan_addrs(ifaces@),
{
    let mut out: Vec<[u8; 4]> = Vec::new();
    let mut i: usize = 0;
    while i < ifaces.len()
        invariant
            i <= ifaces@.len(),
            out@ == lan_addrs(ifaces@.take(i as int)),
        decreases ifaces@.len() - i,
    {
        let iface = &ifaces[i];
        let ghost before = out@;
        proof {
            assert(ifaces@.take(i + 1).drop_last() =~= ifaces@.take(i as int));
            assert(ifaces@.take(i + 1).last() == ifaces@[i as int]);
        }
        if !is_excluded_name(&iface.name) {
            let mut j: usize = 0;
            while j < iface.addrs.len()
                invariant
                    j <= iface.addrs@.len(),
                    out@ == before + usable_v4(iface.addrs@.take(j as int)),
                decreases iface.addrs@.len() - j,
            {
                proof {
                    assert(iface.addrs@.take(j + 1).drop_last() =~= iface.addrs@.take(j as int));
                }
                match iface.addrs[j] {
                    IfAddr::V4(ip) => {
                        if !(ip[0] == 127 || (ip[0] == 169 && ip[1] == 254)) {
                            out.push(ip);
                        }
                    },
                    IfAddr::V6 => {},
                }
                j = j + 1;
                assert(out@ =~= before + usable_v4(iface.addrs@.take(j as int)));
            }
            assert(iface.addrs@.take(j as int) =~= iface.addrs@);
        }
        i = i + 1;
        assert(out@ =~= lan_addrs(ifaces@.take(i as int)));
    }
    assert(ifaces@.take(i as int) =~= ifaces@);
    out
}

/// An IPv4 address in dotted decimal, as bytes.
pub open spec fn ipv4_text_bytes(ip: [u8; 4]) -> Seq<u8> {
    decimal_bytes(ip[0] as nat) + seq![46u8] + decimal_bytes(ip[1] as nat) + seq![46u8]
        + decimal_bytes(ip[2] as nat) + seq![46u8] + decimal_bytes(ip[3] as nat)
}

/// Addresses in dotted decimal, separated by commas, as bytes.
pub open spec fn ip_list_bytes(ips: Seq<[u8; 4]>) -> Seq<u8>
    decreases ips.len(),
{
    if ips.len() == 0 {
        Seq::empty()
    } else if ips.len() == 1 {
        ipv4_text_bytes(ips[0])
    } else {
        ip_list_bytes(ips.drop_last()) + seq![44u8] + ipv4_text_bytes(ips.last())
    }
}

pub(crate) proof fn lemma_ip_list_ascii(ips: Seq<[u8; 4]>)
    ensures
        forall|i: int| 0 <= i < ip_list_bytes(ips).len() ==> #[trigger] ip_list_bytes(ips)[i] < 128,
    decreases ips.len(),
{
    if ips.len() > 0 {
        let ip = ips.last();
        lemma_decimal_ascii(ip[0] as nat);
        lemma_decimal_ascii(ip[1] as nat);
        lemma_decimal_ascii(ip[2] as nat);
        lemma_decimal_ascii(ip[3] as nat);
        let t = ipv4_text_bytes(ip);
        assert forall|i: int| 0 <= i < t.len() implies #[trigger] t[i] < 128 by {
            let d0 = decimal_bytes(ip[0] as nat);
            let d1 = decimal_bytes(ip[1] as nat);
            let d2 = decimal_bytes(ip[2] as nat);
            let d3 = decimal_bytes(ip[3] as nat);
            if i < d0.len() {
                assert(t[i] == d0[i]);
            } else if i < d0.len() + 1 {
            } else if i < d0.len() + 1 + d1.len() {
                assert(t[i] == d1[i - d0.len() - 1]);
            } else if i < d0.len() + 2 + d1.len() {
            } else if i < d0.len() + 2 + d1.len() + d2.len() {
                assert(t[i] == d2[i - d0.len() - 2 - d1.len()]);
            } else if i < d0.len() + 3 + d1.len() + d2.len() {
            } else {
                assert(t[i] == d3[i - d0.len() - 3 - d1.len() - d2.len()]);
            }
        }
        if ips.len() > 1 {
            lemma_ip_list_ascii(ips.drop_last());
            let r = ip_list_bytes(ips.drop_last());
            assert forall|i: int| 0 <= i < ip_list_bytes(ips).len() implies #[trigger] ip_list_bytes(
                ips,
            )[i] < 128 by {
                if i < r.len() {
                    assert(ip_list_bytes(ips)[i] == r[i]);
                } else if i > r.len() {
                    assert(ip_list_bytes(ips)[i] == t[i - r.len() - 1]);
                }
            }
        }
    }
}

pub(crate) fn push_ipv4(out: &mut Vec<u8>, ip: [u8; 4])
    ensures
        final(out)@ == old(out)@ + ipv4_text_bytes(ip),
{
    push_decimal(out, ip[0] as u64);
    out.push(46);
    push_decimal(out, ip[1] as u64);
    out.push(46);
    push_decimal(out, ip[2] as u64);
    out.push(46);
    push_decimal(out, ip[3] as u64);
    assert(final(out)@ =~= old(out)@ + ipv4_text_bytes(ip));
}

/// The service a receiver registers: instance name, host name, the
/// comma-separated addresses to announce (none: the daemon picks them),
/// the control port and the TXT properties.
#[derive(Debug)]
pub struct ServicePlan {
    pub instance_name: String,
    pub host_name: String,
    pub addresses: String,
    pub addr_auto: bool,
    pub port: u16,
    pub properties: Vec<(String, String)>,
}

/// The service of a receiver named `device_name` (the host name when
/// empty) on host `hostname`, with its control port, the port of its PIN
/// check and its LAN addresses.
pub fn service_plan(
    device_name: &str,
    hostname: &str,
    port: u16,
    http_port: u16,
    lan_addrs: &Vec<[u8; 4]>,
) -> (p: ServicePlan)
    ensures
        p.instance_name@ == (if device_name@.len() == 0 {
            hostname@
        } else {
            device_name@
        }),
        p.host_name@ == hostname@ + ".local."@,
        p.addresses@ == ip_list_bytes(lan_addrs@).map_values(|b: u8| b as char),
        p.addr_auto == (lan_addrs@.len() == 0),
        p.port == port,
        p.properties@.len() == 2,
        p.properties@[0].0@ == "device_name"@,
        p.properties@[0].1@ == device_name@,
        p.properties@[1].0@ == "http_port"@,
        p.properties@[1].1@ == decimal(http_port as nat),
{
    let instance_name = if device_name.is_empty() {
        hostname.to_string()
    } else {
        device_name.to_string()
    };
    let mut host_name = hostname.to_string();
    append_str(&mut host_name, ".local.");
    let mut b: Vec<u8> = Vec::new();
    let mut i: usize = 0;
    while i < lan_addrs.len()
        invariant
            i <= lan_addrs@.len(),
            b@ == ip_list_bytes(lan_addrs@.take(i as int)),
        decreases lan_addrs@.len() - i,
    {
        if i > 0 {
            b.push(44);
        }
        push_ipv4(&mut b, lan_addrs[i]);
        i = i + 1;
        proof {
            let t = lan_addrs@.take(i as int);
            assert(t.drop_last() =~= lan_addrs@.take(i - 1));
            if i == 1 {
                assert(b@ =~= ip_list_bytes(t));
            } else {
                assert(b@ =~= ip_list_bytes(t));
            }
        }
    }
    proof {
        assert(lan_addrs@.take(i as int) =~= lan_addrs@);
        lemma_ip_list_ascii(lan_addrs@);
    }
    let addresses = ascii_to_string(b);
    let mut properties: Vec<(String, String)> = Vec::new();
    properties.push(("device_name".to_string(), device_name.to_string()));
    properties.push(("http_port".to_string(), crate::text::decimal_string(http_port as u64)));
    ServicePlan {
        instance_name,
        host_name,
        addresses,
        addr_auto: lan_addrs.len() == 0,
        port,
        properties,
    }
}

} // verus!
