//! Receivers found on the local network.

use vstd::prelude::*;

verus! {

/// A receiver found by service discovery: its name and the address of its
/// control port (of whatever address type the caller uses).
#[derive(Debug, Clone)]
pub struct DiscoveredReceiver<A> {
    pub name: String,
    pub addr: A,
}

/// The name shown for a resolved service: its `device_name` property when
/// present and not empty, its full service name otherwise.
pub open spec fn display_name(fullname: Seq<char>, device_name: Option<Seq<char>>) -> Seq<char> {
    match device_name {
        Some(n) => if n.len() > 0 {
            n
        } else {
            fullname
        },
        None => fullname,
    }
}

/// The receivers a resolved service stands for: one per IPv4 address, at
/// the service's port.
pub fn receivers_from_service(
    fullname: &str,
    device_name: Option<&str>,
    port: u16,
    addrs: &Vec<[u8; 4]>,
) -> (r: Vec<DiscoveredReceiver<([u8; 4], u16)>>)
    ensures
        r@.len() == addrs@.len(),
        forall|i: int|
            0 <= i < r@.len() ==> (#[trigger] r@[i]).name@ == display_name(
                fullname@,
                match device_name {
                    Some(n) => Some(n@),
                    None => None,
                },
            ) && r@[i].addr == (addrs@[i], port),
{
    let name = match device_name {
        Some(n) => if n.is_empty() {
            fullname.to_string()
        } else {
            n.to_string()
        },
        None => fullname.to_string(),
    };
    let mut r: Vec<DiscoveredReceiver<([u8; 4], u16)>> = Vec::new();
    let mut i: usize = 0;
    while i < addrs.len()
        invariant
            i <= addrs@.len(),
            r@.len() == i,
            forall|k: int| 0 <= k < i ==> (#[trigger] r@[k]).name@ == name@ && r@[k].addr == (addrs@[k], port),
        decreases addrs@.len() - i,
    {
        r.push(DiscoveredReceiver { name: name.clone(), addr: (addrs[i], port) });
        i = i + 1;
    }
    r
}

/// Some receiver before position `i` of `s` has the name of `s[i]`.
pub open spec fn name_seen_before<A>(s: Seq<DiscoveredReceiver<A>>, i: int) -> bool {
    exists|j: int| 0 <= j < i && (#[trigger] s[j]).name@ == s[i].name@
}

/// Some receiver of `s` has the name `n`.
pub open spec fn has_name<A>(s: Seq<DiscoveredReceiver<A>>, n: Seq<char>) -> bool {
    exists|j: int| 0 <= j < s.len() && (#[trigger] s[j]).name@ == n
}

/// The receivers of `s`, in order, keeping only the first of each name.
pub open spec fn first_of_each_name<A>(s: Seq<DiscoveredReceiver<A>>) -> Seq<DiscoveredReceiver<A>>
    decreases s.len(),
{
    if s.len() == 0 {
        Seq::empty()
    } else if name_seen_before(s, s.len() - 1) {
        first_of_each_name(s.drop_last())
    } else {
        first_of_each_name(s.drop_last()).push(s.last())
    }
}

/// A name occurs in `first_of_each_name(s)` exactly when it occurs in `s`.
proof fn lemma_first_names<A>(s: Seq<DiscoveredReceiver<A>>, n: Seq<char>)
    ensures
        (exists|j: int| 0 <= j < s.len() && (#[trigger] s[j]).name@ == n) <==> (exists|k: int|
            0 <= k < first_of_each_name(s).len() && (#[trigger] first_of_each_name(s)[k]).name@
                == n),
    decreases s.len(),
{
    if s.len() > 0 {
        let p = s.drop_last();
        let r = first_of_each_name(p);
        lemma_first_names(p, n);
        if exists|j: int| 0 <= j < s.len() && (#[trigger] s[j]).name@ == n {
            let j = choose|j: int| 0 <= j < s.len() && (#[trigger] s[j]).name@ == n;
            if j < s.len() - 1 {
                assert(p[j].name@ == n);
                let k = choose|k: int| 0 <= k < r.len() && (#[trigger] r[k]).name@ == n;
                assert(first_of_each_name(s)[k] == r[k]);
            } else if name_seen_before(s, s.len() - 1) {
                let j2 = choose|j2: int| 0 <= j2 < s.len() - 1 && (#[trigger] s[j2]).name@ == s[s.len() - 1].name@;
                assert(p[j2].name@ == n);
                let k = choose|k: int| 0 <= k < r.len() && (#[trigger] r[k]).name@ == n;
                assert(first_of_each_name(s)[k] == r[k]);
            } else {
                assert(first_of_each_name(s)[r.len() as int] == s.last());
            }
        }
        if exists|k: int| 0 <= k < first_of_each_name(s).len() && (#[trigger] first_of_each_name(s)[k]).name@ == n {
            let k = choose|k: int| 0 <= k < first_of_each_name(s).len() && (#[trigger] first_of_each_name(s)[k]).name@ == n;
            if k < r.len() {
                assert(first_of_each_name(s)[k] == r[k]);
                let j = choose|j: int| 0 <= j < p.len() && (#[trigger] p[j]).name@ == n;
                assert(s[j] == p[j]);
            } else {
                assert(s[s.len() - 1].name@ == n);
            }
        }
    }
}

/// Keeping the first receiver of each name leaves no two receivers with the
/// same name and drops no name.
pub proof fn first_of_each_name_is_unique<A>(s: Seq<DiscoveredReceiver<A>>)
    ensures
        forall|i: int, j: int|
            0 <= i < j < first_of_each_name(s).len() ==> (#[trigger] first_of_each_name(s)[i]).name@
                != (#[trigger] first_of_each_name(s)[j]).name@,
        forall|n: Seq<char>| #[trigger] has_name(s, n) <==> has_name(first_of_each_name(s), n),
    decreases s.len(),
{
    assert forall|n: Seq<char>| #[trigger] has_name(s, n) <==> has_name(first_of_each_name(s), n) by {
        lemma_first_names(s, n);
    }
    if s.len() > 0 {
        let p = s.drop_last();
        let r = first_of_each_name(p);
        first_of_each_name_is_unique(p);
        if !name_seen_before(s, s.len() - 1) {
            assert forall|i: int, j: int|
                0 <= i < j < first_of_each_name(s).len() implies (#[trigger] first_of_each_name(
                s,
            )[i]).name@ != (#[trigger] first_of_each_name(s)[j]).name@ by {
                if j == r.len() {
                    assert(first_of_each_name(s)[i] == r[i]);
                    lemma_first_names(p, r[i].name@);
                    if r[i].name@ == s.last().name@ {
                        let j2 = choose|j2: int| 0 <= j2 < p.len() && (#[trigger] p[j2]).name@ == r[i].name@;
                        assert(s[j2] == p[j2]);
                        assert(name_seen_before(s, s.len() - 1));
                    }
                } else {
                    assert(first_of_each_name(s)[i] == r[i]);
                    assert(first_of_each_name(s)[j] == r[j]);
                }
            }
        }
    }
}

/// The receivers with the first of each name kept, in order.
pub fn dedup_by_name<A>(devices: Vec<DiscoveredReceiver<A>>) -> (out: Vec<DiscoveredReceiver<A>>)
    ensures
        out@ == first_of_each_name(devices@),
{
    let ghost all = devices@;
    let mut out: Vec<DiscoveredReceiver<A>> = Vec::new();
    for d in it: devices
        invariant
            all == it.seq(),
            out@ == first_of_each_name(all.take(it.index())),
    {
        let ghost i = it.index();
        proof {
            assert(all.take(i + 1).drop_last() =~= all.take(i));
            assert(all.take(i + 1).last() == d);
        }
        let mut seen = false;
        let mut k: usize = 0;
        while k < out.len()
            invariant
                k <= out@.len(),
                seen == exists|m: int| 0 <= m < k && (#[trigger] out@[m]).name@ == d.name@,
            decreases out@.len() - k,
        {
            if out[k].name == d.name {
                seen = true;
            }
            k = k + 1;
        }
        proof {
            lemma_first_names(all.take(i), d.name@);
            let t = all.take(i + 1);
            if seen {
                let m = choose|m: int| 0 <= m < out@.len() && (#[trigger] out@[m]).name@ == d.name@;
                let j = choose|j: int| 0 <= j < all.take(i).len() && (#[trigger] all.take(i)[j]).name@ == d.name@;
                assert(t[j] == all.take(i)[j]);
                assert(name_seen_before(t, t.len() - 1));
            } else {
                if name_seen_before(t, t.len() - 1) {
                    let j = choose|j: int| 0 <= j < t.len() - 1 && (#[trigger] t[j]).name@ == t[t.len() - 1].name@;
                    assert(all.take(i)[j] == t[j]);
                }
            }
        }
        if !seen {
            out.push(d);
        }
    }
    proof {
        assert(all.take(all.len() as int) =~= all);
    }
    out
}

} // verus!
