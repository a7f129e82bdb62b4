//! Network addresses as the discovery core sees them: a structured,
//! protocol-agnostic locator (transport, host bytes, port). A peer may have
//! several addresses; lists of addresses are merged without duplicates.

use vstd::prelude::*;

verus! {

/// Transport protocol tag of an address.
#[derive(Clone, Copy, PartialEq, Eq, Structural, Debug)]
pub enum Transport {
    Tcp,
    Udp,
    Quic,
}

/// A protocol-agnostic network locator.
pub struct Address {
    pub transport: Transport,
    pub host: Vec<u8>,
    pub port: u16,
}

/// Mathematical value of an [`Address`].
#[verifier::ext_equal]
pub ghost struct AddrV {
    pub transport: Transport,
    pub host: Seq<u8>,
    pub port: u16,
}

impl View for Address {
    type V = AddrV;

    open spec fn view(&self) -> AddrV {
        AddrV { transport: self.transport, host: self.host@, port: self.port }
    }
}

impl Clone for Address {
    fn clone(&self) -> (r: Self)
        ensures
            r@ == self@,
    {
        Address { transport: self.transport, host: self.host.clone(), port: self.port }
    }
}

/// Values of a sequence of addresses.
pub open spec fn addr_views(s: Seq<Address>) -> Seq<AddrV> {
    s.map_values(|a: Address| a@)
}

/// What a duplicate-free merge of `src` into an address list guarantees:
/// the old list stays as a prefix, membership is the union of the two, and
/// a merge that brings nothing new leaves the list exactly as it was.
pub open spec fn merged(old_l: Seq<AddrV>, src: Seq<AddrV>, new_l: Seq<AddrV>) -> bool {
    &&& new_l.len() >= old_l.len()
    &&& new_l.take(old_l.len() as int) == old_l
    &&& forall|x: AddrV| new_l.contains(x) <==> old_l.contains(x) || src.contains(x)
    &&& (forall|x: AddrV| src.contains(x) ==> old_l.contains(x)) ==> new_l == old_l
}

/// True when `list` holds an address with the same value as `a`.
pub fn contains_addr(list: &Vec<Address>, a: &Address) -> (r: bool)
    ensures
        r == addr_views(list@).contains(a@),
{
    let mut i: usize = 0;
    while i < list.len()
        invariant
            i <= list@.len(),
            forall|j: int| 0 <= j < i ==> addr_views(list@)[j] != a@,
        decreases list@.len() - i,
    {
        let same = if list[i].port == a.port && list[i].transport == a.transport {
            bytes_eq(&list[i].host, &a.host)
        } else {
            false
        };
        if same {
            proof {
                assert(addr_views(list@)[i as int] == a@);
            }
            return true;
        }
        proof {
            if addr_views(list@)[i as int] == a@ {
                assert(list@[i as int]@.host == a@.host);
                assert(false);
            }
        }
        i = i + 1;
    }
    false
}

/// True when the two byte strings are equal.
pub fn bytes_eq(a: &Vec<u8>, b: &Vec<u8>) -> (r: bool)
    ensures
        r == (a@ == b@),
{
    if a.len() != b.len() {
        return false;
    }
    let mut i: usize = 0;
    while i < a.len()
        invariant
            a@.len() == b@.len(),
            i <= a@.len(),
            forall|j: int| 0 <= j < i ==> a@[j] == b@[j],
        decreases a@.len() - i,
    {
        if a[i] != b[i] {
            return false;
        }
        i = i + 1;
    }
    proof {
        assert(a@ =~= b@);
    }
    true
}

/// Appends to `dst` every address of `src` whose value is not already
/// present, in order; never removes or reorders what was there.
pub fn merge_addrs(dst: &mut Vec<Address>, src: &Vec<Address>)
    ensures
        merged(addr_views(old(dst)@), addr_views(src@), addr_views(final(dst)@)),
{
    let ghost old_views = addr_views(dst@);
    let mut j: usize = 0;
    while j < src.len()
        invariant
            j <= src@.len(),
            addr_views(dst@).len() >= old_views.len(),
            addr_views(dst@).take(old_views.len() as int) == old_views,
            forall|x: AddrV|
                addr_views(dst@).contains(x) <==> old_views.contains(x) || addr_views(
                    src@,
                ).take(j as int).contains(x),
            (forall|x: AddrV|
                addr_views(src@).take(j as int).contains(x) ==> old_views.contains(x)) ==> addr_views(
                dst@,
            ) == old_views,
        decreases src@.len() - j,
    {
        let ghost pre = addr_views(dst@);
        let present = contains_addr(dst, &src[j]);
        if !present {
            let a = src[j].clone();
            dst.push(a);
        }
        proof {
            let sv = addr_views(src@);
            let cur = addr_views(dst@);
            assert(sv[j as int] == src@[j as int]@);
            assert(sv.take(j + 1).contains(sv[j as int])) by {
                assert(sv.take(j + 1)[j as int] == sv[j as int]);
            }
            assert forall|x: AddrV| sv.take(j as int).contains(x) implies sv.take(j + 1).contains(
                x,
            ) by {
                let idx = choose|idx: int| 0 <= idx < j && #[trigger] sv.take(j as int)[idx] == x;
                assert(sv.take(j + 1)[idx] == x);
            }
            assert forall|x: AddrV| sv.take(j + 1).contains(x) implies sv.take(j as int).contains(x)
                || x == sv[j as int] by {
                let idx = choose|idx: int| 0 <= idx < j + 1 && #[trigger] sv.take(j + 1)[idx] == x;
                if idx < j {
                    assert(sv.take(j as int)[idx] == x);
                }
            }
            if !present {
                assert(cur =~= pre.push(sv[j as int]));
                assert(cur.take(old_views.len() as int) =~= old_views);
                assert forall|x: AddrV| pre.contains(x) implies cur.contains(x) by {
                    let idx = choose|idx: int| 0 <= idx < pre.len() && #[trigger] pre[idx] == x;
                    assert(cur[idx] == x);
                }
                assert(cur.contains(sv[j as int])) by {
                    assert(cur[pre.len() as int] == sv[j as int]);
                }
                assert forall|x: AddrV| cur.contains(x) implies old_views.contains(x) || sv.take(
                    j + 1,
                ).contains(x) by {
                    let idx = choose|idx: int| 0 <= idx < cur.len() && #[trigger] cur[idx] == x;
                    if idx < pre.len() {
                        assert(pre[idx] == x);
                        assert(pre.contains(x));
                    } else {
                        assert(x == sv[j as int]);
                    }
                }
                if forall|x: AddrV| sv.take(j + 1).contains(x) ==> old_views.contains(x) {
                    assert(old_views.contains(sv[j as int]));
                    assert(pre.contains(sv[j as int]));
                    assert(false);
                }
            } else {
                assert(pre.contains(sv[j as int]));
                if forall|x: AddrV| sv.take(j + 1).contains(x) ==> old_views.contains(x) {
                    assert forall|x: AddrV| sv.take(j as int).contains(x) implies old_views.contains(
                        x,
                    ) by {
                        assert(sv.take(j + 1).contains(x));
                    }
                    assert(cur == old_views);
                }
            }
            assert forall|x: AddrV| pre.contains(x) implies cur.contains(x) by {
                let idx = choose|idx: int| 0 <= idx < pre.len() && #[trigger] pre[idx] == x;
                assert(cur[idx] == x);
            }
            assert forall|x: AddrV|
                old_views.contains(x) || sv.take(j + 1).contains(x) implies cur.contains(x) by {
                if old_views.contains(x) {
                    assert(pre.contains(x));
                } else {
                    assert(sv.take(j as int).contains(x) || x == sv[j as int]);
                    if sv.take(j as int).contains(x) {
                        assert(pre.contains(x));
                    }
                }
            }
            assert forall|x: AddrV| cur.contains(x) implies old_views.contains(x) || sv.take(
                j + 1,
            ).contains(x) by {
                if present {
                    assert(pre.contains(x));
                }
            }
        }
        j = j + 1;
    }
    proof {
        let sv = addr_views(src@);
        let cur = addr_views(dst@);
        let full = src@.len() as int;
        assert(sv.take(full) =~= sv);
        if forall|x: AddrV| sv.contains(x) ==> old_views.contains(x) {
            assert forall|x: AddrV| sv.take(full).contains(x) implies old_views.contains(x) by {
                assert(sv.contains(x));
            }
            assert(cur == old_views);
        }
        assert forall|x: AddrV| cur.contains(x) implies old_views.contains(x) || sv.contains(
            x,
        ) by {
            if sv.take(full).contains(x) {
                assert(sv.contains(x));
            }
        }
        assert forall|x: AddrV| old_views.contains(x) || sv.contains(x) implies cur.contains(
            x,
        ) by {
            if sv.contains(x) {
                let idx = choose|idx: int| 0 <= idx < sv.len() && #[trigger] sv[idx] == x;
                assert(sv.take(full)[idx] == x);
                assert(sv.take(full).contains(x));
            }
            assert(cur.contains(x) <==> old_views.contains(x) || sv.take(j as int).contains(x));
        }
    }
}

/// Clones a list of addresses, value for value.
pub fn clone_addrs(src: &Vec<Address>) -> (r: Vec<Address>)
    ensures
        addr_views(r@) == addr_views(src@),
        r@.len() == src@.len(),
{
    let mut out: Vec<Address> = Vec::new();
    let mut i: usize = 0;
    while i < src.len()
        invariant
            i <= src@.len(),
            out@.len() == i,
            forall|j: int| 0 <= j < i ==> out@[j]@ == src@[j]@,
        decreases src@.len() - i,
    {
        let a = src[i].clone();
        out.push(a);
        i = i + 1;
    }
    proof {
        assert(addr_views(out@) =~= addr_views(src@));
    }
    out
}

} // verus!
