//! The routing table: a fixed array of capacity-bounded buckets, indexed by
//! the shared prefix length between the table owner's identifier and the
//! entry's identifier.
//!
//! A bucket never exceeds `k` entries, never holds the owner, and never
//! holds a peer without an address. A newcomer to a full bucket of
//! responsive peers is held as the bucket's single pending replacement
//! candidate; an unresponsive peer is evicted for a newcomer, a responsive
//! one never is.

use vstd::prelude::*;

use crate::addr::AddrV;
use crate::addr::Address;
use crate::addr::addr_views;
use crate::addr::clone_addrs;
use crate::addr::merge_addrs;
use crate::addr::merged;
use crate::ident::ID_BYTES;
use crate::ident::PeerId;
use crate::ident::bucket_index;
use crate::ident::dist_le;
use crate::ident::peer_eq;
use crate::ident::spec_bucket_index;
use crate::ident::spec_dist_le;
use vstd::multiset::Multiset;

verus! {

/// Number of recorded failures after which a peer is dropped from the table.
pub const MAX_FAILS: u8 = 3;

/// One known peer within a bucket.
pub struct BucketEntry {
    pub peer: PeerId,
    pub addrs: Vec<Address>,
    pub last_seen: u64,
    pub fails: u8,
}

/// Mathematical value of a [`BucketEntry`]. A peer is responsive while
/// `fails == 0`.
#[verifier::ext_equal]
pub ghost struct EntryV {
    pub peer: Seq<u8>,
    pub addrs: Seq<AddrV>,
    pub last_seen: u64,
    pub fails: u8,
}

impl View for BucketEntry {
    type V = EntryV;

    open spec fn view(&self) -> EntryV {
        EntryV {
            peer: self.peer@,
            addrs: addr_views(self.addrs@),
            last_seen: self.last_seen,
            fails: self.fails,
        }
    }
}

/// A capacity-bounded group of peers sharing one prefix length.
pub struct Bucket {
    pub entries: Vec<BucketEntry>,
    pub pending: Option<BucketEntry>,
}

/// Mathematical value of a [`Bucket`].
#[verifier::ext_equal]
pub ghost struct BucketV {
    pub entries: Seq<EntryV>,
    pub pending: Option<EntryV>,
}

impl View for Bucket {
    type V = BucketV;

    open spec fn view(&self) -> BucketV {
        BucketV {
            entries: self.entries@.map_values(|e: BucketEntry| e@),
            pending: match self.pending {
                Some(e) => Some(e@),
                None => None,
            },
        }
    }
}

/// The routing table of one node.
pub struct RoutingTable {
    pub self_id: PeerId,
    pub k: usize,
    pub buckets: Vec<Bucket>,
}

/// Mathematical value of a [`RoutingTable`].
#[verifier::ext_equal]
pub ghost struct TableV {
    pub self_id: Seq<u8>,
    pub k: int,
    pub buckets: Seq<BucketV>,
}

impl View for RoutingTable {
    type V = TableV;

    open spec fn view(&self) -> TableV {
        TableV {
            self_id: self.self_id@,
            k: self.k as int,
            buckets: self.buckets@.map_values(|b: Bucket| b@),
        }
    }
}

/// An entry that may stand in bucket `i` of the table owned by `self_id`.
pub open spec fn entry_ok(e: EntryV, self_id: Seq<u8>, i: int) -> bool {
    &&& e.peer.len() == ID_BYTES
    &&& e.peer != self_id
    &&& e.addrs.len() > 0
    &&& spec_bucket_index(self_id, e.peer) == i
}

/// Well-formedness of bucket `i`: within capacity, every entry admissible,
/// peers distinct, and a pending candidate only while the bucket is full
/// and only for a peer not already present.
pub open spec fn bucket_wf(b: BucketV, self_id: Seq<u8>, i: int, k: int) -> bool {
    &&& b.entries.len() <= k
    &&& forall|j: int| 0 <= j < b.entries.len() ==> entry_ok(#[trigger] b.entries[j], self_id, i)
    &&& forall|j1: int, j2: int|
        0 <= j1 < j2 < b.entries.len() ==> (#[trigger] b.entries[j1]).peer != (
        #[trigger] b.entries[j2]).peer
    &&& match b.pending {
        Some(p) => {
            &&& entry_ok(p, self_id, i)
            &&& b.entries.len() == k
            &&& forall|j: int| 0 <= j < b.entries.len() ==> (#[trigger] b.entries[j]).peer != p.peer
        },
        None => true,
    }
}

impl RoutingTable {
    /// Invariant of the whole table.
    pub open spec fn wf(&self) -> bool {
        table_wf(self@)
    }

    /// Creates an empty table for `self_id` with bucket capacity `k`.
    pub fn new(self_id: PeerId, k: usize) -> (r: RoutingTable)
        requires
            self_id.wf(),
            k >= 1,
        ensures
            r.wf(),
            r@.self_id == self_id@,
            r@.k == k as int,
            forall|i: int|
                0 <= i < r@.buckets.len() ==> (#[trigger] r@.buckets[i]).entries.len() == 0
                    && r@.buckets[i].pending is None,
    {
        let mut buckets: Vec<Bucket> = Vec::new();
        let mut i: usize = 0;
        while i < 8 * ID_BYTES
            invariant
                i <= 8 * ID_BYTES,
                buckets@.len() == i,
                forall|j: int|
                    0 <= j < i ==> (#[trigger] buckets@[j]@).entries.len() == 0 && buckets@[j]@.pending
                        is None,
            decreases 8 * ID_BYTES - i,
        {
            buckets.push(Bucket { entries: Vec::new(), pending: None });
            i = i + 1;
        }
        RoutingTable { self_id, k, buckets }
    }
}

/// Well-formedness of a table value.
pub open spec fn table_wf(t: TableV) -> bool {
    &&& t.self_id.len() == ID_BYTES
    &&& t.k >= 1
    &&& t.buckets.len() == 8 * ID_BYTES
    &&& forall|i: int|
        0 <= i < t.buckets.len() ==> bucket_wf(#[trigger] t.buckets[i], t.self_id, i, t.k)
}

/// The entry value stored for a newly seen peer.
pub open spec fn new_entry_v(peer: Seq<u8>, av: Seq<AddrV>, now: u64) -> EntryV {
    EntryV { peer, addrs: av, last_seen: now, fails: 0 }
}

/// The unresponsive entry chosen for eviction: least recently seen among
/// the unresponsive ones, earliest-inserted on a tie.
pub open spec fn is_victim(entries: Seq<EntryV>, v: int) -> bool {
    &&& 0 <= v < entries.len()
    &&& entries[v].fails > 0
    &&& forall|j: int|
        0 <= j < entries.len() && (#[trigger] entries[j]).fails > 0 ==> (entries[v].last_seen
            < entries[j].last_seen || (entries[v].last_seen == entries[j].last_seen && v <= j))
}

/// Outcome of an insert-or-update call.
#[derive(Clone, Copy, PartialEq, Eq, Structural, Debug)]
pub enum InsertOutcome {
    Inserted,
    Updated,
    Rejected(RejectReason),
}

/// Why an insert was refused.
#[derive(Clone, Copy, PartialEq, Eq, Structural, Debug)]
pub enum RejectReason {
    /// The owner's own identifier is never inserted.
    SelfEntry,
    /// An entry must carry at least one address.
    NoAddress,
    /// The bucket is full of responsive peers; the newcomer was held as the
    /// bucket's pending replacement candidate.
    BucketFull,
}

/// Exact relation between the table before and after
/// [`RoutingTable::insert_or_update`] of `peer` with address values `av` at
/// time `now`, returning `r`.
pub open spec fn insert_rel(
    pre: TableV,
    post: TableV,
    peer: Seq<u8>,
    av: Seq<AddrV>,
    now: u64,
    r: InsertOutcome,
) -> bool {
    let bi = spec_bucket_index(pre.self_id, peer) as int;
    &&& post.self_id == pre.self_id
    &&& post.k == pre.k
    &&& post.buckets.len() == pre.buckets.len()
    &&& forall|i: int|
        0 <= i < pre.buckets.len() && i != bi ==> #[trigger] post.buckets[i] == pre.buckets[i]
    &&& (peer == pre.self_id ==> r == InsertOutcome::Rejected(RejectReason::SelfEntry) && post
        == pre)
    &&& (peer != pre.self_id && av.len() == 0 ==> r == InsertOutcome::Rejected(
        RejectReason::NoAddress,
    ) && post == pre)
    &&& (peer != pre.self_id && av.len() > 0 ==> {
        let ob = pre.buckets[bi];
        let nb = post.buckets[bi];
        if exists|j: int| 0 <= j < ob.entries.len() && (#[trigger] ob.entries[j]).peer == peer {
            &&& r == InsertOutcome::Updated
            &&& nb.pending == ob.pending
            &&& nb.entries.len() == ob.entries.len()
            &&& exists|j: int|
                #![auto]
                {
                    &&& 0 <= j < ob.entries.len()
                    &&& ob.entries[j].peer == peer
                    &&& nb.entries[j].peer == peer
                    &&& nb.entries[j].last_seen == now
                    &&& nb.entries[j].fails == 0
                    &&& merged(ob.entries[j].addrs, av, nb.entries[j].addrs)
                    &&& forall|j2: int|
                        0 <= j2 < ob.entries.len() && j2 != j ==> nb.entries[j2] == ob.entries[j2]
                }
        } else if ob.entries.len() < pre.k {
            &&& r == InsertOutcome::Inserted
            &&& nb.entries == ob.entries.push(new_entry_v(peer, av, now))
            &&& nb.pending == ob.pending
        } else if exists|j: int| 0 <= j < ob.entries.len() && (#[trigger] ob.entries[j]).fails > 0 {
            &&& r == InsertOutcome::Inserted
            &&& exists|v: int|
                #![auto]
                is_victim(ob.entries, v) && nb.entries == ob.entries.remove(v).push(
                    new_entry_v(peer, av, now),
                )
            &&& nb.pending == (match ob.pending {
                Some(p) => if p.peer == peer {
                    None
                } else {
                    ob.pending
                },
                None => None::<EntryV>,
            })
        } else {
            &&& r == InsertOutcome::Rejected(RejectReason::BucketFull)
            &&& nb.entries == ob.entries
            &&& nb.pending == Some(new_entry_v(peer, av, now))
        }
    })
}

impl RoutingTable {
    /// Inserts a newly seen peer or refreshes the entry it already has.
    ///
    /// The owner itself and peers without addresses are rejected. A known
    /// peer has its addresses merged, its failure count cleared and its
    /// last-seen time set to `now`. An unknown peer joins its bucket if
    /// there is room; a full bucket evicts its stalest unresponsive entry
    /// for the newcomer, and if all its entries are responsive it keeps
    /// them and holds the newcomer as the pending replacement candidate.
    pub fn insert_or_update(&mut self, peer: &PeerId, addrs: &Vec<Address>, now: u64) -> (r:
        InsertOutcome)
        requires
            old(self).wf(),
            peer.wf(),
        ensures
            final(self).wf(),
            insert_rel(old(self)@, final(self)@, peer@, addr_views(addrs@), now, r),
    {
        let ghost pre = self@;
        if peer_eq(&self.self_id, peer) {
            return InsertOutcome::Rejected(RejectReason::SelfEntry);
        }
        if addrs.len() == 0 {
            return InsertOutcome::Rejected(RejectReason::NoAddress);
        }
        let bi = bucket_index(&self.self_id, peer);
        assert(bi < 8 * ID_BYTES);
        let mut b = self.buckets.remove(bi);
        let ghost ob = b@;
        proof {
            assert(pre.buckets[bi as int] == ob);
            assert(bucket_wf(ob, pre.self_id, bi as int, pre.k));
        }

        // Look for an existing entry of this peer.
        let mut j: usize = 0;
        let mut found: bool = false;
        while j < b.entries.len() && !found
            invariant
                j <= b.entries@.len(),
                peer.wf(),
                b@ == ob,
                bucket_wf(ob, pre.self_id, bi as int, pre.k),
                found ==> j < b.entries@.len() && b@.entries[j as int].peer == peer@,
                !found ==> forall|j2: int| 0 <= j2 < j ==> b@.entries[j2].peer != peer@,
            decreases b.entries@.len() - j + (if found { 0int } else { 1int }),
        {
            proof {
                assert(entry_ok(ob.entries[j as int], pre.self_id, bi as int));
            }
            if peer_eq(&b.entries[j].peer, peer) {
                found = true;
            } else {
                j = j + 1;
            }
        }

        let ghost av = addr_views(addrs@);
        let ghost ne_v = new_entry_v(peer@, av, now);
        let r: InsertOutcome;
        let mut v: usize = 0;
        let mut have_victim: bool = false;
        let had_room: bool;
        if found {
            had_room = false;
            // Refresh the existing entry.
            let mut e = b.entries.remove(j);
            merge_addrs(&mut e.addrs, addrs);
            e.last_seen = now;
            e.fails = 0;
            b.entries.insert(j, e);
            proof {
                assert(b@.entries =~= ob.entries.update(j as int, b@.entries[j as int]));
                let ne = b@.entries[j as int];
                assert(ne.peer == peer@);
                assert(merged(ob.entries[j as int].addrs, av, ne.addrs));
                assert(entry_ok(ob.entries[j as int], pre.self_id, bi as int));
                assert(entry_ok(ne, pre.self_id, bi as int));
                assert forall|j2: int| 0 <= j2 < b@.entries.len() implies (
                #[trigger] b@.entries[j2]).peer == ob.entries[j2].peer by {}
                assert(bucket_wf(b@, pre.self_id, bi as int, pre.k));
            }
            r = InsertOutcome::Updated;
        } else if b.entries.len() < self.k {
            had_room = true;
            // Room in the bucket: append.
            let e = BucketEntry { peer: peer.clone(), addrs: clone_addrs(addrs), last_seen: now, fails: 0 };
            b.entries.push(e);
            proof {
                assert(b@.entries =~= ob.entries.push(ne_v));
                assert(entry_ok(ne_v, pre.self_id, bi as int));
                assert(b@.pending == ob.pending);
                assert(ob.pending is None);
                assert(bucket_wf(b@, pre.self_id, bi as int, pre.k));
            }
            r = InsertOutcome::Inserted;
        } else {
            had_room = false;
            // Full bucket: look for the stalest unresponsive entry.
            let mut w: usize = 0;
            while w < b.entries.len()
                invariant
                    w <= b.entries@.len(),
                    have_victim ==> v < w && b@.entries[v as int].fails > 0,
                    have_victim ==> forall|j2: int|
                        0 <= j2 < w && (#[trigger] b@.entries[j2]).fails > 0 ==> (b@.entries[v as int].last_seen
                            < b@.entries[j2].last_seen || (b@.entries[v as int].last_seen
                            == b@.entries[j2].last_seen && v <= j2)),
                    !have_victim ==> forall|j2: int|
                        0 <= j2 < w ==> (#[trigger] b@.entries[j2]).fails == 0,
                decreases b.entries@.len() - w,
            {
                if b.entries[w].fails > 0 {
                    if !have_victim {
                        v = w;
                        have_victim = true;
                    } else if b.entries[w].last_seen < b.entries[v].last_seen {
                        v = w;
                    }
                }
                w = w + 1;
            }
            if have_victim {
                // Evict it and take its place.
                proof {
                    assert(is_victim(ob.entries, v as int));
                    if ob.pending is Some {
                        assert(entry_ok(ob.pending->0, pre.self_id, bi as int));
                    }
                }
                let _stale = b.entries.remove(v);
                let e = BucketEntry {
                    peer: peer.clone(),
                    addrs: clone_addrs(addrs),
                    last_seen: now,
                    fails: 0,
                };
                b.entries.push(e);
                let clear = match &b.pending {
                    Some(p) => peer_eq(&p.peer, peer),
                    None => false,
                };
                if clear {
                    b.pending = None;
                }
                proof {
                    assert(b@.entries =~= ob.entries.remove(v as int).push(ne_v));
                    assert(entry_ok(ne_v, pre.self_id, bi as int));
                    let rem = ob.entries.remove(v as int);
                    assert forall|j2: int| 0 <= j2 < rem.len() implies entry_ok(
                        #[trigger] rem[j2],
                        pre.self_id,
                        bi as int,
                    ) && rem[j2].peer != peer@ by {
                        if j2 < v as int {
                            assert(rem[j2] == ob.entries[j2]);
                        } else {
                            assert(rem[j2] == ob.entries[j2 + 1]);
                        }
                    }
                    assert forall|j1: int, j2: int| 0 <= j1 < j2 < rem.len() implies (
                    #[trigger] rem[j1]).peer != (#[trigger] rem[j2]).peer by {
                        if j2 < v as int {
                        } else if j1 < v as int {
                            assert(rem[j1] == ob.entries[j1] && rem[j2] == ob.entries[j2 + 1]);
                        } else {
                            assert(rem[j1] == ob.entries[j1 + 1] && rem[j2] == ob.entries[j2 + 1]);
                        }
                    }
                    match b@.pending {
                        Some(p) => {
                            assert(p == ob.pending->0);
                            assert(p.peer != peer@);
                            assert forall|j2: int| 0 <= j2 < b@.entries.len() implies (
                            #[trigger] b@.entries[j2]).peer != p.peer by {
                                if j2 < b@.entries.len() - 1 {
                                    assert(b@.entries[j2] == rem[j2]);
                                    if j2 < v as int {
                                        assert(rem[j2] == ob.entries[j2]);
                                        assert(ob.entries[j2].peer != p.peer);
                                    } else {
                                        assert(rem[j2] == ob.entries[j2 + 1]);
                                        assert(ob.entries[j2 + 1].peer != p.peer);
                                    }
                                } else {
                                    assert(b@.entries[j2] == ne_v);
                                }
                            }
                        },
                        None => {},
                    }
                    assert(bucket_wf(b@, pre.self_id, bi as int, pre.k));
                }
                r = InsertOutcome::Inserted;
            } else {
                // All responsive: hold the newcomer as the pending candidate.
                let e = BucketEntry {
                    peer: peer.clone(),
                    addrs: clone_addrs(addrs),
                    last_seen: now,
                    fails: 0,
                };
                b.pending = Some(e);
                proof {
                    assert(b@.entries == ob.entries);
                    assert(b@.pending == Some(ne_v));
                    assert(entry_ok(ne_v, pre.self_id, bi as int));
                    assert(bucket_wf(b@, pre.self_id, bi as int, pre.k));
                }
                r = InsertOutcome::Rejected(RejectReason::BucketFull);
            }
        }
        self.buckets.insert(bi, b);
        proof {
            let post = self@;
            assert(post.buckets =~= pre.buckets.update(bi as int, b@));
            assert(post.buckets[bi as int] == b@);
            let nb = b@;
            assert forall|i: int|
                0 <= i < post.buckets.len() implies bucket_wf(
                #[trigger] post.buckets[i],
                post.self_id,
                i,
                post.k,
            ) by {
                if i == bi as int {
                    assert(post.buckets[i] == nb);
                } else {
                    assert(post.buckets[i] == pre.buckets[i]);
                    assert(bucket_wf(pre.buckets[i], pre.self_id, i, pre.k));
                }
            }
            assert(table_wf(post));
            // The exact relation, case by case.
            if found {
                assert(0 <= j < ob.entries.len() && ob.entries[j as int].peer == peer@);
                assert(nb.entries.len() == ob.entries.len());
                assert(nb.pending == ob.pending);
                assert(forall|j2: int|
                    0 <= j2 < ob.entries.len() && j2 != j as int ==> #[trigger] nb.entries[j2]
                        == ob.entries[j2]);
                assert(nb.entries[j as int].peer == peer@ && nb.entries[j as int].last_seen == now
                    && nb.entries[j as int].fails == 0 && merged(
                    ob.entries[j as int].addrs,
                    av,
                    nb.entries[j as int].addrs,
                ));
            } else {
                assert(forall|j2: int|
                    0 <= j2 < ob.entries.len() ==> (#[trigger] ob.entries[j2]).peer != peer@);
                if had_room {
                    assert(nb.entries == ob.entries.push(ne_v) && nb.pending == ob.pending);
                } else if have_victim {
                    assert(is_victim(ob.entries, v as int) && nb.entries == ob.entries.remove(
                        v as int,
                    ).push(ne_v));
                } else {
                    assert(forall|j2: int|
                        0 <= j2 < ob.entries.len() ==> (#[trigger] ob.entries[j2]).fails == 0);
                    assert(nb.entries == ob.entries && nb.pending == Some(ne_v));
                }
            }
            assert(insert_rel(pre, post, peer@, av, now, r));
        }
        r
    }
}

/// Exact relation between the table before and after
/// [`RoutingTable::remove`] of `peer`, returning `r`: the entry leaves, the
/// bucket's pending candidate (if any) takes the freed place, and an absent
/// peer leaves the table untouched.
pub open spec fn remove_rel(pre: TableV, post: TableV, peer: Seq<u8>, r: bool) -> bool {
    let bi = spec_bucket_index(pre.self_id, peer) as int;
    let ob = pre.buckets[bi];
    let nb = post.buckets[bi];
    &&& post.self_id == pre.self_id
    &&& post.k == pre.k
    &&& post.buckets.len() == pre.buckets.len()
    &&& forall|i: int|
        0 <= i < pre.buckets.len() && i != bi ==> #[trigger] post.buckets[i] == pre.buckets[i]
    &&& if peer == pre.self_id || !(exists|j: int|
        0 <= j < ob.entries.len() && (#[trigger] ob.entries[j]).peer == peer) {
        post == pre && !r
    } else {
        &&& r
        &&& nb.pending is None
        &&& exists|j: int|
            #![auto]
            {
                &&& 0 <= j < ob.entries.len()
                &&& ob.entries[j].peer == peer
                &&& nb.entries == (match ob.pending {
                    Some(p) => ob.entries.remove(j).push(p),
                    None => ob.entries.remove(j),
                })
            }
    }
}

impl RoutingTable {
    /// Drops `peer` from the table on confirmed unreachability; the
    /// bucket's pending replacement candidate, if one is held, takes the
    /// freed place. Returns whether the peer was present.
    pub fn remove(&mut self, peer: &PeerId) -> (r: bool)
        requires
            old(self).wf(),
            peer.wf(),
        ensures
            final(self).wf(),
            remove_rel(old(self)@, final(self)@, peer@, r),
    {
        let ghost pre = self@;
        if peer_eq(&self.self_id, peer) {
            return false;
        }
        let bi = bucket_index(&self.self_id, peer);
        let mut b = self.buckets.remove(bi);
        let ghost ob = b@;
        proof {
            assert(pre.buckets[bi as int] == ob);
            assert(bucket_wf(ob, pre.self_id, bi as int, pre.k));
        }
        let mut j: usize = 0;
        let mut found: bool = false;
        while j < b.entries.len() && !found
            invariant
                j <= b.entries@.len(),
                peer.wf(),
                b@ == ob,
                bucket_wf(ob, pre.self_id, bi as int, pre.k),
                found ==> j < b.entries@.len() && b@.entries[j as int].peer == peer@,
                !found ==> forall|j2: int| 0 <= j2 < j ==> b@.entries[j2].peer != peer@,
            decreases b.entries@.len() - j + (if found { 0int } else { 1int }),
        {
            proof {
                assert(entry_ok(ob.entries[j as int], pre.self_id, bi as int));
            }
            if peer_eq(&b.entries[j].peer, peer) {
                found = true;
            } else {
                j = j + 1;
            }
        }
        if found {
            let _gone = b.entries.remove(j);
            let promoted = b.pending.take();
            match promoted {
                Some(p) => {
                    b.entries.push(p);
                },
                None => {},
            }
            proof {
                let rem = ob.entries.remove(j as int);
                assert forall|j2: int| 0 <= j2 < rem.len() implies entry_ok(
                    #[trigger] rem[j2],
                    pre.self_id,
                    bi as int,
                ) by {
                    if j2 < j as int {
                        assert(rem[j2] == ob.entries[j2]);
                    } else {
                        assert(rem[j2] == ob.entries[j2 + 1]);
                    }
                }
                assert forall|j1: int, j2: int| 0 <= j1 < j2 < rem.len() implies (
                #[trigger] rem[j1]).peer != (#[trigger] rem[j2]).peer by {
                    if j2 < j as int {
                    } else if j1 < j as int {
                        assert(rem[j1] == ob.entries[j1] && rem[j2] == ob.entries[j2 + 1]);
                    } else {
                        assert(rem[j1] == ob.entries[j1 + 1] && rem[j2] == ob.entries[j2 + 1]);
                    }
                }
                match ob.pending {
                    Some(p) => {
                        assert(entry_ok(p, pre.self_id, bi as int));
                        assert(b@.entries =~= rem.push(p));
                        assert forall|j1: int, j2: int| 0 <= j1 < j2 < b@.entries.len() implies (
                        #[trigger] b@.entries[j1]).peer != (#[trigger] b@.entries[j2]).peer by {
                            if j2 == b@.entries.len() - 1 {
                                assert(b@.entries[j2] == p);
                                assert(b@.entries[j1] == rem[j1]);
                                if j1 < j as int {
                                    assert(rem[j1] == ob.entries[j1]);
                                } else {
                                    assert(rem[j1] == ob.entries[j1 + 1]);
                                }
                            }
                        }
                    },
                    None => {
                        assert(b@.entries =~= rem);
                    },
                }
                assert(bucket_wf(b@, pre.self_id, bi as int, pre.k));
            }
            self.buckets.insert(bi, b);
            proof {
                let post = self@;
                assert(post.buckets =~= pre.buckets.update(bi as int, b@));
                assert(post.buckets[bi as int] == b@);
                assert forall|i: int|
                    0 <= i < post.buckets.len() implies bucket_wf(
                    #[trigger] post.buckets[i],
                    post.self_id,
                    i,
                    post.k,
                ) by {
                    if i != bi as int {
                        assert(post.buckets[i] == pre.buckets[i]);
                        assert(bucket_wf(pre.buckets[i], pre.self_id, i, pre.k));
                    }
                }
                assert(0 <= j < ob.entries.len() && ob.entries[j as int].peer == peer@);
                assert(remove_rel(pre, post, peer@, true));
            }
            true
        } else {
            self.buckets.insert(bi, b);
            proof {
                assert(self@.buckets =~= pre.buckets);
                assert(self@ == pre);
                assert(forall|j2: int|
                    0 <= j2 < ob.entries.len() ==> (#[trigger] ob.entries[j2]).peer != peer@);
            }
            false
        }
    }
}

/// Outcome of recording an unanswered RPC against a peer.
#[derive(Clone, Copy, PartialEq, Eq, Structural, Debug)]
pub enum FailureOutcome {
    /// The peer is not in the table.
    NotKnown,
    /// The peer's failure count grew; it stays for now.
    Demoted,
    /// Repeated failures: the peer left the table.
    Evicted,
}

/// Exact relation between the table before and after
/// [`RoutingTable::record_failure`] of `peer`, returning `r`.
pub open spec fn failure_rel(pre: TableV, post: TableV, peer: Seq<u8>, r: FailureOutcome) -> bool {
    let bi = spec_bucket_index(pre.self_id, peer) as int;
    let ob = pre.buckets[bi];
    let nb = post.buckets[bi];
    &&& post.self_id == pre.self_id
    &&& post.k == pre.k
    &&& post.buckets.len() == pre.buckets.len()
    &&& forall|i: int|
        0 <= i < pre.buckets.len() && i != bi ==> #[trigger] post.buckets[i] == pre.buckets[i]
    &&& if peer == pre.self_id || !(exists|j: int|
        0 <= j < ob.entries.len() && (#[trigger] ob.entries[j]).peer == peer) {
        post == pre && r == FailureOutcome::NotKnown
    } else {
        exists|j: int|
            #![auto]
            {
                &&& 0 <= j < ob.entries.len()
                &&& ob.entries[j].peer == peer
                &&& if ob.entries[j].fails + 1 >= MAX_FAILS {
                    &&& r == FailureOutcome::Evicted
                    &&& nb.pending is None
                    &&& nb.entries == (match ob.pending {
                        Some(p) => ob.entries.remove(j).push(p),
                        None => ob.entries.remove(j),
                    })
                } else {
                    &&& r == FailureOutcome::Demoted
                    &&& nb.pending == ob.pending
                    &&& nb.entries == ob.entries.update(
                        j,
                        EntryV {
                            peer: ob.entries[j].peer,
                            addrs: ob.entries[j].addrs,
                            last_seen: ob.entries[j].last_seen,
                            fails: (ob.entries[j].fails + 1) as u8,
                        },
                    )
                }
            }
    }
}

impl RoutingTable {
    /// Records an RPC timeout or error against `peer`: its liveness score
    /// drops, and after `MAX_FAILS` strikes it is dropped as [`Self::remove`]
    /// would drop it.
    pub fn record_failure(&mut self, peer: &PeerId) -> (r: FailureOutcome)
        requires
            old(self).wf(),
            peer.wf(),
        ensures
            final(self).wf(),
            failure_rel(old(self)@, final(self)@, peer@, r),
    {
        let ghost pre = self@;
        if peer_eq(&self.self_id, peer) {
            return FailureOutcome::NotKnown;
        }
        let bi = bucket_index(&self.self_id, peer);
        let mut b = self.buckets.remove(bi);
        let ghost ob = b@;
        proof {
            assert(pre.buckets[bi as int] == ob);
            assert(bucket_wf(ob, pre.self_id, bi as int, pre.k));
        }
        let mut j: usize = 0;
        let mut found: bool = false;
        while j < b.entries.len() && !found
            invariant
                j <= b.entries@.len(),
                peer.wf(),
                b@ == ob,
                bucket_wf(ob, pre.self_id, bi as int, pre.k),
                found ==> j < b.entries@.len() && b@.entries[j as int].peer == peer@,
                !found ==> forall|j2: int| 0 <= j2 < j ==> b@.entries[j2].peer != peer@,
            decreases b.entries@.len() - j + (if found { 0int } else { 1int }),
        {
            proof {
                assert(entry_ok(ob.entries[j as int], pre.self_id, bi as int));
            }
            if peer_eq(&b.entries[j].peer, peer) {
                found = true;
            } else {
                j = j + 1;
            }
        }
        if !found {
            self.buckets.insert(bi, b);
            proof {
                assert(self@.buckets =~= pre.buckets);
                assert(self@ == pre);
                assert(forall|j2: int|
                    0 <= j2 < ob.entries.len() ==> (#[trigger] ob.entries[j2]).peer != peer@);
            }
            return FailureOutcome::NotKnown;
        }
        self.buckets.insert(bi, b);
        proof {
            assert(self@.buckets =~= pre.buckets);
            assert(self@ == pre);
        }
        let strikes = self.buckets[bi].entries[j].fails;
        if strikes >= MAX_FAILS - 1 {
            // Repeated failures: drop the entry (and promote any pending
            // candidate) exactly as `remove` does.
            let removed = self.remove(peer);
            proof {
                let post = self@;
                assert(removed);
                assert(ob.entries[j as int].fails + 1 >= MAX_FAILS);
                assert(failure_rel(pre, post, peer@, FailureOutcome::Evicted));
            }
            FailureOutcome::Evicted
        } else {
            let mut b2 = self.buckets.remove(bi);
            let mut e = b2.entries.remove(j);
            e.fails = e.fails + 1;
            b2.entries.insert(j, e);
            proof {
                assert(b2@.entries =~= ob.entries.update(j as int, b2@.entries[j as int]));
                assert(b2@.entries[j as int] == EntryV {
                    peer: ob.entries[j as int].peer,
                    addrs: ob.entries[j as int].addrs,
                    last_seen: ob.entries[j as int].last_seen,
                    fails: (ob.entries[j as int].fails + 1) as u8,
                });
                assert(entry_ok(ob.entries[j as int], pre.self_id, bi as int));
                assert(entry_ok(b2@.entries[j as int], pre.self_id, bi as int));
                assert forall|j2: int| 0 <= j2 < b2@.entries.len() implies (
                #[trigger] b2@.entries[j2]).peer == ob.entries[j2].peer by {}
                assert(bucket_wf(b2@, pre.self_id, bi as int, pre.k));
            }
            self.buckets.insert(bi, b2);
            proof {
                let post = self@;
                assert(post.buckets =~= pre.buckets.update(bi as int, b2@));
                assert(post.buckets[bi as int] == b2@);
                assert forall|i: int|
                    0 <= i < post.buckets.len() implies bucket_wf(
                    #[trigger] post.buckets[i],
                    post.self_id,
                    i,
                    post.k,
                ) by {
                    if i != bi as int {
                        assert(post.buckets[i] == pre.buckets[i]);
                        assert(bucket_wf(pre.buckets[i], pre.self_id, i, pre.k));
                    }
                }
                assert(failure_rel(pre, post, peer@, FailureOutcome::Demoted));
            }
            FailureOutcome::Demoted
        }
    }
}

impl RoutingTable {
    /// Occupancy of bucket `i`, for operator observability.
    pub fn bucket_occupancy(&self, i: usize) -> (r: usize)
        requires
            self.wf(),
            i < 8 * ID_BYTES,
        ensures
            r == self@.buckets[i as int].entries.len(),
            r <= self@.k,
    {
        proof {
            assert(bucket_wf(self@.buckets[i as int], self@.self_id, i as int, self@.k));
        }
        self.buckets[i].entries.len()
    }
}

/// A peer with its known addresses, as lookups and queries hand peers
/// around.
pub struct PeerRecord {
    pub peer: PeerId,
    pub addrs: Vec<Address>,
}

/// Mathematical value of a [`PeerRecord`].
#[verifier::ext_equal]
pub ghost struct PeerRecV {
    pub peer: Seq<u8>,
    pub addrs: Seq<AddrV>,
}

impl View for PeerRecord {
    type V = PeerRecV;

    open spec fn view(&self) -> PeerRecV {
        PeerRecV { peer: self.peer@, addrs: addr_views(self.addrs@) }
    }
}

impl Clone for PeerRecord {
    fn clone(&self) -> (r: Self)
        ensures
            r@ == self@,
    {
        PeerRecord { peer: self.peer.clone(), addrs: clone_addrs(&self.addrs) }
    }
}

/// Values of a sequence of peer records.
pub open spec fn rec_views(s: Seq<PeerRecord>) -> Seq<PeerRecV> {
    s.map_values(|r: PeerRecord| r@)
}

/// Every record's identifier has the right length.
pub open spec fn recs_wf(s: Seq<PeerRecV>) -> bool {
    forall|i: int| 0 <= i < s.len() ==> (#[trigger] s[i]).peer.len() == ID_BYTES
}

/// Records ordered by ascending distance from `t`.
pub open spec fn sorted_wrt(s: Seq<PeerRecV>, t: Seq<u8>) -> bool {
    forall|i: int, j: int|
        0 <= i < j < s.len() ==> spec_dist_le((#[trigger] s[i]).peer, (#[trigger] s[j]).peer, t)
}

/// The records of one bucket.
pub open spec fn bucket_recs(b: BucketV) -> Seq<PeerRecV> {
    b.entries.map_values(|e: EntryV| PeerRecV { peer: e.peer, addrs: e.addrs })
}

/// The records of the first `i` buckets, in bucket order.
pub open spec fn recs_upto(bs: Seq<BucketV>, i: int) -> Seq<PeerRecV>
    decreases i,
{
    if i <= 0 {
        Seq::empty()
    } else {
        recs_upto(bs, i - 1) + bucket_recs(bs[i - 1])
    }
}

/// Every record the table holds, in bucket order.
pub open spec fn all_recs(t: TableV) -> Seq<PeerRecV> {
    recs_upto(t.buckets, t.buckets.len() as int)
}

/// Sorts records by ascending distance from `target`, keeping exactly the
/// same records.
fn sort_by_distance(items: Vec<PeerRecord>, target: &Vec<u8>) -> (r: Vec<PeerRecord>)
    requires
        target@.len() == ID_BYTES,
        recs_wf(rec_views(items@)),
    ensures
        sorted_wrt(rec_views(r@), target@),
        recs_wf(rec_views(r@)),
        rec_views(r@).to_multiset() == rec_views(items@).to_multiset(),
        r@.len() == items@.len(),
{
    broadcast use vstd::seq_lib::group_to_multiset_ensures, vstd::seq_lib::to_multiset_insert,
        vstd::multiset::group_multiset_axioms;

    let ghost orig = rec_views(items@);
    let mut rest = items;
    let mut out: Vec<PeerRecord> = Vec::new();
    while rest.len() > 0
        invariant
            target@.len() == ID_BYTES,
            recs_wf(rec_views(rest@)),
            recs_wf(rec_views(out@)),
            forall|q: int| 0 <= q < out@.len() ==> (#[trigger] out@[q])@.peer.len() == ID_BYTES,
            sorted_wrt(rec_views(out@), target@),
            rec_views(out@).to_multiset().add(rec_views(rest@).to_multiset())
                == orig.to_multiset(),
            out@.len() + rest@.len() == orig.len(),
        decreases rest@.len(),
    {
        let ghost pre_rest = rec_views(rest@);
        let ghost pre_out = rec_views(out@);
        let x = rest.remove(0);
        proof {
            assert(pre_rest[0] == x@);
            assert(x@.peer.len() == ID_BYTES);
            assert(rec_views(rest@) =~= pre_rest.remove(0));
            assert forall|i: int| 0 <= i < rec_views(rest@).len() implies (#[trigger] rec_views(
                rest@,
            )[i]).peer.len() == ID_BYTES by {
                assert(rec_views(rest@)[i] == pre_rest[i + 1]);
            }
        }
        let mut p: usize = 0;
        while p < out.len() && dist_le(&out[p].peer, &x.peer, target)
            invariant
                target@.len() == ID_BYTES,
                x@.peer.len() == ID_BYTES,
                recs_wf(rec_views(out@)),
                forall|q: int| 0 <= q < out@.len() ==> (#[trigger] out@[q])@.peer.len() == ID_BYTES,
                p <= out@.len(),
                forall|q: int| 0 <= q < p ==> spec_dist_le(
                    (#[trigger] rec_views(out@)[q]).peer,
                    x@.peer,
                    target@,
                ),
            decreases out@.len() - p,
        {
            p = p + 1;
        }
        proof {
            if p < out@.len() {
                crate::ident::lemma_dist_le_total(
                    rec_views(out@)[p as int].peer,
                    x@.peer,
                    target@,
                );
            }
        }
        out.insert(p, x);
        proof {
            let cur = rec_views(out@);
            assert(cur =~= pre_out.insert(p as int, x@));
            assert forall|i: int| 0 <= i < cur.len() implies (#[trigger] cur[i]).peer.len()
                == ID_BYTES by {
                if i < p as int {
                    assert(cur[i] == pre_out[i]);
                } else if i == p as int {
                    assert(cur[i] == x@);
                } else {
                    assert(cur[i] == pre_out[i - 1]);
                }
            }
            assert forall|q: int| 0 <= q < out@.len() implies (#[trigger] out@[q])@.peer.len()
                == ID_BYTES by {
                assert(rec_views(out@)[q] == out@[q]@);
            }
            assert forall|i: int, j: int| 0 <= i < j < cur.len() implies spec_dist_le(
                (#[trigger] cur[i]).peer,
                (#[trigger] cur[j]).peer,
                target@,
            ) by {
                let pi = p as int;
                if j < pi {
                    assert(cur[i] == pre_out[i] && cur[j] == pre_out[j]);
                } else if i < pi && j == pi {
                    assert(cur[i] == pre_out[i] && cur[j] == x@);
                } else if i < pi && j > pi {
                    assert(cur[i] == pre_out[i] && cur[j] == pre_out[j - 1]);
                } else if i == pi {
                    assert(cur[i] == x@ && cur[j] == pre_out[j - 1]);
                    assert(!spec_dist_le(pre_out[pi].peer, x@.peer, target@));
                    assert(spec_dist_le(x@.peer, pre_out[pi].peer, target@));
                    if j - 1 > pi {
                        crate::ident::lemma_dist_le_trans(
                            x@.peer,
                            pre_out[pi].peer,
                            pre_out[j - 1].peer,
                            target@,
                        );
                    }
                } else {
                    assert(cur[i] == pre_out[i - 1] && cur[j] == pre_out[j - 1]);
                }
            }
            assert(cur == pre_out.insert(p as int, x@));
            vstd::seq_lib::to_multiset_insert(pre_out, p as int, x@);
            assert(cur.to_multiset() =~= pre_out.to_multiset().insert(x@));
            assert(rec_views(rest@) == pre_rest.remove(0));
            vstd::seq_lib::to_multiset_remove(pre_rest, 0);
            assert(rec_views(rest@).to_multiset() =~= pre_rest.to_multiset().remove(x@));
            assert(pre_rest.contains(x@)) by {
                assert(pre_rest[0] == x@);
            }
            vstd::seq_lib::to_multiset_contains(pre_rest, x@);
            assert(pre_rest.to_multiset().contains(x@));
            assert(cur.to_multiset().add(rec_views(rest@).to_multiset()) =~= orig.to_multiset());
        }
    }
    proof {
        assert(rec_views(rest@).to_multiset() =~= Multiset::empty());
        assert(rec_views(out@).to_multiset() =~= orig.to_multiset());
    }
    out
}

impl RoutingTable {
    /// The `count` table entries closest to `target`, in ascending distance
    /// order: the head of a distance-sorted arrangement of every record in
    /// the table.
    pub fn closest(&self, target: &Vec<u8>, count: usize) -> (r: Vec<PeerRecord>)
        requires
            self.wf(),
            target@.len() == ID_BYTES,
        ensures
            sorted_wrt(rec_views(r@), target@),
            recs_wf(rec_views(r@)),
            r@.len() == if count as int <= all_recs(self@).len() {
                count as int
            } else {
                all_recs(self@).len() as int
            },
            exists|s: Seq<PeerRecV>|
                #![auto]
                {
                    &&& s.to_multiset() == all_recs(self@).to_multiset()
                    &&& sorted_wrt(s, target@)
                    &&& rec_views(r@) == s.take(r@.len() as int)
                },
    {
        broadcast use vstd::seq_lib::group_to_multiset_ensures;

        let mut collected: Vec<PeerRecord> = Vec::new();
        let mut bi: usize = 0;
        while bi < self.buckets.len()
            invariant
                self.wf(),
                bi <= self@.buckets.len(),
                rec_views(collected@) == recs_upto(self@.buckets, bi as int),
                recs_wf(rec_views(collected@)),
            decreases self@.buckets.len() - bi,
        {
            let ghost outer_pre = rec_views(collected@);
            let mut j: usize = 0;
            while j < self.buckets[bi].entries.len()
                invariant
                    self.wf(),
                    bi < self@.buckets.len(),
                    j <= self@.buckets[bi as int].entries.len(),
                    rec_views(collected@) =~= outer_pre + bucket_recs(
                        self@.buckets[bi as int],
                    ).take(j as int),
                    recs_wf(rec_views(collected@)),
                decreases self@.buckets[bi as int].entries.len() - j,
            {
                let ghost pre = rec_views(collected@);
                let e = &self.buckets[bi].entries[j];
                proof {
                    assert(bucket_wf(self@.buckets[bi as int], self@.self_id, bi as int, self@.k));
                    assert(entry_ok(self@.buckets[bi as int].entries[j as int], self@.self_id, bi as int));
                }
                let rec = PeerRecord { peer: e.peer.clone(), addrs: clone_addrs(&e.addrs) };
                collected.push(rec);
                proof {
                    let br = bucket_recs(self@.buckets[bi as int]);
                    assert(br[j as int] == PeerRecV {
                        peer: self@.buckets[bi as int].entries[j as int].peer,
                        addrs: self@.buckets[bi as int].entries[j as int].addrs,
                    });
                    assert(rec_views(collected@) =~= pre.push(br[j as int]));
                    assert(br.take(j + 1) =~= br.take(j as int).push(br[j as int]));
                    assert(rec_views(collected@) =~= outer_pre + br.take(j + 1));
                    assert forall|i: int| 0 <= i < rec_views(collected@).len() implies (
                    #[trigger] rec_views(collected@)[i]).peer.len() == ID_BYTES by {
                        if i < pre.len() {
                            assert(rec_views(collected@)[i] == pre[i]);
                        } else {
                            assert(rec_views(collected@)[i] == br[j as int]);
                        }
                    }
                }
                j = j + 1;
            }
            proof {
                let br = bucket_recs(self@.buckets[bi as int]);
                assert(br.take(br.len() as int) =~= br);
                assert(rec_views(collected@) =~= recs_upto(self@.buckets, bi as int) + br);
                assert(rec_views(collected@) =~= recs_upto(self@.buckets, bi + 1));
            }
            bi = bi + 1;
        }
        proof {
            assert(rec_views(collected@) == all_recs(self@));
        }
        let ghost total = all_recs(self@);
        let mut sorted = sort_by_distance(collected, target);
        proof {
            assert(sorted@.len() == total.len());
        }
        let ghost full_sorted = rec_views(sorted@);
        if count < sorted.len() {
            sorted.truncate(count);
            proof {
                assert(rec_views(sorted@) =~= full_sorted.take(count as int));
            }
        } else {
            proof {
                assert(rec_views(sorted@) =~= full_sorted.take(sorted@.len() as int));
            }
        }
        sorted
    }
}


/// A responsive entry is never evicted by an insert: every entry with no
/// recorded failures, other than the inserted peer itself, survives with
/// its state intact (only the refreshed peer's own entry may change).
pub proof fn lemma_insert_never_evicts_responsive(
    pre: TableV,
    post: TableV,
    peer: Seq<u8>,
    av: Seq<AddrV>,
    now: u64,
    r: InsertOutcome,
)
    requires
        table_wf(pre),
        insert_rel(pre, post, peer, av, now, r),
    ensures
        forall|i: int, j: int|
            0 <= i < pre.buckets.len() && 0 <= j < pre.buckets[i].entries.len() && (
            #[trigger] pre.buckets[i].entries[j]).fails == 0 && pre.buckets[i].entries[j].peer
                != peer ==> exists|j2: int|
                0 <= j2 < post.buckets[i].entries.len() && #[trigger] post.buckets[i].entries[j2]
                    == pre.buckets[i].entries[j],
{
    let bi = spec_bucket_index(pre.self_id, peer) as int;
    assert forall|i: int, j: int|
        0 <= i < pre.buckets.len() && 0 <= j < pre.buckets[i].entries.len() && (
        #[trigger] pre.buckets[i].entries[j]).fails == 0 && pre.buckets[i].entries[j].peer
            != peer implies exists|j2: int|
            0 <= j2 < post.buckets[i].entries.len() && #[trigger] post.buckets[i].entries[j2]
                == pre.buckets[i].entries[j] by {
        let e = pre.buckets[i].entries[j];
        if i != bi || peer == pre.self_id || av.len() == 0 {
            assert(post.buckets[i] == pre.buckets[i]);
            assert(post.buckets[i].entries[j] == e);
        } else {
            let ob = pre.buckets[i];
            let nb = post.buckets[i];
            if exists|j0: int| 0 <= j0 < ob.entries.len() && (#[trigger] ob.entries[j0]).peer
                == peer {
                let j0 = choose|j0: int|
                    0 <= j0 < ob.entries.len() && (#[trigger] ob.entries[j0]).peer == peer
                        && nb.entries[j0].peer == peer && nb.entries[j0].last_seen == now
                        && nb.entries[j0].fails == 0 && merged(ob.entries[j0].addrs, av, nb.entries[j0].addrs)
                        && forall|j2: int|
                        0 <= j2 < ob.entries.len() && j2 != j0 ==> nb.entries[j2] == ob.entries[j2];
                assert(j != j0);
                assert(nb.entries[j] == e);
            } else if ob.entries.len() < pre.k {
                assert(nb.entries == ob.entries.push(new_entry_v(peer, av, now)));
                assert(nb.entries[j] == e);
            } else if exists|j0: int| 0 <= j0 < ob.entries.len() && (
            #[trigger] ob.entries[j0]).fails > 0 {
                let v = choose|v: int|
                    #![auto]
                    is_victim(ob.entries, v) && nb.entries == ob.entries.remove(v).push(
                        new_entry_v(peer, av, now),
                    );
                assert(ob.entries[v].fails > 0);
                assert(j != v);
                if j < v {
                    assert(nb.entries[j] == ob.entries.remove(v)[j]);
                    assert(ob.entries.remove(v)[j] == e);
                } else {
                    assert(nb.entries[j - 1] == ob.entries.remove(v)[j - 1]);
                    assert(ob.entries.remove(v)[j - 1] == e);
                }
            } else {
                assert(nb.entries == ob.entries);
                assert(nb.entries[j] == e);
            }
        }
    }
}

/// A full bucket of responsive peers keeps exactly its entries when yet
/// another distinct peer arrives: the newcomer is refused (and held as the
/// pending candidate), so the bucket never exceeds its capacity and no
/// responsive entry makes way.
pub proof fn lemma_full_responsive_bucket_keeps_entries(
    pre: TableV,
    post: TableV,
    peer: Seq<u8>,
    av: Seq<AddrV>,
    now: u64,
    r: InsertOutcome,
)
    requires
        table_wf(pre),
        insert_rel(pre, post, peer, av, now, r),
        peer != pre.self_id,
        av.len() > 0,
        forall|j: int|
            0 <= j < pre.buckets[spec_bucket_index(pre.self_id, peer) as int].entries.len()
                ==> (#[trigger] pre.buckets[spec_bucket_index(pre.self_id, peer) as int].entries[j]).fails
                == 0 && pre.buckets[spec_bucket_index(pre.self_id, peer) as int].entries[j].peer != peer,
        pre.buckets[spec_bucket_index(pre.self_id, peer) as int].entries.len() == pre.k,
    ensures
        r == InsertOutcome::Rejected(RejectReason::BucketFull),
        post.buckets[spec_bucket_index(pre.self_id, peer) as int].entries == pre.buckets[
            spec_bucket_index(pre.self_id, peer) as int].entries,
        post.buckets[spec_bucket_index(pre.self_id, peer) as int].pending == Some(
            new_entry_v(peer, av, now),
        ),
{
    let bi = spec_bucket_index(pre.self_id, peer) as int;
    let ob = pre.buckets[bi];
    assert(!(exists|j: int| 0 <= j < ob.entries.len() && (#[trigger] ob.entries[j]).peer == peer));
    assert(!(exists|j: int| 0 <= j < ob.entries.len() && (#[trigger] ob.entries[j]).fails > 0));
}

/// Feeding the same peer and address list to the table twice with the same
/// clock leaves exactly the state that one call produces.
pub proof fn lemma_insert_idempotent(
    pre: TableV,
    mid: TableV,
    post: TableV,
    peer: Seq<u8>,
    av: Seq<AddrV>,
    now: u64,
    r1: InsertOutcome,
    r2: InsertOutcome,
)
    requires
        table_wf(pre),
        table_wf(mid),
        peer.len() == ID_BYTES,
        insert_rel(pre, mid, peer, av, now, r1),
        insert_rel(mid, post, peer, av, now, r2),
    ensures
        post == mid,
{
    let bi = spec_bucket_index(pre.self_id, peer) as int;
    assert(mid.self_id == pre.self_id);
    if peer == pre.self_id || av.len() == 0 {
        assert(post == mid);
    } else {
        let ob = pre.buckets[bi];
        let mb = mid.buckets[bi];
        let pb = post.buckets[bi];
        assert(0 <= bi < pre.buckets.len()) by {
            let d = crate::ident::spec_distance(pre.self_id, peer);
            assert(spec_bucket_index(pre.self_id, peer) <= 8 * ID_BYTES) by {
                lemma_lz_bound(d, 0);
            }
            if spec_bucket_index(pre.self_id, peer) == 8 * ID_BYTES {
                lemma_lz_full_zero(d, 0);
                assert(crate::ident::all_zero(d));
                crate::ident::lemma_distance_zero(pre.self_id, peer);
                assert(peer == pre.self_id);
                assert(false);
            }
        }
        // After the first call the peer stands in the bucket (or, with a
        // full responsive bucket, everything is as before and repeats).
        if exists|j0: int| 0 <= j0 < ob.entries.len() && (#[trigger] ob.entries[j0]).peer == peer {
            let j0 = choose|j0: int|
                0 <= j0 < ob.entries.len() && (#[trigger] ob.entries[j0]).peer == peer
                    && mb.entries[j0].peer == peer && mb.entries[j0].last_seen == now
                    && mb.entries[j0].fails == 0 && merged(ob.entries[j0].addrs, av, mb.entries[j0].addrs)
                    && forall|j2: int|
                    0 <= j2 < ob.entries.len() && j2 != j0 ==> mb.entries[j2] == ob.entries[j2];
            lemma_update_matches(pre, mid, post, peer, av, now, j0);
        } else if ob.entries.len() < pre.k {
            assert(mb.entries == ob.entries.push(new_entry_v(peer, av, now)));
            lemma_update_matches(pre, mid, post, peer, av, now, ob.entries.len() as int);
        } else if exists|j0: int| 0 <= j0 < ob.entries.len() && (#[trigger] ob.entries[j0]).fails
            > 0 {
            let v = choose|v: int|
                #![auto]
                is_victim(ob.entries, v) && mb.entries == ob.entries.remove(v).push(
                    new_entry_v(peer, av, now),
                );
            lemma_update_matches(pre, mid, post, peer, av, now, mb.entries.len() - 1);
        } else {
            // Full bucket of responsive strangers: the first call changed
            // only the pending slot, so the second takes the same branch.
            assert(mb.entries == ob.entries);
            assert(!(exists|j0: int| 0 <= j0 < mb.entries.len() && (#[trigger] mb.entries[j0]).peer
                == peer));
            assert(!(exists|j0: int| 0 <= j0 < mb.entries.len() && (#[trigger] mb.entries[j0]).fails
                > 0));
            assert(pb.entries == mb.entries);
            assert(pb.pending == Some(new_entry_v(peer, av, now)));
            assert(pb =~= mb);
            assert(post.buckets =~= mid.buckets);
            assert(post =~= mid);
        }
    }
}

/// Helper for the idempotence proof: after the first call the peer stands
/// at index `j1` of its bucket with a fresh entry, so the second call takes
/// the update branch and changes nothing.
proof fn lemma_update_matches(
    pre: TableV,
    mid: TableV,
    post: TableV,
    peer: Seq<u8>,
    av: Seq<AddrV>,
    now: u64,
    j1: int,
)
    requires
        table_wf(pre),
        table_wf(mid),
        insert_rel(mid, post, peer, av, now, InsertOutcome::Updated) || insert_rel(
            mid,
            post,
            peer,
            av,
            now,
            InsertOutcome::Inserted,
        ) || insert_rel(mid, post, peer, av, now, InsertOutcome::Rejected(RejectReason::SelfEntry))
            || insert_rel(
            mid,
            post,
            peer,
            av,
            now,
            InsertOutcome::Rejected(RejectReason::NoAddress),
        ) || insert_rel(mid, post, peer, av, now, InsertOutcome::Rejected(RejectReason::BucketFull)),
        peer != pre.self_id,
        av.len() > 0,
        mid.self_id == pre.self_id,
        mid.k == pre.k,
        mid.buckets.len() == pre.buckets.len(),
        (spec_bucket_index(pre.self_id, peer) as int) < pre.buckets.len(),
        0 <= j1 < mid.buckets[spec_bucket_index(pre.self_id, peer) as int].entries.len(),
        (mid.buckets[spec_bucket_index(pre.self_id, peer) as int].entries[j1] == EntryV {
            peer: peer,
            addrs: mid.buckets[spec_bucket_index(pre.self_id, peer) as int].entries[j1].addrs,
            last_seen: now,
            fails: 0,
        }),
        (av.len() > 0 ==> forall|x: AddrV|
            av.contains(x) ==> mid.buckets[spec_bucket_index(
                pre.self_id,
                peer,
            ) as int].entries[j1].addrs.contains(x)),
    ensures
        post == mid,
{
    let bi = spec_bucket_index(pre.self_id, peer) as int;
    let mb = mid.buckets[bi];
    let pb = post.buckets[bi];
    assert(mb.entries[j1].peer == peer);
    let j2 = choose|j2: int|
        0 <= j2 < mb.entries.len() && (#[trigger] mb.entries[j2]).peer == peer
            && pb.entries[j2].peer == peer && pb.entries[j2].last_seen == now && pb.entries[j2].fails
            == 0 && merged(mb.entries[j2].addrs, av, pb.entries[j2].addrs) && forall|j3: int|
            0 <= j3 < mb.entries.len() && j3 != j2 ==> pb.entries[j3] == mb.entries[j3];
    assert(j2 == j1) by {
        if j2 < j1 {
            assert(mb.entries[j2].peer != mb.entries[j1].peer);
        } else if j1 < j2 {
            assert(mb.entries[j1].peer != mb.entries[j2].peer);
        }
    }
    assert(pb.entries[j1].addrs == mb.entries[j1].addrs);
    assert(pb.entries[j1] =~= mb.entries[j1]);
    assert(pb.entries =~= mb.entries);
    assert(pb =~= mb);
    assert(post.buckets =~= mid.buckets);
    assert(post =~= mid);
}

/// Leading-zero counts never exceed the bits that remain.
proof fn lemma_lz_bound(d: Seq<u8>, i: int)
    requires
        0 <= i <= d.len(),
    ensures
        crate::ident::lz_from(d, i) <= 8 * (d.len() - i),
    decreases d.len() - i,
{
    if i < d.len() {
        lemma_lz_bound(d, i + 1);
    }
}

/// A leading-zero count that uses every remaining bit forces every
/// remaining byte to zero.
proof fn lemma_lz_full_zero(d: Seq<u8>, i: int)
    requires
        0 <= i <= d.len(),
        crate::ident::lz_from(d, i) == 8 * (d.len() - i),
    ensures
        forall|j: int| i <= j < d.len() ==> d[j] == 0,
    decreases d.len() - i,
{
    if i < d.len() {
        lemma_lz_bound(d, i + 1);
        if d[i] == 0 {
            lemma_lz_full_zero(d, i + 1);
        }
    }
}

} // verus!
