//! The discovery scheduler: the single dispatch point that owns all
//! mutable discovery state (routing table, record store, pending queries,
//! put rounds, connection records) and turns inbound events into outbound
//! actions. Routing-table membership is independent of live-session
//! membership: closing a connection removes its connection record, never
//! the routing entry.

use vstd::prelude::*;

use crate::addr::Address;
use crate::addr::addr_views;
use crate::addr::AddrV;
use crate::ident::ID_BYTES;
use crate::ident::PeerId;
use crate::ident::dist_le;
use crate::ident::peer_eq;
use crate::lookup::LookupQuery;
use crate::lookup::QueryPhase;
use crate::lookup::batch_rel;
use crate::lookup::cand_views;
use crate::lookup::cands_from;
use crate::lookup::covers_peers;
use crate::lookup::deadline_rel;
use crate::lookup::response_rel;
use crate::lookup::timeout_note_rel;
use crate::store::PutRound;
use crate::store::put_local_rel;
use crate::store::quorum_required;
use crate::store::spec_put_status;
use crate::store::sweep_rel;
use crate::store::PutStatus;
use crate::store::Quorum;
use crate::store::Record;
use crate::store::RecordStore;
use crate::table::InsertOutcome;
use crate::table::PeerRecord;
use crate::table::RoutingTable;
use crate::table::TableV;
use crate::table::FailureOutcome;
use crate::table::all_recs;
use crate::table::failure_rel;
use crate::table::insert_rel;
use crate::table::sorted_wrt;
use crate::table::PeerRecV;
use crate::table::lemma_insert_idempotent;
use crate::table::rec_views;
use crate::table::recs_wf;
use crate::table::table_wf;

verus! {

/// A live session to a peer; created on connection-established, destroyed
/// on connection-closed. It never holds a routing-table handle: peers are
/// looked up by identifier.
pub struct ConnectionRecord {
    pub peer: PeerId,
    pub established_at: u64,
    pub addr: Address,
}

/// One replicated put in progress, correlated to its acknowledgements by
/// id.
pub struct PutOp {
    pub id: u64,
    pub round: PutRound,
}

/// An outbound request the event loop must perform on the scheduler's
/// behalf.
pub enum Action {
    /// Ask `to` for its peers closest to `target`, on behalf of the query.
    SendFindCloser { query_id: u64, to: PeerRecord, target: Vec<u8> },
    /// Ask `to` to store `record`, on behalf of the put round.
    SendStore { put_id: u64, to: PeerRecord, record: Record },
    /// Push the locally known connected-peer address set to `to`.
    PushAddresses { to: PeerId, peers: Vec<PeerRecord> },
}

/// `acts` is exactly one find-closer request per record of `batch`, in
/// order, on behalf of query `qid` towards `tgt`.
pub open spec fn acts_find_closer(acts: Seq<Action>, qid: u64, batch: Seq<PeerRecord>, tgt: Seq<u8>) -> bool {
    &&& acts.len() == batch.len()
    &&& forall|i: int|
        0 <= i < acts.len() ==> ((#[trigger] acts[i]) matches Action::SendFindCloser {
            query_id,
            to,
            target,
        } && query_id == qid && to@ == batch[i]@ && target@ == tgt)
}

/// The table after feeding it `recs` front to back, one
/// insert-or-update step per record, all at time `now`.
pub open spec fn table_absorbs(pre: TableV, post: TableV, recs: Seq<PeerRecV>, now: u64) -> bool
    decreases recs.len(),
{
    if recs.len() == 0 {
        post == pre
    } else {
        exists|mid: TableV, r: InsertOutcome|
            #![auto]
            insert_rel(pre, mid, recs[0].peer, recs[0].addrs, now, r) && table_absorbs(
                mid,
                post,
                recs.skip(1),
                now,
            )
    }
}

/// One more absorbed record extends an absorption chain at its end.
proof fn lemma_table_absorbs_snoc(
    pre: TableV,
    mid: TableV,
    post: TableV,
    recs: Seq<PeerRecV>,
    x: PeerRecV,
    now: u64,
    r: InsertOutcome,
)
    requires
        table_absorbs(pre, mid, recs, now),
        insert_rel(mid, post, x.peer, x.addrs, now, r),
    ensures
        table_absorbs(pre, post, recs.push(x), now),
    decreases recs.len(),
{
    if recs.len() == 0 {
        assert(mid == pre);
        assert(recs.push(x)[0] == x);
        assert(recs.push(x).skip(1) =~= Seq::<PeerRecV>::empty());
        assert(table_absorbs(post, post, recs.push(x).skip(1), now));
        assert(insert_rel(pre, post, recs.push(x)[0].peer, recs.push(x)[0].addrs, now, r));
    } else {
        let (m1, r1) = choose|m1: TableV, r1: InsertOutcome|
            #![auto]
            insert_rel(pre, m1, recs[0].peer, recs[0].addrs, now, r1) && table_absorbs(
                m1,
                mid,
                recs.skip(1),
                now,
            );
        lemma_table_absorbs_snoc(m1, mid, post, recs.skip(1), x, now, r);
        assert(recs.push(x).skip(1) =~= recs.skip(1).push(x));
        assert(recs.push(x)[0] == recs[0]);
        assert(insert_rel(pre, m1, recs.push(x)[0].peer, recs.push(x)[0].addrs, now, r1)
            && table_absorbs(m1, post, recs.push(x).skip(1), now));
    }
}

/// Exact relation of opening a periodic or piggyback self-lookup at
/// `now`: with an empty routing table nothing at all happens; otherwise
/// one query towards the local identifier joins the set, numbered
/// `next_id`, sized by `k` and `alpha`, seeded from a distance-sorted
/// arrangement of the table's records, and the returned actions are the
/// find-closer requests of its first round.
pub open spec fn self_lookup_rel(
    pre: DiscoveryContext,
    post: DiscoveryContext,
    now: u64,
    acts: Seq<Action>,
) -> bool {
    &&& post.self_id == pre.self_id
    &&& post.k == pre.k
    &&& post.alpha == pre.alpha
    &&& post.query_deadline == pre.query_deadline
    &&& post.refresh_interval == pre.refresh_interval
    &&& post.table == pre.table
    &&& post.store == pre.store
    &&& post.connections@ == pre.connections@
    &&& post.puts@ == pre.puts@
    &&& (all_recs(pre.table@).len() == 0 ==> post == pre && acts.len() == 0)
    &&& (all_recs(pre.table@).len() > 0 ==> {
        &&& post.next_id == (if pre.next_id == u64::MAX {
            0u64
        } else {
            (pre.next_id + 1) as u64
        })
        &&& post.last_self_lookup == now
        &&& post.queries@.len() == pre.queries@.len() + 1
        &&& (forall|i: int|
            0 <= i < pre.queries@.len() ==> #[trigger] post.queries@[i] == pre.queries@[i])
        &&& {
            let q = post.queries@.last();
            &&& q.id == pre.next_id
            &&& q.target@ == pre.self_id@
            &&& q.count == pre.k
            &&& q.alpha == pre.alpha
            &&& (q.deadline as int == if now as int + pre.query_deadline as int
                <= u64::MAX as int {
                now as int + pre.query_deadline as int
            } else {
                u64::MAX as int
            })
            &&& (exists|s: Seq<PeerRecV>, q0: LookupQuery, batch: Seq<PeerRecord>|
                #![auto]
                {
                    &&& s.to_multiset() == all_recs(pre.table@).to_multiset()
                    &&& sorted_wrt(s, pre.self_id@)
                    &&& q0.phase == QueryPhase::Probing
                    &&& covers_peers(
                        cand_views(q0.candidates@),
                        s.take(
                            if pre.k as int <= s.len() {
                                pre.k as int
                            } else {
                                s.len() as int
                            },
                        ),
                    )
                    &&& cands_from(
                        cand_views(q0.candidates@),
                        s.take(
                            if pre.k as int <= s.len() {
                                pre.k as int
                            } else {
                                s.len() as int
                            },
                        ),
                    )
                    &&& batch_rel(q0, q, now, batch)
                    &&& acts_find_closer(acts, pre.next_id, batch, pre.self_id@)
                })
        }
    })
}

/// Exact relation of taking a find-closer response at `now`: the routing
/// table absorbs every returned record in order; the first query carrying
/// `query_id` takes the response (per [`response_rel`]) and sends its next
/// round (per [`batch_rel`]), the actions being exactly those requests;
/// other queries, and everything else, stay as they were. An unknown id
/// touches no query and asks nothing.
pub open spec fn closer_peers_rel(
    pre: DiscoveryContext,
    post: DiscoveryContext,
    query_id: u64,
    from: Seq<u8>,
    peers: Seq<PeerRecV>,
    now: u64,
    acts: Seq<Action>,
) -> bool {
    &&& post.self_id == pre.self_id
    &&& post.k == pre.k
    &&& post.alpha == pre.alpha
    &&& post.query_deadline == pre.query_deadline
    &&& post.refresh_interval == pre.refresh_interval
    &&& post.store == pre.store
    &&& post.connections@ == pre.connections@
    &&& post.puts@ == pre.puts@
    &&& post.next_id == pre.next_id
    &&& post.last_self_lookup == pre.last_self_lookup
    &&& table_absorbs(pre.table@, post.table@, peers, now)
    &&& post.queries@.len() == pre.queries@.len()
    &&& if exists|qi: int|
        0 <= qi < pre.queries@.len() && (#[trigger] pre.queries@[qi]).id == query_id {
        exists|qi: int, q1: LookupQuery, acc: bool, batch: Seq<PeerRecord>|
            #![auto]
            {
                &&& 0 <= qi < pre.queries@.len()
                &&& pre.queries@[qi].id == query_id
                &&& (forall|j: int| 0 <= j < qi ==> (#[trigger] pre.queries@[j]).id != query_id)
                &&& (forall|j: int|
                    0 <= j < pre.queries@.len() && j != qi ==> #[trigger] post.queries@[j]
                        == pre.queries@[j])
                &&& response_rel(pre.queries@[qi], q1, from, peers, acc)
                &&& batch_rel(q1, post.queries@[qi], now, batch)
                &&& acts_find_closer(acts, query_id, batch, pre.queries@[qi].target@)
            }
    } else {
        post.queries@ == pre.queries@ && acts.len() == 0
    }
}

/// Exact relation of booking an RPC timeout at `now`: the peer's liveness
/// drops per [`failure_rel`]; the first query carrying `query_id` notes
/// the timeout (per [`timeout_note_rel`]) and sends its next round, the
/// actions being exactly those requests; everything else stays.
pub open spec fn rpc_timeout_rel(
    pre: DiscoveryContext,
    post: DiscoveryContext,
    query_id: u64,
    from: Seq<u8>,
    now: u64,
    acts: Seq<Action>,
) -> bool {
    &&& post.self_id == pre.self_id
    &&& post.k == pre.k
    &&& post.alpha == pre.alpha
    &&& post.query_deadline == pre.query_deadline
    &&& post.refresh_interval == pre.refresh_interval
    &&& post.store == pre.store
    &&& post.connections@ == pre.connections@
    &&& post.puts@ == pre.puts@
    &&& post.next_id == pre.next_id
    &&& post.last_self_lookup == pre.last_self_lookup
    &&& (exists|fo: FailureOutcome| #[trigger] failure_rel(pre.table@, post.table@, from, fo))
    &&& post.queries@.len() == pre.queries@.len()
    &&& if exists|qi: int|
        0 <= qi < pre.queries@.len() && (#[trigger] pre.queries@[qi]).id == query_id {
        exists|qi: int, q1: LookupQuery, kn: bool, batch: Seq<PeerRecord>|
            #![trigger timeout_note_rel(pre.queries@[qi], q1, from, kn), batch_rel(
                q1,
                post.queries@[qi],
                now,
                batch,
            )]
            {
                &&& 0 <= qi < pre.queries@.len()
                &&& pre.queries@[qi].id == query_id
                &&& (forall|j: int| 0 <= j < qi ==> (#[trigger] pre.queries@[j]).id != query_id)
                &&& (forall|j: int|
                    0 <= j < pre.queries@.len() && j != qi ==> #[trigger] post.queries@[j]
                        == pre.queries@[j])
                &&& timeout_note_rel(pre.queries@[qi], q1, from, kn)
                &&& batch_rel(q1, post.queries@[qi], now, batch)
                &&& acts_find_closer(acts, query_id, batch, pre.queries@[qi].target@)
            }
    } else {
        post.queries@ == pre.queries@ && acts.len() == 0
    }
}

/// Exact relation of booking one answer (`ack` or refusal) for the put
/// round carrying `put_id`: the first matching round counts it while
/// targets are outstanding and reports its status; an unknown id changes
/// nothing and reports nothing.
pub open spec fn store_vote_rel(
    pre: DiscoveryContext,
    post: DiscoveryContext,
    put_id: u64,
    ack: bool,
    r: Option<PutStatus>,
) -> bool {
    &&& post.self_id == pre.self_id
    &&& post.k == pre.k
    &&& post.alpha == pre.alpha
    &&& post.query_deadline == pre.query_deadline
    &&& post.refresh_interval == pre.refresh_interval
    &&& post.table == pre.table
    &&& post.store == pre.store
    &&& post.connections@ == pre.connections@
    &&& post.queries@ == pre.queries@
    &&& post.next_id == pre.next_id
    &&& post.last_self_lookup == pre.last_self_lookup
    &&& if exists|i: int| 0 <= i < pre.puts@.len() && (#[trigger] pre.puts@[i]).id == put_id {
        exists|i: int|
            #![trigger pre.puts@[i].round]
            {
                &&& 0 <= i < pre.puts@.len()
                &&& pre.puts@[i].id == put_id
                &&& (forall|j: int| 0 <= j < i ==> (#[trigger] pre.puts@[j]).id != put_id)
                &&& post.puts@.len() == pre.puts@.len()
                &&& (forall|j: int|
                    0 <= j < pre.puts@.len() && j != i ==> #[trigger] post.puts@[j]
                        == pre.puts@[j])
                &&& post.puts@[i].id == put_id
                &&& {
                    let o = pre.puts@[i].round;
                    let n = post.puts@[i].round;
                    &&& (o.pending == 0 ==> n == o)
                    &&& (o.pending > 0 ==> n.targets == o.targets && n.required == o.required
                        && n.pending == o.pending - 1 && n.acks as int == (if ack {
                        o.acks + 1
                    } else {
                        o.acks as int
                    }) && n.failures as int == (if ack {
                        o.failures as int
                    } else {
                        o.failures + 1
                    }))
                    &&& r == Some(spec_put_status(n))
                }
            }
    } else {
        post == pre && r is None
    }
}

/// Exact relation of opening a replicated put of `record` under quorum
/// `q` against `targets`: a fresh round numbered `next_id` joins the set
/// with the quorum's exact requirement, one store request per target goes
/// out carrying the record, and the record lands in local storage (per
/// [`put_local_rel`]) exactly when the local node is at least as close to
/// the key as the farthest target, or no target exists.
pub open spec fn start_put_rel(
    pre: DiscoveryContext,
    post: DiscoveryContext,
    record: Record,
    q: Quorum,
    targets: Seq<PeerRecord>,
    pid: u64,
    acts: Seq<Action>,
) -> bool {
    &&& post.self_id == pre.self_id
    &&& post.k == pre.k
    &&& post.alpha == pre.alpha
    &&& post.query_deadline == pre.query_deadline
    &&& post.refresh_interval == pre.refresh_interval
    &&& post.table == pre.table
    &&& post.connections@ == pre.connections@
    &&& post.queries@ == pre.queries@
    &&& post.last_self_lookup == pre.last_self_lookup
    &&& pid == pre.next_id
    &&& post.next_id == (if pre.next_id == u64::MAX {
        0u64
    } else {
        (pre.next_id + 1) as u64
    })
    &&& post.puts@.len() == pre.puts@.len() + 1
    &&& (forall|i: int| 0 <= i < pre.puts@.len() ==> #[trigger] post.puts@[i] == pre.puts@[i])
    &&& {
        let op = post.puts@.last();
        &&& op.id == pid
        &&& op.round.targets == targets.len()
        &&& op.round.required as int == quorum_required(q, targets.len() as int)
        &&& op.round.acks == 0
        &&& op.round.failures == 0
        &&& op.round.pending == targets.len()
    }
    &&& acts.len() == targets.len()
    &&& (forall|i: int|
        0 <= i < targets.len() ==> ((#[trigger] acts[i]) matches Action::SendStore {
            put_id,
            to,
            record: rc,
        } && put_id == pid && to@ == targets[i]@ && rc@ == record@))
    &&& {
        let local = targets.len() == 0 || crate::ident::spec_dist_le(
            pre.self_id@,
            targets.last()@.peer,
            record@.key,
        );
        if local {
            exists|stored: bool| #[trigger] put_local_rel(pre.store@, post.store@, record@, stored)
        } else {
            post.store@ == pre.store@
        }
    }
}

/// Exact relation of one periodic tick at `now`: expired records are
/// purged (per [`sweep_rel`]), every query has its deadline enforced (per
/// [`deadline_rel`]), and once the refresh interval has passed and the
/// table holds anyone, a fresh self-lookup opens exactly as
/// [`self_lookup_rel`] describes its query and first round.
pub open spec fn tick_rel(
    pre: DiscoveryContext,
    post: DiscoveryContext,
    now: u64,
    acts: Seq<Action>,
) -> bool {
    let due = now as int >= (if pre.last_self_lookup as int + pre.refresh_interval as int
        <= u64::MAX as int {
        pre.last_self_lookup as int + pre.refresh_interval as int
    } else {
        u64::MAX as int
    });
    &&& post.self_id == pre.self_id
    &&& post.k == pre.k
    &&& post.alpha == pre.alpha
    &&& post.query_deadline == pre.query_deadline
    &&& post.refresh_interval == pre.refresh_interval
    &&& post.table == pre.table
    &&& post.connections@ == pre.connections@
    &&& post.puts@ == pre.puts@
    &&& sweep_rel(pre.store@, post.store@, now)
    &&& (forall|i: int|
        0 <= i < pre.queries@.len() ==> deadline_rel(
            #[trigger] pre.queries@[i],
            post.queries@[i],
            now,
        ))
    &&& (!due || all_recs(pre.table@).len() == 0 ==> {
        &&& post.queries@.len() == pre.queries@.len()
        &&& post.next_id == pre.next_id
        &&& post.last_self_lookup == pre.last_self_lookup
        &&& acts.len() == 0
    })
    &&& (due && all_recs(pre.table@).len() > 0 ==> {
        &&& post.queries@.len() == pre.queries@.len() + 1
        &&& post.next_id == (if pre.next_id == u64::MAX {
            0u64
        } else {
            (pre.next_id + 1) as u64
        })
        &&& post.last_self_lookup == now
        &&& {
            let nq = post.queries@.last();
            &&& nq.id == pre.next_id
            &&& nq.target@ == pre.self_id@
            &&& nq.count == pre.k
            &&& nq.alpha == pre.alpha
            &&& (exists|q0: LookupQuery, batch: Seq<PeerRecord>|
                #![trigger batch_rel(q0, nq, now, batch)]
                q0.phase == QueryPhase::Probing && batch_rel(q0, nq, now, batch)
                    && acts_find_closer(acts, pre.next_id, batch, pre.self_id@))
        }
    })
}

/// All mutable discovery state, owned by the scheduler and mutated only
/// while one event is handled.
#[verifier::ext_equal]
pub struct DiscoveryContext {
    pub self_id: PeerId,
    pub k: usize,
    pub alpha: usize,
    pub query_deadline: u64,
    pub refresh_interval: u64,
    pub table: RoutingTable,
    pub store: RecordStore,
    pub queries: Vec<LookupQuery>,
    pub puts: Vec<PutOp>,
    pub connections: Vec<ConnectionRecord>,
    pub next_id: u64,
    pub last_self_lookup: u64,
}

impl DiscoveryContext {
    /// Invariant of the whole discovery state.
    pub open spec fn wf(&self) -> bool {
        &&& self.self_id.wf()
        &&& self.k >= 1
        &&& self.alpha >= 1
        &&& self.table.wf()
        &&& self.table@.self_id == self.self_id@
        &&& self.store.wf()
        &&& forall|i: int| 0 <= i < self.queries@.len() ==> (#[trigger] self.queries@[i]).wf()
        &&& forall|i: int| 0 <= i < self.puts@.len() ==> (#[trigger] self.puts@[i]).round.wf()
        &&& forall|i: int|
            0 <= i < self.connections@.len() ==> (#[trigger] self.connections@[i]).peer@.len()
                == ID_BYTES
    }

    /// Fresh discovery state around one identity.
    pub fn new(self_id: PeerId, k: usize, alpha: usize, query_deadline: u64, refresh_interval: u64)
        -> (r: DiscoveryContext)
        requires
            self_id.wf(),
            k >= 1,
            alpha >= 1,
        ensures
            r.wf(),
            r.self_id == self_id,
            r.k == k,
            r.alpha == alpha,
            r.query_deadline == query_deadline,
            r.refresh_interval == refresh_interval,
            r.table@.self_id == self_id@,
            r.table@.k == k as int,
            r.connections@.len() == 0,
            r.queries@.len() == 0,
            r.puts@.len() == 0,
            r.store@.len() == 0,
            r.next_id == 0,
            r.last_self_lookup == 0,
    {
        let table = RoutingTable::new(self_id.clone(), k);
        DiscoveryContext {
            self_id,
            k,
            alpha,
            query_deadline,
            refresh_interval,
            table,
            store: RecordStore::new(),
            queries: Vec::new(),
            puts: Vec::new(),
            connections: Vec::new(),
            next_id: 0,
            last_self_lookup: 0,
        }
    }

    /// A connection to `peer` came up at `addr`: the peer enters (or
    /// refreshes) the routing table, a connection record is created, and —
    /// when other connections are already live — the full connected-peer
    /// address set is pushed to the newcomer to speed mutual discovery.
    pub fn on_connection_established(&mut self, peer: &PeerId, addr: Address, now: u64) -> (r: (
        InsertOutcome,
        Vec<Action>,
    ))
        requires
            old(self).wf(),
            peer.wf(),
        ensures
            final(self).wf(),
            insert_rel(
                old(self).table@,
                final(self).table@,
                peer@,
                addr_views(seq![addr]),
                now,
                r.0,
            ),
            final(self).store@ == old(self).store@,
            final(self).queries@ == old(self).queries@,
            final(self).puts@ == old(self).puts@,
            final(self).next_id == old(self).next_id,
            final(self).last_self_lookup == old(self).last_self_lookup,
            // the connection record of the new session, appended
            final(self).connections@.len() == old(self).connections@.len() + 1,
            (forall|i: int|
                0 <= i < old(self).connections@.len() ==> #[trigger] final(self).connections@[i]
                    == old(self).connections@[i]),
            final(self).connections@.last().peer@ == peer@,
            final(self).connections@.last().established_at == now,
            final(self).connections@.last().addr@ == addr@,
            // the mutual-discovery push: exactly when other sessions were live
            (old(self).connections@.len() == 0 ==> r.1@.len() == 0),
            (old(self).connections@.len() > 0 ==> r.1@.len() == 1 && (r.1@[0]
                matches Action::PushAddresses { to, peers } && to@ == peer@ && peers@.len()
                == final(self).connections@.len() && (forall|i: int|
                0 <= i < peers@.len() ==> (#[trigger] peers@[i])@.peer == final(self).connections@[i].peer@ && peers@[i]@.addrs == seq![
                    final(self).connections@[i].addr@,
                ]))),
    {
        let mut one = Vec::new();
        one.push(addr.clone());
        let outcome = self.table.insert_or_update(peer, &one, now);
        proof {
            assert(addr_views(one@) =~= addr_views(seq![addr]));
        }
        let had_others = self.connections.len() > 0;
        let rec = ConnectionRecord { peer: peer.clone(), established_at: now, addr };
        self.connections.push(rec);
        let mut acts: Vec<Action> = Vec::new();
        if had_others {
            let peers = self.connected_peer_records();
            acts.push(Action::PushAddresses { to: peer.clone(), peers });
        }
        (outcome, acts)
    }

    /// The address records of every connected peer, in session order.
    fn connected_peer_records(&self) -> (r: Vec<PeerRecord>)
        requires
            self.wf(),
        ensures
            r@.len() == self.connections@.len(),
            forall|i: int|
                0 <= i < r@.len() ==> (#[trigger] r@[i])@.peer == self.connections@[i].peer@
                    && r@[i]@.addrs == seq![self.connections@[i].addr@],
    {
        let mut out: Vec<PeerRecord> = Vec::new();
        let mut i: usize = 0;
        while i < self.connections.len()
            invariant
                self.wf(),
                i <= self.connections@.len(),
                out@.len() == i,
                forall|j: int|
                    0 <= j < i ==> (#[trigger] out@[j])@.peer == self.connections@[j].peer@
                        && out@[j]@.addrs == seq![self.connections@[j].addr@],
            decreases self.connections@.len() - i,
        {
            let c = &self.connections[i];
            let mut addrs: Vec<Address> = Vec::new();
            addrs.push(c.addr.clone());
            out.push(PeerRecord { peer: c.peer.clone(), addrs });
            proof {
                assert((out@[i as int])@.addrs =~= seq![self.connections@[i as int].addr@]);
            }
            i = i + 1;
        }
        out
    }

    /// A connection to `peer` closed: its connection record goes away, and
    /// the routing table keeps the peer exactly as it was — routing
    /// membership does not follow session membership.
    pub fn on_connection_closed(&mut self, peer: &PeerId)
        requires
            old(self).wf(),
            peer.wf(),
        ensures
            final(self).wf(),
            final(self).table == old(self).table,
            final(self).store@ == old(self).store@,
            forall|i: int|
                0 <= i < final(self).connections@.len() ==> (#[trigger] final(self).connections@[i]).peer@ != peer@,
            forall|i: int|
                0 <= i < old(self).connections@.len() && (#[trigger] old(self).connections@[i]).peer@ != peer@ ==> exists|j: int|
                    0 <= j < final(self).connections@.len() && (#[trigger] final(self).connections@[j]).peer@ == old(self).connections@[i].peer@,
    {
        let ghost pre = self.connections@;
        let mut out: Vec<ConnectionRecord> = Vec::new();
        let mut i: usize = 0;
        while i < self.connections.len()
            invariant
                old(self).wf(),
                peer.wf(),
                *self == *old(self),
                pre == self.connections@,
                i <= pre.len(),
                forall|j: int|
                    0 <= j < out@.len() ==> (#[trigger] out@[j]).peer@ != peer@ && out@[j].peer@.len()
                        == ID_BYTES,
                forall|j: int|
                    0 <= j < i && (#[trigger] pre[j]).peer@ != peer@ ==> exists|j2: int|
                        0 <= j2 < out@.len() && (#[trigger] out@[j2]).peer@ == pre[j].peer@,
            decreases pre.len() - i,
        {
            let c = &self.connections[i];
            let ghost pre_out = out@;
            let same = peer_eq(&c.peer, peer);
            if !same {
                let kept = ConnectionRecord {
                    peer: c.peer.clone(),
                    established_at: c.established_at,
                    addr: c.addr.clone(),
                };
                out.push(kept);
            }
            proof {
                if !same {
                    assert(out@ == pre_out.push(out@[pre_out.len() as int]));
                    assert(out@[pre_out.len() as int].peer@ == pre[i as int].peer@);
                    assert forall|j: int| 0 <= j < out@.len() implies (#[trigger] out@[j]).peer@
                        != peer@ && out@[j].peer@.len() == ID_BYTES by {
                        if j < pre_out.len() {
                            assert(out@[j] == pre_out[j]);
                        }
                    }
                }
                assert forall|j: int|
                    0 <= j < i + 1 && (#[trigger] pre[j]).peer@ != peer@ implies exists|j2: int|
                    0 <= j2 < out@.len() && (#[trigger] out@[j2]).peer@ == pre[j].peer@ by {
                    if j < i as int {
                        let jw = choose|j2: int|
                            0 <= j2 < pre_out.len() && (#[trigger] pre_out[j2]).peer@
                                == pre[j].peer@;
                        assert(out@[jw].peer@ == pre[j].peer@);
                    } else {
                        assert(out@[pre_out.len() as int].peer@ == pre[j].peer@);
                    }
                }
            }
            i = i + 1;
        }
        self.connections = out;
    }

    /// Addresses learned from a peer-metadata exchange: the peer enters or
    /// refreshes the routing table, and a piggyback bootstrap lookup is
    /// opened towards the local identifier to pull the sender's routing
    /// neighbourhood into the table. Handling the same event twice leaves
    /// the same routing table as handling it once
    /// ([`lemma_metadata_reprocess_idempotent`]).
    pub fn on_peer_metadata(&mut self, peer: &PeerId, addrs: &Vec<Address>, now: u64) -> (r: (
        InsertOutcome,
        Vec<Action>,
    ))
        requires
            old(self).wf(),
            peer.wf(),
        ensures
            final(self).wf(),
            insert_rel(old(self).table@, final(self).table@, peer@, addr_views(addrs@), now, r.0),
            final(self).store@ == old(self).store@,
            final(self).connections@ == old(self).connections@,
            self_lookup_rel(
                (DiscoveryContext { table: final(self).table, ..*old(self) }),
                *final(self),
                now,
                r.1@,
            ),
    {
        let outcome = self.table.insert_or_update(peer, addrs, now);
        let ghost mid_ctx = *self;
        let acts = self.start_self_lookup(now);
        proof {
            assert(insert_rel(old(self).table@, mid_ctx.table@, peer@, addr_views(addrs@), now, outcome)
                && self_lookup_rel(mid_ctx, *self, now, acts@));
            assert(mid_ctx =~= (DiscoveryContext { table: self.table, ..*old(self) }));
        }
        (outcome, acts)
    }

    /// Opens a bootstrap-style lookup towards the local identifier, seeded
    /// from the routing table; returns the RPCs of its first round. With
    /// an empty table nothing happens and nothing is asked. The whole
    /// effect is pinned by [`self_lookup_rel`].
    pub fn start_self_lookup(&mut self, now: u64) -> (acts: Vec<Action>)
        requires
            old(self).wf(),
        ensures
            final(self).wf(),
            self_lookup_rel(*old(self), *final(self), now, acts@),
    {
        let target = self.self_id.bytes.clone();
        proof {
            assert(target@ =~= self.self_id@);
        }
        let seeds = self.table.closest(&target, self.k);
        if seeds.len() == 0 {
            proof {
                assert(all_recs(self.table@).len() == 0);
            }
            return Vec::new();
        }
        let ghost seeds_views = rec_views(seeds@);
        let qid = self.next_id;
        self.next_id = if self.next_id == u64::MAX {
            0
        } else {
            self.next_id + 1
        };
        let deadline = now.saturating_add(self.query_deadline);
        let target2 = self.self_id.bytes.clone();
        proof {
            assert(target2@ =~= self.self_id@);
        }
        match LookupQuery::new(qid, target2, seeds, self.k, self.alpha, deadline) {
            Ok(mut q) => {
                let ghost q0 = q;
                let batch = q.next_batch(now);
                let mut acts: Vec<Action> = Vec::new();
                let mut i: usize = 0;
                while i < batch.len()
                    invariant
                        q.wf(),
                        i <= batch@.len(),
                        acts@.len() == i,
                        self.self_id@ == old(self).self_id@,
                        forall|b: int|
                            0 <= b < i ==> ((#[trigger] acts@[b]) matches Action::SendFindCloser {
                                query_id,
                                to,
                                target,
                            } && query_id == qid && to@ == batch@[b]@ && target@ == self.self_id@),
                    decreases batch@.len() - i,
                {
                    let target3 = self.self_id.bytes.clone();
                    proof {
                        assert(target3@ =~= self.self_id@);
                    }
                    acts.push(Action::SendFindCloser {
                        query_id: qid,
                        to: batch[i].clone(),
                        target: target3,
                    });
                    i = i + 1;
                }
                self.queries.push(q);
                self.last_self_lookup = now;
                proof {
                    let pre_ctx = *old(self);
                    let sm = choose|sm: Seq<PeerRecV>|
                        #![auto]
                        {
                            &&& sm.to_multiset() == all_recs(pre_ctx.table@).to_multiset()
                            &&& sorted_wrt(sm, pre_ctx.self_id@)
                            &&& seeds_views == sm.take(seeds_views.len() as int)
                        };
                    assert(self.queries@.last() == q);
                    assert(acts_find_closer(acts@, qid, batch@, pre_ctx.self_id@));
                    assert(seeds_views.len() as int == if pre_ctx.k as int <= sm.len() {
                        pre_ctx.k as int
                    } else {
                        sm.len() as int
                    }) by {
                        vstd::seq_lib::to_multiset_len(sm);
                        vstd::seq_lib::to_multiset_len(all_recs(pre_ctx.table@));
                        assert(sm.len() == all_recs(pre_ctx.table@).len());
                    }
                    assert(covers_peers(cand_views(q0.candidates@), sm.take(seeds_views.len() as int)));
                    assert(cands_from(cand_views(q0.candidates@), sm.take(seeds_views.len() as int)));
                }
                acts
            },
            Err(_) => {
                proof {
                    assert(false);
                }
                Vec::new()
            },
        }
    }

    /// A find-closer-peers response re-enters the loop: every returned
    /// record is folded into the routing table, the query it belongs to
    /// takes the response (late or unknown responses are dropped), and the
    /// query's next round goes out. The whole effect is pinned by
    /// [`closer_peers_rel`].
    pub fn on_closer_peers(
        &mut self,
        query_id: u64,
        from: &PeerId,
        peers: &Vec<PeerRecord>,
        now: u64,
    ) -> (acts: Vec<Action>)
        requires
            old(self).wf(),
            from.wf(),
            recs_wf(rec_views(peers@)),
        ensures
            final(self).wf(),
            closer_peers_rel(
                *old(self),
                *final(self),
                query_id,
                from@,
                rec_views(peers@),
                now,
                acts@,
            ),
    {
        let ghost pv = rec_views(peers@);
        // Fold every learned peer into the routing table.
        proof {
            assert(pv.take(0) =~= Seq::<PeerRecV>::empty());
        }
        let mut k: usize = 0;
        while k < peers.len()
            invariant
                self.wf(),
                from.wf(),
                recs_wf(rec_views(peers@)),
                pv == rec_views(peers@),
                k <= peers@.len(),
                table_absorbs(old(self).table@, self.table@, pv.take(k as int), now),
                self.store == old(self).store,
                self.connections@ == old(self).connections@,
                self.queries@ == old(self).queries@,
                self.next_id == old(self).next_id,
                self.last_self_lookup == old(self).last_self_lookup,
                self.self_id == old(self).self_id,
                self.k == old(self).k,
                self.alpha == old(self).alpha,
                self.query_deadline == old(self).query_deadline,
                self.refresh_interval == old(self).refresh_interval,
                self.puts@ == old(self).puts@,
            decreases peers@.len() - k,
        {
            let p = &peers[k];
            proof {
                assert(pv[k as int] == peers@[k as int]@);
            }
            let ghost t_mid = self.table@;
            let outcome = self.table.insert_or_update(&p.peer, &p.addrs, now);
            proof {
                lemma_table_absorbs_snoc(
                    old(self).table@,
                    t_mid,
                    self.table@,
                    pv.take(k as int),
                    pv[k as int],
                    now,
                    outcome,
                );
                assert(pv.take(k + 1) =~= pv.take(k as int).push(pv[k as int]));
            }
            k = k + 1;
        }
        proof {
            assert(pv.take(peers@.len() as int) =~= pv);
        }
        // Hand the response to its query and send the next round.
        let mut qi: usize = 0;
        let mut acts: Vec<Action> = Vec::new();
        while qi < self.queries.len()
            invariant
                self.wf(),
                from.wf(),
                recs_wf(rec_views(peers@)),
                pv == rec_views(peers@),
                qi <= self.queries@.len(),
                acts@.len() == 0,
                table_absorbs(old(self).table@, self.table@, pv, now),
                self.store == old(self).store,
                self.connections@ == old(self).connections@,
                self.queries@ == old(self).queries@,
                self.next_id == old(self).next_id,
                self.last_self_lookup == old(self).last_self_lookup,
                self.self_id == old(self).self_id,
                self.k == old(self).k,
                self.alpha == old(self).alpha,
                self.query_deadline == old(self).query_deadline,
                self.refresh_interval == old(self).refresh_interval,
                self.puts@ == old(self).puts@,
                forall|j: int| 0 <= j < qi ==> (#[trigger] self.queries@[j]).id != query_id,
            decreases self.queries@.len() - qi,
        {
            let is_it = self.queries[qi].id == query_id;
            if is_it {
                let ghost q_pre = self.queries@[qi as int];
                let ghost pre_qs = self.queries@;
                let mut q = self.queries.remove(qi);
                let accepted = q.on_response(from, peers);
                let ghost q1 = q;
                let batch = q.next_batch(now);
                let target = q.target.clone();
                proof {
                    assert(target@ =~= q.target@);
                    assert(q.target == q_pre.target);
                }
                let mut b: usize = 0;
                while b < batch.len()
                    invariant
                        q.wf(),
                        b <= batch@.len(),
                        acts@.len() == b,
                        target@ == q_pre.target@,
                        forall|b2: int|
                            0 <= b2 < b ==> ((#[trigger] acts@[b2]) matches Action::SendFindCloser {
                                query_id: qid2,
                                to,
                                target: t2,
                            } && qid2 == query_id && to@ == batch@[b2]@ && t2@ == q_pre.target@),
                    decreases batch@.len() - b,
                {
                    let t2 = target.clone();
                    proof {
                        assert(t2@ =~= target@);
                    }
                    acts.push(Action::SendFindCloser {
                        query_id,
                        to: batch[b].clone(),
                        target: t2,
                    });
                    b = b + 1;
                }
                self.queries.insert(qi, q);
                proof {
                    assert(self.queries@ =~= pre_qs.update(qi as int, q));
                    assert forall|j: int|
                        0 <= j < pre_qs.len() && j != qi as int implies #[trigger] self.queries@[j]
                        == pre_qs[j] by {}
                    assert(acts_find_closer(acts@, query_id, batch@, q_pre.target@));
                    assert(response_rel(q_pre, q1, from@, pv, accepted));
                    assert(batch_rel(q1, self.queries@[qi as int], now, batch@));
                    assert((qi as int) < pre_qs.len() && pre_qs[qi as int].id == query_id);
                }
                return acts;
            }
            qi = qi + 1;
        }
        acts
    }

    /// An RPC against `from` timed out: the peer's liveness score drops
    /// (repeated timeouts evict it), the query it belongs to books the
    /// timeout, and the query's next round goes out. The whole effect is
    /// pinned by [`rpc_timeout_rel`].
    pub fn on_rpc_timeout(&mut self, query_id: u64, from: &PeerId, now: u64) -> (acts: Vec<Action>)
        requires
            old(self).wf(),
            from.wf(),
        ensures
            final(self).wf(),
            rpc_timeout_rel(*old(self), *final(self), query_id, from@, now, acts@),
    {
        let fo = self.table.record_failure(from);
        proof {
            assert(failure_rel(old(self).table@, self.table@, from@, fo));
        }
        let mut qi: usize = 0;
        let mut acts: Vec<Action> = Vec::new();
        while qi < self.queries.len()
            invariant
                self.wf(),
                from.wf(),
                qi <= self.queries@.len(),
                acts@.len() == 0,
                failure_rel(old(self).table@, self.table@, from@, fo),
                self.store == old(self).store,
                self.connections@ == old(self).connections@,
                self.queries@ == old(self).queries@,
                self.next_id == old(self).next_id,
                self.last_self_lookup == old(self).last_self_lookup,
                self.self_id == old(self).self_id,
                self.k == old(self).k,
                self.alpha == old(self).alpha,
                self.query_deadline == old(self).query_deadline,
                self.refresh_interval == old(self).refresh_interval,
                self.puts@ == old(self).puts@,
                forall|j: int| 0 <= j < qi ==> (#[trigger] self.queries@[j]).id != query_id,
            decreases self.queries@.len() - qi,
        {
            let is_it = self.queries[qi].id == query_id;
            if is_it {
                let ghost q_pre = self.queries@[qi as int];
                let ghost pre_qs = self.queries@;
                let mut q = self.queries.remove(qi);
                let known = q.on_rpc_timeout(from);
                let ghost q1 = q;
                let batch = q.next_batch(now);
                let target = q.target.clone();
                proof {
                    assert(target@ =~= q.target@);
                    assert(q.target == q_pre.target);
                }
                let mut b: usize = 0;
                while b < batch.len()
                    invariant
                        q.wf(),
                        b <= batch@.len(),
                        acts@.len() == b,
                        target@ == q_pre.target@,
                        forall|b2: int|
                            0 <= b2 < b ==> ((#[trigger] acts@[b2]) matches Action::SendFindCloser {
                                query_id: qid2,
                                to,
                                target: t2,
                            } && qid2 == query_id && to@ == batch@[b2]@ && t2@ == q_pre.target@),
                    decreases batch@.len() - b,
                {
                    let t2 = target.clone();
                    proof {
                        assert(t2@ =~= target@);
                    }
                    acts.push(Action::SendFindCloser {
                        query_id,
                        to: batch[b].clone(),
                        target: t2,
                    });
                    b = b + 1;
                }
                self.queries.insert(qi, q);
                proof {
                    assert(self.queries@ =~= pre_qs.update(qi as int, q));
                    assert forall|j: int|
                        0 <= j < pre_qs.len() && j != qi as int implies #[trigger] self.queries@[j]
                        == pre_qs[j] by {}
                    assert(acts_find_closer(acts@, query_id, batch@, q_pre.target@));
                    assert(timeout_note_rel(old(self).queries@[qi as int], q1, from@, known));
                    assert(batch_rel(q1, self.queries@[qi as int], now, batch@));
                    assert((qi as int) < pre_qs.len() && pre_qs[qi as int].id == query_id);
                    assert(self.queries@.len() == old(self).queries@.len());
                    assert((#[trigger] old(self).queries@[qi as int]).id == query_id);
                    assert(exists|qi2: int|
                        0 <= qi2 < old(self).queries@.len() && (#[trigger] old(self).queries@[qi2]).id == query_id);
                    assert(failure_rel(old(self).table@, self.table@, from@, fo));
                    assert(exists|fo2: FailureOutcome| #[trigger] failure_rel(
                        old(self).table@,
                        self.table@,
                        from@,
                        fo2,
                    ));
                    assert(acts_find_closer(acts@, query_id, batch@, old(self).queries@[qi as int].target@));
                    assert(forall|j: int|
                        0 <= j < qi as int ==> (#[trigger] old(self).queries@[j]).id != query_id);
                    assert(forall|j: int|
                        0 <= j < old(self).queries@.len() && j != qi as int
                            ==> #[trigger] self.queries@[j] == old(self).queries@[j]);
                    assert(rpc_timeout_rel(*old(self), *self, query_id, from@, now, acts@));
                }
                return acts;
            }
            qi = qi + 1;
        }
        acts
    }

    /// Replicates `record` to `targets` (the closest peers a lookup
    /// found) under quorum `q`, and to local storage when the local node
    /// is at least as close to the key as the farthest target (or no
    /// target exists). Acknowledgements are booked against the returned
    /// put id through [`Self::on_store_ack`] and [`Self::on_store_nack`].
    /// Callers hash keys to identifier width before storing; the whole
    /// effect is pinned by [`start_put_rel`].
    pub fn start_put(&mut self, record: Record, q: Quorum, targets: Vec<PeerRecord>) -> (r: (
        u64,
        Vec<Action>,
    ))
        requires
            old(self).wf(),
            record.key@.len() == ID_BYTES,
            recs_wf(rec_views(targets@)),
        ensures
            final(self).wf(),
            start_put_rel(*old(self), *final(self), record, q, targets@, r.0, r.1@),
    {
        let pid = self.next_id;
        self.next_id = if self.next_id == u64::MAX {
            0
        } else {
            self.next_id + 1
        };
        let store_locally = if targets.len() == 0 {
            true
        } else {
            proof {
                assert(rec_views(targets@)[targets@.len() - 1] == targets@[targets@.len() - 1]@);
            }
            dist_le(&self.self_id, &targets[targets.len() - 1].peer, &record.key)
        };
        let record2 = record.clone();
        let ghost mut g_stored: bool = false;
        if store_locally {
            let local = record.clone();
            let stored = self.store.put_local(local);
            proof {
                g_stored = stored;
                assert(put_local_rel(old(self).store@, self.store@, record@, stored));
            }
        }
        let round = PutRound::new(q, targets.len());
        self.puts.push(PutOp { id: pid, round });
        let ghost pre_puts = old(self).puts@;
        proof {
            assert(self.puts@ =~= pre_puts.push(self.puts@.last()));
        }
        let mut acts: Vec<Action> = Vec::new();
        let mut i: usize = 0;
        while i < targets.len()
            invariant
                i <= targets@.len(),
                acts@.len() == i,
                record2@ == record@,
                forall|b: int|
                    0 <= b < i ==> ((#[trigger] acts@[b]) matches Action::SendStore {
                        put_id,
                        to,
                        record: rc,
                    } && put_id == pid && to@ == targets@[b]@ && rc@ == record@),
            decreases targets@.len() - i,
        {
            let rc = record2.clone();
            acts.push(Action::SendStore { put_id: pid, to: targets[i].clone(), record: rc });
            i = i + 1;
        }
        proof {
            if store_locally {
                assert(put_local_rel(old(self).store@, self.store@, record@, g_stored));
            }
            assert(start_put_rel(*old(self), *self, record, q, targets@, pid, acts@));
        }
        (pid, acts)
    }

    /// Books one acknowledgement for the put round `put_id` and reports
    /// its status: success the moment the quorum is reached. The whole
    /// effect is pinned by [`store_vote_rel`].
    pub fn on_store_ack(&mut self, put_id: u64) -> (r: Option<PutStatus>)
        requires
            old(self).wf(),
        ensures
            final(self).wf(),
            store_vote_rel(*old(self), *final(self), put_id, true, r),
    {
        self.store_vote(put_id, true)
    }

    /// Books one refusal or unreachable target for the put round `put_id`
    /// and reports its status: a structured achieved-versus-required
    /// failure once every target answered short of the quorum. The whole
    /// effect is pinned by [`store_vote_rel`].
    pub fn on_store_nack(&mut self, put_id: u64) -> (r: Option<PutStatus>)
        requires
            old(self).wf(),
        ensures
            final(self).wf(),
            store_vote_rel(*old(self), *final(self), put_id, false, r),
    {
        self.store_vote(put_id, false)
    }

    /// Books one answer for the put round carrying `put_id`.
    fn store_vote(&mut self, put_id: u64, ack: bool) -> (r: Option<PutStatus>)
        requires
            old(self).wf(),
        ensures
            final(self).wf(),
            store_vote_rel(*old(self), *final(self), put_id, ack, r),
    {
        let mut i: usize = 0;
        while i < self.puts.len()
            invariant
                self.wf(),
                i <= self.puts@.len(),
                *self == *old(self),
                forall|j: int| 0 <= j < i ==> (#[trigger] self.puts@[j]).id != put_id,
            decreases self.puts@.len() - i,
        {
            let is_it = self.puts[i].id == put_id;
            if is_it {
                let ghost pre_puts = self.puts@;
                let mut op = self.puts.remove(i);
                let ghost o = op.round;
                if op.round.pending > 0 {
                    if ack {
                        op.round.on_ack();
                    } else {
                        op.round.on_failure();
                    }
                }
                let st = op.round.status();
                self.puts.insert(i, op);
                proof {
                    assert(self.puts@ =~= pre_puts.update(i as int, self.puts@[i as int]));
                    assert((#[trigger] old(self).puts@[i as int]).id == put_id);
                    assert(self.puts@[i as int].round == op.round);
                    assert(forall|j: int|
                        0 <= j < pre_puts.len() && j != i as int ==> #[trigger] self.puts@[j]
                            == pre_puts[j]);
                    assert(store_vote_rel(*old(self), *self, put_id, ack, Some(st)));
                }
                return Some(st);
            }
            i = i + 1;
        }
        None
    }

    /// A periodic tick at `now`: expired records are purged, query
    /// deadlines are enforced, and once the refresh interval has passed a
    /// fresh self-lookup counteracts routing-table staleness. The whole
    /// effect is pinned by [`tick_rel`].
    pub fn on_tick(&mut self, now: u64) -> (acts: Vec<Action>)
        requires
            old(self).wf(),
        ensures
            final(self).wf(),
            tick_rel(*old(self), *final(self), now, acts@),
    {
        self.store.sweep(now);
        let ghost pre_qs = old(self).queries@;
        let mut qi: usize = 0;
        while qi < self.queries.len()
            invariant
                self.wf(),
                qi <= self.queries@.len(),
                pre_qs == old(self).queries@,
                self.queries@.len() == pre_qs.len(),
                self.self_id == old(self).self_id,
                self.k == old(self).k,
                self.alpha == old(self).alpha,
                self.query_deadline == old(self).query_deadline,
                self.refresh_interval == old(self).refresh_interval,
                self.table == old(self).table,
                sweep_rel(old(self).store@, self.store@, now),
                self.store.wf(),
                self.connections@ == old(self).connections@,
                self.puts@ == old(self).puts@,
                self.next_id == old(self).next_id,
                self.last_self_lookup == old(self).last_self_lookup,
                forall|i: int|
                    0 <= i < qi ==> deadline_rel(#[trigger] pre_qs[i], self.queries@[i], now),
                forall|i: int| qi <= i < pre_qs.len() ==> #[trigger] self.queries@[i] == pre_qs[i],
            decreases self.queries@.len() - qi,
        {
            let ghost before = self.queries@;
            let mut qy = self.queries.remove(qi);
            qy.check_deadline(now);
            self.queries.insert(qi, qy);
            proof {
                assert(self.queries@ =~= before.update(qi as int, qy));
            }
            qi = qi + 1;
        }
        let due = now >= self.last_self_lookup.saturating_add(self.refresh_interval);
        if due {
            let ghost mid = *self;
            let acts = self.start_self_lookup(now);
            proof {
                if all_recs(old(self).table@).len() > 0 {
                    let (sm, q0, batch) = choose|sm: Seq<PeerRecV>, q0: LookupQuery, batch: Seq<
                        PeerRecord,
                    >|
                        #![auto]
                        {
                            &&& sm.to_multiset() == all_recs(mid.table@).to_multiset()
                            &&& sorted_wrt(sm, mid.self_id@)
                            &&& q0.phase == QueryPhase::Probing
                            &&& covers_peers(
                                cand_views(q0.candidates@),
                                sm.take(
                                    if mid.k as int <= sm.len() {
                                        mid.k as int
                                    } else {
                                        sm.len() as int
                                    },
                                ),
                            )
                            &&& cands_from(
                                cand_views(q0.candidates@),
                                sm.take(
                                    if mid.k as int <= sm.len() {
                                        mid.k as int
                                    } else {
                                        sm.len() as int
                                    },
                                ),
                            )
                            &&& batch_rel(q0, self.queries@.last(), now, batch)
                            &&& acts_find_closer(acts@, mid.next_id, batch, mid.self_id@)
                        };
                    assert(q0.phase == QueryPhase::Probing && batch_rel(
                        q0,
                        self.queries@.last(),
                        now,
                        batch,
                    ) && acts_find_closer(acts@, old(self).next_id, batch, old(self).self_id@));
                }
                assert forall|i: int| 0 <= i < pre_qs.len() implies deadline_rel(
                    #[trigger] pre_qs[i],
                    self.queries@[i],
                    now,
                ) by {
                    assert(self.queries@[i] == mid.queries@[i]);
                }
            }
            acts
        } else {
            Vec::new()
        }
    }

    /// Number of queries currently tracked    /// Number of queries currently tracked, for operator observability.
    pub fn query_count(&self) -> (r: usize)
        ensures
            r == self.queries@.len(),
    {
        self.queries.len()
    }

    /// When the last self-lookup was opened, for operator observability.
    pub fn last_refresh(&self) -> (r: u64)
        ensures
            r == self.last_self_lookup,
    {
        self.last_self_lookup
    }
}

/// Re-processing the same peer-metadata event twice yields the same
/// routing table as processing it once: the second insert finds the peer
/// fresh and merges nothing new.
pub proof fn lemma_metadata_reprocess_idempotent(
    t0: TableV,
    t1: TableV,
    t2: TableV,
    peer: Seq<u8>,
    av: Seq<AddrV>,
    now: u64,
    r1: InsertOutcome,
    r2: InsertOutcome,
)
    requires
        table_wf(t0),
        table_wf(t1),
        peer.len() == ID_BYTES,
        insert_rel(t0, t1, peer, av, now, r1),
        insert_rel(t1, t2, peer, av, now, r2),
    ensures
        t2 == t1,
{
    lemma_insert_idempotent(t0, t1, t2, peer, av, now, r1, r2);
}

} // verus!
