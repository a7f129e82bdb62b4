//! The iterative closest-peer lookup engine.
//!
//! A query keeps a candidate list ordered by ascending distance from its
//! target, distinct by peer. Rounds pick up to `alpha` unqueried candidates
//! closest to the target, send them a find-closer-peers RPC (dispatched by
//! the caller), and merge whatever peers come back. A peer is never queried
//! twice. The query converges when its `count` closest candidates have all
//! been queried and nothing is in flight; a query-wide deadline turns it
//! into a timeout with partial results; cancellation stops it at once.

use vstd::prelude::*;

use crate::addr::AddrV;
use crate::addr::addr_views;
use crate::ident::ID_BYTES;
use crate::ident::PeerId;
use crate::ident::dist_le;
use crate::ident::peer_eq;
use crate::ident::spec_dist_le;
use crate::table::PeerRecV;
use crate::table::PeerRecord;
use crate::table::rec_views;
use crate::table::recs_wf;
use crate::table::sorted_wrt;

verus! {

/// One candidate of a query: a peer record and whether an RPC was already
/// sent to it.
pub struct Candidate {
    pub rec: PeerRecord,
    pub queried: bool,
}

/// Mathematical value of a [`Candidate`].
#[verifier::ext_equal]
pub ghost struct CandV {
    pub peer: Seq<u8>,
    pub addrs: Seq<AddrV>,
    pub queried: bool,
}

impl View for Candidate {
    type V = CandV;

    open spec fn view(&self) -> CandV {
        CandV { peer: self.rec.peer@, addrs: addr_views(self.rec.addrs@), queried: self.queried }
    }
}

/// Values of a sequence of candidates.
pub open spec fn cand_views(s: Seq<Candidate>) -> Seq<CandV> {
    s.map_values(|c: Candidate| c@)
}

/// Phase of a query: probing until it converges, times out or is
/// cancelled.
#[derive(Clone, Copy, PartialEq, Eq, Structural, Debug)]
pub enum QueryPhase {
    Probing,
    Converged,
    TimedOut,
    Cancelled,
}

/// Why a lookup could not start.
#[derive(Clone, Copy, PartialEq, Eq, Structural, Debug)]
pub enum LookupError {
    /// Neither the routing table nor the bootstrap configuration supplied
    /// a single peer to ask.
    NoKnownPeers,
}

/// One iterative lookup in progress.
pub struct LookupQuery {
    pub id: u64,
    pub target: Vec<u8>,
    pub count: usize,
    pub alpha: usize,
    pub deadline: u64,
    pub phase: QueryPhase,
    pub candidates: Vec<Candidate>,
    pub in_flight: Vec<PeerId>,
}

/// Candidates ordered by ascending distance from `t`.
pub open spec fn cands_sorted(s: Seq<CandV>, t: Seq<u8>) -> bool {
    forall|i: int, j: int|
        0 <= i < j < s.len() ==> spec_dist_le((#[trigger] s[i]).peer, (#[trigger] s[j]).peer, t)
}

/// Every record of `recs` has its peer among the candidates `cands`.
pub open spec fn covers_peers(cands: Seq<CandV>, recs: Seq<PeerRecV>) -> bool {
    forall|j: int|
        #![trigger recs[j]]
        0 <= j < recs.len() ==> exists|i: int|
            #![trigger cands[i]]
            0 <= i < cands.len() && cands[i].peer == recs[j].peer
}

/// Every candidate is one of the given records: its peer and its address
/// list both come from `recs`.
pub open spec fn cands_from(cands: Seq<CandV>, recs: Seq<PeerRecV>) -> bool {
    forall|i: int|
        #![trigger cands[i]]
        0 <= i < cands.len() ==> recs.contains(
            PeerRecV { peer: cands[i].peer, addrs: cands[i].addrs },
        )
}

/// Candidates distinct by peer and with well-formed identifiers.
pub open spec fn cands_ok(s: Seq<CandV>) -> bool {
    &&& forall|i: int| 0 <= i < s.len() ==> (#[trigger] s[i]).peer.len() == ID_BYTES
    &&& forall|i: int, j: int|
        0 <= i < j < s.len() ==> (#[trigger] s[i]).peer != (#[trigger] s[j]).peer
}

/// Every candidate value of `pre` (peer, addresses and queried mark
/// alike) still stands somewhere in `post`.
pub open spec fn preserves_cands(pre: Seq<CandV>, post: Seq<CandV>) -> bool {
    forall|i: int| 0 <= i < pre.len() ==> post.contains(#[trigger] pre[i])
}

/// A candidate list preserves itself.
pub proof fn lemma_preserves_cands_refl(s: Seq<CandV>)
    ensures
        preserves_cands(s, s),
{
    assert forall|i: int| 0 <= i < s.len() implies s.contains(#[trigger] s[i]) by {
        assert(s[i] == s[i]);
    }
}

/// Candidate preservation is transitive.
pub proof fn lemma_preserves_cands_trans(a: Seq<CandV>, b: Seq<CandV>, c: Seq<CandV>)
    requires
        preserves_cands(a, b),
        preserves_cands(b, c),
    ensures
        preserves_cands(a, c),
{
    assert forall|i: int| 0 <= i < a.len() implies c.contains(#[trigger] a[i]) by {
        assert(b.contains(a[i]));
        let j = choose|j: int| 0 <= j < b.len() && #[trigger] b[j] == a[i];
        assert(c.contains(b[j]));
    }
}

/// Identifier values of a list of peer ids.
pub open spec fn id_views(s: Seq<PeerId>) -> Seq<Seq<u8>> {
    s.map_values(|p: PeerId| p@)
}

/// The indices, in order, of the candidates one round picks: not yet
/// queried, among the first `limit` (the closest), while `room` picks
/// remain, scanning from index `i`.
pub open spec fn picked_from(cands: Seq<CandV>, i: int, limit: int, room: int) -> Seq<int>
    decreases limit - i,
{
    if i < 0 || i >= limit || room <= 0 {
        Seq::empty()
    } else if !cands[i].queried {
        seq![i] + picked_from(cands, i + 1, limit, room - 1)
    } else {
        picked_from(cands, i + 1, limit, room)
    }
}

/// The round frontier: how many of its closest candidates a query works
/// on — `count`, or fewer when it knows fewer peers.
pub open spec fn frontier(q: LookupQuery) -> int {
    if q.count as int <= q.candidates@.len() {
        q.count as int
    } else {
        q.candidates@.len() as int
    }
}

/// Exact relation of one round selection: what `LookupQuery::next_batch`
/// at `now` leaves behind and hands back. Outside `Probing` nothing
/// happens; past the deadline the query times out untouched; otherwise the
/// batch is exactly the unqueried candidates among the `count` closest, up
/// to `alpha`, in ascending distance order; exactly those are newly marked
/// queried, their identifiers join the in-flight set in order, and the
/// query converges precisely when nothing was picked and nothing was in
/// flight.
pub open spec fn batch_rel(pre: LookupQuery, post: LookupQuery, now: u64, batch: Seq<PeerRecord>) -> bool {
    let pv = cand_views(pre.candidates@);
    let nv = cand_views(post.candidates@);
    let picks = picked_from(pv, 0, frontier(pre), pre.alpha as int);
    &&& post.id == pre.id
    &&& post.target == pre.target
    &&& post.count == pre.count
    &&& post.alpha == pre.alpha
    &&& post.deadline == pre.deadline
    &&& (pre.phase != QueryPhase::Probing ==> post == pre && batch.len() == 0)
    &&& (pre.phase == QueryPhase::Probing && now >= pre.deadline ==> {
        &&& post.phase == QueryPhase::TimedOut
        &&& batch.len() == 0
        &&& post.candidates@ == pre.candidates@
        &&& post.in_flight@ == pre.in_flight@
    })
    &&& (pre.phase == QueryPhase::Probing && now < pre.deadline ==> {
        &&& batch.len() == picks.len()
        &&& nv.len() == pv.len()
        &&& (forall|j: int|
            0 <= j < pv.len() ==> #[trigger] nv[j] == (CandV {
                peer: pv[j].peer,
                addrs: pv[j].addrs,
                queried: pv[j].queried || picks.contains(j),
            }))
        &&& (forall|b: int|
            0 <= b < picks.len() ==> #[trigger] rec_views(batch)[b] == (PeerRecV {
                peer: pv[picks[b]].peer,
                addrs: pv[picks[b]].addrs,
            }))
        &&& id_views(post.in_flight@) == id_views(pre.in_flight@) + rec_views(batch).map_values(
            |r: PeerRecV| r.peer,
        )
        &&& post.phase == (if picks.len() == 0 && pre.in_flight@.len() == 0 {
            QueryPhase::Converged
        } else {
            QueryPhase::Probing
        })
    })
}

/// Exact relation of taking one find-closer response from `from` carrying
/// `peers`: accepted exactly when the query is probing and `from` is in
/// flight; then `from` leaves the in-flight set, every returned peer
/// stands among the candidates, every previously listed candidate survives
/// untouched (its queried mark included), and the phase either stays or
/// converges. A discarded response changes nothing.
pub open spec fn response_rel(
    pre: LookupQuery,
    post: LookupQuery,
    from: Seq<u8>,
    peers: Seq<PeerRecV>,
    accepted: bool,
) -> bool {
    &&& post.id == pre.id
    &&& post.target == pre.target
    &&& post.count == pre.count
    &&& post.alpha == pre.alpha
    &&& post.deadline == pre.deadline
    &&& (accepted <==> (pre.phase == QueryPhase::Probing && (exists|i: int|
        0 <= i < pre.in_flight@.len() && (#[trigger] pre.in_flight@[i])@ == from)))
    &&& (!accepted ==> post == pre)
    &&& (accepted ==> {
        &&& (exists|fi: int|
            0 <= fi < pre.in_flight@.len() && (#[trigger] pre.in_flight@[fi])@ == from
                && post.in_flight@ == pre.in_flight@.remove(fi))
        &&& covers_peers(cand_views(post.candidates@), peers)
        &&& preserves_cands(cand_views(pre.candidates@), cand_views(post.candidates@))
        &&& (post.phase == QueryPhase::Converged || post.phase == pre.phase)
    })
}

/// Exact relation of noting an RPC timeout from `from`: known exactly when
/// the query is probing and `from` is in flight; then only the in-flight
/// entry goes (the candidate stays queried and is never asked again), and
/// the phase either stays or converges.
pub open spec fn timeout_note_rel(pre: LookupQuery, post: LookupQuery, from: Seq<u8>, known: bool) -> bool {
    &&& post.id == pre.id
    &&& post.target == pre.target
    &&& post.count == pre.count
    &&& post.alpha == pre.alpha
    &&& post.deadline == pre.deadline
    &&& post.candidates@ == pre.candidates@
    &&& (known <==> (pre.phase == QueryPhase::Probing && (exists|i: int|
        0 <= i < pre.in_flight@.len() && (#[trigger] pre.in_flight@[i])@ == from)))
    &&& (!known ==> post == pre)
    &&& (known ==> {
        &&& (exists|fi: int|
            0 <= fi < pre.in_flight@.len() && (#[trigger] pre.in_flight@[fi])@ == from
                && post.in_flight@ == pre.in_flight@.remove(fi))
        &&& (post.phase == QueryPhase::Converged || post.phase == pre.phase)
    })
}

/// Exact relation of a deadline check at `now`: a probing query past its
/// deadline times out with everything else untouched; any other query is
/// left exactly as it was.
pub open spec fn deadline_rel(pre: LookupQuery, post: LookupQuery, now: u64) -> bool {
    &&& (pre.phase == QueryPhase::Probing && now >= pre.deadline ==> {
        &&& post.phase == QueryPhase::TimedOut
        &&& post.id == pre.id
        &&& post.target == pre.target
        &&& post.count == pre.count
        &&& post.alpha == pre.alpha
        &&& post.deadline == pre.deadline
        &&& post.candidates@ == pre.candidates@
        &&& post.in_flight@ == pre.in_flight@
    })
    &&& (!(pre.phase == QueryPhase::Probing && now >= pre.deadline) ==> post == pre)
}

/// How many candidates carry the queried mark.
pub open spec fn queried_count(s: Seq<CandV>) -> int
    decreases s.len(),
{
    if s.len() == 0 {
        0
    } else {
        queried_count(s.drop_last()) + (if s.last().queried {
            1int
        } else {
            0int
        })
    }
}

/// Queried marks only ever grow the count.
proof fn lemma_queried_count_mono(a: Seq<CandV>, b: Seq<CandV>)
    requires
        a.len() == b.len(),
        forall|i: int| 0 <= i < a.len() && (#[trigger] a[i]).queried ==> (#[trigger] b[i]).queried,
    ensures
        queried_count(a) <= queried_count(b),
    decreases a.len(),
{
    if a.len() > 0 {
        lemma_queried_count_mono(a.drop_last(), b.drop_last());
        assert forall|i: int|
            0 <= i < a.drop_last().len() && (#[trigger] a.drop_last()[i]).queried implies (
        #[trigger] b.drop_last()[i]).queried by {
            assert(a.drop_last()[i] == a[i] && b.drop_last()[i] == b[i]);
        }
    }
}

/// A newly set mark grows the count strictly.
proof fn lemma_queried_count_strict(a: Seq<CandV>, b: Seq<CandV>, j: int)
    requires
        a.len() == b.len(),
        forall|i: int| 0 <= i < a.len() && (#[trigger] a[i]).queried ==> (#[trigger] b[i]).queried,
        0 <= j < a.len(),
        !a[j].queried,
        b[j].queried,
    ensures
        queried_count(a) < queried_count(b),
    decreases a.len(),
{
    assert forall|i: int|
        0 <= i < a.drop_last().len() && (#[trigger] a.drop_last()[i]).queried implies (
    #[trigger] b.drop_last()[i]).queried by {
        assert(a.drop_last()[i] == a[i] && b.drop_last()[i] == b[i]);
    }
    if j == a.len() - 1 {
        lemma_queried_count_mono(a.drop_last(), b.drop_last());
        assert(a.last() == a[j] && b.last() == b[j]);
    } else {
        lemma_queried_count_strict(a.drop_last(), b.drop_last(), j);
        assert(a.drop_last()[j] == a[j] && b.drop_last()[j] == b[j]);
        assert(a.last() == a[a.len() - 1] && b.last() == b[a.len() - 1]);
    }
}

/// The count never exceeds the number of candidates.
proof fn lemma_queried_count_bound(s: Seq<CandV>)
    ensures
        0 <= queried_count(s) <= s.len(),
    decreases s.len(),
{
    if s.len() > 0 {
        lemma_queried_count_bound(s.drop_last());
    }
}

/// Every picked index lies in the frontier and was not yet queried.
proof fn lemma_picked_from_props(cands: Seq<CandV>, i: int, limit: int, room: int)
    requires
        limit <= cands.len(),
    ensures
        forall|b: int|
            0 <= b < picked_from(cands, i, limit, room).len() ==> i <= #[trigger] picked_from(
                cands,
                i,
                limit,
                room,
            )[b] < limit && !cands[picked_from(cands, i, limit, room)[b]].queried,
    decreases limit - i,
{
    if i < 0 || i >= limit || room <= 0 {
        assert(picked_from(cands, i, limit, room) =~= Seq::<int>::empty());
    } else if !cands[i].queried {
        lemma_picked_from_props(cands, i + 1, limit, room - 1);
        assert forall|b: int|
            0 <= b < picked_from(cands, i, limit, room).len() implies i <= #[trigger] picked_from(
                cands,
                i,
                limit,
                room,
            )[b] < limit && !cands[picked_from(cands, i, limit, room)[b]].queried by {
            if b == 0 {
                assert(picked_from(cands, i, limit, room)[0] == i);
            } else {
                assert(picked_from(cands, i, limit, room)[b] == picked_from(
                    cands,
                    i + 1,
                    limit,
                    room - 1,
                )[b - 1]);
            }
        }
    } else {
        lemma_picked_from_props(cands, i + 1, limit, room);
        assert(picked_from(cands, i, limit, room) == picked_from(cands, i + 1, limit, room));
        assert forall|b: int|
            0 <= b < picked_from(cands, i, limit, room).len() implies i <= #[trigger] picked_from(
                cands,
                i,
                limit,
                room,
            )[b] < limit && !cands[picked_from(cands, i, limit, room)[b]].queried by {
            assert(picked_from(cands, i, limit, room)[b] == picked_from(cands, i + 1, limit, room)[b]);
        }
    }
}

/// Round progress: a probing round before the deadline never clears a
/// queried mark; a round that sends anything strictly grows the queried
/// count, which stays within the candidate count; and a round that sends
/// nothing with nothing in flight converges the query. Since a lookup's
/// candidates come only from its seeds and responses, a network with
/// finitely many peers is asked at most once per peer, so the rounds of
/// any lookup are bounded by the peers it ever learns of.
pub proof fn lemma_round_progress(pre: LookupQuery, post: LookupQuery, now: u64, batch: Seq<PeerRecord>)
    requires
        batch_rel(pre, post, now, batch),
        pre.phase == QueryPhase::Probing,
        now < pre.deadline,
    ensures
        queried_count(cand_views(post.candidates@)) >= queried_count(cand_views(pre.candidates@)),
        batch.len() > 0 ==> queried_count(cand_views(post.candidates@)) > queried_count(
            cand_views(pre.candidates@),
        ),
        queried_count(cand_views(post.candidates@)) <= post.candidates@.len(),
        batch.len() == 0 && pre.in_flight@.len() == 0 ==> post.phase == QueryPhase::Converged,
{
    let pv = cand_views(pre.candidates@);
    let nv = cand_views(post.candidates@);
    let picks = picked_from(pv, 0, frontier(pre), pre.alpha as int);
    assert forall|i: int| 0 <= i < pv.len() && (#[trigger] pv[i]).queried implies (
    #[trigger] nv[i]).queried by {}
    lemma_queried_count_mono(pv, nv);
    lemma_queried_count_bound(nv);
    if batch.len() > 0 {
        lemma_picked_from_props(pv, 0, frontier(pre), pre.alpha as int);
        let j0 = picks[0];
        assert(!pv[j0].queried);
        assert(picks.contains(j0));
        assert(nv[j0].queried);
        lemma_queried_count_strict(pv, nv, j0);
    }
}

impl LookupQuery {
    /// Invariant of a query.
    pub open spec fn wf(&self) -> bool {
        &&& self.target@.len() == ID_BYTES
        &&& self.alpha >= 1
        &&& self.count >= 1
        &&& cands_sorted(cand_views(self.candidates@), self.target@)
        &&& cands_ok(cand_views(self.candidates@))
        &&& forall|i: int|
            0 <= i < self.in_flight@.len() ==> (#[trigger] self.in_flight@[i])@.len() == ID_BYTES
    }

    /// Opens a query for `target` seeded from `seeds` (the routing table's
    /// closest peers, or bootstrap contacts). Fails exactly when no seed
    /// is given.
    #[verifier::rlimit(60)]
    pub fn new(
        id: u64,
        target: Vec<u8>,
        seeds: Vec<PeerRecord>,
        count: usize,
        alpha: usize,
        deadline: u64,
    ) -> (r: Result<LookupQuery, LookupError>)
        requires
            target@.len() == ID_BYTES,
            count >= 1,
            alpha >= 1,
            recs_wf(rec_views(seeds@)),
        ensures
            seeds@.len() == 0 <==> (r is Err && r->Err_0 == LookupError::NoKnownPeers),
            r is Ok ==> {
                let q = r->Ok_0;
                &&& q.wf()
                &&& q.id == id
                &&& q.target == target
                &&& q.phase == QueryPhase::Probing
                &&& q.count == count
                &&& q.alpha == alpha
                &&& q.deadline == deadline
                &&& q.in_flight@.len() == 0
                &&& forall|i: int|
                    0 <= i < q.candidates@.len() ==> !(#[trigger] cand_views(
                        q.candidates@,
                    )[i]).queried
                &&& covers_peers(cand_views(q.candidates@), rec_views(seeds@))
                &&& cands_from(cand_views(q.candidates@), rec_views(seeds@))
            },
    {
        if seeds.len() == 0 {
            return Err(LookupError::NoKnownPeers);
        }
        let mut q = LookupQuery {
            id,
            target,
            count,
            alpha,
            deadline,
            phase: QueryPhase::Probing,
            candidates: Vec::new(),
            in_flight: Vec::new(),
        };
        let mut j: usize = 0;
        while j < seeds.len()
            invariant
                q.wf(),
                q.target == target,
                q.target@.len() == ID_BYTES,
                recs_wf(rec_views(seeds@)),
                j <= seeds@.len(),
                q.id == id,
                q.count == count,
                q.alpha == alpha,
                q.deadline == deadline,
                q.phase == QueryPhase::Probing,
                q.in_flight@.len() == 0,
                forall|i: int|
                    0 <= i < q.candidates@.len() ==> !(#[trigger] cand_views(
                        q.candidates@,
                    )[i]).queried,
                covers_peers(cand_views(q.candidates@), rec_views(seeds@).take(j as int)),
                cands_from(cand_views(q.candidates@), rec_views(seeds@)),
            decreases seeds@.len() - j,
        {
            let rec = seeds[j].clone();
            let ghost prevc = cand_views(q.candidates@);
            proof {
                assert(rec@ == rec_views(seeds@)[j as int]);
            }
            q.add_candidate(rec);
            proof {
                let cur = cand_views(q.candidates@);
                let sv = rec_views(seeds@);
                let nv = CandV { peer: sv[j as int].peer, addrs: sv[j as int].addrs, queried: false };
                assert(sv.take(j + 1)[j as int] == sv[j as int]);
                assert forall|j2: int| 0 <= j2 < j + 1 implies #[trigger] sv.take(j + 1)[j2]
                    == sv.take(j as int).push(sv[j as int])[j2] by {}
                if exists|i2: int| 0 <= i2 < prevc.len() && (#[trigger] prevc[i2]).peer == sv[j as int].peer {
                    assert(cur == prevc);
                    let iw = choose|i2: int| 0 <= i2 < prevc.len() && (#[trigger] prevc[i2]).peer == sv[j as int].peer;
                    assert forall|j2: int|
                        #![trigger sv.take(j + 1)[j2]]
                        0 <= j2 < j + 1 implies exists|i2: int|
                        #![trigger cur[i2]]
                        0 <= i2 < cur.len() && cur[i2].peer == sv.take(j + 1)[j2].peer by {
                        if j2 == j as int {
                            assert(cur[iw].peer == sv.take(j + 1)[j2].peer);
                        } else {
                            assert(sv.take(j as int)[j2] == sv.take(j + 1)[j2]);
                            let iv = choose|i2: int|
                                #![trigger prevc[i2]]
                                0 <= i2 < prevc.len() && prevc[i2].peer == sv.take(j as int)[j2].peer;
                            assert(cur[iv].peer == sv.take(j + 1)[j2].peer);
                        }
                    }
                } else {
                    let p = choose|p: int|
                        #![auto]
                        0 <= p <= prevc.len() && cur == prevc.insert(p, nv);
                    assert forall|i2: int|
                        #![trigger cur[i2]]
                        0 <= i2 < cur.len() implies !cur[i2].queried by {
                        if i2 < p {
                            assert(cur[i2] == prevc[i2]);
                        } else if i2 > p {
                            assert(cur[i2] == prevc[i2 - 1]);
                        } else {
                            assert(cur[i2] == nv);
                        }
                    }
                    assert forall|j2: int|
                        #![trigger sv.take(j + 1)[j2]]
                        0 <= j2 < j + 1 implies exists|i2: int|
                        #![trigger cur[i2]]
                        0 <= i2 < cur.len() && cur[i2].peer == sv.take(j + 1)[j2].peer by {
                        if j2 < j as int {
                            assert(sv.take(j as int)[j2] == sv.take(j + 1)[j2]);
                            let iw = choose|i2: int|
                                #![trigger prevc[i2]]
                                0 <= i2 < prevc.len() && prevc[i2].peer == sv.take(j as int)[j2].peer;
                            if iw < p {
                                assert(cur[iw] == prevc[iw]);
                                assert(cur[iw].peer == sv.take(j + 1)[j2].peer);
                            } else {
                                assert(cur[iw + 1] == prevc[iw]);
                                assert(cur[iw + 1].peer == sv.take(j + 1)[j2].peer);
                            }
                        } else {
                            assert(cur[p] == nv);
                            assert(cur[p].peer == sv.take(j + 1)[j2].peer);
                        }
                    }
                    assert forall|i2: int|
                        #![trigger cur[i2]]
                        0 <= i2 < cur.len() implies sv.contains(
                        PeerRecV { peer: cur[i2].peer, addrs: cur[i2].addrs },
                    ) by {
                        if i2 < p {
                            assert(cur[i2] == prevc[i2]);
                        } else if i2 > p {
                            assert(cur[i2] == prevc[i2 - 1]);
                        } else {
                            assert(cur[i2] == nv);
                            assert((PeerRecV { peer: nv.peer, addrs: nv.addrs }) =~= sv[j as int]);
                            assert(sv.contains(sv[j as int])) by {
                                assert(sv[j as int] == sv[j as int]);
                            }
                        }
                    }
                }
                assert(covers_peers(cur, sv.take(j + 1)));
                assert(cands_from(cur, sv));
            }
            j = j + 1;
        }
        proof {
            assert(rec_views(seeds@).take(j as int) =~= rec_views(seeds@));
            assert(covers_peers(cand_views(q.candidates@), rec_views(seeds@)));
        }
        Ok(q)
    }

    /// Merges one peer into the ordered candidate list; a peer already
    /// listed is left exactly as it is (its queried mark survives).
    fn add_candidate(&mut self, rec: PeerRecord)
        requires
            old(self).wf(),
            rec@.peer.len() == ID_BYTES,
        ensures
            final(self).wf(),
            final(self).id == old(self).id,
            final(self).target == old(self).target,
            final(self).count == old(self).count,
            final(self).alpha == old(self).alpha,
            final(self).deadline == old(self).deadline,
            final(self).phase == old(self).phase,
            final(self).in_flight == old(self).in_flight,
            // an already-known peer leaves the query unchanged
            (exists|i: int|
                0 <= i < old(self).candidates@.len() && (#[trigger] cand_views(
                    old(self).candidates@,
                )[i]).peer == rec@.peer) ==> final(self).candidates@ == old(self).candidates@,
            // a new peer appears exactly once, unqueried, and nothing else moves
            (forall|i: int|
                0 <= i < old(self).candidates@.len() ==> (#[trigger] cand_views(
                    old(self).candidates@,
                )[i]).peer != rec@.peer) ==> (exists|p: int|
                #![auto]
                0 <= p <= old(self).candidates@.len() && cand_views(final(self).candidates@)
                    == cand_views(old(self).candidates@).insert(
                    p,
                    CandV { peer: rec@.peer, addrs: rec@.addrs, queried: false },
                )),
            // membership only grows, and by exactly this peer
            preserves_cands(cand_views(old(self).candidates@), cand_views(final(self).candidates@)),
            exists|i2: int|
                0 <= i2 < final(self).candidates@.len() && (#[trigger] cand_views(
                    final(self).candidates@,
                )[i2]).peer == rec@.peer,
    {
        let ghost pre = cand_views(self.candidates@);
        proof {
            assert forall|q2: int| 0 <= q2 < self.candidates@.len() implies (
            #[trigger] self.candidates@[q2]).rec.peer@.len() == ID_BYTES by {
                assert(cand_views(self.candidates@)[q2] == self.candidates@[q2]@);
            }
        }
        let mut i: usize = 0;
        let mut found: bool = false;
        while i < self.candidates.len() && !found
            invariant
                self.wf(),
                rec@.peer.len() == ID_BYTES,
                i <= self.candidates@.len(),
                cand_views(self.candidates@) == pre,
                forall|q2: int|
                    0 <= q2 < self.candidates@.len() ==> (#[trigger] self.candidates@[q2]).rec.peer@.len()
                        == ID_BYTES,
                found ==> i < pre.len() && pre[i as int].peer == rec@.peer,
                !found ==> forall|j: int| 0 <= j < i ==> (#[trigger] pre[j]).peer != rec@.peer,
            decreases self.candidates@.len() - i + (if found { 0int } else { 1int }),
        {
            if peer_eq(&self.candidates[i].rec.peer, &rec.peer) {
                found = true;
            } else {
                i = i + 1;
            }
        }
        if found {
            proof {
                assert(cand_views(self.candidates@)[i as int].peer == rec@.peer);
                lemma_preserves_cands_refl(cand_views(self.candidates@));
            }
            return ;
        }
        // Scan for the insertion point that keeps the list sorted.
        let mut p: usize = 0;
        while p < self.candidates.len() && dist_le(
            &self.candidates[p].rec.peer,
            &rec.peer,
            &self.target,
        )
            invariant
                self.wf(),
                rec@.peer.len() == ID_BYTES,
                cand_views(self.candidates@) == pre,
                p <= pre.len(),
                forall|q2: int|
                    0 <= q2 < self.candidates@.len() ==> (#[trigger] self.candidates@[q2]).rec.peer@.len()
                        == ID_BYTES,
                forall|q: int|
                    0 <= q < p ==> spec_dist_le((#[trigger] pre[q]).peer, rec@.peer, self.target@),
            decreases self.candidates@.len() - p,
        {
            p = p + 1;
        }
        proof {
            if p < pre.len() {
                crate::ident::lemma_dist_le_total(pre[p as int].peer, rec@.peer, self.target@);
            }
        }
        let cand = Candidate { rec, queried: false };
        self.candidates.insert(p, cand);
        proof {
            let cur = cand_views(self.candidates@);
            let nv = CandV { peer: cur[p as int].peer, addrs: cur[p as int].addrs, queried: false };
            assert(cur =~= pre.insert(p as int, nv));
            assert(nv.peer == cand_views(self.candidates@)[p as int].peer);
            assert forall|i1: int, j1: int| 0 <= i1 < j1 < cur.len() implies spec_dist_le(
                (#[trigger] cur[i1]).peer,
                (#[trigger] cur[j1]).peer,
                self.target@,
            ) by {
                let pi = p as int;
                if j1 < pi {
                    assert(cur[i1] == pre[i1] && cur[j1] == pre[j1]);
                } else if i1 < pi && j1 == pi {
                    assert(cur[i1] == pre[i1] && cur[j1] == nv);
                } else if i1 < pi && j1 > pi {
                    assert(cur[i1] == pre[i1] && cur[j1] == pre[j1 - 1]);
                } else if i1 == pi {
                    assert(cur[i1] == nv && cur[j1] == pre[j1 - 1]);
                    assert(!spec_dist_le(pre[pi].peer, nv.peer, self.target@));
                    assert(spec_dist_le(nv.peer, pre[pi].peer, self.target@));
                    if j1 - 1 > pi {
                        crate::ident::lemma_dist_le_trans(
                            nv.peer,
                            pre[pi].peer,
                            pre[j1 - 1].peer,
                            self.target@,
                        );
                    }
                } else {
                    assert(cur[i1] == pre[i1 - 1] && cur[j1] == pre[j1 - 1]);
                }
            }
            assert forall|i1: int| 0 <= i1 < cur.len() implies (#[trigger] cur[i1]).peer.len()
                == ID_BYTES by {
                if i1 < p as int {
                    assert(cur[i1] == pre[i1]);
                } else if i1 > p as int {
                    assert(cur[i1] == pre[i1 - 1]);
                }
            }
            assert forall|i1: int, j1: int| 0 <= i1 < j1 < cur.len() implies (
            #[trigger] cur[i1]).peer != (#[trigger] cur[j1]).peer by {
                let pi = p as int;
                if j1 < pi {
                    assert(cur[i1] == pre[i1] && cur[j1] == pre[j1]);
                } else if i1 < pi && j1 == pi {
                    assert(cur[i1] == pre[i1] && cur[j1] == nv);
                } else if i1 < pi && j1 > pi {
                    assert(cur[i1] == pre[i1] && cur[j1] == pre[j1 - 1]);
                } else if i1 == pi {
                    assert(cur[i1] == nv && cur[j1] == pre[j1 - 1]);
                } else {
                    assert(cur[i1] == pre[i1 - 1] && cur[j1] == pre[j1 - 1]);
                }
            }
            assert forall|i0: int| 0 <= i0 < pre.len() implies cur.contains(#[trigger] pre[i0]) by {
                if i0 < p as int {
                    assert(cur[i0] == pre[i0]);
                } else {
                    assert(cur[i0 + 1] == pre[i0]);
                }
            }
            assert(preserves_cands(pre, cur));
            assert(cur[p as int].peer == rec@.peer);
        }
    }
}


impl LookupQuery {
    /// Picks the next round — up to `alpha` not-yet-queried candidates
    /// among the `count` closest, in ascending distance order — marks
    /// exactly them queried and counts them in flight; a peer is never
    /// picked twice over the query's lifetime. Past the deadline the query
    /// times out; with nothing left to pick and nothing in flight it
    /// converges. The whole effect is pinned by [`batch_rel`].
    pub fn next_batch(&mut self, now: u64) -> (batch: Vec<PeerRecord>)
        requires
            old(self).wf(),
        ensures
            final(self).wf(),
            batch_rel(*old(self), *final(self), now, batch@),
    {
        if !matches!(self.phase, QueryPhase::Probing) {
            return Vec::new();
        }
        if now >= self.deadline {
            self.phase = QueryPhase::TimedOut;
            return Vec::new();
        }
        let ghost pre = cand_views(self.candidates@);
        let ghost limitg = frontier(*self);
        let ghost picks = picked_from(pre, 0, limitg, self.alpha as int);
        let limit = if self.count < self.candidates.len() {
            self.count
        } else {
            self.candidates.len()
        };
        let mut batch: Vec<PeerRecord> = Vec::new();
        let mut out: Vec<Candidate> = Vec::new();
        let ghost mut gpicks: Seq<int> = Seq::empty();
        proof {
            assert(Seq::<int>::empty() + picked_from(pre, 0, limitg, self.alpha as int) =~= picks);
        }
        let mut i: usize = 0;
        while i < self.candidates.len()
            invariant
                self.wf(),
                cand_views(self.candidates@) == pre,
                pre == cand_views(old(self).candidates@),
                self.id == old(self).id,
                self.target == old(self).target,
                self.count == old(self).count,
                self.alpha == old(self).alpha,
                self.deadline == old(self).deadline,
                self.phase == QueryPhase::Probing,
                self.candidates@ == old(self).candidates@,
                limitg == frontier(*old(self)),
                limit as int == limitg,
                picks == picked_from(pre, 0, limitg, self.alpha as int),
                limitg <= self.candidates@.len(),
                i <= self.candidates@.len(),
                out@.len() == i,
                batch@.len() == gpicks.len(),
                batch@.len() <= self.alpha,
                picks == gpicks + picked_from(pre, i as int, limitg, self.alpha - batch@.len()),
                forall|b: int| 0 <= b < gpicks.len() ==> 0 <= #[trigger] gpicks[b] < i,
                forall|b: int|
                    0 <= b < gpicks.len() ==> #[trigger] rec_views(batch@)[b] == (PeerRecV {
                        peer: pre[gpicks[b]].peer,
                        addrs: pre[gpicks[b]].addrs,
                    }),
                forall|j: int|
                    0 <= j < i ==> #[trigger] cand_views(out@)[j] == (CandV {
                        peer: pre[j].peer,
                        addrs: pre[j].addrs,
                        queried: pre[j].queried || gpicks.contains(j),
                    }),
                id_views(self.in_flight@) == id_views(old(self).in_flight@) + rec_views(
                    batch@,
                ).map_values(|r: PeerRecV| r.peer),
            decreases self.candidates@.len() - i,
        {
            let ghost pre_out = cand_views(out@);
            let ghost pre_batch = rec_views(batch@);
            let ghost pre_if = id_views(self.in_flight@);
            let ghost pre_picksg = gpicks;
            let ghost room = self.alpha - batch@.len();
            let take_it = i < limit && batch.len() < self.alpha && !self.candidates[i].queried;
            let c = &self.candidates[i];
            proof {
                assert(cand_views(self.candidates@)[i as int] == self.candidates@[i as int]@);
            }
            if take_it {
                batch.push(c.rec.clone());
                let marked = Candidate { rec: c.rec.clone(), queried: true };
                self.in_flight.push(c.rec.peer.clone());
                out.push(marked);
                proof {
                    gpicks = gpicks.push(i as int);
                    assert(picked_from(pre, i as int, limitg, room) == seq![i as int]
                        + picked_from(pre, i + 1, limitg, room - 1));
                    assert(pre_picksg + (seq![i as int] + picked_from(pre, i + 1, limitg, room - 1))
                        =~= gpicks + picked_from(pre, i + 1, limitg, room - 1));
                    assert(picks == gpicks + picked_from(pre, i + 1, limitg, self.alpha
                        - batch@.len()));
                    assert(rec_views(batch@) =~= pre_batch.push(
                        PeerRecV { peer: pre[i as int].peer, addrs: pre[i as int].addrs },
                    ));
                    assert(cand_views(out@) =~= pre_out.push(
                        CandV { peer: pre[i as int].peer, addrs: pre[i as int].addrs, queried: true },
                    ));
                    assert forall|j: int| 0 <= j < i + 1 implies #[trigger] cand_views(out@)[j]
                        == (CandV {
                        peer: pre[j].peer,
                        addrs: pre[j].addrs,
                        queried: pre[j].queried || gpicks.contains(j),
                    }) by {
                        if j < i as int {
                            assert(cand_views(out@)[j] == pre_out[j]);
                            assert(gpicks.contains(j) == pre_picksg.contains(j)) by {
                                if pre_picksg.contains(j) {
                                    let w = choose|w: int|
                                        0 <= w < pre_picksg.len() && #[trigger] pre_picksg[w] == j;
                                    assert(gpicks[w] == j);
                                }
                                if gpicks.contains(j) {
                                    let w = choose|w: int|
                                        0 <= w < gpicks.len() && #[trigger] gpicks[w] == j;
                                    assert(w < pre_picksg.len());
                                    assert(pre_picksg[w] == j);
                                }
                            }
                        } else {
                            assert(cand_views(out@)[j] == (CandV {
                                peer: pre[i as int].peer,
                                addrs: pre[i as int].addrs,
                                queried: true,
                            }));
                            assert(gpicks[gpicks.len() - 1] == i as int);
                            assert(gpicks.contains(j));
                        }
                    }
                    assert(id_views(self.in_flight@) =~= id_views(old(self).in_flight@)
                        + rec_views(batch@).map_values(|r: PeerRecV| r.peer)) by {
                        assert(id_views(self.in_flight@) =~= pre_if.push(pre[i as int].peer));
                        assert(rec_views(batch@) == pre_batch.push(
                            PeerRecV { peer: pre[i as int].peer, addrs: pre[i as int].addrs },
                        ));
                        assert(rec_views(batch@).map_values(|r: PeerRecV| r.peer)
                            =~= pre_batch.map_values(|r: PeerRecV| r.peer).push(pre[i as int].peer));
                        assert(id_views(old(self).in_flight@) + pre_batch.map_values(
                            |r: PeerRecV| r.peer,
                        ).push(pre[i as int].peer) =~= (id_views(old(self).in_flight@)
                            + pre_batch.map_values(|r: PeerRecV| r.peer)).push(pre[i as int].peer));
                    }
                }
            } else {
                let kept = Candidate { rec: c.rec.clone(), queried: c.queried };
                out.push(kept);
                proof {
                    assert(cand_views(out@) =~= pre_out.push(pre[i as int]));
                    if i as int >= limitg {
                        assert(picked_from(pre, i as int, limitg, room) =~= Seq::<int>::empty());
                        assert(picked_from(pre, i + 1, limitg, room) =~= Seq::<int>::empty());
                    } else if room <= 0 {
                        assert(picked_from(pre, i as int, limitg, room) =~= Seq::<int>::empty());
                        assert(picked_from(pre, i + 1, limitg, room) =~= Seq::<int>::empty());
                    } else {
                        assert(pre[i as int].queried);
                        assert(picked_from(pre, i as int, limitg, room) == picked_from(
                            pre,
                            i + 1,
                            limitg,
                            room,
                        ));
                    }
                    assert forall|j: int| 0 <= j < i + 1 implies #[trigger] cand_views(out@)[j]
                        == (CandV {
                        peer: pre[j].peer,
                        addrs: pre[j].addrs,
                        queried: pre[j].queried || gpicks.contains(j),
                    }) by {
                        if j < i as int {
                            assert(cand_views(out@)[j] == pre_out[j]);
                        } else {
                            assert(cand_views(out@)[j] == pre[i as int]);
                            if gpicks.contains(j) {
                                let w = choose|w: int|
                                    0 <= w < gpicks.len() && #[trigger] gpicks[w] == j;
                                assert(false);
                            }
                        }
                    }
                }
            }
            i = i + 1;
        }
        self.candidates = out;
        proof {
            let cur = cand_views(self.candidates@);
            assert(picked_from(pre, self.candidates@.len() as int, limitg, self.alpha
                - batch@.len()) =~= Seq::<int>::empty());
            assert(picks =~= gpicks);
            assert forall|i1: int, j1: int| 0 <= i1 < j1 < cur.len() implies spec_dist_le(
                (#[trigger] cur[i1]).peer,
                (#[trigger] cur[j1]).peer,
                self.target@,
            ) by {
                assert(cur[i1].peer == pre[i1].peer && cur[j1].peer == pre[j1].peer);
            }
            assert forall|i1: int| 0 <= i1 < cur.len() implies (#[trigger] cur[i1]).peer.len()
                == ID_BYTES by {
                assert(cur[i1].peer == pre[i1].peer);
            }
            assert forall|i1: int, j1: int| 0 <= i1 < j1 < cur.len() implies (
            #[trigger] cur[i1]).peer != (#[trigger] cur[j1]).peer by {
                assert(cur[i1].peer == pre[i1].peer && cur[j1].peer == pre[j1].peer);
            }
        }
        if batch.len() == 0 && self.in_flight.len() == 0 {
            self.phase = QueryPhase::Converged;
            proof {
                assert(id_views(old(self).in_flight@) + rec_views(batch@).map_values(
                    |r: PeerRecV| r.peer,
                ) =~= id_views(old(self).in_flight@));
                assert(id_views(old(self).in_flight@).len() == old(self).in_flight@.len());
            }
        }
        proof {
            if batch@.len() > 0 || old(self).in_flight@.len() > 0 {
                assert(self.phase == QueryPhase::Probing) by {
                    if batch@.len() == 0 {
                        assert(id_views(self.in_flight@) =~= id_views(old(self).in_flight@)
                            + rec_views(batch@).map_values(|r: PeerRecV| r.peer));
                        assert(rec_views(batch@).map_values(|r: PeerRecV| r.peer).len() == 0);
                        assert(self.in_flight@.len() == old(self).in_flight@.len());
                    }
                }
            }
        }
        batch
    }

    /// Accepts a find-closer-peers response from `from`: the RPC leaves the
    /// in-flight set and every returned peer joins the ordered candidate
    /// list (known peers are left as they are). A response from a peer
    /// that was never asked, or to a query no longer probing, is discarded
    /// unread. When the frontier is exhausted and nothing remains in
    /// flight, the query converges.
    pub fn on_response(&mut self, from: &PeerId, peers: &Vec<PeerRecord>) -> (accepted: bool)
        requires
            old(self).wf(),
            from.wf(),
            recs_wf(rec_views(peers@)),
        ensures
            final(self).wf(),
            response_rel(*old(self), *final(self), from@, rec_views(peers@), accepted),
    {
        if !matches!(self.phase, QueryPhase::Probing) {
            return false;
        }
        let mut fi: usize = 0;
        let mut found: bool = false;
        while fi < self.in_flight.len() && !found
            invariant
                self.wf(),
                from.wf(),
                fi <= self.in_flight@.len(),
                found ==> fi < self.in_flight@.len() && self.in_flight@[fi as int]@ == from@,
                !found ==> forall|j: int| 0 <= j < fi ==> (#[trigger] self.in_flight@[j])@ != from@,
            decreases self.in_flight@.len() - fi + (if found { 0int } else { 1int }),
        {
            if peer_eq(&self.in_flight[fi], from) {
                found = true;
            } else {
                fi = fi + 1;
            }
        }
        if !found {
            return false;
        }
        let ghost pre_if = self.in_flight@;
        let _gone = self.in_flight.remove(fi);
        proof {
            assert(self.in_flight@ =~= pre_if.remove(fi as int));
            assert forall|j: int| 0 <= j < self.in_flight@.len() implies (
            #[trigger] self.in_flight@[j])@.len() == ID_BYTES by {
                if j < fi as int {
                    assert(self.in_flight@[j] == pre_if[j]);
                } else {
                    assert(self.in_flight@[j] == pre_if[j + 1]);
                }
            }
            lemma_preserves_cands_refl(cand_views(self.candidates@));
        }
        let mut k: usize = 0;
        while k < peers.len()
            invariant
                self.wf(),
                recs_wf(rec_views(peers@)),
                k <= peers@.len(),
                self.id == old(self).id,
                self.target == old(self).target,
                self.count == old(self).count,
                self.alpha == old(self).alpha,
                self.deadline == old(self).deadline,
                self.phase == old(self).phase,
                fi < old(self).in_flight@.len(),
                old(self).in_flight@[fi as int]@ == from@,
                self.in_flight@ == old(self).in_flight@.remove(fi as int),
                covers_peers(cand_views(self.candidates@), rec_views(peers@).take(k as int)),
                preserves_cands(
                    cand_views(old(self).candidates@),
                    cand_views(self.candidates@),
                ),
                forall|j: int|
                    0 <= j < self.in_flight@.len() ==> (#[trigger] self.in_flight@[j])@.len()
                        == ID_BYTES,
            decreases peers@.len() - k,
        {
            let ghost prevc = cand_views(self.candidates@);
            let rec = peers[k].clone();
            proof {
                assert(rec@ == rec_views(peers@)[k as int]);
            }
            self.add_candidate(rec);
            proof {
                let cur = cand_views(self.candidates@);
                let pv = rec_views(peers@);
                assert(pv.take(k + 1)[k as int] == pv[k as int]);
                assert forall|j2: int|
                    #![trigger pv.take(k + 1)[j2]]
                    0 <= j2 < k + 1 implies exists|i2: int|
                    #![trigger cur[i2]]
                    0 <= i2 < cur.len() && cur[i2].peer == pv.take(k + 1)[j2].peer by {
                    if j2 == k as int {
                        let iw = choose|i2: int|
                            0 <= i2 < cur.len() && (#[trigger] cur[i2]).peer == pv[k as int].peer;
                        assert(cur[iw].peer == pv.take(k + 1)[j2].peer);
                    } else {
                        assert(pv.take(k as int)[j2] == pv.take(k + 1)[j2]);
                        let iw = choose|i2: int|
                            #![trigger prevc[i2]]
                            0 <= i2 < prevc.len() && prevc[i2].peer == pv.take(k as int)[j2].peer;
                        let iw2 = choose|i2: int|
                            0 <= i2 < cur.len() && #[trigger] cur[i2] == prevc[iw];
                        assert(cur[iw2].peer == pv.take(k + 1)[j2].peer);
                    }
                }
                assert(covers_peers(cur, pv.take(k + 1)));
                lemma_preserves_cands_trans(cand_views(old(self).candidates@), prevc, cur);
            }
            k = k + 1;
        }
        proof {
            assert(rec_views(peers@).take(peers@.len() as int) =~= rec_views(peers@));
            assert(covers_peers(cand_views(self.candidates@), rec_views(peers@)));
        }
        self.maybe_converge();
        proof {
            assert(0 <= fi < old(self).in_flight@.len() && (#[trigger] old(
                self,
            ).in_flight@[fi as int])@ == from@ && self.in_flight@ == old(
                self,
            ).in_flight@.remove(fi as int));
        }
        true
    }

    /// Notes that the RPC to `from` timed out: it leaves the in-flight
    /// set; the candidate stays queried and is not asked again. When
    /// nothing remains in flight and the frontier is exhausted, the query
    /// converges.
    pub fn on_rpc_timeout(&mut self, from: &PeerId) -> (known: bool)
        requires
            old(self).wf(),
            from.wf(),
        ensures
            final(self).wf(),
            timeout_note_rel(*old(self), *final(self), from@, known),
    {
        if !matches!(self.phase, QueryPhase::Probing) {
            return false;
        }
        let mut fi: usize = 0;
        let mut found: bool = false;
        while fi < self.in_flight.len() && !found
            invariant
                self.wf(),
                from.wf(),
                fi <= self.in_flight@.len(),
                found ==> fi < self.in_flight@.len() && self.in_flight@[fi as int]@ == from@,
                !found ==> forall|j: int| 0 <= j < fi ==> (#[trigger] self.in_flight@[j])@ != from@,
            decreases self.in_flight@.len() - fi + (if found { 0int } else { 1int }),
        {
            if peer_eq(&self.in_flight[fi], from) {
                found = true;
            } else {
                fi = fi + 1;
            }
        }
        if !found {
            return false;
        }
        let ghost pre_if = self.in_flight@;
        let _gone = self.in_flight.remove(fi);
        proof {
            assert(self.in_flight@ =~= pre_if.remove(fi as int));
            assert forall|j: int| 0 <= j < self.in_flight@.len() implies (
            #[trigger] self.in_flight@[j])@.len() == ID_BYTES by {
                if j < fi as int {
                    assert(self.in_flight@[j] == pre_if[j]);
                } else {
                    assert(self.in_flight@[j] == pre_if[j + 1]);
                }
            }
        }
        self.maybe_converge();
        proof {
            assert(0 <= fi < old(self).in_flight@.len() && (#[trigger] old(
                self,
            ).in_flight@[fi as int])@ == from@ && self.in_flight@ == old(
                self,
            ).in_flight@.remove(fi as int));
        }
        true
    }

    /// Converges a probing query whose frontier (its `count` closest
    /// candidates) is fully queried with nothing in flight.
    fn maybe_converge(&mut self)
        requires
            old(self).wf(),
        ensures
            final(self).wf(),
            final(self).id == old(self).id,
            final(self).target == old(self).target,
            final(self).count == old(self).count,
            final(self).alpha == old(self).alpha,
            final(self).deadline == old(self).deadline,
            final(self).candidates@ == old(self).candidates@,
            final(self).in_flight@ == old(self).in_flight@,
            final(self).phase == QueryPhase::Converged || final(self).phase == old(self).phase,
    {
        if !matches!(self.phase, QueryPhase::Probing) {
            return ;
        }
        if self.in_flight.len() > 0 {
            return ;
        }
        let limit = if self.count < self.candidates.len() {
            self.count
        } else {
            self.candidates.len()
        };
        let mut i: usize = 0;
        while i < limit
            invariant
                self.wf(),
                limit <= self.candidates@.len(),
                i <= limit,
            decreases limit - i,
        {
            if !self.candidates[i].queried {
                return ;
            }
            i = i + 1;
        }
        self.phase = QueryPhase::Converged;
    }

    /// Marks a probing query past its deadline as timed out; its partial
    /// candidate set stays available through [`Self::results`].
    pub fn check_deadline(&mut self, now: u64)
        requires
            old(self).wf(),
        ensures
            final(self).wf(),
            deadline_rel(*old(self), *final(self), now),
    {
        if matches!(self.phase, QueryPhase::Probing) && now >= self.deadline {
            self.phase = QueryPhase::TimedOut;
        }
    }

    /// Cancels the query: it stops issuing RPCs and discards whatever
    /// arrives late.
    pub fn cancel(&mut self)
        requires
            old(self).wf(),
        ensures
            final(self).wf(),
            final(self).phase == QueryPhase::Cancelled,
            final(self).id == old(self).id,
            final(self).target == old(self).target,
            final(self).count == old(self).count,
            final(self).alpha == old(self).alpha,
            final(self).deadline == old(self).deadline,
            final(self).candidates@ == old(self).candidates@,
            final(self).in_flight@ == old(self).in_flight@,
    {
        self.phase = QueryPhase::Cancelled;
    }

    /// The query's current answer: its `count` closest candidates, in
    /// strictly non-decreasing distance from the target. For a timed-out
    /// query these are the partial results; for a converged one, the
    /// closest peers found.
    pub fn results(&self) -> (r: Vec<PeerRecord>)
        requires
            self.wf(),
        ensures
            sorted_wrt(rec_views(r@), self.target@),
            r@.len() == if self.count as int <= self.candidates@.len() {
                self.count as int
            } else {
                self.candidates@.len() as int
            },
            forall|i: int|
                0 <= i < r@.len() ==> (#[trigger] rec_views(r@)[i]).peer == cand_views(
                    self.candidates@,
                )[i].peer && rec_views(r@)[i].addrs == cand_views(self.candidates@)[i].addrs,
    {
        let limit = if self.count < self.candidates.len() {
            self.count
        } else {
            self.candidates.len()
        };
        let mut out: Vec<PeerRecord> = Vec::new();
        let mut i: usize = 0;
        while i < limit
            invariant
                self.wf(),
                limit <= self.candidates@.len(),
                limit == if self.count as int <= self.candidates@.len() {
                    self.count as int
                } else {
                    self.candidates@.len() as int
                },
                i <= limit,
                out@.len() == i,
                forall|j: int|
                    0 <= j < i ==> ((#[trigger] rec_views(out@)[j]).peer == cand_views(
                        self.candidates@,
                    )[j].peer && rec_views(out@)[j].addrs == cand_views(self.candidates@)[j].addrs),
            decreases limit - i,
        {
            let ghost pre_out = rec_views(out@);
            let c = &self.candidates[i];
            proof {
                assert(cand_views(self.candidates@)[i as int] == self.candidates@[i as int]@);
            }
            out.push(c.rec.clone());
            proof {
                assert(rec_views(out@) =~= pre_out.push(
                    PeerRecV {
                        peer: cand_views(self.candidates@)[i as int].peer,
                        addrs: cand_views(self.candidates@)[i as int].addrs,
                    },
                ));
                assert forall|j: int|
                    0 <= j < i + 1 implies ((#[trigger] rec_views(out@)[j]).peer == cand_views(
                    self.candidates@,
                )[j].peer && rec_views(out@)[j].addrs == cand_views(self.candidates@)[j].addrs) by {
                    if j < i as int {
                        assert(rec_views(out@)[j] == pre_out[j]);
                    }
                }
            }
            i = i + 1;
        }
        proof {
            assert forall|i1: int, j1: int| 0 <= i1 < j1 < rec_views(out@).len() implies spec_dist_le(
                (#[trigger] rec_views(out@)[i1]).peer,
                (#[trigger] rec_views(out@)[j1]).peer,
                self.target@,
            ) by {
                assert(rec_views(out@)[i1].peer == cand_views(self.candidates@)[i1].peer);
                assert(rec_views(out@)[j1].peer == cand_views(self.candidates@)[j1].peer);
            }
        }
        out
    }
}

} // verus!
