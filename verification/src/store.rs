//! The local record store and quorum accounting for replicated writes.
//!
//! Records are keyed by (key, publisher); a newer expiry wins over an older
//! one for the same pair (recency-wins). Expired records never leave a
//! read and are purged by a sweep. A replicated `put` succeeds once its
//! acknowledgement count reaches the quorum's requirement, and fails with
//! the exact achieved-versus-required counts once too many targets failed.

use vstd::prelude::*;

use crate::ident::ID_BYTES;
use crate::ident::PeerId;
use crate::addr::bytes_eq;

verus! {

/// A stored key/value record with its publisher and expiry time.
pub struct Record {
    pub key: Vec<u8>,
    pub value: Vec<u8>,
    pub publisher: PeerId,
    pub expires: u64,
}

/// Mathematical value of a [`Record`].
#[verifier::ext_equal]
pub ghost struct RecordV {
    pub key: Seq<u8>,
    pub value: Seq<u8>,
    pub publisher: Seq<u8>,
    pub expires: u64,
}

impl View for Record {
    type V = RecordV;

    open spec fn view(&self) -> RecordV {
        RecordV {
            key: self.key@,
            value: self.value@,
            publisher: self.publisher@,
            expires: self.expires,
        }
    }
}

impl Clone for Record {
    fn clone(&self) -> (r: Self)
        ensures
            r@ == self@,
    {
        Record {
            key: self.key.clone(),
            value: self.value.clone(),
            publisher: self.publisher.clone(),
            expires: self.expires,
        }
    }
}

/// Values of a sequence of records.
pub open spec fn record_views(s: Seq<Record>) -> Seq<RecordV> {
    s.map_values(|r: Record| r@)
}

/// The soft-state key/value store of one node.
pub struct RecordStore {
    pub records: Vec<Record>,
}

impl View for RecordStore {
    type V = Seq<RecordV>;

    open spec fn view(&self) -> Seq<RecordV> {
        record_views(self.records@)
    }
}

/// A record is live at `now` while its expiry lies in the future.
pub open spec fn live_at(r: RecordV, now: u64) -> bool {
    r.expires > now
}

/// Exact relation between the store before and after
/// [`RecordStore::put_local`] of `rec`, returning `stored`: a matching
/// (key, publisher) record is overwritten in place exactly when `rec`
/// expires no earlier; an unmatched record is appended.
pub open spec fn put_local_rel(pre: Seq<RecordV>, post: Seq<RecordV>, rec: RecordV, stored: bool) -> bool {
    &&& (forall|i: int|
        0 <= i < pre.len() && (#[trigger] pre[i]).key == rec.key && pre[i].publisher
            == rec.publisher ==> (if rec.expires >= pre[i].expires {
            stored && post == pre.update(i, rec)
        } else {
            !stored && post == pre
        }))
    &&& ((forall|i: int|
        0 <= i < pre.len() ==> !((#[trigger] pre[i]).key == rec.key && pre[i].publisher
            == rec.publisher)) ==> stored && post == pre.push(rec))
}

/// Exact membership relation of a sweep at `now`: afterwards the store
/// holds records that are live and were held before, and every live
/// record survives.
pub open spec fn sweep_rel(pre: Seq<RecordV>, post: Seq<RecordV>, now: u64) -> bool {
    &&& forall|i: int| 0 <= i < post.len() ==> live_at(#[trigger] post[i], now)
    &&& forall|i: int| 0 <= i < post.len() ==> pre.contains(#[trigger] post[i])
    &&& forall|i: int| 0 <= i < pre.len() && live_at(#[trigger] pre[i], now) ==> post.contains(pre[i])
}

impl RecordStore {
    /// At most one record per (key, publisher) pair.
    pub open spec fn wf(&self) -> bool {
        forall|i: int, j: int|
            0 <= i < j < self@.len() ==> !((#[trigger] self@[i]).key == (#[trigger] self@[j]).key
                && self@[i].publisher == self@[j].publisher)
    }

    /// Creates an empty store.
    pub fn new() -> (r: RecordStore)
        ensures
            r.wf(),
            r@.len() == 0,
    {
        RecordStore { records: Vec::new() }
    }

    /// Stores `rec` locally. An existing record by the same publisher for
    /// the same key is overwritten only by a record that expires no
    /// earlier (recency wins); distinct publishers coexist.
    pub fn put_local(&mut self, rec: Record) -> (stored: bool)
        requires
            old(self).wf(),
        ensures
            final(self).wf(),
            put_local_rel(old(self)@, final(self)@, rec@, stored),
    {
        let ghost pre = self@;
        let mut i: usize = 0;
        while i < self.records.len()
            invariant
                old(self).wf(),
                pre == old(self)@,
                self@ == pre,
                i <= pre.len(),
                forall|j: int|
                    0 <= j < i ==> !((#[trigger] pre[j]).key == rec@.key && pre[j].publisher
                        == rec@.publisher),
            decreases pre.len() - i,
        {
            let hit = if bytes_eq(&self.records[i].key, &rec.key) {
                peer_eq_loose(&self.records[i].publisher, &rec.publisher)
            } else {
                false
            };
            if hit {
                proof {
                    assert(pre[i as int].key == rec@.key && pre[i as int].publisher
                        == rec@.publisher);
                    assert forall|i2: int|
                        0 <= i2 < pre.len() && (#[trigger] pre[i2]).key == rec@.key
                            && pre[i2].publisher == rec@.publisher implies i2 == i as int by {
                        if i2 < i as int {
                            assert(!(old(self)@[i2].key == old(self)@[i as int].key && old(
                                self,
                            )@[i2].publisher == old(self)@[i as int].publisher));
                        } else if i2 > i as int {
                            assert(!(old(self)@[i as int].key == old(self)@[i2].key && old(
                                self,
                            )@[i as int].publisher == old(self)@[i2].publisher));
                        }
                    }
                }
                if rec.expires >= self.records[i].expires {
                    let _old = self.records.remove(i);
                    self.records.insert(i, rec);
                    proof {
                        assert(self@ =~= pre.update(i as int, rec@));
                        assert forall|i1: int, j1: int| 0 <= i1 < j1 < self@.len() implies !((
                        #[trigger] self@[i1]).key == (#[trigger] self@[j1]).key
                            && self@[i1].publisher == self@[j1].publisher) by {
                            if i1 != i as int && j1 != i as int {
                                assert(self@[i1] == pre[i1] && self@[j1] == pre[j1]);
                            } else if i1 == i as int {
                                assert(self@[i1] == rec@ && self@[j1] == pre[j1]);
                                if pre[j1].key == rec@.key && pre[j1].publisher == rec@.publisher {
                                    assert(j1 == i as int);
                                    assert(false);
                                }
                            } else {
                                assert(self@[i1] == pre[i1] && self@[j1] == rec@);
                                if pre[i1].key == rec@.key && pre[i1].publisher == rec@.publisher {
                                    assert(i1 == i as int);
                                    assert(false);
                                }
                            }
                        }
                    }
                    return true;
                } else {
                    return false;
                }
            }
            i = i + 1;
        }
        self.records.push(rec);
        proof {
            assert(self@ =~= pre.push(rec@));
            assert forall|i1: int, j1: int| 0 <= i1 < j1 < self@.len() implies !((
            #[trigger] self@[i1]).key == (#[trigger] self@[j1]).key && self@[i1].publisher
                == self@[j1].publisher) by {
                if j1 < pre.len() {
                    assert(self@[i1] == pre[i1] && self@[j1] == pre[j1]);
                } else {
                    assert(self@[i1] == pre[i1] && self@[j1] == rec@);
                }
            }
        }
        true
    }

    /// Every live record stored under `key` at time `now`; expired records
    /// never surface.
    pub fn get_local(&self, key: &Vec<u8>, now: u64) -> (r: Vec<Record>)
        ensures
            forall|i: int|
                0 <= i < r@.len() ==> self@.contains(#[trigger] r@[i]@) && r@[i]@.key == key@
                    && live_at(r@[i]@, now),
            forall|i: int|
                0 <= i < self@.len() && (#[trigger] self@[i]).key == key@ && live_at(
                    self@[i],
                    now,
                ) ==> record_views(r@).contains(self@[i]),
    {
        let mut out: Vec<Record> = Vec::new();
        let mut i: usize = 0;
        while i < self.records.len()
            invariant
                i <= self@.len(),
                forall|j: int|
                    0 <= j < out@.len() ==> self@.contains(#[trigger] out@[j]@) && out@[j]@.key
                        == key@ && live_at(out@[j]@, now),
                forall|j: int|
                    0 <= j < i && (#[trigger] self@[j]).key == key@ && live_at(self@[j], now)
                        ==> record_views(out@).contains(self@[j]),
            decreases self@.len() - i,
        {
            let ghost pre_out = record_views(out@);
            let keep = if self.records[i].expires > now {
                bytes_eq(&self.records[i].key, key)
            } else {
                false
            };
            if keep {
                let c = self.records[i].clone();
                out.push(c);
                proof {
                    assert(record_views(out@) =~= pre_out.push(self@[i as int]));
                    assert(record_views(out@)[pre_out.len() as int] == self@[i as int]);
                    assert forall|j: int|
                        0 <= j < i + 1 && (#[trigger] self@[j]).key == key@ && live_at(
                            self@[j],
                            now,
                        ) implies record_views(out@).contains(self@[j]) by {
                        if j < i as int {
                            let idx = choose|idx: int|
                                0 <= idx < pre_out.len() && #[trigger] pre_out[idx] == self@[j];
                            assert(record_views(out@)[idx] == self@[j]);
                        } else {
                            assert(record_views(out@)[pre_out.len() as int] == self@[j]);
                        }
                    }
                    assert forall|j: int| 0 <= j < out@.len() implies self@.contains(
                        #[trigger] out@[j]@,
                    ) && out@[j]@.key == key@ && live_at(out@[j]@, now) by {
                        if j < pre_out.len() {
                            assert(out@[j]@ == pre_out[j]);
                        } else {
                            assert(out@[j]@ == self@[i as int]);
                        }
                    }
                }
            }
            i = i + 1;
        }
        out
    }

    /// Purges every record that has expired by `now`: afterwards the store
    /// holds exactly its live records, in their old order.
    pub fn sweep(&mut self, now: u64)
        requires
            old(self).wf(),
        ensures
            final(self).wf(),
            sweep_rel(old(self)@, final(self)@, now),
    {
        let ghost pre = self@;
        let mut out: Vec<Record> = Vec::new();
        let mut i: usize = 0;
        while i < self.records.len()
            invariant
                old(self).wf(),
                pre == old(self)@,
                self@ == pre,
                i <= pre.len(),
                forall|j: int| 0 <= j < out@.len() ==> live_at(#[trigger] record_views(out@)[j], now),
                forall|j: int| 0 <= j < out@.len() ==> pre.contains(#[trigger] record_views(out@)[j]),
                forall|j: int|
                    0 <= j < i && live_at(#[trigger] pre[j], now) ==> record_views(out@).contains(
                        pre[j],
                    ),
                forall|j1: int, j2: int|
                    0 <= j1 < j2 < out@.len() ==> !((#[trigger] record_views(out@)[j1]).key == (
                    #[trigger] record_views(out@)[j2]).key && record_views(out@)[j1].publisher
                        == record_views(out@)[j2].publisher),
                forall|j: int, j2: int|
                    0 <= j < out@.len() && i <= j2 < pre.len() ==> !((#[trigger] record_views(
                        out@,
                    )[j]).key == (#[trigger] pre[j2]).key && record_views(out@)[j].publisher
                        == pre[j2].publisher),
            decreases pre.len() - i,
        {
            let ghost pre_out = record_views(out@);
            if self.records[i].expires > now {
                let c = self.records[i].clone();
                out.push(c);
                proof {
                    assert(record_views(out@) =~= pre_out.push(pre[i as int]));
                    assert forall|j1: int, j2: int| 0 <= j1 < j2 < out@.len() implies !((
                    #[trigger] record_views(out@)[j1]).key == (
                    #[trigger] record_views(out@)[j2]).key && record_views(out@)[j1].publisher
                        == record_views(out@)[j2].publisher) by {
                        if j2 < pre_out.len() {
                            assert(record_views(out@)[j1] == pre_out[j1]);
                            assert(record_views(out@)[j2] == pre_out[j2]);
                        } else {
                            assert(record_views(out@)[j1] == pre_out[j1]);
                            assert(record_views(out@)[j2] == pre[i as int]);
                        }
                    }
                    assert forall|j: int, j2: int|
                        0 <= j < out@.len() && i + 1 <= j2 < pre.len() implies !((
                    #[trigger] record_views(out@)[j]).key == (#[trigger] pre[j2]).key
                        && record_views(out@)[j].publisher == pre[j2].publisher) by {
                        if j < pre_out.len() {
                            assert(record_views(out@)[j] == pre_out[j]);
                        } else {
                            assert(record_views(out@)[j] == pre[i as int]);
                            assert(!(pre[i as int].key == pre[j2].key && pre[
                                i as int].publisher == pre[j2].publisher));
                        }
                    }
                    assert forall|j: int|
                        0 <= j < i + 1 && live_at(#[trigger] pre[j], now) implies record_views(
                        out@,
                    ).contains(pre[j]) by {
                        if j < i as int {
                            let idx = choose|idx: int|
                                0 <= idx < pre_out.len() && #[trigger] pre_out[idx] == pre[j];
                            assert(record_views(out@)[idx] == pre[j]);
                        } else {
                            assert(record_views(out@)[pre_out.len() as int] == pre[j]);
                        }
                    }
                }
            }
            i = i + 1;
        }
        self.records = out;
    }
}

/// Compares two peer identifiers of any length.
fn peer_eq_loose(a: &PeerId, b: &PeerId) -> (r: bool)
    ensures
        r == (a@ == b@),
{
    bytes_eq(&a.bytes, &b.bytes)
}

/// The acknowledgement count a quorum policy demands against `targets`
/// replication targets.
pub open spec fn quorum_required(q: Quorum, targets: int) -> int {
    match q {
        Quorum::One => 1,
        Quorum::Majority => targets / 2 + 1,
        Quorum::NOf(n) => n as int,
        Quorum::All => targets,
    }
}

/// Quorum policy for a replicated write or read.
#[derive(Clone, Copy, PartialEq, Eq, Structural, Debug)]
pub enum Quorum {
    /// One acknowledgement suffices.
    One,
    /// More than half of the targets must acknowledge.
    Majority,
    /// A fixed number of acknowledgements is demanded.
    NOf(usize),
    /// Every target must acknowledge.
    All,
}

/// Progress of one replicated put against its chosen targets.
pub struct PutRound {
    pub targets: usize,
    pub required: usize,
    pub acks: usize,
    pub failures: usize,
    pub pending: usize,
}

/// Outcome of a replicated put so far.
#[derive(Clone, Copy, PartialEq, Eq, Structural, Debug)]
pub enum PutStatus {
    /// Some targets have not answered and the quorum is not yet reached.
    InFlight,
    /// The quorum was reached; carries the acknowledgement count.
    Succeeded(usize),
    /// Every target answered and too few acknowledged: achieved against
    /// required counts.
    Failed { achieved: usize, required: usize },
}

/// What a put round's status is, as a function of its counters.
pub open spec fn spec_put_status(p: PutRound) -> PutStatus {
    if p.acks >= p.required {
        PutStatus::Succeeded(p.acks)
    } else if p.pending == 0 {
        PutStatus::Failed { achieved: p.acks, required: p.required }
    } else {
        PutStatus::InFlight
    }
}

impl PutRound {
    /// Counters always account for every target exactly once.
    pub open spec fn wf(&self) -> bool {
        self.acks + self.failures + self.pending == self.targets
    }

    /// Opens a put round against `targets` replication targets under
    /// quorum policy `q`.
    pub fn new(q: Quorum, targets: usize) -> (r: PutRound)
        ensures
            r.targets == targets,
            r.required as int == quorum_required(q, targets as int),
            r.acks == 0,
            r.failures == 0,
            r.pending == targets,
            r.acks + r.failures + r.pending == r.targets,
    {
        let required: usize = match q {
            Quorum::One => 1,
            Quorum::Majority => targets / 2 + 1,
            Quorum::NOf(n) => n,
            Quorum::All => targets,
        };
        PutRound { targets, required, acks: 0, failures: 0, pending: 0 + targets }
    }

    /// Records one acknowledgement.
    pub fn on_ack(&mut self)
        requires
            old(self).wf(),
            old(self).pending > 0,
        ensures
            final(self).wf(),
            final(self).acks == old(self).acks + 1,
            final(self).pending == old(self).pending - 1,
            final(self).failures == old(self).failures,
            final(self).required == old(self).required,
            final(self).targets == old(self).targets,
    {
        self.acks = self.acks + 1;
        self.pending = self.pending - 1;
    }

    /// Records one refusal, timeout or unreachable target.
    pub fn on_failure(&mut self)
        requires
            old(self).wf(),
            old(self).pending > 0,
        ensures
            final(self).wf(),
            final(self).failures == old(self).failures + 1,
            final(self).pending == old(self).pending - 1,
            final(self).acks == old(self).acks,
            final(self).required == old(self).required,
            final(self).targets == old(self).targets,
    {
        self.failures = self.failures + 1;
        self.pending = self.pending - 1;
    }

    /// The round's status: succeeded as soon as the quorum is reached,
    /// failed with the exact counts once every target has answered.
    pub fn status(&self) -> (r: PutStatus)
        ensures
            r == spec_put_status(*self),
    {
        if self.acks >= self.required {
            PutStatus::Succeeded(self.acks)
        } else if self.pending == 0 {
            PutStatus::Failed { achieved: self.acks, required: self.required }
        } else {
            PutStatus::InFlight
        }
    }
}

/// A put under quorum `One` succeeds as soon as a single acknowledgement
/// arrives, however many other targets failed or are still pending.
pub proof fn lemma_quorum_one_succeeds(p: PutRound)
    requires
        p.required as int == quorum_required(Quorum::One, p.targets as int),
        p.acks >= 1,
    ensures
        spec_put_status(p) == PutStatus::Succeeded(p.acks),
{
}

/// A put under quorum `All` can no longer succeed once any target failed:
/// when the round settles it reports exactly the achieved count against
/// the full requirement.
pub proof fn lemma_quorum_all_fails(p: PutRound)
    requires
        p.acks + p.failures + p.pending == p.targets,
        p.required as int == quorum_required(Quorum::All, p.targets as int),
        p.failures >= 1,
        p.pending == 0,
    ensures
        spec_put_status(p) == (PutStatus::Failed { achieved: p.acks, required: p.required }),
        p.acks < p.required,
{
}

/// Progress of one replicated value lookup against its chosen targets: a
/// value-carrying answer short-circuits the fetch, which is otherwise
/// done when every target answered.
pub struct GetRound {
    pub targets: usize,
    pub pending: usize,
    pub found: Vec<Record>,
}

impl GetRound {
    /// Counters and answers account for every target at most once.
    pub open spec fn wf(&self) -> bool {
        self.found@.len() + self.pending <= self.targets
    }

    /// Opens a fetch against `targets` peers.
    pub fn new(targets: usize) -> (r: GetRound)
        ensures
            r.wf(),
            r.targets == targets,
            r.pending == targets,
            r.found@.len() == 0,
    {
        GetRound { targets, pending: targets, found: Vec::new() }
    }

    /// Books a value-carrying answer.
    pub fn on_found(&mut self, rec: Record)
        requires
            old(self).wf(),
            old(self).pending > 0,
        ensures
            final(self).wf(),
            final(self).targets == old(self).targets,
            final(self).pending == old(self).pending - 1,
            final(self).found@ == old(self).found@.push(rec),
    {
        self.pending = self.pending - 1;
        self.found.push(rec);
    }

    /// Books a not-found or failed answer.
    pub fn on_miss(&mut self)
        requires
            old(self).wf(),
            old(self).pending > 0,
        ensures
            final(self).wf(),
            final(self).targets == old(self).targets,
            final(self).pending == old(self).pending - 1,
            final(self).found@ == old(self).found@,
    {
        self.pending = self.pending - 1;
    }

    /// A value lookup may stop as soon as a value arrived
    /// (short-circuit), and must stop once every target answered.
    pub fn done(&self) -> (r: bool)
        ensures
            r == (self.found@.len() > 0 || self.pending == 0),
    {
        self.found.len() > 0 || self.pending == 0
    }
}

/// Picks the winning record among candidate values for one key — local
/// and fetched alike — under the recency-wins policy: the first record
/// carrying the greatest expiry. No candidates, no winner.
pub fn resolve_recency(cands: &Vec<Record>) -> (r: Option<Record>)
    ensures
        (r is None <==> cands@.len() == 0),
        r is Some ==> (exists|i: int|
            #![trigger cands@[i]]
            {
                &&& 0 <= i < cands@.len()
                &&& r->0@ == cands@[i]@
                &&& (forall|j: int|
                    0 <= j < cands@.len() ==> (#[trigger] cands@[j]).expires <= cands@[i].expires)
                &&& (forall|j: int| 0 <= j < i ==> (#[trigger] cands@[j]).expires < cands@[i].expires)
            }),
{
    if cands.len() == 0 {
        return None;
    }
    let mut best: usize = 0;
    let mut i: usize = 1;
    while i < cands.len()
        invariant
            cands@.len() > 0,
            best < i,
            i <= cands@.len(),
            forall|j: int| 0 <= j < i ==> (#[trigger] cands@[j]).expires <= cands@[best as int].expires,
            forall|j: int| 0 <= j < best ==> (#[trigger] cands@[j]).expires < cands@[best as int].expires,
        decreases cands@.len() - i,
    {
        if cands[i].expires > cands[best].expires {
            best = i;
        }
        i = i + 1;
    }
    let winner = cands[best].clone();
    proof {
        assert(winner@ == cands@[best as int]@);
    }
    Some(winner)
}

} // verus!
