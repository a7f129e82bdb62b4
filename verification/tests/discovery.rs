use peer_discovery::addr::Address;
use peer_discovery::addr::Transport;
use peer_discovery::ident::bucket_index;
use peer_discovery::ident::distance;
use peer_discovery::ident::PeerId;
use peer_discovery::ident::ID_BYTES;
use peer_discovery::lookup::LookupQuery;
use peer_discovery::lookup::QueryPhase;
use peer_discovery::scheduler::DiscoveryContext;
use peer_discovery::store::PutRound;
use peer_discovery::store::PutStatus;
use peer_discovery::store::Quorum;
use peer_discovery::store::Record;
use peer_discovery::store::GetRound;
use peer_discovery::store::RecordStore;
use peer_discovery::store::resolve_recency;
use peer_discovery::table::FailureOutcome;
use peer_discovery::table::InsertOutcome;
use peer_discovery::table::PeerRecord;
use peer_discovery::table::RejectReason;
use peer_discovery::table::RoutingTable;

fn pid(tag: u8) -> PeerId {
    let mut bytes = vec![0u8; ID_BYTES];
    bytes[ID_BYTES - 1] = tag;
    PeerId::new(bytes).expect("well-formed id")
}

// An id with a chosen top byte, so bucket indices are easy to read off.
fn pid_top(top: u8, tag: u8) -> PeerId {
    let mut bytes = vec![0u8; ID_BYTES];
    bytes[0] = top;
    bytes[ID_BYTES - 1] = tag;
    PeerId::new(bytes).expect("well-formed id")
}

fn addr(port: u16) -> Address {
    Address { transport: Transport::Tcp, host: vec![127, 0, 0, 1], port }
}

fn addrs(port: u16) -> Vec<Address> {
    vec![addr(port)]
}

fn xor_dist(a: &PeerId, b: &PeerId) -> Vec<u8> {
    distance(a, b)
}

#[test]
fn distance_is_symmetric_and_zero_on_self() {
    let a = pid_top(0x5a, 1);
    let b = pid_top(0xa5, 2);
    assert_eq!(xor_dist(&a, &b), xor_dist(&b, &a));
    assert_eq!(xor_dist(&a, &a), vec![0u8; ID_BYTES]);
    // Exact value: 0x5a ^ 0xa5 = 0xff in the top byte, 1 ^ 2 = 3 in the last.
    let d = xor_dist(&a, &b);
    assert_eq!(d[0], 0xff);
    assert_eq!(d[ID_BYTES - 1], 3);
}

#[test]
fn bucket_index_counts_leading_zero_bits() {
    let me = pid(0);
    // Top bit differs: shared prefix length 0.
    assert_eq!(bucket_index(&me, &pid_top(0x80, 1)), 0);
    // Top byte 0x01: seven leading zero bits.
    assert_eq!(bucket_index(&me, &pid_top(0x01, 1)), 7);
    // Only the last byte differs (value 1): 255 leading zero bits.
    assert_eq!(bucket_index(&me, &pid(1)), 8 * ID_BYTES - 1);
    // Same id: all bits shared.
    assert_eq!(bucket_index(&me, &pid(0)), 8 * ID_BYTES);
}

#[test]
fn self_is_never_inserted() {
    let me = pid(0);
    let mut t = RoutingTable::new(me.clone(), 4);
    let r = t.insert_or_update(&pid(0), &addrs(1000), 1);
    assert_eq!(r, InsertOutcome::Rejected(RejectReason::SelfEntry));
    assert_eq!(t.closest(&vec![0u8; ID_BYTES], 10).len(), 0);
}

#[test]
fn empty_address_list_is_rejected() {
    let me = pid(0);
    let mut t = RoutingTable::new(me, 4);
    let r = t.insert_or_update(&pid(1), &Vec::new(), 1);
    assert_eq!(r, InsertOutcome::Rejected(RejectReason::NoAddress));
}

#[test]
fn full_bucket_of_responsive_peers_keeps_exactly_k() {
    let me = pid(0);
    let mut t = RoutingTable::new(me, 2);
    // pid_top(0x80, n) all share bucket 0.
    assert_eq!(t.insert_or_update(&pid_top(0x80, 1), &addrs(1), 1), InsertOutcome::Inserted);
    assert_eq!(t.insert_or_update(&pid_top(0x80, 2), &addrs(2), 2), InsertOutcome::Inserted);
    // The bucket is full of responsive peers: the third is refused and held
    // as the pending candidate; exactly K entries remain.
    assert_eq!(
        t.insert_or_update(&pid_top(0x80, 3), &addrs(3), 3),
        InsertOutcome::Rejected(RejectReason::BucketFull)
    );
    let all = t.closest(&vec![0u8; ID_BYTES], 10);
    assert_eq!(all.len(), 2);
    for rec in &all {
        assert_ne!(rec.peer.bytes[ID_BYTES - 1], 3);
    }
}

#[test]
fn unresponsive_peer_is_evicted_for_newcomer_never_a_responsive_one() {
    let me = pid(0);
    let mut t = RoutingTable::new(me, 2);
    t.insert_or_update(&pid_top(0x80, 1), &addrs(1), 1);
    t.insert_or_update(&pid_top(0x80, 2), &addrs(2), 2);
    // Peer 1 stops answering once (demoted, still present).
    assert_eq!(t.record_failure(&pid_top(0x80, 1)), FailureOutcome::Demoted);
    // A newcomer to the full bucket evicts the unresponsive peer 1, not the
    // responsive peer 2.
    assert_eq!(t.insert_or_update(&pid_top(0x80, 3), &addrs(3), 3), InsertOutcome::Inserted);
    let all = t.closest(&vec![0u8; ID_BYTES], 10);
    let tags: Vec<u8> = all.iter().map(|r| r.peer.bytes[ID_BYTES - 1]).collect();
    assert!(tags.contains(&2));
    assert!(tags.contains(&3));
    assert!(!tags.contains(&1));
}

#[test]
fn repeated_timeouts_evict_and_promote_pending() {
    let me = pid(0);
    let mut t = RoutingTable::new(me, 2);
    t.insert_or_update(&pid_top(0x80, 1), &addrs(1), 1);
    t.insert_or_update(&pid_top(0x80, 2), &addrs(2), 2);
    // Held as pending: the bucket is full and responsive.
    assert_eq!(
        t.insert_or_update(&pid_top(0x80, 3), &addrs(3), 3),
        InsertOutcome::Rejected(RejectReason::BucketFull)
    );
    assert_eq!(t.record_failure(&pid_top(0x80, 2)), FailureOutcome::Demoted);
    assert_eq!(t.record_failure(&pid_top(0x80, 2)), FailureOutcome::Demoted);
    // Third strike: evicted, and the pending candidate takes the place.
    assert_eq!(t.record_failure(&pid_top(0x80, 2)), FailureOutcome::Evicted);
    let all = t.closest(&vec![0u8; ID_BYTES], 10);
    let tags: Vec<u8> = all.iter().map(|r| r.peer.bytes[ID_BYTES - 1]).collect();
    assert!(tags.contains(&1));
    assert!(tags.contains(&3));
    assert!(!tags.contains(&2));
}

#[test]
fn closest_returns_ascending_xor_distance() {
    let me = pid(0);
    let mut t = RoutingTable::new(me, 20);
    for tag in [9u8, 3, 12, 1, 7] {
        t.insert_or_update(&pid(tag), &addrs(tag as u16), 1);
    }
    let target = vec![0u8; ID_BYTES];
    let got = t.closest(&target, 3);
    let tags: Vec<u8> = got.iter().map(|r| r.peer.bytes[ID_BYTES - 1]).collect();
    // XOR distance to zero is the tag itself: 1, 3, 7 are the three closest.
    assert_eq!(tags, vec![1, 3, 7]);
}

#[test]
fn reinserting_a_peer_updates_without_duplicates() {
    let me = pid(0);
    let mut t = RoutingTable::new(me, 4);
    assert_eq!(t.insert_or_update(&pid(1), &addrs(10), 1), InsertOutcome::Inserted);
    assert_eq!(t.insert_or_update(&pid(1), &addrs(10), 2), InsertOutcome::Updated);
    let all = t.closest(&vec![0u8; ID_BYTES], 10);
    assert_eq!(all.len(), 1);
    assert_eq!(all[0].addrs.len(), 1);
    // A genuinely new address is merged in.
    assert_eq!(t.insert_or_update(&pid(1), &addrs(11), 3), InsertOutcome::Updated);
    let all = t.closest(&vec![0u8; ID_BYTES], 10);
    assert_eq!(all[0].addrs.len(), 2);
}

#[test]
fn quorum_one_succeeds_on_first_ack_despite_failures() {
    let mut round = PutRound::new(Quorum::One, 3);
    round.on_failure();
    round.on_failure();
    assert_eq!(round.status(), PutStatus::InFlight);
    round.on_ack();
    assert_eq!(round.status(), PutStatus::Succeeded(1));
}

#[test]
fn quorum_all_fails_with_exact_counts() {
    let mut round = PutRound::new(Quorum::All, 3);
    round.on_ack();
    round.on_ack();
    round.on_failure();
    assert_eq!(round.status(), PutStatus::Failed { achieved: 2, required: 3 });
}

#[test]
fn quorum_majority_needs_more_than_half() {
    let mut round = PutRound::new(Quorum::Majority, 4);
    round.on_ack();
    round.on_ack();
    assert_eq!(round.status(), PutStatus::InFlight);
    round.on_ack();
    assert_eq!(round.status(), PutStatus::Succeeded(3));
}

#[test]
fn record_store_recency_wins_and_expiry_hides() {
    let mut s = RecordStore::new();
    let newer = Record { key: vec![1], value: vec![10], publisher: pid(1), expires: 100 };
    let older = Record { key: vec![1], value: vec![9], publisher: pid(1), expires: 50 };
    let other = Record { key: vec![1], value: vec![8], publisher: pid(2), expires: 70 };
    assert!(s.put_local(newer));
    // An older record by the same publisher does not overwrite.
    assert!(!s.put_local(older));
    // A different publisher coexists under the same key.
    assert!(s.put_local(other));
    let live = s.get_local(&vec![1], 60);
    assert_eq!(live.len(), 2);
    // At time 80 the publisher-2 record has expired.
    let live = s.get_local(&vec![1], 80);
    assert_eq!(live.len(), 1);
    assert_eq!(live[0].value, vec![10]);
    s.sweep(80);
    assert_eq!(s.records.len(), 1);
}

// A deterministic network: every peer knows the three peers whose tags are
// one step closer to the target tag.
fn network_response(from_tag: u8, target_tag: u8) -> Vec<PeerRecord> {
    let mut out = Vec::new();
    let mid = if from_tag > target_tag { from_tag - 1 } else { from_tag };
    for t in [mid, target_tag] {
        out.push(PeerRecord { peer: pid(t), addrs: addrs(t as u16) });
    }
    out
}

#[test]
fn lookup_converges_and_orders_results() {
    let target = {
        let mut b = vec![0u8; ID_BYTES];
        b[ID_BYTES - 1] = 1;
        b
    };
    let seeds = vec![
        PeerRecord { peer: pid(40), addrs: addrs(40) },
        PeerRecord { peer: pid(20), addrs: addrs(20) },
    ];
    let mut q = LookupQuery::new(7, target, seeds, 3, 2, 1000).expect("seeded");
    let mut rounds = 0usize;
    let mut now = 1u64;
    loop {
        let batch = q.next_batch(now);
        if batch.is_empty() {
            break;
        }
        rounds += 1;
        assert!(rounds <= 64, "lookup did not converge in a bounded number of rounds");
        for rec in batch {
            let from_tag = rec.peer.bytes[ID_BYTES - 1];
            let resp = network_response(from_tag, 1);
            assert!(q.on_response(&rec.peer, &resp));
        }
        now += 1;
    }
    assert_eq!(q.phase, QueryPhase::Converged);
    let results = q.results();
    assert!(!results.is_empty());
    // Strictly non-decreasing XOR distance from the target.
    let dists: Vec<Vec<u8>> = results
        .iter()
        .map(|r| {
            r.peer.bytes.iter().zip([0u8; 32].iter()).map(|(a, _)| *a).collect::<Vec<u8>>()
        })
        .collect();
    for w in dists.windows(2) {
        let mut da = w[0].clone();
        let mut db = w[1].clone();
        da[ID_BYTES - 1] ^= 1;
        db[ID_BYTES - 1] ^= 1;
        assert!(da <= db);
    }
}

#[test]
fn lookup_with_no_seeds_fails_no_known_peers() {
    let target = vec![0u8; ID_BYTES];
    let r = LookupQuery::new(1, target, Vec::new(), 3, 2, 100);
    assert!(r.is_err());
}

#[test]
fn lookup_deadline_returns_partial_results() {
    let target = vec![0u8; ID_BYTES];
    let seeds = vec![PeerRecord { peer: pid(5), addrs: addrs(5) }];
    let mut q = LookupQuery::new(2, target, seeds, 3, 2, 10).expect("seeded");
    let batch = q.next_batch(1);
    assert_eq!(batch.len(), 1);
    // The deadline passes with the RPC still in flight.
    q.check_deadline(11);
    assert_eq!(q.phase, QueryPhase::TimedOut);
    let partial = q.results();
    assert_eq!(partial.len(), 1);
}

#[test]
fn bootstrap_pulls_five_closer_peers_and_self_lookup_adds_no_duplicates() {
    let me = pid(0);
    let mut ctx = DiscoveryContext::new(me, 20, 3, 30, 10);
    // One seed learned through the metadata exchange.
    let (outcome, acts) =
        ctx.on_peer_metadata(&pid(200), &addrs(200), 1);
    assert_eq!(outcome, InsertOutcome::Inserted);
    assert!(!acts.is_empty(), "piggyback bootstrap should ask the seed");
    // The seed answers with five peers closer to us than itself.
    let five: Vec<PeerRecord> =
        [2u8, 3, 4, 5, 6].iter().map(|t| PeerRecord { peer: pid(*t), addrs: addrs(*t as u16) }).collect();
    let qid = ctx.queries[0].id;
    ctx.on_closer_peers(qid, &pid(200), &five, 2);
    let all = ctx.table.closest(&vec![0u8; ID_BYTES], 20);
    let tags: Vec<u8> = all.iter().map(|r| r.peer.bytes[ID_BYTES - 1]).collect();
    for t in [2u8, 3, 4, 5, 6] {
        assert!(tags.contains(&t), "peer {t} should be in the routing table");
    }
    let count_before = all.len();
    // A repeated self-lookup re-adds nothing.
    let _ = ctx.on_tick(100);
    let qid2 = ctx.queries[ctx.queries.len() - 1].id;
    ctx.on_closer_peers(qid2, &pid(2), &five, 101);
    assert_eq!(ctx.table.closest(&vec![0u8; ID_BYTES], 20).len(), count_before);
}

#[test]
fn connection_closed_keeps_routing_entry_but_drops_connection_record() {
    let me = pid(0);
    let mut ctx = DiscoveryContext::new(me, 20, 3, 30, 10);
    ctx.on_connection_established(&pid(1), addr(1), 1);
    assert_eq!(ctx.connections.len(), 1);
    assert_eq!(ctx.table.closest(&vec![0u8; ID_BYTES], 5).len(), 1);
    ctx.on_connection_closed(&pid(1));
    assert_eq!(ctx.connections.len(), 0, "the connection record is gone");
    let still = ctx.table.closest(&vec![0u8; ID_BYTES], 5);
    assert_eq!(still.len(), 1, "routing membership survives the session");
    assert_eq!(still[0].peer.bytes[ID_BYTES - 1], 1);
}

#[test]
fn second_connection_pushes_addresses_to_newcomer() {
    let me = pid(0);
    let mut ctx = DiscoveryContext::new(me, 20, 3, 30, 10);
    let (_o1, acts1) = ctx.on_connection_established(&pid(1), addr(1), 1);
    assert!(acts1.is_empty(), "first connection has nobody to tell about");
    let (_o2, acts2) = ctx.on_connection_established(&pid(2), addr(2), 2);
    assert_eq!(acts2.len(), 1, "the newcomer receives the connected-peer set");
}

#[test]
fn metadata_reprocessing_is_idempotent() {
    let me = pid(0);
    let mut ctx = DiscoveryContext::new(me, 20, 3, 30, 10);
    let list = vec![addr(5), addr(6)];
    ctx.on_peer_metadata(&pid(9), &list, 4);
    let once = ctx.table.closest(&vec![0u8; ID_BYTES], 20);
    ctx.on_peer_metadata(&pid(9), &list, 4);
    let twice = ctx.table.closest(&vec![0u8; ID_BYTES], 20);
    assert_eq!(once.len(), twice.len());
    for (a, b) in once.iter().zip(twice.iter()) {
        assert_eq!(a.peer.bytes, b.peer.bytes);
        assert_eq!(a.addrs.len(), b.addrs.len());
        for (x, y) in a.addrs.iter().zip(b.addrs.iter()) {
            assert_eq!(x.host, y.host);
            assert_eq!(x.port, y.port);
        }
    }
}

#[test]
fn scheduler_put_books_acks_against_quorum() {
    let me = pid(0);
    let mut ctx = DiscoveryContext::new(me, 20, 3, 30, 10);
    let rec = Record { key: vec![0u8; ID_BYTES], value: vec![7], publisher: pid(0), expires: 100 };
    let targets = vec![
        PeerRecord { peer: pid(1), addrs: addrs(1) },
        PeerRecord { peer: pid(2), addrs: addrs(2) },
    ];
    let (put_id, acts) = ctx.start_put(rec, Quorum::One, targets);
    assert_eq!(acts.len(), 2);
    let st = ctx.on_store_ack(put_id).expect("known put");
    assert_eq!(st, PutStatus::Succeeded(1));
    // An unknown put id is reported as such.
    assert!(ctx.on_store_ack(put_id + 1000).is_none());
}

#[test]
fn removing_a_peer_promotes_the_pending_candidate() {
    let me = pid(0);
    let mut t = RoutingTable::new(me, 2);
    t.insert_or_update(&pid_top(0x80, 1), &addrs(1), 1);
    t.insert_or_update(&pid_top(0x80, 2), &addrs(2), 2);
    t.insert_or_update(&pid_top(0x80, 3), &addrs(3), 3);
    assert!(t.remove(&pid_top(0x80, 1)));
    let tags: Vec<u8> = t
        .closest(&vec![0u8; ID_BYTES], 10)
        .iter()
        .map(|r| r.peer.bytes[ID_BYTES - 1])
        .collect();
    assert!(tags.contains(&2));
    assert!(tags.contains(&3), "the pending candidate takes the freed place");
    assert!(!tags.contains(&1));
    // Removing an unknown peer reports false and changes nothing.
    assert!(!t.remove(&pid_top(0x80, 9)));
}

#[test]
fn failure_against_unknown_peer_is_reported() {
    let me = pid(0);
    let mut t = RoutingTable::new(me, 2);
    assert_eq!(t.record_failure(&pid(1)), FailureOutcome::NotKnown);
}

#[test]
fn get_candidates_resolve_by_recency() {
    // Local and fetched candidates merge; the freshest value wins.
    let local = Record { key: vec![1], value: vec![10], publisher: pid(1), expires: 50 };
    let mut round = GetRound::new(2);
    assert!(!round.done());
    round.on_miss();
    round.on_found(Record { key: vec![1], value: vec![11], publisher: pid(2), expires: 90 });
    assert!(round.done(), "a found value short-circuits the fetch");
    let mut cands = vec![local];
    for r in &round.found {
        cands.push(r.clone());
    }
    let winner = resolve_recency(&cands).expect("candidates exist");
    assert_eq!(winner.value, vec![11]);
    assert_eq!(winner.expires, 90);
    // No candidates, no winner.
    assert!(resolve_recency(&Vec::new()).is_none());
}

#[test]
fn scheduler_rpc_timeout_demotes_and_requeries() {
    let me = pid(0);
    let mut ctx = DiscoveryContext::new(me, 20, 1, 30, 10);
    let (_o, acts) = ctx.on_peer_metadata(&pid(200), &addrs(200), 1);
    assert_eq!(acts.len(), 1, "the single seed is asked");
    let qid = ctx.queries[0].id;
    // The RPC times out: the peer is demoted and the query moves on
    // (nothing else to ask: it converges).
    let acts2 = ctx.on_rpc_timeout(qid, &pid(200), 2);
    assert!(acts2.is_empty());
    assert_eq!(ctx.queries[0].phase, QueryPhase::Converged);
}
