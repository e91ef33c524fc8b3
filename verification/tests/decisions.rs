use decipi::crypto::{ed_public, kex_generate, kex_public, EncKey, Mac, MacKey, PubSigKey, SecSigKey};
use decipi::envelope::{Encrypted, Macced, Signed};
use decipi::evaluator::{
    classify_sub_outcome, max_score, test_verdict, EvaluationRun, ExecutionDigest, RunRequest,
    RunResult, SubRes, TestEval, TrapKind, WasmOutcome,
};
use decipi::filter::Filter;
use decipi::message::{
    Entity, FileChunk, Ip, KeepAliveInner, MerkleData, Message, NetMessage, Obfuscated, PeerAddr,
    SubScore, SubmissionMessage, Timestamp,
};
use decipi::net::{
    handshake_step, keepalive_step, merkle_step, route_datagram, route_message, seal_message,
    AppSend, ConnectionTable, HsAction, InitEntry, KaAction, RouteDecision,
};
use decipi::store::{FileStore, FullFile};
use decipi::wire::Wire;
use decipi::FILE_CHUNK_SIZE;

fn key_of(seed: u8) -> PubSigKey {
    ed_public(&SecSigKey { bytes: [seed; 32] })
}

fn addr_of(last: u8) -> PeerAddr {
    PeerAddr::new(Ip::V4([10, 0, 0, last]), 4000)
}

#[test]
fn filter_rules() {
    let worker = key_of(1);
    let outsider = key_of(2);
    let addr = addr_of(1);
    let f = Filter::open_server(vec![worker]);
    assert!(!f.accept(&worker, &addr, Entity::Server));
    assert!(f.accept(&worker, &addr, Entity::Worker));
    assert!(!f.accept(&outsider, &addr, Entity::Worker));
    assert!(f.accept(&outsider, &addr, Entity::Participant));
    assert!(f.accept(&outsider, &addr, Entity::Spectator));

    let c = Filter::client_mode();
    assert!(!c.accept(&worker, &addr, Entity::Participant));
    assert!(!c.accept(&worker, &addr, Entity::Server));
}

fn merkle_from(
    ssk: &SecSigKey,
    kex: &decipi::crypto::KexSecret,
    contest_id: u128,
    ts: Timestamp,
) -> Signed<MerkleData, PubSigKey> {
    let body = MerkleData {
        contest_id,
        timestamp: ts,
        kex: kex_public(kex),
        addr: Obfuscated(addr_of(9)),
        entity: Entity::Participant,
    };
    Signed::new((body, ed_public(ssk)), ssk)
}

#[test]
fn handshake_two_peers_agree() {
    let now = Timestamp { secs: 5000, nanos: 0 };
    let alice_ssk = SecSigKey { bytes: [3; 32] };
    let bob_ssk = SecSigKey { bytes: [4; 32] };
    let alice_kex = kex_generate();
    let bob_kex = kex_generate();
    let alice_frame = merkle_from(&alice_ssk, &alice_kex, 7, now);
    let bob_frame = merkle_from(&bob_ssk, &bob_kex, 7, now);

    // both frames cross; each side consumes its secret exactly once
    let (left_a, conn_a, act_a) =
        handshake_step(Some(alice_kex), None, 1, 7, bob_frame, now, true, addr_of(2));
    let (left_b, conn_b, act_b) =
        handshake_step(Some(bob_kex), None, 0, 7, alice_frame, now, true, addr_of(1));
    assert!(left_a.is_none() && left_b.is_none());
    assert_eq!(act_a, HsAction::Finalize { start_keep_alive: true });
    assert_eq!(act_b, HsAction::Finalize { start_keep_alive: false });
    let (addr_a, key_a) = conn_a.unwrap();
    let (addr_b, key_b) = conn_b.unwrap();
    assert_eq!(addr_a, addr_of(2));
    assert_eq!(addr_b, addr_of(1));
    // both peers derive byte-identical connection keys
    assert_eq!(key_a.bytes, key_b.bytes);

    // a second frame finds the secret consumed and changes nothing
    let bob_kex2 = kex_generate();
    let frame2 = merkle_from(&bob_ssk, &bob_kex2, 7, now);
    let (left2, conn2, act2) = handshake_step(None, conn_a, 1, 7, frame2, now, true, addr_of(2));
    assert!(left2.is_none());
    assert_eq!(act2, HsAction::AlreadyFinalized);
    assert_eq!(conn2.unwrap().1.bytes, key_a.bytes);
}

#[test]
fn handshake_rejects_bad_frames() {
    let now = Timestamp { secs: 5000, nanos: 0 };
    let ssk = SecSigKey { bytes: [5; 32] };
    let kex = kex_generate();

    // wrong contest
    let frame = merkle_from(&ssk, &kex, 8, now);
    let (left, conn, act) = handshake_step(None, None, 0, 7, frame, now, true, addr_of(3));
    assert!(left.is_none() && conn.is_none());
    assert_eq!(act, HsAction::Drop);

    // stale timestamp
    let old = Timestamp { secs: 4000, nanos: 0 };
    let frame = merkle_from(&ssk, &kex, 7, old);
    let (_, _, act) = handshake_step(None, None, 0, 7, frame, now, true, addr_of(3));
    assert_eq!(act, HsAction::Drop);

    // rejected by the filter
    let frame = merkle_from(&ssk, &kex, 7, now);
    let (_, _, act) = handshake_step(None, None, 0, 7, frame, now, false, addr_of(3));
    assert_eq!(act, HsAction::Drop);

    // tampered signature
    let mut frame = merkle_from(&ssk, &kex, 7, now);
    frame.signature.bytes[0] ^= 1;
    let (_, _, act) = handshake_step(None, None, 0, 7, frame, now, true, addr_of(3));
    assert_eq!(act, HsAction::Drop);
}

#[test]
fn keepalive_stops_retransmit() {
    let now = Timestamp { secs: 100, nanos: 0 };
    let key = MacKey { bytes: [9; 32] };
    let ka = Macced::new(KeepAliveInner(now), &key);
    assert_eq!(keepalive_step(Some(key), ka, now, true), KaAction::StopKexRetransmit);
    let ka = Macced::new(KeepAliveInner(now), &key);
    assert_eq!(keepalive_step(Some(key), ka, now, false), KaAction::Keep);
    let wrong = MacKey { bytes: [8; 32] };
    let ka = Macced::new(KeepAliveInner(now), &wrong);
    assert_eq!(keepalive_step(Some(key), ka, now, true), KaAction::Drop);
    let ka = Macced::new(KeepAliveInner(now), &key);
    assert_eq!(keepalive_step(None, ka, now, true), KaAction::Drop);
}

#[test]
fn connection_table_counts_and_liveness() {
    let peer = key_of(6);
    let mut t = ConnectionTable::new();

    // installing with no reference standing starts nothing
    assert!(!t.install_connection(peer, addr_of(1), MacKey { bytes: [1; 32] }));
    // the first reference starts the keep-alive, a second does not
    assert!(t.inc_keepalive(peer));
    assert!(!t.inc_keepalive(peer));
    // releasing down to zero aborts exactly once, and not below zero
    assert!(!t.dec_keepalive(peer));
    assert!(t.dec_keepalive(peer));
    assert!(!t.dec_keepalive(peer));

    // counting before any connection starts nothing; the install does
    let peer2 = key_of(9);
    assert!(!t.inc_keepalive(peer2));
    assert!(t.install_connection(peer2, addr_of(3), MacKey { bytes: [2; 32] }));

    // an address move keeps the key; the task restarts only where live
    let key = t.lookup(&peer2).unwrap().1;
    assert!(t.update_peer_addr(peer2, addr_of(2)));
    let (a2, k2) = t.lookup(&peer2).unwrap();
    assert_eq!(a2, addr_of(2));
    assert_eq!(k2.bytes, key.bytes);
    assert!(!t.update_peer_addr(peer, addr_of(5)));
}

#[test]
fn route_datagram_authenticates() {
    let psk = key_of(7);
    let server_psk = key_of(8);
    let key = MacKey { bytes: [12; 32] };
    let sm = SubmissionMessage {
        problem_id: 1,
        file_id: Mac { bytes: [2; 32] },
        file_size: 10,
        enc_key: EncKey { bytes: [3; 32] },
    };
    let m = Message::Submission(Macced::new(sm, &key));
    let mut frame: Vec<u8> = Vec::new();
    m.encode(&mut frame);

    // authenticated delivery under the right key
    match route_datagram(&frame, Some((psk, key)), &server_psk) {
        RouteDecision::DeliverSubmission(got, from) => {
            assert_eq!(got.problem_id, 1);
            assert_eq!(from, psk);
        },
        other => panic!("expected a delivery, got {other:?}"),
    }
    // a wrong key or an unknown sender drops it
    let wrong = MacKey { bytes: [13; 32] };
    assert_eq!(route_datagram(&frame, Some((psk, wrong)), &server_psk), RouteDecision::Drop);
    assert_eq!(route_datagram(&frame, None, &server_psk), RouteDecision::Drop);
    // garbage is dropped
    assert_eq!(route_datagram(&[200, 1, 2], Some((psk, key)), &server_psk), RouteDecision::Drop);
    // handshake frames go to the handshake engine unauthenticated
    let ka = Message::Net(NetMessage::KeepAlive(psk, Macced::new(
        KeepAliveInner(Timestamp { secs: 1, nanos: 0 }),
        &key,
    )));
    let mut frame2: Vec<u8> = Vec::new();
    ka.encode(&mut frame2);
    assert!(matches!(
        route_datagram(&frame2, None, &server_psk),
        RouteDecision::Handshake(_)
    ));
}

#[test]
fn store_promotes_only_matching_hashes() {
    let mut store = FileStore::new();
    let enc_key = EncKey { bytes: [4; 32] };
    let size = FILE_CHUNK_SIZE + 7;
    let mut data: Vec<u8> = Vec::new();
    for i in 0..size {
        data.push((i % 13) as u8);
    }
    let source = FullFile::new(data.clone(), enc_key);

    // a file received whole is keyed by its own digest
    let done_hash = store.add_done(data.clone());
    assert!(store.get_file(&done_hash).is_some());

    // chunked reception under the right hash promotes
    let hash = decipi::crypto::blake3_hash(data.as_slice());
    let mut other = data.clone();
    other[0] ^= 1;
    let wrong_hash = decipi::crypto::blake3_hash(other.as_slice());
    store.add_new(hash, size, enc_key);
    assert_eq!(store.add_enc_chunk(hash, 0, source.get_enc_chunk(0)), Some(false));
    assert_eq!(store.add_enc_chunk(hash, 1, source.get_enc_chunk(1)), Some(true));
    assert!(store.get_file(&hash).is_some());
    assert_eq!(store.get_file(&hash).unwrap().get_all(), &data);

    // chunked reception under a wrong hash is discarded on completion
    store.add_new(wrong_hash, size, enc_key);
    assert_eq!(store.add_enc_chunk(wrong_hash, 0, source.get_enc_chunk(0)), Some(false));
    assert_eq!(store.add_enc_chunk(wrong_hash, 1, source.get_enc_chunk(1)), None);
    assert!(store.get_file(&wrong_hash).is_none());
    // and the discarded entry takes no more chunks
    assert_eq!(store.add_enc_chunk(wrong_hash, 0, source.get_enc_chunk(0)), None);

    // a chunk for an unregistered hash is refused
    let unknown = Mac { bytes: [200; 32] };
    assert_eq!(store.add_enc_chunk(unknown, 0, source.get_enc_chunk(0)), None);
}

#[test]
fn verdict_classification() {
    assert_eq!(classify_sub_outcome(WasmOutcome::Trap(TrapKind::OutOfFuel)), SubRes::TLE);
    assert_eq!(
        classify_sub_outcome(WasmOutcome::Trap(TrapKind::MemoryOutOfBounds)),
        SubRes::MLE
    );
    assert_eq!(classify_sub_outcome(WasmOutcome::Trap(TrapKind::TableOutOfBounds)), SubRes::MLE);
    assert_eq!(classify_sub_outcome(WasmOutcome::GrowFailure), SubRes::MLE);
    assert_eq!(classify_sub_outcome(WasmOutcome::Trap(TrapKind::Other)), SubRes::RTE);
    assert_eq!(classify_sub_outcome(WasmOutcome::Exited(None)), SubRes::MFO);
    assert_eq!(
        classify_sub_outcome(WasmOutcome::Exited(Some(b"17\n".to_vec()))),
        SubRes::OK(b"17\n".to_vec())
    );

    // a successful run scores what the scorer said, inside the unit interval
    let one = 1.0f64.to_bits();
    assert_eq!(
        test_verdict(SubRes::OK(b"17\n".to_vec()), Some(one)),
        Ok(TestEval::Score(SubScore { bits: one }))
    );
    assert!(test_verdict(SubRes::OK(Vec::new()), Some(2.0f64.to_bits())).is_err());
    assert!(test_verdict(SubRes::OK(Vec::new()), None).is_err());
    assert_eq!(test_verdict(SubRes::TLE, None), Ok(TestEval::TLE));
    assert_eq!(test_verdict(SubRes::MLE, None), Ok(TestEval::MLE));
    assert_eq!(test_verdict(SubRes::RTE, None), Ok(TestEval::RTE));
    assert_eq!(
        test_verdict(SubRes::MFO, None),
        Ok(TestEval::Score(SubScore { bits: 0 }))
    );
}

#[test]
fn aggregate_scores() {
    let one = SubScore { bits: 1.0f64.to_bits() };
    let half = SubScore { bits: 0.5f64.to_bits() };

    // a full pass keeps the top score
    let all_pass = vec![TestEval::Score(one); 16];
    assert_eq!(max_score(&all_pass).unwrap().bits, one.bits);

    // a testset that only ever times out aggregates to zero
    let all_tle = vec![TestEval::TLE; 16];
    assert_eq!(max_score(&all_tle).unwrap().bits, 0);
    let all_mle = vec![TestEval::MLE; 16];
    assert_eq!(max_score(&all_mle).unwrap().bits, 0);
    let all_rte = vec![TestEval::RTE; 16];
    assert_eq!(max_score(&all_rte).unwrap().bits, 0);

    // the maximum wins over mixed verdicts
    let mixed = vec![TestEval::TLE, TestEval::Score(half), TestEval::RTE, TestEval::Score(one)];
    assert_eq!(max_score(&mixed).unwrap().bits, one.bits);

    // no tests, no score
    assert!(max_score(&Vec::new()).is_none());
}

#[test]
fn digest_feeds_bytes_in_order() {
    let mut d = ExecutionDigest::new();
    d.update_memory(&[1, 2, 3]);
    d.update_fuel(0x0102_0304_0506_0708);
    assert_eq!(d.fed, vec![1, 2, 3, 1, 2, 3, 4, 5, 6, 7, 8]);
    let h = d.finalize();
    let direct = decipi::crypto::blake3_hash(&[1u8, 2, 3, 1, 2, 3, 4, 5, 6, 7, 8]);
    assert_eq!(h, direct);

    // the same feed gives the same evidence; a different fuel count does not
    let mut d2 = ExecutionDigest::new();
    d2.update_memory(&[1, 2, 3]);
    d2.update_fuel(0x0102_0304_0506_0708);
    assert_eq!(d2.finalize(), h);
    let mut d3 = ExecutionDigest::new();
    d3.update_memory(&[1, 2, 3]);
    d3.update_fuel(0x0102_0304_0506_0709);
    assert_ne!(d3.finalize(), h);
}

#[test]
fn encrypted_chunk_round_trips_through_store_key() {
    let key = EncKey { bytes: [30; 32] };
    let chunk = FileChunk([7u8; FILE_CHUNK_SIZE]);
    let env = Encrypted::new(chunk, &key);
    assert_eq!(env.inner(&key), Some(FileChunk([7u8; FILE_CHUNK_SIZE])));
}

#[test]
fn seal_then_route_delivers() {
    let key = MacKey { bytes: [21; 32] };
    let server_ssk = SecSigKey { bytes: [22; 32] };
    let server_psk = ed_public(&server_ssk);
    let sender = key_of(23);

    let q = decipi::message::QueueMessage {
        id: 3,
        timestamp: Timestamp { secs: 9, nanos: 0 },
        message: decipi::message::QueueMessageInner::Announcement(
            decipi::message::QAnnouncement {
                text: decipi::message::TextBytes { bytes: b"start".to_vec() },
                context: None,
            },
        ),
    };
    let sealed = seal_message(AppSend::Queue(q), &key, &server_ssk);
    match route_message(sealed, Some((sender, key)), &server_psk) {
        RouteDecision::DeliverQueue(got, from) => {
            assert_eq!(got.id, 3);
            assert_eq!(from, sender);
        },
        other => panic!("expected a queue delivery, got {other:?}"),
    }

    // a queue entry signed by someone who is not the server is dropped
    let q2 = decipi::message::QueueMessage {
        id: 4,
        timestamp: Timestamp { secs: 9, nanos: 0 },
        message: decipi::message::QueueMessageInner::Announcement(
            decipi::message::QAnnouncement {
                text: decipi::message::TextBytes { bytes: b"late".to_vec() },
                context: None,
            },
        ),
    };
    let impostor = SecSigKey { bytes: [24; 32] };
    let sealed2 = seal_message(AppSend::Queue(q2), &key, &impostor);
    assert_eq!(
        route_message(sealed2, Some((sender, key)), &server_psk),
        RouteDecision::Drop
    );
}

#[test]
fn chunk_message_straight_off_the_wire() {
    let enc_key = EncKey { bytes: [40; 32] };
    let size = FILE_CHUNK_SIZE + 5;
    let mut data: Vec<u8> = Vec::new();
    for i in 0..size {
        data.push((i % 7) as u8);
    }
    let hash = decipi::crypto::blake3_hash(data.as_slice());
    let source = decipi::store::FullFile::new(data.clone(), enc_key);

    let mut store = FileStore::new();
    store.add_new(hash, size, enc_key);

    // chunks arrive as file messages; an out-of-range piece index is
    // dropped without a trace, like an unknown hash
    let fm_oob = decipi::message::FileMessage {
        hash,
        piece: 2,
        data: decipi::envelope::SizedEncrypted::new(FileChunk([0u8; FILE_CHUNK_SIZE]), &enc_key),
    };
    assert_eq!(store.take_chunk_message(fm_oob), None);

    let chunk0 = source.get_enc_chunk_checked(0).unwrap();
    let chunk1 = source.get_enc_chunk_checked(1).unwrap();
    assert!(source.get_enc_chunk_checked(2).is_none());
    let to_sized = |e: decipi::envelope::Encrypted<FileChunk>, k: &EncKey| {
        let c = e.inner(k).unwrap();
        decipi::envelope::SizedEncrypted::<_, FILE_CHUNK_SIZE>::new(c, k)
    };
    let fm0 = decipi::message::FileMessage { hash, piece: 0, data: to_sized(chunk0, &enc_key) };
    let fm1 = decipi::message::FileMessage { hash, piece: 1, data: to_sized(chunk1, &enc_key) };
    assert_eq!(store.take_chunk_message(fm0), Some(false));
    assert_eq!(store.take_chunk_message(fm1), Some(true));
    assert_eq!(store.get_file(&hash).unwrap().get_all(), &data);
}

#[test]
fn merkle_step_mints_on_first_contact() {
    let now = Timestamp { secs: 5000, nanos: 0 };
    let peer_ssk = SecSigKey { bytes: [31; 32] };
    let peer_kex = kex_generate();
    let frame = merkle_from(&peer_ssk, &peer_kex, 7, now);

    // first contact from the peer: a fresh secret is minted, consumed at
    // once, and the retransmit loop toward the peer must be spawned
    let (entry, conn, act, spawn) =
        merkle_step(InitEntry::Absent, None, 0, 7, frame, now, true, addr_of(8));
    assert!(matches!(entry, InitEntry::Consumed));
    assert!(conn.is_some());
    assert_eq!(act, HsAction::Finalize { start_keep_alive: false });
    assert!(spawn);

    // an invalid frame on first contact mints nothing
    let peer_kex2 = kex_generate();
    let bad = merkle_from(&peer_ssk, &peer_kex2, 8, now);
    let (entry, conn, act, spawn) =
        merkle_step(InitEntry::Absent, None, 0, 7, bad, now, true, addr_of(8));
    assert!(matches!(entry, InitEntry::Absent));
    assert!(conn.is_none());
    assert_eq!(act, HsAction::Drop);
    assert!(!spawn);
}

fn drive_submission_runs(per_test: &dyn Fn(u32) -> RunResult, n: u32) -> RunRequest {
    let limits = decipi::evaluator::Limits { memory: 2_000_000, cpu: 100_000 };
    let (mut machine, mut request) = EvaluationRun::start(limits, n);
    loop {
        request = match request {
            RunRequest::RunGen { test_id } => machine.on_gen(
                RunResult::Completed(WasmOutcome::Exited(Some(b"17\n".to_vec()))),
                &[test_id as u8],
            ),
            RunRequest::RunSub { input: _ } => {
                let id = 0u32;
                machine.on_sub(per_test(id), 1000, &[9, 9])
            },
            RunRequest::RunEval { test_id: _, input } => {
                assert_eq!(input, b"17\n".to_vec());
                machine.on_eval(
                    RunResult::Completed(WasmOutcome::Exited(Some(b"1".to_vec()))),
                    &[3],
                    Some(1.0f64.to_bits()),
                )
            },
            done => return done,
        };
    }
}

#[test]
fn evaluation_machine_scenarios() {
    // an echoing submission scores full marks on every test
    let happy = drive_submission_runs(
        &|_| RunResult::Completed(WasmOutcome::Exited(Some(b"17\n".to_vec()))),
        16,
    );
    match happy {
        RunRequest::Done { score, detail_hash: _ } => {
            assert_eq!(score.bits, 1.0f64.to_bits());
        },
        other => panic!("expected a final score, got {other:?}"),
    }

    // a submission that only ever runs out of fuel aggregates to zero
    let tle = drive_submission_runs(
        &|_| RunResult::Completed(WasmOutcome::Trap(TrapKind::OutOfFuel)),
        16,
    );
    match tle {
        RunRequest::Done { score, detail_hash: _ } => {
            assert_eq!(score.bits, 0);
        },
        other => panic!("expected a final score, got {other:?}"),
    }

    // the digest is produced even where every test misbehaves, and
    // differs from the digest of a run with different memory images
    let rte = drive_submission_runs(
        &|_| RunResult::Completed(WasmOutcome::Trap(TrapKind::Other)),
        16,
    );
    let mle = drive_submission_runs(
        &|_| RunResult::Completed(WasmOutcome::GrowFailure),
        16,
    );
    match (rte, mle) {
        (
            RunRequest::Done { score: s1, detail_hash: d1 },
            RunRequest::Done { score: s2, detail_hash: d2 },
        ) => {
            assert_eq!(s1.bits, 0);
            assert_eq!(s2.bits, 0);
            assert_eq!(d1, d2);
        },
        other => panic!("expected two final scores, got {other:?}"),
    }

    // a generator failure fails the whole evaluation
    let limits = decipi::evaluator::Limits { memory: 2_000_000, cpu: 100_000 };
    let (mut machine, first) = decipi::evaluator::EvaluationRun::start(limits, 4);
    assert_eq!(first, RunRequest::RunGen { test_id: 0 });
    let r = machine.on_gen(
        RunResult::Completed(WasmOutcome::Trap(TrapKind::Other)),
        &[1],
    );
    assert_eq!(r, RunRequest::Failed);

    // a scorer value outside the unit interval fails the evaluation
    let (mut machine, _) = decipi::evaluator::EvaluationRun::start(limits, 4);
    let r = machine.on_gen(
        RunResult::Completed(WasmOutcome::Exited(Some(b"17\n".to_vec()))),
        &[1],
    );
    let r = match r {
        RunRequest::RunSub { .. } => machine.on_sub(
            RunResult::Completed(WasmOutcome::Exited(Some(b"17\n".to_vec()))),
            77,
            &[2],
        ),
        other => panic!("expected a submission run, got {other:?}"),
    };
    let r = match r {
        RunRequest::RunEval { .. } => machine.on_eval(
            RunResult::Completed(WasmOutcome::Exited(Some(b"2".to_vec()))),
            &[3],
            Some(2.0f64.to_bits()),
        ),
        other => panic!("expected a scorer run, got {other:?}"),
    };
    assert_eq!(r, RunRequest::Failed);

    // an empty testset has no score to give
    let (_, r) = decipi::evaluator::EvaluationRun::start(limits, 0);
    assert_eq!(r, RunRequest::Failed);
}
