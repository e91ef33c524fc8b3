use decipi::crypto::{
    blake3_hash, ed_public, kex_dh, kex_generate, kex_public, EncKey, Mac, MacKey, SecSigKey,
};
use decipi::envelope::{Encrypted, Macced, Signed, SizedEncrypted};
use decipi::eval_info::{EvaluationInfo, EvaluationResultScore};
use decipi::message::{
    is_timestamp_valid_at, EncKeyId, EncKeyInfo, Entity, EvaluationId, FileChunk, FileMessage, Ip,
    MerkleData, Message, NetMessage, Obfuscated, PeerAddr, QAnnouncement, QEvaluation,
    QEvaluationProof, QueueMessage, QueueMessageInner, RequestMessage, SubScore, SubmissionId,
    SubmissionMessage, TextBytes, Timestamp,
};
use decipi::store::{FileParts, FullFile};
use decipi::wire::Wire;
use decipi::{FILE_CHUNK_SIZE, MAX_MESSAGE_SIZE};

fn mac_key_pair() -> MacKey {
    let a = kex_generate();
    let b = kex_generate();
    let pa = kex_public(&a);
    let pb = kex_public(&b);
    let ka = kex_dh(a, &pb);
    let kb = kex_dh(b, &pa);
    assert_eq!(ka.bytes, kb.bytes);
    ka
}

#[test]
fn file_message() {
    let file = FileChunk([42u8; FILE_CHUNK_SIZE]);
    let enc_key = EncKey { bytes: [42; 32] };
    let mac_key = mac_key_pair();

    let hash = Mac { bytes: [42; 32] };
    let piece = 0u32;
    let data = SizedEncrypted::<_, FILE_CHUNK_SIZE>::new(file, &enc_key);

    let file_message = FileMessage { hash, piece, data };
    let macced = Macced::new(file_message, &mac_key);
    let message = Message::File(macced);

    let mut ser: Vec<u8> = Vec::new();
    message.encode(&mut ser);
    assert_eq!(ser.len(), MAX_MESSAGE_SIZE);

    let (unser, used) = Message::decode(ser.as_slice(), 0).unwrap();
    assert_eq!(used, ser.len());
    assert_eq!(message, unser);

    match unser {
        Message::File(m) => {
            let unmacced = m.inner(&mac_key).unwrap();
            assert_eq!(unmacced.hash, hash);
            assert_eq!(unmacced.piece, piece);
            let unenced = unmacced.data.inner(&enc_key).unwrap();
            assert_eq!(file, unenced);
        },
        _ => panic!("wrong variant"),
    }
}

#[test]
fn obfuscated_ipv6() {
    let mut v6 = [0u8; 16];
    v6[15] = 1;
    let socket = Obfuscated(PeerAddr::new(Ip::V6(v6), 8080));
    let mut ser: Vec<u8> = Vec::new();
    socket.encode(&mut ser);
    let (unser, used) = Obfuscated::decode(ser.as_slice(), 0).unwrap();
    assert_eq!(used, ser.len());
    assert_eq!(socket, unser);
}

#[test]
fn obfuscated_ipv4() {
    let socket = Obfuscated(PeerAddr::new(Ip::V4([127, 0, 0, 1]), 8080));
    let mut ser: Vec<u8> = Vec::new();
    socket.encode(&mut ser);
    let (unser, used) = Obfuscated::decode(ser.as_slice(), 0).unwrap();
    assert_eq!(used, ser.len());
    assert_eq!(socket, unser);
}

#[test]
fn macced_round_trip_and_wrong_key() {
    let key = mac_key_pair();
    let t = Timestamp { secs: 17, nanos: 5 };
    let m = Macced::new(t, &key);
    assert!(m.check(&key));
    assert_eq!(m.inner(&key), Some(t));
    let mut other = key;
    other.bytes[0] ^= 1;
    let other = MacKey { bytes: other.bytes };
    assert!(!m.check(&other));
    assert_eq!(m.inner(&other), None);
}

#[test]
fn signed_round_trip_and_bit_flip() {
    let sk = SecSigKey { bytes: [5; 32] };
    let vk = ed_public(&sk);
    let t = Timestamp { secs: 99, nanos: 1 };
    let s = Signed::new((t, vk), &sk);
    assert!(s.check(&vk));
    assert_eq!(s.inner(&vk), Some((t, vk)));

    let mut bad_sig = s.signature;
    bad_sig.bytes[3] ^= 1;
    let s_bad = Signed { body: s.body, signer: s.signer, signature: bad_sig };
    assert!(!s_bad.check(&vk));

    let t2 = Timestamp { secs: 98, nanos: 1 };
    let s_bad2 = Signed { body: t2, signer: s.signer, signature: s.signature };
    assert!(!s_bad2.check(&vk));
}

#[test]
fn encrypted_round_trip_and_fresh_nonces() {
    let key = EncKey { bytes: [9; 32] };
    let t = Timestamp { secs: 1234, nanos: 567 };
    let e1 = Encrypted::new(t, &key);
    let e2 = Encrypted::new(t, &key);
    assert!(e1.nonce != e2.nonce || e1.data != e2.data);
    assert_eq!(e1.inner(&key), Some(t));
    assert_eq!(e2.inner(&key), Some(t));
}

#[test]
fn sized_encrypted_round_trip() {
    let key = EncKey { bytes: [1; 32] };
    let inner = EncKey { bytes: [200; 32] };
    let e = SizedEncrypted::<_, 32>::new(inner, &key);
    let e2 = SizedEncrypted { data: e.data, nonce: e.nonce, marker: e.marker };
    assert_eq!(e.inner(&key), Some(inner));
    let wrong = EncKey { bytes: [2; 32] };
    assert_ne!(e2.inner(&wrong), Some(inner));
}

#[test]
fn dh_both_sides_agree() {
    let a = kex_generate();
    let b = kex_generate();
    let pa = kex_public(&a);
    let pb = kex_public(&b);
    let ka = kex_dh(a, &pb);
    let kb = kex_dh(b, &pa);
    assert_eq!(ka.bytes, kb.bytes);
}

#[test]
fn timestamp_window_boundaries() {
    let now = Timestamp { secs: 1000, nanos: 0 };
    assert!(is_timestamp_valid_at(Timestamp { secs: 1020, nanos: 0 }, now));
    assert!(!is_timestamp_valid_at(Timestamp { secs: 1020, nanos: 1_000_000 }, now));
    assert!(is_timestamp_valid_at(Timestamp { secs: 960, nanos: 0 }, now));
    assert!(!is_timestamp_valid_at(Timestamp { secs: 959, nanos: 999_000_000 }, now));
    assert!(is_timestamp_valid_at(now, now));
}

#[test]
fn score_bits_window() {
    assert!(SubScore::from_bits(0.0f64.to_bits()).is_some());
    assert!(SubScore::from_bits((-0.0f64).to_bits()).is_some());
    assert!(SubScore::from_bits(1.0f64.to_bits()).is_some());
    assert!(SubScore::from_bits(0.75f64.to_bits()).is_some());
    assert!(SubScore::from_bits(1.0000001f64.to_bits()).is_none());
    assert!(SubScore::from_bits(f64::NAN.to_bits()).is_none());
    assert!(SubScore::from_bits((-0.5f64).to_bits()).is_none());
    assert!(SubScore::from_bits(f64::INFINITY.to_bits()).is_none());
}

fn evaluator_keys() -> Vec<decipi::crypto::PubSigKey> {
    vec![
        ed_public(&SecSigKey { bytes: [1; 32] }),
        ed_public(&SecSigKey { bytes: [2; 32] }),
        ed_public(&SecSigKey { bytes: [3; 32] }),
    ]
}

fn eval_id(evaluator: decipi::crypto::PubSigKey) -> EvaluationId {
    EvaluationId {
        submission_id: SubmissionId {
            submitter: ed_public(&SecSigKey { bytes: [7; 32] }),
            problem_id: 1,
            file_id: Mac { bytes: [8; 32] },
        },
        evaluator,
    }
}

#[test]
fn majority_evaluation() {
    let evaluators = evaluator_keys();
    let score = SubScore::from_bits(0.75f64.to_bits()).unwrap();
    let shared_key = Mac { bytes: [77; 32] };

    // all three commit with the same reveal key and score, then reveal
    let mut info = EvaluationInfo::new(evaluators.clone());
    for ek in evaluators.iter() {
        let evp = QEvaluationProof { evaluation_id: eval_id(*ek), detailhs: shared_key };
        let ev = QEvaluation::new(evp, score);
        assert!(evp.check(&ev));
        info.add_evaluation(ev);
        info.add_evaluation_proof(evp);
    }
    assert!(info.is_done());
    assert_eq!(info.score(), EvaluationResultScore::Final(score));

    // one evaluator reveals a mismatching key: the other two still form a
    // majority of three
    let mut info = EvaluationInfo::new(evaluators.clone());
    for (i, ek) in evaluators.iter().enumerate() {
        let evp = QEvaluationProof { evaluation_id: eval_id(*ek), detailhs: shared_key };
        let ev = QEvaluation::new(evp, score);
        info.add_evaluation(ev);
        if i == 0 {
            let bad = QEvaluationProof {
                evaluation_id: eval_id(*ek),
                detailhs: Mac { bytes: [1; 32] },
            };
            info.add_evaluation_proof(bad);
        } else {
            info.add_evaluation_proof(evp);
        }
    }
    assert!(info.is_done());
    assert_eq!(info.score(), EvaluationResultScore::Final(score));

    // two mismatching reveals: no majority, and once all are done the
    // aggregate is failed
    let mut info = EvaluationInfo::new(evaluators.clone());
    for (i, ek) in evaluators.iter().enumerate() {
        let evp = QEvaluationProof { evaluation_id: eval_id(*ek), detailhs: shared_key };
        let ev = QEvaluation::new(evp, score);
        info.add_evaluation(ev);
        if i <= 1 {
            let bad = QEvaluationProof {
                evaluation_id: eval_id(*ek),
                detailhs: Mac { bytes: [1; 32] },
            };
            info.add_evaluation_proof(bad);
        } else {
            info.add_evaluation_proof(evp);
        }
    }
    assert!(info.is_done());
    assert_eq!(info.score(), EvaluationResultScore::Failed);
}

#[test]
fn provisional_before_reveal() {
    let evaluators = evaluator_keys();
    let score = SubScore::from_bits(0.5f64.to_bits()).unwrap();
    let mut info = EvaluationInfo::new(evaluators.clone());
    assert_eq!(info.score(), EvaluationResultScore::Pending);
    let evp = QEvaluationProof {
        evaluation_id: eval_id(evaluators[1]),
        detailhs: Mac { bytes: [4; 32] },
    };
    info.add_evaluation(QEvaluation::new(evp, score));
    assert_eq!(info.score(), EvaluationResultScore::Provisional(score));
    assert!(!info.is_done());
}

#[test]
fn file_parts_reassembly() {
    let enc_key = EncKey { bytes: [3; 32] };
    let size = FILE_CHUNK_SIZE + 100;
    let mut data: Vec<u8> = Vec::new();
    for i in 0..size {
        data.push((i % 251) as u8);
    }
    let full = FullFile::new(data.clone(), enc_key);
    let c0 = full.get_enc_chunk(0);
    let c1 = full.get_enc_chunk(1);

    let mut parts = FileParts::new(size, enc_key);
    assert_eq!(parts.nchunks(), 2);
    parts.add_enc_chunk(1, c1);
    assert!(parts.get_all().is_none());
    parts.add_enc_chunk(0, c0);
    let assembled = parts.get_all().expect("both chunks arrived");
    assert_eq!(assembled, &data);
    assert_eq!(
        blake3_hash(assembled.as_slice()).bytes,
        blake3_hash(data.as_slice()).bytes
    );
}

#[test]
fn message_variants_round_trip() {
    let mac_key = mac_key_pair();

    let req = Message::Request(Macced::new(
        RequestMessage::File(vec![(0, 3), (7, 9)]),
        &mac_key,
    ));
    let enc = Message::EncKey(Macced::new(
        EncKeyInfo {
            id: EncKeyId::Or(vec![
                EncKeyId::IsEntity(Entity::Worker),
                EncKeyId::And(vec![EncKeyId::CustomPublic(4), EncKeyId::ProblemSolved(2)]),
            ]),
            key: EncKey { bytes: [12; 32] },
        },
        &mac_key,
    ));
    let sub = Message::Submission(Macced::new(
        SubmissionMessage {
            problem_id: 3,
            file_id: Mac { bytes: [6; 32] },
            file_size: 1000,
            enc_key: EncKey { bytes: [13; 32] },
        },
        &mac_key,
    ));
    let sk = SecSigKey { bytes: [5; 32] };
    let queue = Message::Queue(Macced::new(
        Signed::new(
            (
                QueueMessage {
                    id: 0,
                    timestamp: Timestamp { secs: 55, nanos: 0 },
                    message: QueueMessageInner::Announcement(QAnnouncement {
                        text: TextBytes { bytes: b"hello".to_vec() },
                        context: Some(9),
                    }),
                },
                (),
            ),
            &sk,
        ),
        &mac_key,
    ));

    for m in [req, enc, sub, queue] {
        let mut ser: Vec<u8> = Vec::new();
        m.encode(&mut ser);
        let (unser, used) = Message::decode(ser.as_slice(), 0).unwrap();
        assert_eq!(used, ser.len());
        assert_eq!(m, unser);
    }
}

#[test]
fn merkle_handshake_message() {
    let sk = SecSigKey { bytes: [21; 32] };
    let vk = ed_public(&sk);
    let kexs = kex_generate();
    let kex = kex_public(&kexs);
    let body = MerkleData {
        contest_id: 77,
        timestamp: Timestamp { secs: 1, nanos: 2 },
        kex,
        addr: Obfuscated(PeerAddr::new(Ip::V4([10, 0, 0, 1]), 4000)),
        entity: Entity::Participant,
    };
    let m = Message::Net(NetMessage::Merkle(Signed::new((body, vk), &sk)));
    let mut ser: Vec<u8> = Vec::new();
    m.encode(&mut ser);
    let (unser, used) = Message::decode(ser.as_slice(), 0).unwrap();
    assert_eq!(used, ser.len());
    assert_eq!(m, unser);
    match unser {
        Message::Net(NetMessage::Merkle(s)) => {
            assert!(s.check(&vk));
            assert_eq!(s.who(), vk);
        },
        _ => panic!("wrong variant"),
    }
}
