use banana::ledger::timestamp_from_epoch;
use banana::{LedgerWitness, MerkleProof, MerkleTree, SupplyChainRecord};

/// The JSON line of a record, as the ledger file holds it.
fn serialized(r: &SupplyChainRecord) -> Vec<u8> {
    let ts = chrono::DateTime::from_timestamp(i64::try_from(r.timestamp.secs).unwrap(), r.timestamp.nanos)
        .unwrap()
        .to_rfc3339_opts(chrono::SecondsFormat::AutoSi, true);
    format!(
        "{{\"sequence_number\":{},\"artifact_name\":\"{}\",\"artifact_hash\":\"{}\",\"builder_id\":\"{}\",\"timestamp\":\"{}\"}}",
        r.sequence_number, r.artifact_name, r.artifact_hash, r.builder_id, ts
    )
    .into_bytes()
}

fn blake3_pair(a: &str, b: &str) -> String {
    let mut h = blake3::Hasher::new();
    h.update(a.as_bytes());
    h.update(b.as_bytes());
    h.finalize().to_hex().to_string()
}

#[test]
fn test_merkle_tree_proof_and_verification() {
    let mut witness = LedgerWitness::new().unwrap();
    witness.append_record("artifact-1", "blake3:hash1", "banana-builder-v1");
    witness.append_record("artifact-2", "blake3:hash2", "banana-builder-v1");
    witness.append_record("artifact-3", "blake3:hash3", "banana-builder-v1");
    witness.append_record("artifact-4", "blake3:hash4", "banana-builder-v1");

    let tree = witness.build_tree(serialized);
    assert_eq!(witness.record_count(), 4);

    let proof = tree.generate_proof(2).unwrap();
    assert!(MerkleTree::verify_proof(&proof));

    let mut tampered = proof.clone();
    tampered.root_hash = "tampered-root".to_string();
    assert!(!MerkleTree::verify_proof(&tampered));
}

#[test]
fn test_slsa_statement_and_persistence() {
    let mut witness = LedgerWitness::new().unwrap();
    witness.append_record("fish-cli", "blake3:abc123", "github-actions");
    let rec = &witness.records()[0];
    let statement = rec.to_slsa_v1_statement();
    assert_eq!(statement.statement_type, "https://in-toto.io/Statement/v1");
    assert_eq!(statement.predicate_type, "https://slsa.dev/provenance/v1");

    let mut loaded = LedgerWitness::new().unwrap();
    for r in witness.records() {
        loaded.restore_record(r.clone());
    }
    assert_eq!(loaded.record_count(), 1);
    assert_eq!(loaded.records()[0].artifact_name, "fish-cli");
}

#[test]
fn statement_carries_the_record() {
    let mut witness = LedgerWitness::new().unwrap();
    witness.append_record("skip", "blake3:0", "b");
    witness.append_record("app", "blake3:ff", "ci-runner");
    let rec = &witness.records()[1];
    let st = rec.to_slsa_v1_statement();
    assert_eq!(st.subject.len(), 1);
    assert_eq!(st.subject[0].name, "app");
    assert_eq!(st.subject[0].digest, vec![("blake3".to_string(), "blake3:ff".to_string())]);
    assert_eq!(st.predicate.builder.id, "ci-runner");
    assert_eq!(st.predicate.build_type, "https://requla.org/banana/build/v1");
    assert_eq!(st.predicate.invocation.sequence_number, 1);
    assert_eq!(st.predicate.invocation.timestamp, rec.timestamp);
}

#[test]
fn sequence_numbers_follow_positions() {
    let mut witness = LedgerWitness::new().unwrap();
    for i in 0..5u64 {
        let seq = witness.append_record(&format!("a{}", i), "h", "b");
        assert_eq!(seq, i);
    }
    for (i, r) in witness.records().iter().enumerate() {
        assert_eq!(r.sequence_number as usize, i);
        assert_eq!(r.artifact_name, format!("a{}", i));
    }
    assert_eq!(witness.record_count(), 5);
}

#[test]
fn tree_leaves_hash_the_serialized_records() {
    let mut witness = LedgerWitness::new().unwrap();
    witness.append_record("a", "h1", "b");
    witness.append_record("c", "h2", "d");
    let tree = witness.build_tree(serialized);
    let expected: Vec<String> = witness
        .records()
        .iter()
        .map(|r| blake3::hash(&serialized(r)).to_hex().to_string())
        .collect();
    assert_eq!(tree.leaves(), &expected);
}

#[test]
fn every_leaf_proof_verifies() {
    for n in 1..9usize {
        let lines: Vec<Vec<u8>> = (0..n).map(|i| format!("record-{}", i).into_bytes()).collect();
        let tree = MerkleTree::new(&lines);
        for i in 0..n {
            let proof = tree.generate_proof(i).unwrap();
            assert_eq!(proof.leaf_hash, blake3::hash(&lines[i]).to_hex().to_string());
            assert_eq!(proof.root_hash, tree.root_hash());
            assert!(MerkleTree::verify_proof(&proof));
        }
        assert!(tree.generate_proof(n).is_none());
    }
}

#[test]
fn root_of_two_and_three_leaves() {
    let lines = vec![b"x".to_vec(), b"y".to_vec(), b"z".to_vec()];
    let hx = blake3::hash(b"x").to_hex().to_string();
    let hy = blake3::hash(b"y").to_hex().to_string();
    let hz = blake3::hash(b"z").to_hex().to_string();
    let two = MerkleTree::new(&lines[0..2]);
    assert_eq!(two.root_hash(), blake3_pair(&hx, &hy));
    let three = MerkleTree::new(&lines);
    assert_eq!(three.root_hash(), blake3_pair(&blake3_pair(&hx, &hy), &hz));
    let proof = three.generate_proof(2).unwrap();
    assert_eq!(proof.audit_path, vec![(blake3_pair(&hx, &hy), true)]);
    let proof0 = three.generate_proof(0).unwrap();
    assert_eq!(proof0.audit_path, vec![(hy.clone(), false), (hz.clone(), false)]);
}

#[test]
fn empty_tree_root_is_hash_of_nothing() {
    let none: Vec<Vec<u8>> = Vec::new();
    let tree = MerkleTree::new(&none);
    assert_eq!(tree.root_hash(), blake3::hash(b"").to_hex().to_string());
    assert!(tree.generate_proof(0).is_none());
}

#[test]
fn altered_leaf_or_path_is_rejected() {
    let lines: Vec<Vec<u8>> = (0..4).map(|i| vec![i as u8]).collect();
    let tree = MerkleTree::new(&lines);
    let proof = tree.generate_proof(1).unwrap();
    let mut bad_leaf: MerkleProof = proof.clone();
    bad_leaf.leaf_hash = blake3::hash(b"other").to_hex().to_string();
    assert!(!MerkleTree::verify_proof(&bad_leaf));
    let mut flipped = proof.clone();
    flipped.audit_path[0].1 = !flipped.audit_path[0].1;
    assert!(!MerkleTree::verify_proof(&flipped));
}

#[test]
fn root_signature_is_deterministic_upper_hex() {
    let mut witness = LedgerWitness::new().unwrap();
    witness.append_record("a", "h", "b");
    let tree = witness.build_tree(serialized);
    let (sig, key) = witness.sign_root(&tree);
    assert_eq!(sig.len(), 128);
    assert!(sig.chars().all(|c| c.is_ascii_digit() || ('A'..='F').contains(&c)));
    assert_eq!(key.len(), 32);
    let (sig2, key2) = witness.sign_root(&tree);
    assert_eq!(sig, sig2);
    assert_eq!(key, key2);

    let vk = ed25519_dalek::VerifyingKey::from_bytes(&key.clone().try_into().unwrap()).unwrap();
    let mut raw = [0u8; 64];
    for i in 0..64 {
        raw[i] = u8::from_str_radix(&sig[2 * i..2 * i + 2], 16).unwrap();
    }
    let signature = ed25519_dalek::Signature::from_bytes(&raw);
    assert!(vk.verify_strict(tree.root_hash().as_bytes(), &signature).is_ok());
}

#[test]
fn different_records_give_different_roots() {
    let a: Vec<Vec<u8>> = vec![b"{\"n\":1}".to_vec(), b"{\"n\":2}".to_vec()];
    let b: Vec<Vec<u8>> = vec![b"{\"n\":2}".to_vec(), b"{\"n\":1}".to_vec()];
    let c: Vec<Vec<u8>> = vec![b"{\"n\":1}".to_vec()];
    let d: Vec<Vec<u8>> = vec![b"{\"n\":1}".to_vec(), b"{\"n\":2}".to_vec(), b"{\"n\":3}".to_vec()];
    let roots: Vec<String> = [&a, &b, &c, &d].iter().map(|r| MerkleTree::new(r).root_hash()).collect();
    for i in 0..roots.len() {
        for j in 0..roots.len() {
            if i != j {
                assert_ne!(roots[i], roots[j]);
            }
        }
    }
}

#[test]
fn timestamps_before_the_epoch_count_nanoseconds_forward() {
    let after = timestamp_from_epoch(false, 5, 250);
    assert_eq!((after.secs, after.nanos), (5, 250));
    let exact = timestamp_from_epoch(true, 5, 0);
    assert_eq!((exact.secs, exact.nanos), (-5, 0));
    let before = timestamp_from_epoch(true, 5, 250);
    assert_eq!((before.secs, before.nanos), (-6, 999_999_750));
    let far = timestamp_from_epoch(true, u64::MAX, 1);
    assert_eq!(far.secs, -(u64::MAX as i128) - 1);
}

#[test]
fn appended_records_carry_the_current_time() {
    let mut witness = LedgerWitness::new().unwrap();
    witness.append_record("a", "h", "b");
    let now = std::time::SystemTime::now()
        .duration_since(std::time::UNIX_EPOCH)
        .unwrap()
        .as_secs() as i128;
    let t = witness.records()[0].timestamp;
    assert!(t.nanos < 1_000_000_000);
    assert!((now - t.secs).abs() <= 5);
}
