use stark_primitives::bincode_serializer::BincodeSerializer;
use stark_primitives::proof_stream::ProofStream;

fn hex_to_bytes(s: &str) -> Vec<u8> {
    let chars: Vec<u32> = s.chars().map(|c| c.to_digit(16).unwrap()).collect();
    chars.chunks(2).map(|p| (p[0] * 16 + p[1]) as u8).collect()
}

fn sample_stream() -> ProofStream {
    let mut s = ProofStream::new();
    s.push(vec![1, 2, 3]);
    s.push(vec![4, 5]);
    s
}

#[test]
fn push_and_pull_in_order() {
    let mut s = sample_stream();
    assert_eq!(s.pull(), vec![1, 2, 3]);
    assert_eq!(s.pull(), vec![4, 5]);
    assert_eq!(s.read_index, 2);
    // The pulled objects stay in the log; only the cursor moved.
    assert_eq!(s.objects.len(), 2);
}

#[test]
fn serialization_matches_bincode() {
    // The verified framing is byte-for-byte what the bincode crate produces
    // for the same object list.
    let objects: Vec<Vec<u8>> = vec![vec![1, 2, 3], vec![4, 5]];
    let ours = BincodeSerializer::serialize(&objects);
    let theirs = bincode::serialize(&objects).unwrap();
    assert_eq!(ours, theirs);
    assert_eq!(
        ours,
        vec![
            2, 0, 0, 0, 0, 0, 0, 0, 3, 0, 0, 0, 0, 0, 0, 0, 1, 2, 3, 2, 0, 0, 0, 0, 0, 0, 0, 4, 5
        ]
    );
}

#[test]
fn deserialize_round_trip() {
    let s = sample_stream();
    let bytes = s.serialize().unwrap();
    let t = ProofStream::deserialize(&bytes).unwrap();
    assert_eq!(t.objects, s.objects);
    assert_eq!(t.read_index, 0);
    // And bincode itself decodes our bytes back to the same objects.
    let decoded: Vec<Vec<u8>> = bincode::deserialize(&bytes).unwrap();
    assert_eq!(decoded, s.objects);
}

#[test]
fn deserialize_rejects_malformed_bytes() {
    assert!(ProofStream::deserialize(&vec![1, 2, 3]).is_err());
    // A count that promises more items than the bytes hold.
    let mut bytes = sample_stream().serialize().unwrap();
    bytes[0] = 9;
    assert!(ProofStream::deserialize(&bytes).is_err());
    // Trailing garbage after a valid encoding.
    let mut tail = sample_stream().serialize().unwrap();
    tail.push(0);
    assert!(ProofStream::deserialize(&tail).is_err());
    // A truncated encoding.
    let mut short = sample_stream().serialize().unwrap();
    short.pop();
    assert!(ProofStream::deserialize(&short).is_err());
}

#[test]
fn prover_challenge_is_deterministic() {
    // Two streams with identical push sequences give identical challenges.
    let a = sample_stream();
    let b = sample_stream();
    for n in [0usize, 1, 16, 64] {
        assert_eq!(a.prover_fiat_shamir(n).unwrap(), b.prover_fiat_shamir(n).unwrap());
    }
    // The challenge changes when the transcript does.
    let mut c = sample_stream();
    c.push(vec![9]);
    assert_ne!(a.prover_fiat_shamir(16).unwrap(), c.prover_fiat_shamir(16).unwrap());
}

#[test]
fn prover_challenge_matches_known_xof_output() {
    let s = sample_stream();
    let out = s.prover_fiat_shamir(16).unwrap();
    assert_eq!(out, hex_to_bytes("17c482b2eb69c50621fd28168174300c"));
}

#[test]
fn verifier_challenge_hashes_only_the_pulled_prefix() {
    let mut s = ProofStream::new();
    s.push(vec![1, 2, 3]);
    s.push(vec![4, 5]);
    s.push(vec![6]);
    let _ = s.pull();
    let _ = s.pull();
    // A stream truncated to the pulled objects gives the prover's view.
    let mut t = ProofStream::new();
    t.push(vec![1, 2, 3]);
    t.push(vec![4, 5]);
    assert_eq!(s.verifier_fiat_shamir(32).unwrap(), t.prover_fiat_shamir(32).unwrap());
    // Before anything was pushed after the pulls, the full-history prover
    // challenge differs from the verifier's partial one.
    assert_ne!(s.verifier_fiat_shamir(32).unwrap(), s.prover_fiat_shamir(32).unwrap());
}

#[test]
fn challenge_has_the_requested_length() {
    let s = sample_stream();
    for n in [0usize, 1, 31, 32, 33, 100] {
        assert_eq!(s.prover_fiat_shamir(n).unwrap().len(), n);
        assert_eq!(s.verifier_fiat_shamir(n).unwrap().len(), n);
    }
}
