use winterfell::channel::{build_query_seed, find_pow_nonce, pow_buffer, seed_head, ProverChannel};
use winterfell::hash::HashFunction;
use winterfell::hash_fn_serialization::{deserialize, serialize, UnsupportedHashFunction};
use winterfell::options::ProofOptions;
use winterfell::verification::{
    build_context, build_query_seed as verify_query_seed, ComputationContext, FieldExtension,
    ProofContext, VerifierError,
};

fn decode(hex_str: &str) -> Vec<u8> {
    hex::decode(hex_str).unwrap()
}

#[test]
fn hash_functions_match_reference_digests() {
    let empty: [u8; 0] = [];
    assert_eq!(
        HashFunction::Blake3.hash(&empty).to_vec(),
        decode("af1349b9f5f9a1a6a0404dea36dcc9499bcb25c9adc112b7cc9a93cae41f3262")
    );
    assert_eq!(
        HashFunction::Sha3.hash(&empty).to_vec(),
        decode("a7ffc6f8bf1ed76651c14756a061d662f580ff4de43b49fa82d80a4b80f8434a")
    );
    assert_eq!(HashFunction::Blake3.hash(b"abc"), *blake3::hash(b"abc").as_bytes());
}

#[test]
fn hash_function_codes() {
    assert_eq!(serialize(&HashFunction::Blake3), 0);
    assert_eq!(serialize(&HashFunction::Sha3), 1);
    assert_eq!(deserialize(0), Ok(HashFunction::Blake3));
    assert_eq!(deserialize(1), Ok(HashFunction::Sha3));
    assert_eq!(deserialize(2), Err(UnsupportedHashFunction(2)));
    for hf in [HashFunction::Blake3, HashFunction::Sha3] {
        assert_eq!(deserialize(serialize(&hf)), Ok(hf));
    }
}

#[test]
fn proof_options_accessors() {
    let options = ProofOptions::new(32, 8, 4, HashFunction::Sha3);
    assert_eq!(options.num_queries(), 32);
    assert_eq!(options.blowup_factor(), 8);
    assert_eq!(options.grinding_factor(), 4);
    assert_eq!(options.hash_fn(), HashFunction::Sha3);
}

#[test]
fn query_seed_hashes_concatenated_roots() {
    let roots = [[1u8; 32], [2u8; 32]];
    let mut bytes = vec![1u8; 32];
    bytes.extend_from_slice(&[2u8; 32]);
    let expected = *blake3::hash(&bytes).as_bytes();
    assert_eq!(build_query_seed(&roots, HashFunction::Blake3), expected);
}

#[test]
fn pow_input_layout() {
    let seed = [9u8; 32];
    let buf = pow_buffer(&seed, 0x0102030405060708);
    assert_eq!(buf.len(), 64);
    assert_eq!(&buf[..32], &seed);
    assert!(buf[32..56].iter().all(|&b| b == 0));
    assert_eq!(&buf[56..], &[8, 7, 6, 5, 4, 3, 2, 1]);
    let mut head = [0u8; 32];
    head[0] = 0x10;
    head[1] = 0x01;
    assert_eq!(seed_head(&head), 0x0110);
}

#[test]
fn grinding_finds_first_valid_nonce() {
    let seed = [3u8; 32];
    // with no grinding the first nonce is accepted
    let (_, nonce) = find_pow_nonce(seed, 0, HashFunction::Blake3).unwrap();
    assert_eq!(nonce, 1);
    let (digest, nonce) = find_pow_nonce(seed, 6, HashFunction::Blake3).unwrap();
    assert!(seed_head(&digest).trailing_zeros() >= 6);
    for n in 1..nonce {
        let d = HashFunction::Blake3.hash(&pow_buffer(&seed, n));
        assert!(seed_head(&d).trailing_zeros() < 6);
    }
}

#[test]
fn prover_grinding_is_accepted_by_verifier() {
    let options = ProofOptions::new(16, 8, 5, HashFunction::Blake3);
    let mut channel = ProverChannel::new(&options, 2);
    channel.commit_trace([1u8; 32]);
    channel.commit_constraints([2u8; 32]);
    channel.commit_fri_layer([3u8; 32]);
    channel.commit_fri_layer([4u8; 32]);
    assert_eq!(channel.constraint_seed(), [1u8; 32]);
    assert_eq!(channel.composition_seed(), [2u8; 32]);
    assert_eq!(channel.fri_layer_seed(1), [4u8; 32]);
    assert!(channel.grind_query_seed());
    let query_seed = channel.query_seed();
    let (commitments, nonce) = channel.build_commitments();
    let verified = verify_query_seed(&commitments.fri_roots, nonce, &options).unwrap();
    assert_eq!(verified, query_seed);
    // a nonce that misses the grinding factor is rejected
    let mut bad = 1u64;
    loop {
        let seed = build_query_seed(&commitments.fri_roots, HashFunction::Blake3);
        let d = HashFunction::Blake3.hash(&pow_buffer(&seed, bad));
        if seed_head(&d).trailing_zeros() < 5 {
            break;
        }
        bad += 1;
    }
    assert_eq!(
        verify_query_seed(&commitments.fri_roots, bad, &options),
        Err(VerifierError::QuerySeedProofOfWorkVerificationFailed)
    );
}

#[test]
fn context_from_proof() {
    let options = ProofOptions::new(32, 8, 0, HashFunction::Blake3);
    let context = ProofContext {
        lde_domain_depth: 10,
        trace_width: 2,
        ce_blowup_factor: 4,
        field_extension_factor: 1,
        options,
    };
    let c: ComputationContext = build_context(&context).unwrap();
    assert_eq!(c.trace_length(), 128);
    assert_eq!(c.trace_width(), 2);
    assert_eq!(c.ce_blowup_factor(), 4);
    assert_eq!(c.field_extension(), FieldExtension::Base);
    let quadratic = ProofContext { field_extension_factor: 2, ..context };
    assert_eq!(build_context(&quadratic).unwrap().field_extension(), FieldExtension::Quadratic);
    let bad = ProofContext { field_extension_factor: 3, ..context };
    assert_eq!(
        build_context(&bad).err(),
        Some(VerifierError::ComputationContextDeserializationFailed)
    );
}
