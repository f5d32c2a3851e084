use witnet_vanity::encoding::charset_bytes;
use witnet_vanity::encoding::decode;
use witnet_vanity::encoding::encode_address;
use witnet_vanity::keys::build_extended_record;
use witnet_vanity::keys::derive_pkh;
use witnet_vanity::keys::hex_encode;
use witnet_vanity::search::clamp_thread_count;
use witnet_vanity::search::estimated_attempts;
use witnet_vanity::search::run_worker;
use witnet_vanity::search::SearchTarget;
use witnet_vanity::search::ValidationError;
use witnet_vanity::state::SharedSearchState;

#[test]
fn charset_is_the_fixed_alphabet() {
    assert_eq!(charset_bytes(), b"qpzry9x8gf2tvdw0s3jn54khce6mua7l".to_vec());
}

#[test]
fn encode_matches_reference_for_identifier() {
    let hrp = b"wit".to_vec();
    let data: Vec<u8> = (0u8..20u8).collect();
    let mine = encode_address(&hrp, &data);
    let reference = bech32::encode::<bech32::Bech32>(bech32::Hrp::parse("wit").unwrap(), &data)
        .unwrap();
    assert_eq!(mine, reference.into_bytes());
}

#[test]
fn encode_matches_reference_for_extended_record() {
    let hrp = b"xprv".to_vec();
    let mut data: Vec<u8> = Vec::new();
    for i in 0..66u32 {
        data.push((i * 7 % 256) as u8);
    }
    let mine = encode_address(&hrp, &data);
    let reference = bech32::encode::<bech32::Bech32>(bech32::Hrp::parse("xprv").unwrap(), &data)
        .unwrap();
    assert_eq!(mine, reference.into_bytes());
}

#[test]
fn encode_then_decode_round_trips() {
    let hrp = b"wit".to_vec();
    let data: Vec<u8> = (100u8..120u8).collect();
    let encoded = encode_address(&hrp, &data);
    let decoded = decode(&encoded).expect("a fresh encoding must decode");
    assert_eq!(decoded.0, hrp);
    assert_eq!(decoded.1, data);
}

#[test]
fn decode_detects_a_single_changed_character() {
    let hrp = b"wit".to_vec();
    let data: Vec<u8> = (0u8..20u8).collect();
    let mut encoded = encode_address(&hrp, &data);
    // Change one payload symbol into a different symbol of the alphabet.
    let pos = hrp.len() + 1;
    let original = encoded[pos];
    encoded[pos] = if original == b'q' { b'p' } else { b'q' };
    assert!(decode(&encoded).is_none());
}

#[test]
fn decode_rejects_malformed_strings() {
    // No separator at all.
    assert!(decode(&b"witqqqqqqq".to_vec()).is_none());
    // Empty prefix.
    assert!(decode(&b"1qqqqqqq".to_vec()).is_none());
    // A payload byte outside the alphabet.
    assert!(decode(&b"wit1qqqqqbq".to_vec()).is_none());
}

#[test]
fn derive_pkh_is_deterministic() {
    let bytes = vec![7u8; 33];
    assert_eq!(derive_pkh(&bytes), derive_pkh(&bytes));
}

#[test]
fn derive_pkh_is_the_truncated_sha256() {
    let input = b"abc".to_vec();
    let pkh = derive_pkh(&input);
    assert_eq!(pkh.len(), 20);
    assert_eq!(
        hex_encode(&pkh),
        b"ba7816bf8f01cfea414140de5dae2223b00361a3".to_vec()
    );
}

#[test]
fn hex_encode_writes_lowercase_pairs() {
    assert_eq!(hex_encode(&vec![0x00u8, 0xff, 0x1a]), b"00ff1a".to_vec());
    assert_eq!(hex_encode(&Vec::new()), Vec::<u8>::new());
}

#[test]
fn extended_record_is_sixty_six_bytes() {
    let chain_code = vec![1u8; 32];
    let secret_key = vec![2u8; 32];
    let record = build_extended_record(&chain_code, &secret_key);
    assert_eq!(record.len(), 66);
    assert_eq!(record[0], 0);
    assert_eq!(&record[1..33], chain_code.as_slice());
    assert_eq!(record[33], 0);
    assert_eq!(&record[34..66], secret_key.as_slice());
}

#[test]
fn estimated_attempts_is_a_power_of_thirty_two() {
    assert_eq!(estimated_attempts(0), 1);
    assert_eq!(estimated_attempts(1), 32);
    assert_eq!(estimated_attempts(3), 32768);
    assert_eq!(estimated_attempts(12), 1 << 60);
}

#[test]
fn vanity_with_byte_outside_alphabet_is_rejected() {
    let r = SearchTarget::new(b"wit".to_vec(), b"qqb".to_vec());
    assert_eq!(r.err(), Some(ValidationError::InvalidVanityByte(b'b')));
    // The separator itself is not a vanity symbol either.
    let r = SearchTarget::new(b"wit".to_vec(), b"1".to_vec());
    assert_eq!(r.err(), Some(ValidationError::InvalidVanityByte(b'1')));
    // A well-formed vanity string passes.
    assert!(SearchTarget::new(b"wit".to_vec(), b"qpzry".to_vec()).is_ok());
}

#[test]
fn empty_and_oversized_prefixes_are_rejected() {
    let r = SearchTarget::new(Vec::new(), b"q".to_vec());
    assert_eq!(r.err(), Some(ValidationError::InvalidHrp));
    let r = SearchTarget::new(vec![b'w'; 84], b"q".to_vec());
    assert_eq!(r.err(), Some(ValidationError::InvalidHrp));
    let r = SearchTarget::new(vec![b' '; 3], b"q".to_vec());
    assert_eq!(r.err(), Some(ValidationError::InvalidHrp));
}

#[test]
fn requested_threads_clamp_to_available_parallelism() {
    assert_eq!(clamp_thread_count(Some(999), 8), 8);
    assert_eq!(clamp_thread_count(Some(3), 8), 3);
    assert_eq!(clamp_thread_count(None, 8), 8);
    assert_eq!(clamp_thread_count(Some(8), 8), 8);
}

#[test]
fn claim_succeeds_exactly_once() {
    let state = SharedSearchState::new();
    assert!(!state.is_found());
    assert!(state.try_claim_found());
    assert!(state.is_found());
    assert!(!state.try_claim_found());
    assert!(state.is_found());
    assert_eq!(state.attempts_snapshot(), 0);
    state.add_attempts(500);
    state.add_attempts(23);
    assert_eq!(state.attempts_snapshot(), 523);
}

#[test]
fn empty_vanity_matches_the_first_candidate() {
    let target = SearchTarget::new(b"wit".to_vec(), Vec::new()).unwrap();
    let state = SharedSearchState::new();
    let found = run_worker(&target, &state).expect("an empty vanity string matches at once");
    assert!(found.address.starts_with(b"wit1"));
    assert!(state.is_found());
}

#[test]
fn found_result_is_consistent() {
    let target = SearchTarget::new(b"wit".to_vec(), b"q".to_vec()).unwrap();
    let state = SharedSearchState::new();
    let found = run_worker(&target, &state).expect("a one-symbol vanity string is found quickly");
    // The key material has the fixed lengths.
    assert_eq!(found.secret_key.len(), 32);
    assert_eq!(found.public_key.len(), 33);
    assert_eq!(found.chain_code.len(), 32);
    // The address begins with prefix, separator, and vanity string.
    assert!(found.address.starts_with(b"wit1q"));
    // The address is the encoding of the public key's identifier.
    let pkh = derive_pkh(&found.public_key);
    assert_eq!(found.address, encode_address(&b"wit".to_vec(), &pkh));
    // The extended key decodes back to the 66-byte record.
    let (xhrp, record) = decode(&found.extended_key).expect("the extended key must decode");
    assert_eq!(xhrp, b"xprv".to_vec());
    assert_eq!(
        record,
        build_extended_record(&found.chain_code, &found.secret_key)
    );
    // The printed scalar is its hexadecimal form.
    assert_eq!(found.secret_key_hex, hex_encode(&found.secret_key));
    assert_eq!(found.secret_key_hex.len(), 64);
    // A second worker on the same shared state reports nothing.
    assert!(run_worker(&target, &state).is_none());
}
