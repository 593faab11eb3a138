use rustdiff::adler_32::Adler32;
use rustdiff::algorithm::Algorithm;
use rustdiff::delta::{gen_delta, Delta};
use rustdiff::error::DiffError;
use rustdiff::fletcher_32::Fletcher32;
use rustdiff::patch::{apply_delta, get_data};
use rustdiff::sign::Signature;
use std::collections::HashMap;

fn round_trip(old: &str, new: &str, chunk_size: usize, algorithm: Algorithm) {
    let old_buffer = old.as_bytes().to_vec();
    let new_buffer = new.as_bytes().to_vec();
    let (signatures, _) = Signature::gen_sigs(&old_buffer, chunk_size, algorithm).unwrap();
    let delta = gen_delta(&new_buffer, chunk_size, algorithm, &signatures).unwrap();
    let rebuilt = apply_delta(&delta, &signatures).unwrap();
    assert_eq!(rebuilt, new_buffer);
}

const PASSAGE: &str = "He stepped gingerly onto the bridge knowing that enchantment awaited on the other side. The teens wondered what was kept in the red shed on the far edge of the school grounds.";
const MODIFIED_PASSAGE: &str = "He stepped readily onto the bridge knowing that enchantment awaited on the other side. The teens wondered what was kept in the black shed on the far edge of the high school grounds.";

#[test]
fn test_patch_file_with_delta_adler_size3() {
    round_trip(PASSAGE, MODIFIED_PASSAGE, 3, Algorithm::Adler);
}

#[test]
fn test_patch_file_with_delta_fletcher_size3() {
    round_trip(PASSAGE, MODIFIED_PASSAGE, 3, Algorithm::Fletcher);
}

#[test]
fn test_patch_file_with_delta_adler_size9() {
    round_trip(PASSAGE, MODIFIED_PASSAGE, 9, Algorithm::Adler);
}

#[test]
fn test_patch_file_with_delta_fletcher_size9() {
    round_trip(PASSAGE, MODIFIED_PASSAGE, 9, Algorithm::Fletcher);
}

fn check_get_data(chunk_size: usize, algorithm: Algorithm) {
    let data = "They wandered into a strange Tiki bar on the edge of the small beach town";
    let buffer = data.as_bytes().to_vec();
    let (signatures, _) = Signature::gen_sigs(&buffer, chunk_size, algorithm).unwrap();

    for (_, sign) in &signatures {
        let index = sign.index;
        let test_data = get_data(index, &signatures).unwrap();
        assert_eq!(test_data, sign.bytes);
    }
}

#[test]
fn test_get_data_adler_size4() {
    check_get_data(4, Algorithm::Adler);
}

#[test]
fn test_get_data_fletcher_size4() {
    check_get_data(4, Algorithm::Fletcher);
}

#[test]
fn test_get_data_adler_size12() {
    check_get_data(12, Algorithm::Adler);
}

#[test]
fn test_get_data_fletcher_size12() {
    check_get_data(12, Algorithm::Fletcher);
}

#[test]
fn test_get_data_unknown_index() {
    let buffer = "some signed data here".as_bytes().to_vec();
    let (signatures, _) = Signature::gen_sigs(&buffer, 4, Algorithm::Adler).unwrap();
    assert_eq!(get_data(999, &signatures), None);
}

#[test]
fn test_modify_add_data_all() {
    let max_chunk_size = 32;
    // Test with varying chunk sizes
    for i in 2..=max_chunk_size {
        round_trip(
            "Red is greener than purple, for sure.",
            "Red is greener than purple, for sure. Yepp.",
            i,
            Algorithm::Adler,
        );
        round_trip(
            "Red is greener than purple, for sure.",
            "Red is greener than purple, for sure. Yepp.",
            i,
            Algorithm::Fletcher,
        );
    }
}

#[test]
fn test_modify_remove_data_all() {
    let max_chunk_size = 16;
    // Test with varying chunk sizes
    for i in 2..=max_chunk_size {
        round_trip(
            "Red is greener than purple, for sure.",
            "Red is greener, for sure.",
            i,
            Algorithm::Adler,
        );
        round_trip(
            "Red is greener than purple, for sure.",
            "Red is greener, for sure.",
            i,
            Algorithm::Fletcher,
        );
    }
}

#[test]
fn test_self_round_trip() {
    // Old == new: an all-match delta patches back to the same bytes.
    let data = "Far far away, behind the word mountains, far from the countries Vokalia and Consonantia, there live the blind texts";
    for chunk_size in 2..=16 {
        round_trip(data, data, chunk_size, Algorithm::Adler);
        round_trip(data, data, chunk_size, Algorithm::Fletcher);
    }
}

#[test]
fn test_weak_collision_patches_exactly() {
    // [0, 2, 0] and [1, 0, 1] share a weak hash under both algorithms but
    // differ in bytes: the strong checksum must force literals, and
    // patching must reproduce the new bytes, not the colliding chunk.
    let old: Vec<u8> = vec![0, 2, 0];
    let new: Vec<u8> = vec![1, 0, 1];
    for algorithm in [Algorithm::Adler, Algorithm::Fletcher] {
        let w_old = match algorithm {
            Algorithm::Adler => Adler32::new().get_chunk_hash(&old).unwrap(),
            Algorithm::Fletcher => Fletcher32::new().get_chunk_hash(&old).unwrap(),
        };
        let w_new = match algorithm {
            Algorithm::Adler => Adler32::new().get_chunk_hash(&new).unwrap(),
            Algorithm::Fletcher => Fletcher32::new().get_chunk_hash(&new).unwrap(),
        };
        assert_eq!(w_old, w_new);

        let (signatures, _) = Signature::gen_sigs(&old, 3, algorithm).unwrap();
        let delta = gen_delta(&new, 3, algorithm, &signatures).unwrap();
        for token in &delta {
            assert!(matches!(token, Delta::B(_)));
        }
        let rebuilt = apply_delta(&delta, &signatures).unwrap();
        assert_eq!(rebuilt, new);
    }
}

#[test]
fn test_apply_delta_unknown_index_fails() {
    let signatures: HashMap<u32, Signature> = HashMap::new();
    let delta = vec![Delta::B(b'x'), Delta::I(7)];
    let result = apply_delta(&delta, &signatures);
    assert_eq!(result, Err(DiffError::UnknownIndex(7)));
}

#[test]
fn test_apply_delta_reports_first_missing_index() {
    let buffer = "abcdefgh".as_bytes().to_vec();
    let (signatures, _) = Signature::gen_sigs(&buffer, 4, Algorithm::Adler).unwrap();
    let delta = vec![Delta::I(0), Delta::I(5), Delta::I(6)];
    let result = apply_delta(&delta, &signatures);
    assert_eq!(result, Err(DiffError::UnknownIndex(5)));
}

#[test]
fn test_apply_delta_literals_and_matches() {
    // Chunk 0 of the old buffer is "abcd"; the delta below rebuilds
    // "xyabcdz" from one literal run, one match, one literal.
    let buffer = "abcdefgh".as_bytes().to_vec();
    let (signatures, _) = Signature::gen_sigs(&buffer, 4, Algorithm::Adler).unwrap();
    let delta = vec![
        Delta::B(b'x'),
        Delta::B(b'y'),
        Delta::I(0),
        Delta::B(b'z'),
    ];
    let rebuilt = apply_delta(&delta, &signatures).unwrap();
    assert_eq!(rebuilt, "xyabcdz".as_bytes().to_vec());
}
