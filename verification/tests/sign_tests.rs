use rustdiff::adler_32::Adler32;
use rustdiff::algorithm::Algorithm;
use rustdiff::fletcher_32::Fletcher32;
use rustdiff::sign::Signature;
use rustdiff::utils::get_blake2;
use std::collections::HashMap;

fn chunk_hash(algorithm: Algorithm, chunk: &[u8]) -> u32 {
    match algorithm {
        Algorithm::Fletcher => Fletcher32::new().get_chunk_hash(chunk).unwrap(),
        Algorithm::Adler => Adler32::new().get_chunk_hash(chunk).unwrap(),
    }
}

fn check_gen_sigs(chunk_size: usize, algorithm: Algorithm) {
    let data = "A kangaroo is really just a rabbit on steroids. When transplanting seedlings, candied teapots will make the task easier.";
    let buffer = data.as_bytes().to_vec();
    // Grab the signatures from the function
    let (signatures, _) = Signature::gen_sigs(&buffer, chunk_size, algorithm).unwrap();
    // Iterate over the chunks and confirm the stored data
    for index in (0..buffer.len()).step_by(chunk_size) {
        let chunk = &buffer[index..index + chunk_size];
        let weak_hash = chunk_hash(algorithm, chunk);
        let checksum = get_blake2(chunk.to_vec()).unwrap();

        // Grab the appropriate signature
        let sign = signatures.get(&weak_hash).unwrap();
        // And test
        assert_eq!(checksum, sign.checksum);
        assert_eq!(chunk, sign.bytes);
    }
}

fn check_add_next_sign(chunk_size: usize, algorithm: Algorithm) {
    let data =
        "The random sentence generator generated a random sentence about a random sentence"
            .as_bytes();
    let mut hmap = HashMap::new();
    for index in (0..data.len()).step_by(chunk_size) {
        let chunk = &data[index..index + chunk_size];
        let weak_hash = chunk_hash(algorithm, chunk);
        Signature::add_next_sign(algorithm, index as u32, chunk, &mut hmap).unwrap();
        // Test if it exists in the hashmap
        assert!(hmap.contains_key(&weak_hash));
        // Now ensure that the data is good
        let sign = hmap.get(&weak_hash).unwrap();
        let checksum = get_blake2(chunk.to_vec()).unwrap();
        assert_eq!(chunk, sign.bytes);
        assert_eq!(checksum, sign.checksum);
    }
}

#[test]
fn test_gen_sigs_adler_size5() {
    let chunk_size = 5;
    check_gen_sigs(chunk_size, Algorithm::Adler);
}

#[test]
fn test_gen_sigs_fletcher_size5() {
    let chunk_size = 5;
    check_gen_sigs(chunk_size, Algorithm::Adler);
}

#[test]
fn test_gen_sigs_adler_size15() {
    let chunk_size = 15;
    check_gen_sigs(chunk_size, Algorithm::Adler);
}

#[test]
fn test_gen_sigs_fletcher_size15() {
    let chunk_size = 15;
    check_gen_sigs(chunk_size, Algorithm::Fletcher);
}

#[test]
fn test_add_next_sign_adler_size3() {
    let chunk_size = 3;
    check_add_next_sign(chunk_size, Algorithm::Adler);
}

#[test]
fn test_add_next_sign_fletcher_size3() {
    let chunk_size = 3;
    check_add_next_sign(chunk_size, Algorithm::Fletcher);
}

#[test]
fn test_add_next_sign_adler_size9() {
    let chunk_size = 9;
    check_add_next_sign(chunk_size, Algorithm::Adler);
}

#[test]
fn test_add_next_sign_fletcher_size9() {
    let chunk_size = 9;
    check_add_next_sign(chunk_size, Algorithm::Fletcher);
}

#[test]
fn test_gen_sigs_deterministic() {
    // Two runs over the same input produce the same entries with the same
    // indices.
    let data = "Far far away, behind the word mountains, far from the countries Vokalia and Consonantia, there live the blind texts";
    let buffer = data.as_bytes().to_vec();
    for chunk_size in 2..=16 {
        for algorithm in [Algorithm::Adler, Algorithm::Fletcher] {
            let (first, c1) = Signature::gen_sigs(&buffer, chunk_size, algorithm).unwrap();
            let (second, c2) = Signature::gen_sigs(&buffer, chunk_size, algorithm).unwrap();
            assert_eq!(c1, c2);
            assert_eq!(first.len(), second.len());
            for (weak_hash, sign) in &first {
                let other = second.get(weak_hash).unwrap();
                assert_eq!(sign.index, other.index);
                assert_eq!(sign.checksum, other.checksum);
                assert_eq!(sign.bytes, other.bytes);
            }
        }
    }
}

#[test]
fn test_collision_is_counted_and_first_entry_wins() {
    // [0, 2, 0] and [1, 0, 1] give the same weak hash under both
    // algorithms but differ in bytes: the second chunk is dropped and the
    // collision is reported.
    let buffer: Vec<u8> = vec![0, 2, 0, 1, 0, 1];
    for algorithm in [Algorithm::Adler, Algorithm::Fletcher] {
        let w1 = chunk_hash(algorithm, &[0, 2, 0]);
        let w2 = chunk_hash(algorithm, &[1, 0, 1]);
        assert_eq!(w1, w2);

        let (signatures, collisions) = Signature::gen_sigs(&buffer, 3, algorithm).unwrap();
        assert_eq!(collisions, 1);
        assert_eq!(signatures.len(), 1);
        let sign = signatures.get(&w1).unwrap();
        assert_eq!(sign.index, 0);
        assert_eq!(sign.bytes, vec![0, 2, 0]);
    }
}

#[test]
fn test_duplicate_chunk_is_no_collision() {
    // Equal chunks share a weak hash and bytes: ignored silently.
    let buffer: Vec<u8> = vec![7, 7, 7, 7, 7, 7, 7, 7];
    for algorithm in [Algorithm::Adler, Algorithm::Fletcher] {
        let (signatures, collisions) = Signature::gen_sigs(&buffer, 4, algorithm).unwrap();
        assert_eq!(collisions, 0);
        assert_eq!(signatures.len(), 1);
    }
}

#[test]
fn test_blake2_checksum_shape() {
    // The strong checksum is 32 bytes, is not the input itself, and
    // distinguishes inputs that weak hashes confuse.
    let d1 = get_blake2(vec![0, 2, 0]).unwrap();
    let d2 = get_blake2(vec![1, 0, 1]).unwrap();
    assert_eq!(d1.len(), 32);
    assert_eq!(d2.len(), 32);
    assert_ne!(d1, vec![0, 2, 0]);
    assert_ne!(d1, d2);
    let d3 = get_blake2(vec![0, 2, 0]).unwrap();
    assert_eq!(d1, d3);
}
