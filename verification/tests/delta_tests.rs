use rustdiff::adler_32::Adler32;
use rustdiff::algorithm::Algorithm;
use rustdiff::delta::{calculate_rolling_hashes, gen_delta, Delta, HashBlock};
use rustdiff::fletcher_32::Fletcher32;
use rustdiff::sign::Signature;
use rustdiff::utils::get_blake2;

fn chunk_hashes(data: &Vec<u8>, chunk_size: usize, algorithm: Algorithm) -> Vec<HashBlock> {
    let mut hashblocklist = Vec::new();
    for index in 0..data.len() {
        if index + chunk_size > data.len() {
            break;
        }
        let chunk = &data[index..index + chunk_size];

        let weak_hash = match algorithm {
            Algorithm::Fletcher => Fletcher32::new().get_chunk_hash(chunk).unwrap(),
            Algorithm::Adler => Adler32::new().get_chunk_hash(chunk).unwrap(),
        };

        hashblocklist.push(HashBlock { index: index as u32, weak_hash, bytes: chunk.to_vec() });
    }
    hashblocklist
}

fn check_calculate_rolling_hashes(chunk_size: usize, algorithm: Algorithm) {
    let data = "hello world how are we".as_bytes().to_vec();
    let hashes = calculate_rolling_hashes(chunk_size, algorithm, &data).unwrap();
    let expected = chunk_hashes(&data, chunk_size, algorithm);
    assert_eq!(expected.len(), hashes.len());
    for (index, hashblock) in expected.iter().enumerate() {
        assert_eq!(hashblock.index, hashes[index].index);
        assert_eq!(hashblock.weak_hash, hashes[index].weak_hash);
        assert_eq!(hashblock.bytes, hashes[index].bytes);
    }
}

#[test]
fn test_calculate_rolling_hashes_all() {
    let max_chunk_size = 8;
    // Test with varying chunk sizes
    for index in 2..=max_chunk_size {
        check_calculate_rolling_hashes(index, Algorithm::Adler);
        check_calculate_rolling_hashes(index, Algorithm::Fletcher);
    }
}

fn check_gen_delta(chunk_size: usize, algorithm: Algorithm) {
    let data = "He stepped gingerly onto the bridge knowing that enchantment awaited on the other side. The teens wondered what was kept in the red shed on the far edge of the school grounds.";
    let modified_data = "He stepped readily onto the bridge knowing that enchantment awaited on the other side. The teens wondered what was kept in the black shed on the far edge of the high school grounds.";

    let old_buffer = data.as_bytes().to_vec();
    let buffer = modified_data.as_bytes().to_vec();

    let (signatures, _) = Signature::gen_sigs(&old_buffer, chunk_size, algorithm).unwrap();
    let delta = gen_delta(&buffer, chunk_size, algorithm, &signatures).unwrap();

    // Walk the modified buffer as the encoder does and check that every
    // verified match shows up in the delta.
    let hashes = calculate_rolling_hashes(chunk_size, algorithm, &buffer).unwrap();
    let mut index = 0;
    while index < buffer.len() {
        let chunk = &buffer[index..];
        if index > buffer.len() - chunk_size {
            break;
        }
        let curr_hash = hashes[index].weak_hash;
        if signatures.contains_key(&curr_hash) {
            let checksum = &signatures.get(&curr_hash).unwrap().checksum;
            let this_checksum = get_blake2(chunk[..chunk_size].to_vec()).unwrap();
            if checksum == &this_checksum {
                let chunk_index = signatures.get(&curr_hash).unwrap().index;
                let res = delta.iter().find(|dt| {
                    if let Delta::I(i) = dt {
                        return i == &chunk_index;
                    }
                    false
                });
                // Actual test to see delta is there
                assert_ne!(res, None);
                index = index + chunk_size;
                continue;
            }
        }
        index = index + 1;
    }
}

#[test]
fn test_gen_delta_all() {
    let max_chunk_size = 16;
    // Test with varying chunk sizes
    for index in 2..=max_chunk_size {
        check_gen_delta(index, Algorithm::Adler);
        check_gen_delta(index, Algorithm::Fletcher);
    }
}

#[test]
fn test_delta_of_identical_buffers_token_count() {
    // Old == new of length L: one match per whole chunk plus the L mod C
    // tail bytes as literals.
    let data = "Red is greener than purple, for sure.".as_bytes().to_vec();
    for chunk_size in 2..=16 {
        for algorithm in [Algorithm::Adler, Algorithm::Fletcher] {
            let (signatures, _) = Signature::gen_sigs(&data, chunk_size, algorithm).unwrap();
            let delta = gen_delta(&data, chunk_size, algorithm, &signatures).unwrap();
            let whole = data.len() / chunk_size;
            let tail = data.len() % chunk_size;
            assert_eq!(delta.len(), whole + tail);
            for (p, token) in delta.iter().enumerate() {
                if p < whole {
                    assert!(matches!(token, Delta::I(_)));
                } else {
                    assert_eq!(*token, Delta::B(data[whole * chunk_size + (p - whole)]));
                }
            }
        }
    }
}

#[test]
fn test_new_buffer_shorter_than_chunk_is_all_literals() {
    let old = "Red is greener than purple, for sure.".as_bytes().to_vec();
    let new = "ab".as_bytes().to_vec();
    for algorithm in [Algorithm::Adler, Algorithm::Fletcher] {
        let (signatures, _) = Signature::gen_sigs(&old, 5, algorithm).unwrap();
        let delta = gen_delta(&new, 5, algorithm, &signatures).unwrap();
        assert_eq!(delta, vec![Delta::B(b'a'), Delta::B(b'b')]);
    }
}

#[test]
fn test_total_mismatch_is_all_literals() {
    // No window of the new buffer equals a signed chunk: every byte goes
    // out as a literal.
    let old: Vec<u8> = vec![1, 2, 3, 4, 5, 6, 7, 8];
    let new: Vec<u8> = vec![100, 101, 102, 103, 104, 105];
    for algorithm in [Algorithm::Adler, Algorithm::Fletcher] {
        let (signatures, _) = Signature::gen_sigs(&old, 4, algorithm).unwrap();
        let delta = gen_delta(&new, 4, algorithm, &signatures).unwrap();
        assert_eq!(delta.len(), new.len());
        for (p, token) in delta.iter().enumerate() {
            assert_eq!(*token, Delta::B(new[p]));
        }
    }
}
