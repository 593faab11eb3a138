use rustdiff::adler_32::Adler32;
use rustdiff::fletcher_32::Fletcher32;

#[test]
fn adler_32_test_get_chunk_hash() {
    // Check against a precomputed Adler-32 value.
    let chunk = "hello world".as_bytes().to_vec();
    let hash = Adler32::new().get_chunk_hash(&chunk).unwrap();
    let answer: u32 = 436929629;
    assert_eq!(hash, answer);
}

#[test]
fn adler_32_test_get_rolling_hash() {
    let chunk = "hello world".as_bytes().to_vec();
    let mut adler = Adler32::new();
    // Verify the hash for the first chunk
    let hash = adler.get_chunk_hash(&chunk).unwrap();
    let answer = 436929629;
    assert_eq!(hash, answer);
    // Move the window and check
    let new_byte = 'a' as u8;
    let hash = adler.get_rolling_hash(&new_byte).unwrap();
    let answer = 434635862;
    assert_eq!(hash, answer);
    // Move the window and check
    let new_byte = 'm' as u8;
    let hash = adler.get_rolling_hash(&new_byte).unwrap();
    let answer = 435029086;
    assert_eq!(hash, answer);
}

#[test]
fn fletcher_32_test_get_chunk_hash() {
    // Check against a precomputed Fletcher-32 value.
    let chunk = "hello world".as_bytes().to_vec();
    let hash = Fletcher32::new().get_chunk_hash(&chunk).unwrap();
    let answer: u32 = 436208732;
    assert_eq!(hash, answer);
}

#[test]
fn fletcher_32_test_get_rolling_hash() {
    let chunk = "hello world".as_bytes().to_vec();
    let mut fletcher = Fletcher32::new();
    // Verify the hash for the first chunk
    let hash = fletcher.get_chunk_hash(&chunk).unwrap();
    let answer = 436208732;
    assert_eq!(hash, answer);
    // Move the window and check
    let new_byte = 'a' as u8;
    let hash = fletcher.get_rolling_hash(&new_byte).unwrap();
    let answer = 433914965;
    assert_eq!(hash, answer);
    // Move the window and check
    let new_byte = 'm' as u8;
    let hash = fletcher.get_rolling_hash(&new_byte).unwrap();
    let answer = 434308189;
    assert_eq!(hash, answer);
}

#[test]
fn test_current_hash_and_window() {
    let chunk = "hello world".as_bytes().to_vec();
    let mut adler = Adler32::new();
    let hash = adler.get_chunk_hash(&chunk).unwrap();
    assert_eq!(adler.get_current_hash().unwrap(), hash);
    assert_eq!(adler.get_current_window().unwrap(), &chunk);

    let mut fletcher = Fletcher32::new();
    let hash = fletcher.get_chunk_hash(&chunk).unwrap();
    assert_eq!(fletcher.get_current_hash().unwrap(), hash);
    assert_eq!(fletcher.get_current_window().unwrap(), &chunk);
}

#[test]
fn test_rolling_window_contents() {
    // After two slides the window holds the last 11 bytes fed in.
    let chunk = "hello world".as_bytes().to_vec();
    let mut adler = Adler32::new();
    adler.get_chunk_hash(&chunk).unwrap();
    adler.get_rolling_hash(&b'a').unwrap();
    adler.get_rolling_hash(&b'm').unwrap();
    let expected = "llo worldam".as_bytes().to_vec();
    assert_eq!(adler.get_current_window().unwrap(), &expected);
}
