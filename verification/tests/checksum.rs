use copy_confirmer::{checksum_of_chunks, get_blake2_checksum, to_hex, Checksum};

const EMPTY: &str = "786a02f742015903c6c6fd852552d272912f4740e15847618a86e217f71f5419d25e1031afee585313896444934eb04b903a685b1448b755d56f701afe9be2ce";
const ABC: &str = "ba80a53f981c4d0d6a2797b69f12f6e94c212f14685ac4b74b12bb6fdbffa2d17d87c5392aab792dc252d5de4533cc9518d38aa8dbf1925ab92386edd4009923";
const HELLO_WORLD: &str = "021ced8799296ceca557832ab941a50b4a11f83478cf141f51f933f653ab9fbcc05a037cddbed06e309bf334942c4e58cdf1a46e237911ccd7fcf9787cbc7fd0";

#[test]
fn checksum_of_empty_content() {
    assert_eq!(get_blake2_checksum(b""), EMPTY);
}

#[test]
fn checksum_of_abc() {
    assert_eq!(get_blake2_checksum(b"abc"), ABC);
}

#[test]
fn checksum_of_hello_world() {
    assert_eq!(get_blake2_checksum(b"hello world"), HELLO_WORLD);
}

#[test]
fn checksum_is_128_lowercase_hex_digits() {
    let checksum = get_blake2_checksum(b"some content");
    assert_eq!(checksum.len(), 128);
    assert!(checksum.chars().all(|c| matches!(c, '0'..='9' | 'a'..='f')));
}

#[test]
fn checksum_differs_from_its_input() {
    assert_ne!(get_blake2_checksum(b"abc"), "abc");
    assert_ne!(get_blake2_checksum(b"abc"), get_blake2_checksum(b"abd"));
}

#[test]
fn chunking_does_not_change_the_checksum() {
    let whole = get_blake2_checksum(b"hello world");
    let chunks = vec![b"hel".to_vec(), b"".to_vec(), b"lo wor".to_vec(), b"ld".to_vec()];
    assert_eq!(checksum_of_chunks(&chunks), Some(whole));
    assert_eq!(checksum_of_chunks(&vec![]), Some(String::from(EMPTY)));
}

#[test]
fn streaming_checksum_of_a_large_content() {
    let content: Vec<u8> = (0..10_000u32).map(|i| (i % 251) as u8).collect();
    let mut state = Checksum::new();
    for chunk in content.chunks(1024) {
        assert!(state.update(chunk));
    }
    assert_eq!(state.finalize(), get_blake2_checksum(&content));
}

#[test]
fn streaming_checksum_without_update_is_that_of_nothing() {
    assert_eq!(Checksum::new().finalize(), EMPTY);
}

#[test]
fn hex_writes_two_lowercase_digits_per_byte() {
    assert_eq!(to_hex(&[]), "");
    assert_eq!(to_hex(&[0x00, 0x0a, 0x14, 0x1e, 0xff, 0xa0]), "000a141effa0");
    assert_eq!(to_hex(&[0x01, 0x23, 0x45, 0x67, 0x89, 0xab, 0xcd, 0xef]), "0123456789abcdef");
}
