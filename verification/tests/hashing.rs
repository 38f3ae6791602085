use loam::crc32::{build_crc32_table, crc32};
use loam::loam_hash::{fnv1a64, hex_char, hex_val};
use loam::sha256::{sha256, Sha256};

fn hex(b: &[u8]) -> String {
    let mut s = String::new();
    for x in b {
        s.push_str(&format!("{:02x}", x));
    }
    s
}

#[test]
fn sha256_of_nothing() {
    assert_eq!(
        hex(&sha256(b"")),
        "e3b0c44298fc1c149afbf4c8996fb92427ae41e4649b934ca495991b7852b855"
    );
}

#[test]
fn sha256_of_abc() {
    assert_eq!(
        hex(&sha256(b"abc")),
        "ba7816bf8f01cfea414140de5dae2223b00361a396177a9cb410ff61f20015ad"
    );
}

#[test]
fn sha256_of_two_blocks() {
    assert_eq!(
        hex(&sha256(b"abcdbcdecdefdefgefghfghighijhijkijkljklmklmnlmnomnopnopq")),
        "248d6a61d20638b8e5c026930c3e6039a33ce45964ff2167f6ecedd419db06c1"
    );
}

#[test]
fn sha256_of_many_bytes() {
    let data = vec![b'a'; 1000];
    assert_eq!(
        hex(&sha256(&data)),
        "41edece42d63e8d9bf515a9ba6932e1c20cbc9f5a5d134645adb5db1b9737ea3"
    );
}

#[test]
fn sha256_does_not_depend_on_how_the_message_is_cut() {
    let data: Vec<u8> = (0..300u32).map(|i| (i % 251) as u8).collect();
    for cut in [0usize, 1, 55, 56, 63, 64, 65, 128, 299, 300] {
        let mut h = Sha256::new();
        h.update(&data[..cut]);
        h.update(&data[cut..]);
        assert_eq!(h.finalize(), sha256(&data));
    }
}

#[test]
fn fnv_of_known_strings() {
    assert_eq!(fnv1a64(b""), 0xcbf2_9ce4_8422_2325);
    assert_eq!(fnv1a64(b"a"), 0xaf63_dc4c_8601_ec8c);
    assert_eq!(fnv1a64(b"foobar"), 0x8594_4171_f739_67e8);
}

#[test]
fn crc32_of_the_check_string() {
    assert_eq!(crc32(b"123456789"), 0xCBF4_3926);
    assert_eq!(crc32(b""), 0);
    assert_eq!(build_crc32_table()[1], 0x7707_3096);
    assert_eq!(build_crc32_table()[255], 0x2D02_EF8D);
}

#[test]
fn hex_digits_are_lowercase() {
    assert_eq!(hex_val(b'0'), Some(0));
    assert_eq!(hex_val(b'f'), Some(15));
    assert_eq!(hex_val(b'F'), None);
    assert_eq!(hex_val(b'g'), None);
    assert_eq!(hex_char(9), b'9');
    assert_eq!(hex_char(10), b'a');
}
