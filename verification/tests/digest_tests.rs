use fraud_proof::digest::{hash, Digest};

fn digest(words: [u32; 8]) -> Digest {
    Digest {
        w0: words[0],
        w1: words[1],
        w2: words[2],
        w3: words[3],
        w4: words[4],
        w5: words[5],
        w6: words[6],
        w7: words[7],
    }
}

#[test]
fn digest_of_empty_message() {
    let expected = digest([
        0xe3b0c442, 0x98fc1c14, 0x9afbf4c8, 0x996fb924, 0x27ae41e4, 0x649b934c, 0xa495991b,
        0x7852b855,
    ]);
    assert_eq!(hash(&Vec::new()), expected);
}

#[test]
fn digest_of_abc() {
    let expected = digest([
        0xba7816bf, 0x8f01cfea, 0x414140de, 0x5dae2223, 0xb00361a3, 0x96177a9c, 0xb410ff61,
        0xf20015ad,
    ]);
    assert_eq!(hash(&b"abc".to_vec()), expected);
}

#[test]
fn digest_of_two_block_message() {
    let message = b"abcdbcdecdefdefgefghfghighijhijkijkljklmklmnlmnomnopnopq".to_vec();
    assert_eq!(message.len(), 56);
    let expected = digest([
        0x248d6a61, 0xd20638b8, 0xe5c02693, 0x0c3e6039, 0xa33ce459, 0x64ff2167, 0xf6ecedd4,
        0x19db06c1,
    ]);
    assert_eq!(hash(&message), expected);
}

#[test]
fn digest_of_million_a() {
    let message = vec![b'a'; 1_000_000];
    let expected = digest([
        0xcdc76e5c, 0x9914fb92, 0x81a1c7e2, 0x84d73e67, 0xf1809a48, 0xa497200e, 0x046d39cc,
        0xc7112cd0,
    ]);
    assert_eq!(hash(&message), expected);
}

#[test]
fn digest_of_exactly_one_block() {
    // 64 bytes of input: the padding fills a second block on its own.
    let message = vec![0u8; 64];
    let expected = digest([
        0xf5a5fd42, 0xd16a2030, 0x2798ef6e, 0xd309979b, 0x43003d23, 0x20d9f0e8, 0xea9831a9,
        0x2759fb4b,
    ]);
    assert_eq!(hash(&message), expected);
}

#[test]
fn null_digest_is_all_zero() {
    let null = Digest::null();
    assert!(null.is_null());
    assert_eq!(null, digest([0; 8]));
    assert!(!hash(&Vec::new()).is_null());
}

#[test]
fn digest_bytes_are_big_endian() {
    let d = digest([0x01020304, 0, 0, 0, 0, 0, 0, 0xa0b0c0d0]);
    let mut buf = vec![0xffu8];
    d.append_to(&mut buf);
    assert_eq!(buf.len(), 33);
    assert_eq!(&buf[0..5], &[0xff, 1, 2, 3, 4]);
    assert_eq!(&buf[29..33], &[0xa0, 0xb0, 0xc0, 0xd0]);
}
