use dupfinder::digest::hash_file;

fn hex(data: &[u8]) -> String {
    hash_file(data).0.to_hex()
}

#[test]
fn digest_of_hello() {
    let (hash, size) = hash_file(b"hello");
    assert_eq!(size, 5);
    assert_eq!(
        hash.to_hex(),
        "2cf24dba5fb0a30e26e83b2ac5b9e29e1b161e5c1fa7425e73043362938b9824"
    );
}

#[test]
fn digest_of_nothing() {
    let (hash, size) = hash_file(b"");
    assert_eq!(size, 0);
    assert_eq!(
        hash.to_hex(),
        "e3b0c44298fc1c149afbf4c8996fb92427ae41e4649b934ca495991b7852b855"
    );
}

#[test]
fn digest_is_not_the_input() {
    let input = [7u8; 32];
    let (hash, size) = hash_file(&input);
    assert_eq!(size, 32);
    assert_ne!(hash.bytes(), &input);
}

#[test]
fn digest_at_the_chunk_edges() {
    assert_eq!(
        hex(&[b'a'; 55]),
        "9f4390f8d30c2dd92ec9f095b65e2b9ae9b0a925a5258e241c9f1e910f734318"
    );
    assert_eq!(
        hex(&[b'a'; 56]),
        "b35439a4ac6f0948b6d6f9e3c6af0f5f590ce20f1bde7090ef7970686ec6738a"
    );
    assert_eq!(
        hex(&[b'a'; 64]),
        "ffe054fe7ae0cb6dc65c3af9b61d5209f439851db43d0ba5997337df154668eb"
    );
    assert_eq!(
        hex(&[b'a'; 119]),
        "31eba51c313a5c08226adf18d4a359cfdfd8d2e816b13f4af952f7ea6584dcfb"
    );
}

#[test]
fn same_bytes_same_digest() {
    assert_eq!(hash_file(b"hello").0, hash_file(b"hello").0);
    assert!(hash_file(b"hello").0 == hash_file(&[104, 101, 108, 108, 111]).0);
}

#[test]
fn one_byte_changes_the_digest() {
    assert_ne!(hash_file(b"hello").0, hash_file(b"hellp").0);
    assert_eq!(
        hex(b"hellp"),
        "fdd7585e08c4e2afd71dcabdb4636c89d557a3f42db9e2040c8bbd1708aa4ce7"
    );
    assert_ne!(hash_file(b"hello").0, hash_file(b"hello\n").0);
}

#[test]
fn hash_keeps_its_bytes() {
    let mut bytes = [0u8; 32];
    for (i, byte) in bytes.iter_mut().enumerate() {
        *byte = (i * 8) as u8;
    }
    let hash = dupfinder::digest::Hash::new(&bytes);
    assert_eq!(hash.bytes(), &bytes);
}

#[test]
fn hashes_compare_byte_by_byte() {
    let zero = dupfinder::digest::Hash::new(&[0u8; 32]);
    let mut bytes = [0u8; 32];
    assert!(zero == dupfinder::digest::Hash::new(&bytes));
    bytes[31] = 1;
    assert!(zero != dupfinder::digest::Hash::new(&bytes));
    bytes[31] = 0;
    bytes[0] = 1;
    assert!(zero != dupfinder::digest::Hash::new(&bytes));
}

#[test]
fn hex_is_fixed_width_and_lowercase() {
    let zero = dupfinder::digest::Hash::new(&[0u8; 32]);
    assert_eq!(zero.to_hex(), "0".repeat(64));
    let full = dupfinder::digest::Hash::new(&[0xff; 32]);
    assert_eq!(full.to_hex(), "f".repeat(64));
    let mut bytes = [0u8; 32];
    bytes[0] = 0x0a;
    bytes[1] = 0xb0;
    bytes[2] = 0x1f;
    bytes[31] = 0x9c;
    let hash = dupfinder::digest::Hash::new(&bytes);
    let text = hash.to_hex();
    assert_eq!(text.len(), 64);
    assert!(text.starts_with("0ab01f00"));
    assert!(text.ends_with("009c"));
}

#[test]
fn hash_copies() {
    let hash = hash_file(b"abc").0;
    let copy = hash;
    assert_eq!(hash, copy);
    assert_eq!(
        copy.to_hex(),
        "ba7816bf8f01cfea414140de5dae2223b00361a396177a9cb410ff61f20015ad"
    );
}
