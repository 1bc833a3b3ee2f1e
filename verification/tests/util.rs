use ygopac::util::{align, xor_hash};

#[test]
fn align_rounds_up_to_block() {
    assert_eq!(align(0, 0x200), 0);
    assert_eq!(align(1, 0x200), 0x200);
    assert_eq!(align(0x1ff, 0x200), 0x200);
    assert_eq!(align(0x200, 0x200), 0x200);
    assert_eq!(align(0x201, 0x200), 0x400);
    assert_eq!(align(0x400, 0x200), 0x400);
}

#[test]
fn xor_hash_is_xor_of_bytes() {
    assert_eq!(xor_hash(&[]), 0);
    assert_eq!(xor_hash(&[0x5a]), 0x5a);
    assert_eq!(xor_hash(b"a.bin"), b'a' ^ b'.' ^ b'b' ^ b'i' ^ b'n');
    assert_eq!(xor_hash(&[0xff, 0xff]), 0);
    assert_eq!(xor_hash(&[0x12, 0x34, 0x56]), 0x12 ^ 0x34 ^ 0x56);
}

#[test]
fn xor_hash_detects_single_bit_flip() {
    let name = b"monster.bin".to_vec();
    let h = xor_hash(&name);
    for i in 0..name.len() {
        for k in 0..8u8 {
            let mut corrupted = name.clone();
            corrupted[i] ^= 1 << k;
            assert_ne!(xor_hash(&corrupted), h);
        }
    }
}
