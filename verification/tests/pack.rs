use ygopac::archive::{compact_layout, pack};
use ygopac::bytes::{read_u16_le, read_u32_le};
use ygopac::encode::build_name_blocks;
use ygopac::error::PacError;

#[test]
fn single_file_uses_compact_layout() {
    let names = vec![b"a.bin".to_vec()];
    let contents = vec![b"DEAD".to_vec()];
    let out = pack(&names, &contents).unwrap();

    // Size-map start field: name entry (7 bytes) + 4.
    assert_eq!(read_u16_le(&out, 0), 11);
    // Zero block count signals the compact layout.
    assert_eq!(out[2], 0);
    // The single name entry: length, xor hash, raw bytes.
    let hash = b'a' ^ b'.' ^ b'b' ^ b'i' ^ b'n';
    assert_eq!(&out[3..10], &[5, hash, b'a', b'.', b'b', b'i', b'n']);
    // Reserved bytes, entry count 1, reserved words.
    assert_eq!(&out[10..13], &[0, 0, 0]);
    assert_eq!(&out[13..15], &[1, 0]);
    assert_eq!(&out[15..19], &[0, 0, 0, 0]);
    // One (offset, size) pair: offset 0, size 4.
    assert_eq!(read_u32_le(&out, 19), 0);
    assert_eq!(read_u32_le(&out, 23), 4);
    // Padding up to the data blob, which starts on the block boundary.
    assert!(out[27..0x200].iter().all(|&b| b == 0));
    assert_eq!(&out[0x200..], b"DEAD");
    assert_eq!(out.len(), 0x200 + 4);
}

#[test]
fn oversized_name_aborts_without_output() {
    let names = vec![vec![b'n'; 300]];
    let contents = vec![b"x".to_vec()];
    match pack(&names, &contents) {
        Err(PacError::OversizedName { index, len }) => {
            assert_eq!(index, 0);
            assert_eq!(len, 300);
        }
        other => panic!("expected an oversized-name error, got {:?}", other),
    }
}

fn tiny_files(n: usize) -> (Vec<Vec<u8>>, Vec<Vec<u8>>) {
    let names: Vec<Vec<u8>> = (0..n).map(|_| b"x".to_vec()).collect();
    let contents: Vec<Vec<u8>> = (0..n).map(|_| b"z".to_vec()).collect();
    (names, contents)
}

#[test]
fn sixty_four_files_use_multi_block_layout() {
    let (names, contents) = tiny_files(64);
    let blocks = build_name_blocks(&names).unwrap();
    assert!(!compact_layout(&blocks, 64));

    let out = pack(&names, &contents).unwrap();
    // Nonzero block count marks the multi-block layout.
    assert_eq!(out[2], 1);
    // Directory fills one block; the first size-table record carries the
    // continuation marker and the maximal entry count.
    assert_eq!(&out[0x200..0x202], &[0, 0]);
    assert_eq!(&out[0x202..0x204], &[0xFF, 0xFF]);
    // The final record holds the one remaining entry.
    let second = 0x200 + 8 + 63 * 8;
    assert_eq!(&out[second..second + 2], &[0, 0]);
    assert_eq!(&out[second + 2..second + 4], &[1, 0]);
    // Data blob on the next block boundary.
    let data_start = out.len() - 64;
    assert_eq!(data_start % 0x200, 0);
    assert!(out[data_start..].iter().all(|&b| b == b'z'));
}

#[test]
fn sixty_three_files_no_longer_fit_the_compact_budget() {
    // One record suffices for 63 files, but header + directory + table can
    // no longer fit one block, so the multi-block layout is chosen.
    let (names, contents) = tiny_files(63);
    let blocks = build_name_blocks(&names).unwrap();
    assert!(!compact_layout(&blocks, 63));
    let out = pack(&names, &contents).unwrap();
    assert_eq!(out[2], 1);
    // A single final record with the literal count 63.
    assert_eq!(&out[0x202..0x204], &[63, 0]);
    let data_start = out.len() - 63;
    assert_eq!(data_start % 0x200, 0);
}

#[test]
fn forty_five_tiny_files_still_fit_the_compact_layout() {
    // 45 three-byte entries (135 bytes) plus 45 pairs and the header fields
    // stay within one block: 12 + 135 + 360 = 507 bytes.
    let (names, contents) = tiny_files(45);
    let blocks = build_name_blocks(&names).unwrap();
    assert!(compact_layout(&blocks, 45));
    let out = pack(&names, &contents).unwrap();
    assert_eq!(out[2], 0);
    assert_eq!(out.len(), 0x200 + 45);
}

#[test]
fn data_blob_is_contiguous_without_per_file_padding() {
    let names = vec![b"one".to_vec(), b"two".to_vec()];
    let contents = vec![vec![1u8, 2, 3], vec![4u8, 5]];
    let out = pack(&names, &contents).unwrap();
    assert_eq!(&out[0x200..], &[1, 2, 3, 4, 5]);
}
