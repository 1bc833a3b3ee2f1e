use ygopac::encode::build_name_blocks;
use ygopac::error::PacError;

fn entry_len(name: &[u8]) -> usize {
    2 + name.len()
}

#[test]
fn single_small_name_stays_in_first_block() {
    let names = vec![b"a.bin".to_vec()];
    let blocks = build_name_blocks(&names).unwrap();
    assert_eq!(blocks.len(), 1);
    let expected = {
        let mut e = vec![5u8, b'a' ^ b'.' ^ b'b' ^ b'i' ^ b'n'];
        e.extend_from_slice(b"a.bin");
        e
    };
    assert_eq!(blocks[0], expected);
}

#[test]
fn entry_landing_on_block_capacity_starts_new_block() {
    // 168 one-character names fill 504 bytes; the next entry is 5 bytes, so
    // the running total would land exactly at 0x200 - 3. The entry must open
    // a new block instead of splitting, and the first block is zero-padded to
    // its full content capacity.
    let mut names: Vec<Vec<u8>> = (0..168).map(|_| b"x".to_vec()).collect();
    names.push(b"yyy".to_vec());
    assert_eq!(168 * entry_len(b"x") + entry_len(b"yyy"), 0x200 - 3);
    let blocks = build_name_blocks(&names).unwrap();
    assert_eq!(blocks.len(), 2);
    assert_eq!(blocks[0].len(), 0x200 - 3);
    assert!(blocks[0][504..].iter().all(|&b| b == 0));
    assert_eq!(blocks[1], vec![3u8, b'y' ^ b'y' ^ b'y', b'y', b'y', b'y']);
}

#[test]
fn entry_just_under_capacity_stays_in_block() {
    // One byte less and the same entry still fits the first block.
    let mut names: Vec<Vec<u8>> = (0..168).map(|_| b"x".to_vec()).collect();
    names.push(b"yy".to_vec());
    let blocks = build_name_blocks(&names).unwrap();
    assert_eq!(blocks.len(), 1);
    assert_eq!(blocks[0].len(), 504 + 4);
}

#[test]
fn oversized_name_is_rejected_with_its_index() {
    let names = vec![b"ok.bin".to_vec(), vec![b'n'; 300]];
    match build_name_blocks(&names) {
        Err(PacError::OversizedName { index, len }) => {
            assert_eq!(index, 1);
            assert_eq!(len, 300);
        }
        other => panic!("expected an oversized-name error, got {:?}", other),
    }
}
