use ygopac::archive::pack;
use ygopac::decode::unpack;
use ygopac::error::PacError;

fn sample(n: usize) -> (Vec<Vec<u8>>, Vec<Vec<u8>>) {
    let names: Vec<Vec<u8>> = (0..n).map(|i| format!("f{i}.bin").into_bytes()).collect();
    let contents: Vec<Vec<u8>> = (0..n).map(|i| vec![i as u8; i % 7 + 1]).collect();
    (names, contents)
}

#[test]
fn round_trip_compact_archive() {
    let names = vec![b"a.bin".to_vec()];
    let contents = vec![b"DEAD".to_vec()];
    let out = pack(&names, &contents).unwrap();
    let (got_names, got_files) = unpack(&out).unwrap();
    assert_eq!(got_names, names);
    assert_eq!(got_files, contents);
}

#[test]
fn round_trip_multi_block_archives() {
    for n in [0, 2, 45, 63, 64, 126, 130] {
        let (names, contents) = sample(n);
        let out = pack(&names, &contents).unwrap();
        let (got_names, got_files) = unpack(&out).unwrap();
        assert_eq!(got_names.len(), n);
        assert_eq!(got_names, names);
        assert_eq!(got_files, contents);
    }
}

#[test]
fn corrupted_name_bit_fails_with_hash_mismatch() {
    let names = vec![b"a.bin".to_vec()];
    let contents = vec![b"DEAD".to_vec()];
    let mut out = pack(&names, &contents).unwrap();
    // The raw name bytes of the single entry sit right behind the header
    // and the entry's length and hash bytes.
    out[5] ^= 0x01;
    match unpack(&out) {
        Err(PacError::HashMismatch { name, expected, actual }) => {
            assert_eq!(name, b"`.bin");
            assert_ne!(expected, actual);
        }
        other => panic!("expected a hash-mismatch error, got {:?}", other),
    }
}

#[test]
fn wrong_record_count_fails_with_count_mismatch() {
    let names = vec![b"a.bin".to_vec(), b"b.bin".to_vec()];
    let contents = vec![vec![1u8], vec![2u8]];
    let mut out = pack(&names, &contents).unwrap();
    // Entry count field of the compact layout's single record: one entry
    // removed from the size table must be reported against the two names.
    let count_at = 3 + 2 * 7 + 3;
    assert_eq!(out[count_at], 2);
    out[count_at] = 1;
    match unpack(&out) {
        Err(PacError::CountMismatch { found, names_total }) => {
            assert_eq!(found, 1);
            assert_eq!(names_total, 2);
        }
        other => panic!("expected a count-mismatch error, got {:?}", other),
    }
}

#[test]
fn invalid_text_in_name_fails_before_hash_check() {
    let names = vec![b"a.bin".to_vec()];
    let contents = vec![b"DEAD".to_vec()];
    let mut out = pack(&names, &contents).unwrap();
    out[5] = 0xFF;
    assert!(matches!(unpack(&out), Err(PacError::InvalidName)));
}

#[test]
fn short_buffers_are_truncated() {
    assert!(matches!(unpack(&[]), Err(PacError::Truncated)));
    assert!(matches!(unpack(&[0x10, 0x00]), Err(PacError::Truncated)));
    let names = vec![b"a.bin".to_vec()];
    let contents = vec![b"DEAD".to_vec()];
    let out = pack(&names, &contents).unwrap();
    // Cut inside the data blob: the listed size can no longer be served.
    assert!(matches!(unpack(&out[..out.len() - 1]), Err(PacError::Truncated)));
}
