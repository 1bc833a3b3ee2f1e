use ygopac::archive::pack;
use ygopac::manifest::{build_manifest, parse_manifest};

#[test]
fn manifest_lists_one_name_per_line() {
    let names = vec![b"a.bin".to_vec(), b"b.bin".to_vec()];
    assert_eq!(build_manifest(&names), b"a.bin\nb.bin\n");
}

#[test]
fn empty_name_list_gives_empty_manifest() {
    let names: Vec<Vec<u8>> = vec![];
    assert_eq!(build_manifest(&names), b"");
}

#[test]
fn parse_splits_lines_and_strips_carriage_returns() {
    assert_eq!(parse_manifest(b"a.bin\nb.bin\n"), vec![b"a.bin".to_vec(), b"b.bin".to_vec()]);
    assert_eq!(parse_manifest(b"a.bin\r\nb.bin\r\n"), vec![b"a.bin".to_vec(), b"b.bin".to_vec()]);
    // The final line ending is optional; an empty line is an empty name.
    assert_eq!(parse_manifest(b"a.bin\n\nc"), vec![b"a.bin".to_vec(), vec![], b"c".to_vec()]);
    assert_eq!(parse_manifest(b""), Vec::<Vec<u8>>::new());
}

#[test]
fn manifest_round_trips_through_text() {
    let names = vec![b"a.bin".to_vec(), b"sub/dir/b.bin".to_vec(), b"c".to_vec()];
    assert_eq!(parse_manifest(&build_manifest(&names)), names);
}

#[test]
fn single_file_archive_and_manifest() {
    let names = vec![b"a.bin".to_vec()];
    let contents = vec![b"DEAD".to_vec()];
    let out = pack(&names, &contents).unwrap();
    // The archive carries the file bytes behind the block boundary, and the
    // manifest that belongs beside the unpacked files is its single line.
    assert_eq!(&out[0x200..], b"DEAD");
    assert_eq!(build_manifest(&names), b"a.bin\n");
}
