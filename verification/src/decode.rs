//! Decoding an archive buffer: the header fields, the name-directory scan
//! with its zero-byte skip, text check and hash check, the size-table walk
//! with its per-record count check, and the block-aligned data blob.

use vstd::prelude::*;

use crate::archive::{lemma_blob_block_aligned, spec_data_start, spec_pack, spec_pairs};
use crate::bytes::{le16_at, le32_at, read_u16_le, read_u32_le};
use crate::data::{
    blob_bytes, lemma_blob_slice, lemma_total_size_nonneg, offset_of, total_size,
};
use crate::error::PacError;
use crate::text::{check_utf8, is_utf8};
use crate::util::{align, align_up, xor_hash, xor_seq, BLOCK};

verus! {

/// The integrity faults of an archive image, over the mathematical model of
/// the buffer; each mirrors one variant of [`PacError`].
pub enum DecodeFault {
    Truncated,
    InvalidName,
    HashMismatch { name: Seq<u8>, expected: u8, actual: u8 },
    CountMismatch { found: int, names_total: int },
}

/// The error a decoding function returns carries exactly the data of the
/// fault that the buffer's model shows.
pub open spec fn fault_matches(e: PacError, f: DecodeFault) -> bool {
    match f {
        DecodeFault::Truncated => e is Truncated,
        DecodeFault::InvalidName => e is InvalidName,
        DecodeFault::HashMismatch { name, expected, actual } => {
            &&& e matches PacError::HashMismatch { name: n, expected: x, actual: a }
            &&& n@ == name
            &&& x == expected
            &&& a == actual
        },
        DecodeFault::CountMismatch { found, names_total } => {
            &&& e matches PacError::CountMismatch { found: c, names_total: t }
            &&& c == found
            &&& t == names_total
        },
    }
}

/// Names stored in one directory block, scanned from `pos` (relative to the
/// block's start at `off`): a zero length byte is skipped, any other length
/// byte announces a hash byte and that many raw name bytes, which must be
/// valid text and match the hash. The scan ends at the block or region
/// boundary; an entry running past the region is a truncation fault.
pub open spec fn scan_block(s: Seq<u8>, rl: int, off: int, pos: int) -> Result<
    Seq<Seq<u8>>,
    DecodeFault,
>
    decreases 0x300 - pos,
{
    if pos >= 0x200 || pos + off >= rl || pos < 0 {
        Ok(Seq::empty())
    } else {
        let l = s[pos + off] as int;
        if l == 0 {
            scan_block(s, rl, off, pos + 1)
        } else if pos + off + 2 + l > rl {
            Err(DecodeFault::Truncated)
        } else {
            let name = s.subrange(pos + off + 2, pos + off + 2 + l);
            let expected = s[pos + off + 1];
            if !is_utf8(name) {
                Err(DecodeFault::InvalidName)
            } else if xor_seq(name) != expected {
                Err(DecodeFault::HashMismatch { name, expected, actual: xor_seq(name) })
            } else {
                match scan_block(s, rl, off, pos + 2 + l) {
                    Ok(rest) => Ok(seq![name] + rest),
                    Err(fault) => Err(fault),
                }
            }
        }
    }
}

/// Names of the first `nblocks` directory blocks, in order; the first fault
/// of the earliest faulty block wins.
pub open spec fn scan_blocks(s: Seq<u8>, rl: int, nblocks: int) -> Result<
    Seq<Seq<u8>>,
    DecodeFault,
>
    decreases nblocks,
{
    if nblocks <= 0 {
        Ok(Seq::empty())
    } else {
        match scan_blocks(s, rl, nblocks - 1) {
            Ok(pre) => match scan_block(s, rl, 0x200 * (nblocks - 1), 3) {
                Ok(ns) => Ok(pre + ns),
                Err(fault) => Err(fault),
            },
            Err(fault) => Err(fault),
        }
    }
}

/// The (offset, size) pairs of one record's entries, read at `base`.
pub open spec fn record_pairs(s: Seq<u8>, base: int, count: int) -> Seq<(u32, u32)> {
    Seq::new(count as nat, |j: int| (le32_at(s, base + 8 * j), le32_at(s, base + 8 * j + 4)))
}

/// Size-table records from `pos`, with `remaining` filenames still owed and
/// `n` filenames in all. Each record's entry count must equal the smaller of
/// `remaining` and the record capacity; the continuation marker chains full
/// records, any other marker value is the literal count of the final record,
/// and filenames left over after the final record are a count fault.
pub open spec fn parse_records(s: Seq<u8>, pos: int, remaining: int, n: int) -> Result<
    (Seq<(u32, u32)>, int),
    DecodeFault,
>
    decreases remaining,
{
    if pos < 0 || pos + 8 > s.len() {
        Err(DecodeFault::Truncated)
    } else {
        let marker = le16_at(s, pos + 2) as int;
        let done = marker != 0xFFFF;
        let count = if done {
            marker
        } else {
            0x3F
        };
        let owed = if remaining < 0x3F {
            remaining
        } else {
            0x3F
        };
        if count != owed {
            Err(DecodeFault::CountMismatch { found: count, names_total: n })
        } else if pos + 8 + 8 * count > s.len() {
            Err(DecodeFault::Truncated)
        } else {
            let pairs = record_pairs(s, pos + 8, count);
            if done {
                if remaining != count {
                    Err(DecodeFault::CountMismatch { found: n - (remaining - count), names_total: n })
                } else {
                    Ok((pairs, pos + 8 + 8 * count))
                }
            } else {
                match parse_records(s, pos + 8 + 8 * count, remaining - count, n) {
                    Ok((rest, end)) => Ok((pairs + rest, end)),
                    Err(fault) => Err(fault),
                }
            }
        }
    }
}

/// File bytes for each (offset, size) pair, sliced from the data blob at
/// `ds`; a range past the buffer's end is a truncation fault, and an empty
/// file needs no bytes at all.
pub open spec fn take_files(s: Seq<u8>, ds: int, pairs: Seq<(u32, u32)>) -> Result<
    Seq<Seq<u8>>,
    DecodeFault,
>
    decreases pairs.len(),
{
    if pairs.len() == 0 {
        Ok(Seq::empty())
    } else {
        let p = pairs[0];
        let one = if p.1 == 0 {
            Ok(Seq::<u8>::empty())
        } else if ds + p.0 + p.1 > s.len() {
            Err(DecodeFault::Truncated)
        } else {
            Ok(s.subrange(ds + p.0, ds + p.0 + p.1))
        };
        match one {
            Err(fault) => Err(fault),
            Ok(bytes) => match take_files(s, ds, pairs.drop_first()) {
                Ok(rest) => Ok(seq![bytes] + rest),
                Err(fault) => Err(fault),
            },
        }
    }
}

/// A run of already-scanned names placed before the rest of a scan.
pub open spec fn with_names(pre: Seq<Seq<u8>>, r: Result<Seq<Seq<u8>>, DecodeFault>) -> Result<
    Seq<Seq<u8>>,
    DecodeFault,
> {
    match r {
        Ok(ns) => Ok(pre + ns),
        Err(fault) => Err(fault),
    }
}

/// A run of already-read pairs placed before the rest of a table walk.
pub open spec fn with_pairs(
    pre: Seq<(u32, u32)>,
    r: Result<(Seq<(u32, u32)>, int), DecodeFault>,
) -> Result<(Seq<(u32, u32)>, int), DecodeFault> {
    match r {
        Ok((ps, end)) => Ok((pre + ps, end)),
        Err(fault) => Err(fault),
    }
}

proof fn lemma_scan_blocks_err_extends(s: Seq<u8>, rl: int, bi: int, nb: int, fault: DecodeFault)
    requires
        0 <= bi < nb,
        scan_blocks(s, rl, bi + 1) == Err::<Seq<Seq<u8>>, DecodeFault>(fault),
    ensures
        scan_blocks(s, rl, nb) == Err::<Seq<Seq<u8>>, DecodeFault>(fault),
    decreases nb,
{
    if nb > bi + 1 {
        lemma_scan_blocks_err_extends(s, rl, bi, nb - 1, fault);
    }
}

/// Names and file contents of the archive image, in directory order, or the
/// first fault: the size-map start is the block count times the block size
/// when that count is nonzero, else the start field itself; the directory is
/// scanned, the size table walked, and the data blob found at the next block
/// boundary after the table.
pub open spec fn spec_unpack(s: Seq<u8>) -> Result<(Seq<Seq<u8>>, Seq<Seq<u8>>), DecodeFault> {
    if s.len() < 3 {
        Err(DecodeFault::Truncated)
    } else {
        let field = le16_at(s, 0) as int;
        let chunks = s[2] as int;
        let rl = if chunks > 0 {
            chunks * 0x200
        } else {
            field
        };
        if rl > s.len() {
            Err(DecodeFault::Truncated)
        } else {
            let nb = if chunks > 0 {
                chunks
            } else {
                1
            };
            match scan_blocks(s, rl, nb) {
                Err(fault) => Err(fault),
                Ok(names) => match parse_records(s, rl, names.len() as int, names.len() as int) {
                    Err(fault) => Err(fault),
                    Ok((pairs, end)) => match take_files(s, align_up(end, 0x200), pairs) {
                        Err(fault) => Err(fault),
                        Ok(files) => Ok((names, files)),
                    },
                },
            }
        }
    }
}

proof fn lemma_take_files_len(s: Seq<u8>, ds: int, pairs: Seq<(u32, u32)>)
    ensures
        take_files(s, ds, pairs) matches Ok(files) ==> files.len() == pairs.len(),
    decreases pairs.len(),
{
    if pairs.len() > 0 {
        lemma_take_files_len(s, ds, pairs.drop_first());
    }
}

proof fn lemma_parse_records_len(s: Seq<u8>, pos: int, remaining: int, n: int)
    ensures
        parse_records(s, pos, remaining, n) matches Ok(p) ==> p.0.len() == remaining,
    decreases remaining,
{
    if pos >= 0 && pos + 8 <= s.len() {
        let marker = le16_at(s, pos + 2) as int;
        if marker == 0xFFFF && remaining >= 0x3F && pos + 8 + 8 * 0x3F <= s.len() {
            lemma_parse_records_len(s, pos + 8 + 8 * 0x3F, remaining - 0x3F, n);
        }
    }
}

/// Count invariant of decoding: whenever an archive image decodes at all,
/// it yields exactly one file's bytes for every filename of its directory —
/// the size-table walk owes an entry to each name and to nothing else.
pub proof fn lemma_unpack_count_invariant(s: Seq<u8>)
    ensures
        spec_unpack(s) matches Ok(p) ==> p.1.len() == p.0.len(),
{
    if s.len() >= 3 {
        let field = le16_at(s, 0) as int;
        let chunks = s[2] as int;
        let rl = if chunks > 0 {
            chunks * 0x200
        } else {
            field
        };
        if rl <= s.len() {
            let nb = if chunks > 0 {
                chunks
            } else {
                1
            };
            match scan_blocks(s, rl, nb) {
                Ok(names) => {
                    let k = names.len() as int;
                    lemma_parse_records_len(s, rl, k, k);
                    match parse_records(s, rl, k, k) {
                        Ok((pairs, end)) => {
                            lemma_take_files_len(s, align_up(end, 0x200), pairs);
                        },
                        Err(_) => {},
                    }
                },
                Err(_) => {},
            }
        }
    }
}

proof fn lemma_take_files_blob(image: Seq<u8>, ds: int, contents: Seq<Seq<u8>>, j: int)
    requires
        0 <= j <= contents.len(),
        total_size(contents) <= u32::MAX,
        ds >= 0,
        ds + total_size(contents) <= image.len(),
        forall|i: int|
            0 <= i < blob_bytes(contents).len() ==> #[trigger] image[ds + i] == blob_bytes(
                contents,
            )[i],
    ensures
        take_files(image, ds, spec_pairs(contents).skip(j)) == Ok::<Seq<Seq<u8>>, DecodeFault>(
            contents.skip(j),
        ),
    decreases contents.len() - j,
{
    lemma_total_size_nonneg(contents);
    if j == contents.len() {
        assert(spec_pairs(contents).skip(j) =~= Seq::<(u32, u32)>::empty());
        assert(contents.skip(j) =~= Seq::<Seq<u8>>::empty());
    } else {
        lemma_blob_slice(contents, j);
        let off = offset_of(contents, j);
        let len_j = contents[j].len() as int;
        let p = spec_pairs(contents)[j];
        assert(p.0 as int == off);
        assert(p.1 as int == len_j);
        assert(spec_pairs(contents).skip(j)[0] == p);
        assert(spec_pairs(contents).skip(j).drop_first() =~= spec_pairs(contents).skip(j + 1));
        lemma_take_files_blob(image, ds, contents, j + 1);
        if len_j == 0 {
            assert(contents[j] =~= Seq::<u8>::empty());
        } else {
            assert(ds + p.0 + p.1 <= image.len());
            let lo = ds + off;
            let hi = ds + off + len_j;
            assert(image.subrange(lo, hi) =~= blob_bytes(contents).subrange(off, off + len_j))
                by {
                assert forall|k: int| 0 <= k < len_j implies #[trigger] image.subrange(lo, hi)[k]
                    == blob_bytes(contents).subrange(off, off + len_j)[k] by {
                    assert(image.subrange(lo, hi)[k] == image[ds + (off + k)]);
                    assert(blob_bytes(contents).subrange(off, off + len_j)[k] == blob_bytes(
                        contents,
                    )[off + k]);
                    assert(image[ds + (off + k)] == blob_bytes(contents)[off + k]);
                }
            }
            assert(image.subrange(ds + p.0, ds + p.0 + p.1) == contents[j]);
        }
        assert(seq![contents[j]] + contents.skip(j + 1) =~= contents.skip(j));
    }
}

proof fn lemma_u32_value(v: u32)
    ensures
        (v % 256) + 256 * ((v / 256) % 256) + 65536 * ((v / 65536) % 256) + 16777216 * (v
            / 16777216) == v,
{
    assert((v % 256) + 256 * ((v / 256) % 256) + 65536 * ((v / 65536) % 256) + 16777216 * (v
        / 16777216) == v) by (bit_vector);
}

proof fn lemma_record_pairs_read(image: Seq<u8>, base: int, ps: Seq<(u32, u32)>)
    requires
        0 <= base,
        base + 8 * ps.len() <= image.len(),
        forall|i: int|
            0 <= i < crate::archive::pairs_bytes(ps).len() ==> #[trigger] image[base + i]
                == crate::archive::pairs_bytes(ps)[i],
    ensures
        record_pairs(image, base, ps.len() as int) == ps,
{
    crate::archive::lemma_pairs_bytes_len(ps);
    let pb = crate::archive::pairs_bytes(ps);
    assert forall|j: int| 0 <= j < ps.len() implies #[trigger] record_pairs(
        image,
        base,
        ps.len() as int,
    )[j] == ps[j] by {
        crate::archive::lemma_pairs_bytes_slice(ps, j);
        let p = ps[j];
        let eight = crate::bytes::u32_bytes(p.0) + crate::bytes::u32_bytes(p.1);
        assert forall|m: int| 0 <= m < 8 implies #[trigger] image[(base + 8 * j) + m]
            == eight[m] by {
            assert(pb.subrange(8 * j, 8 * j + 8)[m] == pb[8 * j + m]);
            assert(image[base + (8 * j + m)] == pb[8 * j + m]);
        }
        assert(image[base + 8 * j + 0] == (p.0 % 256) as u8);
        assert(image[base + 8 * j + 1] == ((p.0 / 256) % 256) as u8);
        assert(image[base + 8 * j + 2] == ((p.0 / 65536) % 256) as u8);
        assert(image[base + 8 * j + 3] == (p.0 / 16777216) as u8);
        assert(image[base + 8 * j + 4] == (p.1 % 256) as u8);
        assert(image[base + 8 * j + 5] == ((p.1 / 256) % 256) as u8);
        assert(image[base + 8 * j + 6] == ((p.1 / 65536) % 256) as u8);
        assert(image[base + 8 * j + 7] == (p.1 / 16777216) as u8);
        lemma_u32_value(p.0);
        lemma_u32_value(p.1);
        assert(le32_at(image, base + 8 * j) == p.0);
        assert(le32_at(image, base + 8 * j + 4) == p.1);
    }
    assert(record_pairs(image, base, ps.len() as int) =~= ps);
}

proof fn lemma_parse_table_bytes(image: Seq<u8>, tb: int, pairs: Seq<(u32, u32)>, n: int)
    requires
        0 <= tb,
        tb + crate::archive::table_bytes(pairs).len() <= image.len(),
        forall|i: int|
            0 <= i < crate::archive::table_bytes(pairs).len() ==> #[trigger] image[tb + i]
                == crate::archive::table_bytes(pairs)[i],
    ensures
        parse_records(image, tb, pairs.len() as int, n) == Ok::<(Seq<(u32, u32)>, int), DecodeFault>(
            (pairs, tb + crate::archive::table_bytes(pairs).len()),
        ),
    decreases pairs.len(),
{
    let t = crate::archive::table_bytes(pairs);
    if pairs.len() <= 0x3F {
        let c = pairs.len() as u16;
        crate::archive::lemma_pairs_bytes_len(pairs);
        assert(t.len() == 8 + 8 * pairs.len());
        assert(image[tb + 2] == (c % 256) as u8);
        assert(image[tb + 3] == (c / 256) as u8);
        assert(le16_at(image, tb + 2) == c) by {
            assert((c % 256) + 256 * (c / 256) == c) by (bit_vector);
        }
        assert forall|i: int|
            0 <= i < crate::archive::pairs_bytes(pairs).len() implies #[trigger] image[(tb + 8)
            + i] == crate::archive::pairs_bytes(pairs)[i] by {
            assert(image[tb + (8 + i)] == t[8 + i]);
        }
        lemma_record_pairs_read(image, tb + 8, pairs);
    } else {
        let head = pairs.take(0x3F);
        let tail = pairs.skip(0x3F);
        crate::archive::lemma_pairs_bytes_len(head);
        assert(image[tb + 2] == 0xFFu8);
        assert(image[tb + 3] == 0xFFu8);
        assert(le16_at(image, tb + 2) == 0xFFFF);
        assert forall|i: int|
            0 <= i < crate::archive::pairs_bytes(head).len() implies #[trigger] image[(tb + 8)
            + i] == crate::archive::pairs_bytes(head)[i] by {
            assert(image[tb + (8 + i)] == t[8 + i]);
        }
        lemma_record_pairs_read(image, tb + 8, head);
        let tb2 = tb + 8 + 8 * 0x3F;
        assert forall|i: int|
            0 <= i < crate::archive::table_bytes(tail).len() implies #[trigger] image[tb2 + i]
            == crate::archive::table_bytes(tail)[i] by {
            assert(t[(8 + 8 * 0x3F) + i] == crate::archive::table_bytes(tail)[i]);
            assert(image[tb + ((8 + 8 * 0x3F) + i)] == t[(8 + 8 * 0x3F) + i]);
        }
        lemma_parse_table_bytes(image, tb2, tail, n);
        assert(head + tail =~= pairs);
        assert(record_pairs(image, tb + 8, 0x3F) == head);
    }
}

/// The directory entries of a run of names, laid out back to back.
pub open spec fn cat_entries(names: Seq<Seq<u8>>) -> Seq<u8>
    decreases names.len(),
{
    if names.len() == 0 {
        Seq::empty()
    } else {
        crate::encode::entry_bytes(names.first()) + cat_entries(names.drop_first())
    }
}

proof fn lemma_scan_zeros(s: Seq<u8>, rl: int, off: int, pos: int)
    requires
        0 <= pos,
        0 <= off,
        rl <= s.len(),
        forall|q: int| pos <= q < 0x200 && q + off < rl ==> #[trigger] s[q + off] == 0,
    ensures
        scan_block(s, rl, off, pos) == Ok::<Seq<Seq<u8>>, DecodeFault>(Seq::empty()),
    decreases 0x200 - pos,
{
    if pos < 0x200 && pos + off < rl {
        lemma_scan_zeros(s, rl, off, pos + 1);
    }
}

/// Directory law: scanning a block region that holds exactly the entries of
/// a run of names — each no longer than its one-byte length field allows,
/// each valid text — and zero bytes from the end of the entries to the end
/// of the block or region, yields exactly those names.
pub proof fn lemma_scan_entries(s: Seq<u8>, rl: int, off: int, pos: int, names: Seq<Seq<u8>>)
    requires
        0 <= off,
        3 <= pos,
        rl <= s.len(),
        pos + cat_entries(names).len() <= 0x200,
        pos + off + cat_entries(names).len() <= rl,
        forall|i: int|
            0 <= i < cat_entries(names).len() ==> #[trigger] s[(pos + off) + i] == cat_entries(
                names,
            )[i],
        forall|q: int|
            pos + cat_entries(names).len() <= q < 0x200 && q + off < rl ==> #[trigger] s[q + off]
                == 0,
        forall|k: int|
            0 <= k < names.len() ==> 1 <= (#[trigger] names[k]).len() <= 255 && is_utf8(names[k]),
    ensures
        scan_block(s, rl, off, pos) == Ok::<Seq<Seq<u8>>, DecodeFault>(names),
    decreases names.len(),
{
    let ce = cat_entries(names);
    if names.len() == 0 {
        lemma_scan_zeros(s, rl, off, pos);
        assert(names =~= Seq::<Seq<u8>>::empty());
    } else {
        let n0 = names.first();
        let e0 = crate::encode::entry_bytes(n0);
        let rest = names.drop_first();
        let l = n0.len() as int;
        assert(e0.len() == 2 + l);
        assert(s[pos + off] == l as u8) by {
            assert(s[(pos + off) + 0] == ce[0]);
            assert(ce[0] == e0[0]);
        }
        assert(s[pos + off + 1] == xor_seq(n0)) by {
            assert(s[(pos + off) + 1] == ce[1]);
            assert(ce[1] == e0[1]);
        }
        assert(s.subrange(pos + off + 2, pos + off + 2 + l) =~= n0) by {
            assert forall|m: int| 0 <= m < l implies #[trigger] s.subrange(
                pos + off + 2,
                pos + off + 2 + l,
            )[m] == n0[m] by {
                assert(s[(pos + off) + (2 + m)] == ce[2 + m]);
                assert(ce[2 + m] == e0[2 + m]);
                assert(e0[2 + m] == n0[m]);
            }
        }
        let pos2 = pos + 2 + l;
        assert forall|i: int| 0 <= i < cat_entries(rest).len() implies #[trigger] s[(pos2 + off)
            + i] == cat_entries(rest)[i] by {
            assert(s[(pos + off) + ((2 + l) + i)] == ce[(2 + l) + i]);
            assert(ce[(2 + l) + i] == cat_entries(rest)[i]);
        }
        lemma_scan_entries(s, rl, off, pos2, rest);
        assert(seq![n0] + rest =~= names);
    }
}

/// Size-table law: walking the size table exactly as decoding does, over
/// the bytes the encoder emits for any run of (offset, size) pairs, yields
/// those pairs back in full, and ends right behind the table.
pub proof fn lemma_pack_table_recoverable(image: Seq<u8>, tb: int, pairs: Seq<(u32, u32)>)
    requires
        0 <= tb,
        tb + crate::archive::table_bytes(pairs).len() <= image.len(),
        image.subrange(tb, tb + crate::archive::table_bytes(pairs).len())
            == crate::archive::table_bytes(pairs),
    ensures
        parse_records(image, tb, pairs.len() as int, pairs.len() as int) == Ok::<
            (Seq<(u32, u32)>, int),
            DecodeFault,
        >((pairs, tb + crate::archive::table_bytes(pairs).len())),
{
    let t = crate::archive::table_bytes(pairs);
    assert forall|i: int| 0 <= i < t.len() implies #[trigger] image[tb + i] == t[i] by {
        assert(image.subrange(tb, tb + t.len())[i] == image[tb + i]);
    }
    lemma_parse_table_bytes(image, tb, pairs, pairs.len() as int);
}

/// Data-recovery law: in any archive image the encoder builds, slicing the
/// data blob at each recorded (offset, size) pair — exactly as decoding
/// does, from the block boundary where the blob starts — yields every
/// file's bytes back, byte for byte.
pub proof fn lemma_pack_data_recoverable(names: Seq<Seq<u8>>, contents: Seq<Seq<u8>>)
    requires
        total_size(contents) <= u32::MAX,
    ensures
        take_files(
            spec_pack(names, contents),
            spec_data_start(names, contents),
            spec_pairs(contents),
        ) == Ok::<Seq<Seq<u8>>, DecodeFault>(contents),
{
    lemma_blob_block_aligned(names, contents);
    lemma_total_size_nonneg(contents);
    lemma_take_files_blob(
        spec_pack(names, contents),
        spec_data_start(names, contents),
        contents,
        0,
    );
    assert(spec_pairs(contents).skip(0) =~= spec_pairs(contents));
    assert(contents.skip(0) =~= contents);
}

/// Round-trip law, compact layout: an archive the encoder lays out in its
/// compact single-block form decodes to exactly the names and file contents
/// it was built from.
#[verifier::rlimit(60)]
pub proof fn lemma_round_trip_compact(names: Seq<Seq<u8>>, contents: Seq<Seq<u8>>)
    requires
        names.len() == contents.len(),
        forall|k: int|
            0 <= k < names.len() ==> 1 <= (#[trigger] names[k]).len() <= 255 && is_utf8(names[k]),
        total_size(contents) <= u32::MAX,
        crate::archive::compact_ok(
            crate::encode::name_blocks(names),
            names.len() as int,
        ),
    ensures
        spec_unpack(spec_pack(names, contents)) == Ok::<(Seq<Seq<u8>>, Seq<Seq<u8>>), DecodeFault>(
            (names, contents),
        ),
{
    let blocks = crate::encode::name_blocks(names);
    let blk = blocks[0];
    let ln = blk.len() as int;
    let n = names.len() as int;
    let pairs = spec_pairs(contents);
    crate::encode::lemma_single_block_content(names);
    crate::archive::lemma_pairs_bytes_len(pairs);
    let pb = crate::archive::pairs_bytes(pairs);
    let head = crate::archive::compact_head(blk, pairs);
    let image = spec_pack(names, contents);
    let fieldv = (ln + 4) as u16;
    let cnt = pairs.len() as u16;
    assert(pairs.len() == n);
    assert(head.len() == ln + 12 + 8 * n);
    assert(head == crate::archive::head_bytes(names, contents));
    crate::archive::lemma_pad_block_aligned(head);
    lemma_total_size_nonneg(contents);
    assert(image.len() >= head.len());
    assert forall|i: int| 0 <= i < head.len() implies #[trigger] image[i] == head[i] by {}
    // The header fields of the image.
    assert(image[0] == (fieldv % 256) as u8);
    assert(image[1] == (fieldv / 256) as u8);
    assert((fieldv % 256) + 256 * (fieldv / 256) == fieldv) by (bit_vector);
    assert(le16_at(image, 0) == fieldv);
    assert(fieldv == ln + 4);
    assert(image[2] == 0);
    let rl = ln + 4;
    assert(rl <= image.len());
    // The directory scan finds exactly the names.
    assert forall|i: int| 0 <= i < cat_entries(names).len() implies #[trigger] image[(3 + 0) + i]
        == cat_entries(names)[i] by {
        assert(head[3 + i] == blk[i]);
    }
    assert forall|q: int| 3 + cat_entries(names).len() <= q < 0x200 && q + 0 < rl implies
        #[trigger] image[q + 0] == 0 by {
        assert(q == ln + 3);
        assert(head[ln + 3] == 0);
    }
    lemma_scan_entries(image, rl, 0, 3, names);
    assert(scan_blocks(image, rl, 1) == Ok::<Seq<Seq<u8>>, DecodeFault>(names)) by {
        assert(scan_blocks(image, rl, 0) == Ok::<Seq<Seq<u8>>, DecodeFault>(Seq::empty()));
        assert(scan_block(image, rl, 0x200 * (1int - 1), 3) == scan_block(image, rl, 0, 3));
        assert(Seq::<Seq<u8>>::empty() + names =~~= names);
    }
    // The size table parses back to exactly the pairs.
    let t = crate::archive::table_bytes(pairs);
    assert(t.len() == 8 + 8 * n);
    assert forall|i: int| 0 <= i < t.len() implies #[trigger] image[rl + i] == t[i] by {
        if i == 0 {
            assert(head[ln + 4] == 0);
            assert(t[0] == 0);
        } else if i == 1 {
            assert(head[ln + 5] == 0);
            assert(t[1] == 0);
        } else if i == 2 {
            assert(head[ln + 6] == (cnt % 256) as u8);
            assert(t[2] == (cnt % 256) as u8);
        } else if i == 3 {
            assert(head[ln + 7] == (cnt / 256) as u8);
            assert(t[3] == (cnt / 256) as u8);
        } else if i < 8 {
            assert(head[ln + 8 + (i - 4)] == 0);
            assert(t[i] == 0);
        } else {
            assert(head[ln + 12 + (i - 8)] == pb[i - 8]);
            assert(t[i] == pb[i - 8]);
        }
    }
    assert(image.subrange(rl, rl + t.len()) =~= t);
    lemma_pack_table_recoverable(image, rl, pairs);
    // The data blob sits at the block boundary after the table.
    assert(rl + t.len() == head.len());
    crate::util::lemma_align_up(head.len() as int, 0x200);
    assert(align_up(head.len() as int, 0x200) == spec_data_start(names, contents));
    lemma_pack_data_recoverable(names, contents);
}

/// Round-trip law, multi-block layout with a single directory block: when
/// the compact form does not apply but all entries still fit one name
/// block, the encoded archive decodes to exactly the names and file
/// contents it was built from — however many size-table records the file
/// count needs.
#[verifier::rlimit(60)]
pub proof fn lemma_round_trip_single_block_multi(names: Seq<Seq<u8>>, contents: Seq<Seq<u8>>)
    requires
        names.len() == contents.len(),
        forall|k: int|
            0 <= k < names.len() ==> 1 <= (#[trigger] names[k]).len() <= 255 && is_utf8(names[k]),
        total_size(contents) <= u32::MAX,
        crate::encode::name_blocks(names).len() == 1,
        !crate::archive::compact_ok(
            crate::encode::name_blocks(names),
            names.len() as int,
        ),
    ensures
        spec_unpack(spec_pack(names, contents)) == Ok::<(Seq<Seq<u8>>, Seq<Seq<u8>>), DecodeFault>(
            (names, contents),
        ),
{
    let blocks = crate::encode::name_blocks(names);
    let blk = blocks[0];
    let ln = blk.len() as int;
    let n = names.len() as int;
    let pairs = spec_pairs(contents);
    crate::encode::lemma_single_block_content(names);
    crate::encode::lemma_name_blocks_shape(names);
    assert(ln <= 0x1FC);
    crate::archive::lemma_pairs_bytes_len(pairs);
    let dir = crate::archive::dir_bytes(blocks, 1u8);
    assert(crate::archive::dir_bytes(blocks.drop_last(), 1u8) =~= Seq::<u8>::empty()) by {
        assert(blocks.drop_last().len() == 0);
    }
    assert(dir.len() == 3 + ln);
    let pd = crate::archive::pad_block(dir);
    crate::util::lemma_align_up(dir.len() as int, 0x200);
    assert(pd.len() == 0x200);
    let t = crate::archive::table_bytes(pairs);
    let head = crate::archive::head_bytes(names, contents);
    assert(head == pd + t);
    crate::archive::lemma_pad_block_aligned(head);
    lemma_total_size_nonneg(contents);
    let image = spec_pack(names, contents);
    assert(image.len() >= head.len());
    assert forall|i: int| 0 <= i < head.len() implies #[trigger] image[i] == head[i] by {}
    // The header fields: a nonzero block count selects the region length.
    assert(image[2] == 1) by {
        assert(dir[2] == 1);
        assert(pd[2] == dir[2]);
    }
    let rl = 0x200int;
    assert(head.len() >= 0x200 + 8) by {
        lemma_table_len_lower(pairs);
    }
    assert(rl <= image.len());
    // The directory scan finds exactly the names.
    assert forall|i: int| 0 <= i < cat_entries(names).len() implies #[trigger] image[(3 + 0) + i]
        == cat_entries(names)[i] by {
        assert(dir[3 + i] == blk[i]);
        assert(pd[3 + i] == dir[3 + i]);
        assert(head[3 + i] == pd[3 + i]);
    }
    assert forall|q: int| 3 + cat_entries(names).len() <= q < 0x200 && q + 0 < rl implies
        #[trigger] image[q + 0] == 0 by {
        assert(pd[q] == 0);
        assert(head[q] == pd[q]);
    }
    lemma_scan_entries(image, rl, 0, 3, names);
    assert(scan_blocks(image, rl, 1) == Ok::<Seq<Seq<u8>>, DecodeFault>(names)) by {
        assert(scan_blocks(image, rl, 0) == Ok::<Seq<Seq<u8>>, DecodeFault>(Seq::empty()));
        assert(scan_block(image, rl, 0x200 * (1int - 1), 3) == scan_block(image, rl, 0, 3));
        assert(Seq::<Seq<u8>>::empty() + names =~~= names);
    }
    // The size table sits right behind the padded directory block.
    assert forall|i: int| 0 <= i < t.len() implies #[trigger] image[rl + i] == t[i] by {
        assert(head[0x200 + i] == t[i]);
    }
    assert(image.subrange(rl, rl + t.len()) =~= t);
    assert(pairs.len() == n);
    lemma_pack_table_recoverable(image, rl, pairs);
    // The data blob sits at the block boundary after the table.
    assert(rl + t.len() == head.len());
    crate::util::lemma_align_up(head.len() as int, 0x200);
    assert(align_up(head.len() as int, 0x200) == spec_data_start(names, contents));
    lemma_pack_data_recoverable(names, contents);
}

proof fn lemma_table_len_lower(pairs: Seq<(u32, u32)>)
    ensures
        crate::archive::table_bytes(pairs).len() >= 8 + 8 * pairs.len(),
    decreases pairs.len(),
{
    crate::archive::lemma_pairs_bytes_len(pairs);
    if pairs.len() > 0x3F {
        lemma_table_len_lower(pairs.skip(0x3F));
        crate::archive::lemma_pairs_bytes_len(pairs.take(0x3F));
    }
}

/// Round-trip law: any archive whose name directory fits a single block —
/// in either layout, with any number of size-table records — decodes to
/// exactly the names and file contents it was built from.
pub proof fn lemma_round_trip_single_block(names: Seq<Seq<u8>>, contents: Seq<Seq<u8>>)
    requires
        names.len() == contents.len(),
        forall|k: int|
            0 <= k < names.len() ==> 1 <= (#[trigger] names[k]).len() <= 255 && is_utf8(names[k]),
        total_size(contents) <= u32::MAX,
        crate::encode::name_blocks(names).len() == 1,
    ensures
        spec_unpack(spec_pack(names, contents)) == Ok::<(Seq<Seq<u8>>, Seq<Seq<u8>>), DecodeFault>(
            (names, contents),
        ),
{
    if crate::archive::compact_ok(crate::encode::name_blocks(names), names.len() as int) {
        lemma_round_trip_compact(names, contents);
    } else {
        lemma_round_trip_single_block_multi(names, contents);
    }
}

/// Copy the bytes of `buf[a..b]` into a fresh vector.
fn copy_range(buf: &[u8], a: usize, b: usize) -> (v: Vec<u8>)
    requires
        a <= b <= buf@.len(),
    ensures
        v@ == buf@.subrange(a as int, b as int),
{
    let mut v: Vec<u8> = Vec::new();
    let mut k: usize = a;
    proof {
        assert(v@ =~= buf@.subrange(a as int, a as int));
    }
    while k < b
        invariant
            a <= k <= b <= buf@.len(),
            v@ == buf@.subrange(a as int, k as int),
        decreases b - k,
    {
        v.push(buf[k]);
        proof {
            assert(buf@.subrange(a as int, k + 1) =~= buf@.subrange(a as int, k as int).push(
                buf@[k as int],
            ));
        }
        k = k + 1;
    }
    v
}

/// Scan the name directory: `nb` blocks within the region of length `rl`.
fn scan_names(buf: &[u8], rl: usize, nb: usize) -> (r: Result<Vec<Vec<u8>>, PacError>)
    requires
        rl <= buf@.len(),
        1 <= nb <= 255,
    ensures
        match r {
            Ok(v) => scan_blocks(buf@, rl as int, nb as int) == Ok::<Seq<Seq<u8>>, DecodeFault>(
                v.deep_view(),
            ),
            Err(e) => scan_blocks(buf@, rl as int, nb as int) matches Err(fault) && fault_matches(
                e,
                fault,
            ),
        },
{
    let mut names: Vec<Vec<u8>> = Vec::new();
    let mut bi: usize = 0;
    proof {
        assert(names.deep_view() =~~= Seq::<Seq<u8>>::empty());
    }
    while bi < nb
        invariant
            bi <= nb <= 255,
            rl <= buf@.len(),
            scan_blocks(buf@, rl as int, bi as int) == Ok::<Seq<Seq<u8>>, DecodeFault>(
                names.deep_view(),
            ),
        decreases nb - bi,
    {
        let off: usize = 0x200 * bi;
        let ghost pre = names.deep_view();
        let mut blk: Vec<Vec<u8>> = Vec::new();
        let mut pos: usize = 3;
        proof {
            assert(blk.deep_view() =~~= Seq::<Seq<u8>>::empty());
            assert(with_names(blk.deep_view(), scan_block(buf@, rl as int, off as int, 3))
                == scan_block(buf@, rl as int, off as int, 3)) by {
                match scan_block(buf@, rl as int, off as int, 3) {
                    Ok(ns) => {
                        assert(Seq::<Seq<u8>>::empty() + ns =~~= ns);
                    },
                    Err(_) => {},
                }
            }
        }
        while pos < 0x200 && pos + off < rl
            invariant
                3 <= pos <= 0x300,
                off == 0x200 * bi,
                bi < nb <= 255,
                rl <= buf@.len(),
                with_names(blk.deep_view(), scan_block(buf@, rl as int, off as int, pos as int))
                    == scan_block(buf@, rl as int, off as int, 3),
                scan_blocks(buf@, rl as int, bi as int) == Ok::<Seq<Seq<u8>>, DecodeFault>(pre),
            decreases 0x300 - pos,
        {
            let l = buf[pos + off] as usize;
            if l == 0 {
                pos = pos + 1;
            } else if pos + off + 2 + l > rl {
                proof {
                    assert(scan_block(buf@, rl as int, off as int, pos as int)
                        == Err::<Seq<Seq<u8>>, DecodeFault>(DecodeFault::Truncated));
                    assert(scan_blocks(buf@, rl as int, bi + 1) == Err::<
                        Seq<Seq<u8>>,
                        DecodeFault,
                    >(DecodeFault::Truncated));
                    lemma_scan_blocks_err_extends(
                        buf@,
                        rl as int,
                        bi as int,
                        nb as int,
                        DecodeFault::Truncated,
                    );
                }
                return Err(PacError::Truncated);
            } else {
                let name = copy_range(buf, pos + off + 2, pos + off + 2 + l);
                let ghost gname = buf@.subrange(pos + off + 2, pos + off + 2 + l);
                if !check_utf8(name.as_slice()) {
                    proof {
                        assert(scan_block(buf@, rl as int, off as int, pos as int)
                            == Err::<Seq<Seq<u8>>, DecodeFault>(DecodeFault::InvalidName));
                        assert(scan_blocks(buf@, rl as int, bi + 1) == Err::<
                            Seq<Seq<u8>>,
                            DecodeFault,
                        >(DecodeFault::InvalidName));
                        lemma_scan_blocks_err_extends(
                            buf@,
                            rl as int,
                            bi as int,
                            nb as int,
                            DecodeFault::InvalidName,
                        );
                    }
                    return Err(PacError::InvalidName);
                }
                let actual = xor_hash(name.as_slice());
                let expected = buf[pos + off + 1];
                if actual != expected {
                    let ghost fault = DecodeFault::HashMismatch { name: gname, expected, actual };
                    proof {
                        assert(scan_block(buf@, rl as int, off as int, pos as int) == Err::<
                            Seq<Seq<u8>>,
                            DecodeFault,
                        >(fault));
                        assert(scan_blocks(buf@, rl as int, bi + 1) == Err::<
                            Seq<Seq<u8>>,
                            DecodeFault,
                        >(fault));
                        lemma_scan_blocks_err_extends(buf@, rl as int, bi as int, nb as int, fault);
                    }
                    return Err(PacError::HashMismatch { name, expected, actual });
                }
                let ghost old_blk = blk.deep_view();
                blk.push(name);
                proof {
                    assert(blk.deep_view() =~~= old_blk.push(gname));
                    let rnext = scan_block(buf@, rl as int, off as int, pos + 2 + l);
                    match rnext {
                        Ok(rest) => {
                            assert(scan_block(buf@, rl as int, off as int, pos as int) == Ok::<
                                Seq<Seq<u8>>,
                                DecodeFault,
                            >(seq![gname] + rest));
                            assert(old_blk + (seq![gname] + rest) =~~= old_blk.push(gname) + rest);
                        },
                        Err(_) => {},
                    }
                }
                pos = pos + 2 + l;
            }
        }
        proof {
            assert(scan_block(buf@, rl as int, off as int, pos as int) == Ok::<
                Seq<Seq<u8>>,
                DecodeFault,
            >(Seq::<Seq<u8>>::empty()));
            assert(blk.deep_view() + Seq::<Seq<u8>>::empty() =~~= blk.deep_view());
            assert(scan_block(buf@, rl as int, off as int, 3) == Ok::<Seq<Seq<u8>>, DecodeFault>(
                blk.deep_view(),
            ));
            assert(scan_blocks(buf@, rl as int, bi + 1) == Ok::<Seq<Seq<u8>>, DecodeFault>(
                pre + blk.deep_view(),
            ));
        }
        let ghost blkdv = blk.deep_view();
        names.append(&mut blk);
        proof {
            assert(names.deep_view() =~~= pre + blkdv);
        }
        bi = bi + 1;
    }
    Ok(names)
}

/// Walk the size table from `start` for `n` filenames.
fn parse_table(buf: &[u8], start: usize, n: usize) -> (r: Result<
    (Vec<(u32, u32)>, usize),
    PacError,
>)
    requires
        start <= buf@.len(),
    ensures
        match r {
            Ok((v, end)) => parse_records(buf@, start as int, n as int, n as int) == Ok::<
                (Seq<(u32, u32)>, int),
                DecodeFault,
            >((v@, end as int)) && end <= buf@.len(),
            Err(e) => parse_records(buf@, start as int, n as int, n as int) matches Err(fault)
                && fault_matches(e, fault),
        },
{
    let mut pairs: Vec<(u32, u32)> = Vec::new();
    let mut pos: usize = start;
    let mut remaining: usize = n;
    proof {
        assert(with_pairs(
            pairs@,
            parse_records(buf@, start as int, n as int, n as int),
        ) == parse_records(buf@, start as int, n as int, n as int)) by {
            match parse_records(buf@, start as int, n as int, n as int) {
                Ok((ps, _)) => {
                    assert(Seq::<(u32, u32)>::empty() + ps =~= ps);
                },
                Err(_) => {},
            }
        }
    }
    loop
        invariant_except_break
            with_pairs(pairs@, parse_records(buf@, pos as int, remaining as int, n as int))
                == parse_records(buf@, start as int, n as int, n as int),
        invariant
            pos <= buf@.len(),
            remaining <= n,
        ensures
            parse_records(buf@, start as int, n as int, n as int) == Ok::<
                (Seq<(u32, u32)>, int),
                DecodeFault,
            >((pairs@, pos as int)),
            pos <= buf@.len(),
        decreases remaining,
    {
        if buf.len() - pos < 8 {
            return Err(PacError::Truncated);
        }
        let marker = read_u16_le(buf, pos + 2) as usize;
        let done = marker != 0xFFFF;
        let count = if done {
            marker
        } else {
            0x3F
        };
        let owed = if remaining < 0x3F {
            remaining
        } else {
            0x3F
        };
        if count != owed {
            return Err(PacError::CountMismatch { found: count, names_total: n });
        }
        if 8 * count > buf.len() - (pos + 8) {
            return Err(PacError::Truncated);
        }
        let ghost gpre = pairs@;
        let ghost grp = record_pairs(buf@, pos + 8, count as int);
        let mut j: usize = 0;
        proof {
            assert(pairs@ =~= gpre + grp.take(0));
        }
        while j < count
            invariant
                j <= count <= 0xFFFE,
                pos + 8 + 8 * count <= buf@.len(),
                buf@.len() <= usize::MAX,
                grp == record_pairs(buf@, pos + 8, count as int),
                pairs@ == gpre + grp.take(j as int),
            decreases count - j,
        {
            let o = read_u32_le(buf, pos + 8 + 8 * j);
            let z = read_u32_le(buf, pos + 8 + 8 * j + 4);
            pairs.push((o, z));
            proof {
                assert(grp[j as int] == (o, z));
                assert(grp.take(j + 1) =~= grp.take(j as int).push((o, z)));
                assert(gpre + grp.take(j + 1) =~= (gpre + grp.take(j as int)).push((o, z)));
            }
            j = j + 1;
        }
        proof {
            assert(grp.take(count as int) =~= grp);
        }
        if done {
            if remaining != count {
                return Err(
                    PacError::CountMismatch { found: n - (remaining - count), names_total: n },
                );
            }
            let ghost old_pos = pos as int;
            pos = pos + 8 + 8 * count;
            proof {
                assert(parse_records(buf@, old_pos, remaining as int, n as int) == Ok::<
                    (Seq<(u32, u32)>, int),
                    DecodeFault,
                >((grp, pos as int)));
                assert(gpre + grp =~= pairs@);
            }
            break ;
        } else {
            let ghost old_pos = pos as int;
            let ghost old_rem = remaining as int;
            pos = pos + 8 + 8 * count;
            remaining = remaining - count;
            proof {
                let rnext = parse_records(buf@, pos as int, remaining as int, n as int);
                match rnext {
                    Ok((rest, end)) => {
                        assert(parse_records(buf@, old_pos, old_rem, n as int) == Ok::<
                            (Seq<(u32, u32)>, int),
                            DecodeFault,
                        >((grp + rest, end)));
                        assert(gpre + (grp + rest) =~= (gpre + grp) + rest);
                    },
                    Err(_) => {},
                }
            }
        }
    }
    Ok((pairs, pos))
}

/// Slice out each file's bytes from the data blob at `ds`.
fn extract_files(buf: &[u8], ds: usize, pairs: &Vec<(u32, u32)>) -> (r: Result<
    Vec<Vec<u8>>,
    PacError,
>)
    ensures
        match r {
            Ok(v) => take_files(buf@, ds as int, pairs@) == Ok::<Seq<Seq<u8>>, DecodeFault>(
                v.deep_view(),
            ),
            Err(e) => take_files(buf@, ds as int, pairs@) matches Err(fault) && fault_matches(
                e,
                fault,
            ),
        },
{
    let mut files: Vec<Vec<u8>> = Vec::new();
    let mut j: usize = 0;
    proof {
        assert(pairs@.skip(0) =~= pairs@);
        assert(with_names(files.deep_view(), take_files(buf@, ds as int, pairs@))
            == take_files(buf@, ds as int, pairs@)) by {
            match take_files(buf@, ds as int, pairs@) {
                Ok(fs) => {
                    assert(Seq::<Seq<u8>>::empty() + fs =~~= fs);
                },
                Err(_) => {},
            }
        }
    }
    while j < pairs.len()
        invariant
            j <= pairs@.len(),
            with_names(files.deep_view(), take_files(buf@, ds as int, pairs@.skip(j as int)))
                == take_files(buf@, ds as int, pairs@),
        decreases pairs@.len() - j,
    {
        let p = pairs[j];
        proof {
            assert(pairs@.skip(j as int)[0] == pairs@[j as int]);
            assert(pairs@.skip(j as int).drop_first() =~= pairs@.skip(j + 1));
        }
        let bytes: Vec<u8>;
        let ghost gbytes: Seq<u8>;
        if p.1 == 0 {
            bytes = Vec::new();
            proof {
                gbytes = Seq::<u8>::empty();
                assert(bytes@ =~= gbytes);
            }
        } else {
            let oversteps: bool;
            if ds > buf.len() {
                oversteps = true;
            } else {
                let rest = buf.len() - ds;
                oversteps = (p.0 as usize) > rest || (p.1 as usize) > rest - (p.0 as usize);
            }
            if oversteps {
                proof {
                    assert(ds + p.0 + p.1 > buf@.len());
                    assert(take_files(buf@, ds as int, pairs@.skip(j as int)) == Err::<
                        Seq<Seq<u8>>,
                        DecodeFault,
                    >(DecodeFault::Truncated));
                }
                return Err(PacError::Truncated);
            }
            bytes = copy_range(buf, ds + p.0 as usize, ds + p.0 as usize + p.1 as usize);
            proof {
                gbytes = buf@.subrange(ds + p.0, ds + p.0 + p.1);
            }
        }
        let ghost old_files = files.deep_view();
        files.push(bytes);
        proof {
            assert(files.deep_view() =~~= old_files.push(gbytes));
            let rnext = take_files(buf@, ds as int, pairs@.skip(j + 1));
            match rnext {
                Ok(rest) => {
                    assert(take_files(buf@, ds as int, pairs@.skip(j as int)) == Ok::<
                        Seq<Seq<u8>>,
                        DecodeFault,
                    >(seq![gbytes] + rest));
                    assert(old_files + (seq![gbytes] + rest) =~~= old_files.push(gbytes) + rest);
                },
                Err(_) => {},
            }
        }
        j = j + 1;
    }
    proof {
        assert(pairs@.skip(pairs@.len() as int) =~= Seq::<(u32, u32)>::empty());
        assert(files.deep_view() + Seq::<Seq<u8>>::empty() =~~= files.deep_view());
    }
    Ok(files)
}

/// Decode an archive buffer: the stored names and each file's bytes, or the
/// first integrity fault of the image.
pub fn unpack(buf: &[u8]) -> (r: Result<(Vec<Vec<u8>>, Vec<Vec<u8>>), PacError>)
    requires
        buf@.len() + BLOCK <= usize::MAX,
    ensures
        match spec_unpack(buf@) {
            Ok((names, files)) => r matches Ok(u) && u.0.deep_view() == names && u.1.deep_view()
                == files,
            Err(fault) => r matches Err(e) && fault_matches(e, fault),
        },
{
    if buf.len() < 3 {
        return Err(PacError::Truncated);
    }
    let field = read_u16_le(buf, 0) as usize;
    let chunks = buf[2] as usize;
    let rl = if chunks > 0 {
        chunks * BLOCK
    } else {
        field
    };
    if rl > buf.len() {
        return Err(PacError::Truncated);
    }
    let nb = if chunks > 0 {
        chunks
    } else {
        1
    };
    let names = match scan_names(buf, rl, nb) {
        Ok(v) => v,
        Err(e) => {
            return Err(e);
        },
    };
    let (pairs, end) = match parse_table(buf, rl, names.len()) {
        Ok(t) => t,
        Err(e) => {
            return Err(e);
        },
    };
    let ds = align(end, BLOCK);
    let files = match extract_files(buf, ds, &pairs) {
        Ok(v) => v,
        Err(e) => {
            return Err(e);
        },
    };
    Ok((names, files))
}

} // verus!
