//! Serialization of a whole archive: the layout decision between the compact
//! single-block form and the general multi-block form, the spec-level byte
//! image of either layout, and the verified encoder that produces it.

use vstd::prelude::*;

use crate::bytes::{push_u16_le, push_u32_le, push_zeros, u16_bytes, u32_bytes, zeros};
use crate::data::{blob_bytes, build_data_layout, offset_of, total_size};
use crate::encode::{build_name_blocks, name_blocks, names_fit};
use crate::error::PacError;
use crate::util::{align_up, lemma_align_up, BLOCK};

verus! {

/// Most entries one size-table record can hold.
pub const RECORD_MAX: usize = 0x3F;

/// The (offset, size) pair of every file, in order.
pub open spec fn spec_pairs(contents: Seq<Seq<u8>>) -> Seq<(u32, u32)> {
    Seq::new(contents.len(), |i: int| (offset_of(contents, i) as u32, contents[i].len() as u32))
}

/// Bytes of a run of (offset, size) pairs, each as two little-endian words.
pub open spec fn pairs_bytes(pairs: Seq<(u32, u32)>) -> Seq<u8>
    decreases pairs.len(),
{
    if pairs.len() == 0 {
        Seq::empty()
    } else {
        pairs_bytes(pairs.drop_last()) + u32_bytes(pairs.last().0) + u32_bytes(pairs.last().1)
    }
}

pub proof fn lemma_pairs_bytes_len(pairs: Seq<(u32, u32)>)
    ensures
        pairs_bytes(pairs).len() == 8 * pairs.len(),
    decreases pairs.len(),
{
    if pairs.len() > 0 {
        lemma_pairs_bytes_len(pairs.drop_last());
    }
}

/// The eight bytes of pair `j` within a run of pairs.
pub proof fn lemma_pairs_bytes_slice(pairs: Seq<(u32, u32)>, j: int)
    requires
        0 <= j < pairs.len(),
    ensures
        pairs_bytes(pairs).subrange(8 * j, 8 * j + 8) == u32_bytes(pairs[j].0) + u32_bytes(
            pairs[j].1,
        ),
    decreases pairs.len(),
{
    lemma_pairs_bytes_len(pairs);
    lemma_pairs_bytes_len(pairs.drop_last());
    if j == pairs.len() - 1 {
        assert(pairs_bytes(pairs).subrange(8 * j, 8 * j + 8) =~= u32_bytes(pairs[j].0)
            + u32_bytes(pairs[j].1));
    } else {
        lemma_pairs_bytes_slice(pairs.drop_last(), j);
        assert(pairs_bytes(pairs).subrange(8 * j, 8 * j + 8) =~= pairs_bytes(
            pairs.drop_last(),
        ).subrange(8 * j, 8 * j + 8));
        assert(pairs.drop_last()[j] == pairs[j]);
    }
}

/// Eight-byte header of one size-table record: reserved bytes and either the
/// literal entry count of the final record or the continuation marker.
pub open spec fn record_header(count: u16, last: bool) -> Seq<u8> {
    zeros(2) + (if last {
        u16_bytes(count)
    } else {
        seq![0xFFu8, 0xFFu8]
    }) + zeros(4)
}

/// Bytes of the whole size table: full records of the maximal entry count
/// chained by the continuation marker, then one final record with its
/// literal count.
pub open spec fn table_bytes(pairs: Seq<(u32, u32)>) -> Seq<u8>
    decreases pairs.len(),
{
    if pairs.len() <= RECORD_MAX {
        record_header(pairs.len() as u16, true) + pairs_bytes(pairs)
    } else {
        record_header(RECORD_MAX as u16, false) + pairs_bytes(pairs.take(RECORD_MAX as int))
            + table_bytes(pairs.skip(RECORD_MAX as int))
    }
}

/// The entry count of each record that `table_bytes` emits, summed: the
/// record capacity for every continuation record, the literal count field
/// for the final one.
pub open spec fn record_count_sum(pairs: Seq<(u32, u32)>) -> int
    decreases pairs.len(),
{
    if pairs.len() <= RECORD_MAX {
        pairs.len() as int
    } else {
        RECORD_MAX + record_count_sum(pairs.skip(RECORD_MAX as int))
    }
}

/// Count invariant of encoding: the size table built for `k` files chains
/// records whose entry counts sum to exactly `k` — the table never owes
/// more or fewer entries than there are filenames.
pub proof fn lemma_pack_count_invariant(pairs: Seq<(u32, u32)>)
    ensures
        record_count_sum(pairs) == pairs.len(),
    decreases pairs.len(),
{
    if pairs.len() > RECORD_MAX {
        lemma_pack_count_invariant(pairs.skip(RECORD_MAX as int));
    }
}

/// A section padded with zero bytes up to the next block boundary (left as
/// is when it already ends on one).
pub open spec fn pad_block(s: Seq<u8>) -> Seq<u8> {
    s + zeros(align_up(s.len() as int, BLOCK as int) - s.len())
}

pub proof fn lemma_pad_block_aligned(s: Seq<u8>)
    ensures
        pad_block(s).len() as int % (BLOCK as int) == 0,
        s.len() <= pad_block(s).len() < s.len() + BLOCK,
{
    lemma_align_up(s.len() as int, BLOCK as int);
}

/// The compact layout is chosen exactly when one name block and one
/// size-table record suffice and, together with the header fields, fit
/// within a single block.
pub open spec fn compact_ok(blocks: Seq<Seq<u8>>, nfiles: int) -> bool {
    &&& blocks.len() == 1
    &&& nfiles <= RECORD_MAX
    &&& 3 + blocks[0].len() + nfiles * 8 + 9 <= BLOCK
}

/// More files than one record holds always force the multi-block layout.
pub proof fn lemma_many_files_never_compact(blocks: Seq<Seq<u8>>, nfiles: int)
    requires
        nfiles > RECORD_MAX,
    ensures
        !compact_ok(blocks, nfiles),
{
}

/// Header region of the compact layout, before block padding: the size-map
/// start field, a zero block count, the single name block, and its one
/// size-table record.
pub open spec fn compact_head(block: Seq<u8>, pairs: Seq<(u32, u32)>) -> Seq<u8> {
    u16_bytes((block.len() + 4) as u16) + seq![0u8] + block + zeros(3) + u16_bytes(
        pairs.len() as u16,
    ) + zeros(4) + pairs_bytes(pairs)
}

/// The name directory of the multi-block layout: every block behind two
/// reserved bytes and the total block count.
pub open spec fn dir_bytes(blocks: Seq<Seq<u8>>, nb: u8) -> Seq<u8>
    decreases blocks.len(),
{
    if blocks.len() == 0 {
        Seq::empty()
    } else {
        dir_bytes(blocks.drop_last(), nb) + zeros(2) + seq![nb] + blocks.last()
    }
}

proof fn lemma_name_blocks_nonempty(names: Seq<Seq<u8>>)
    ensures
        name_blocks(names).len() >= 1,
    decreases names.len(),
{
    if names.len() > 0 {
        lemma_name_blocks_nonempty(names.drop_last());
    }
}

proof fn lemma_dir_bytes_head(blocks: Seq<Seq<u8>>, nb: u8)
    requires
        blocks.len() >= 1,
    ensures
        dir_bytes(blocks, nb).len() >= 3,
        dir_bytes(blocks, nb)[0] == 0,
        dir_bytes(blocks, nb)[1] == 0,
        dir_bytes(blocks, nb)[2] == nb,
    decreases blocks.len(),
{
    let d = dir_bytes(blocks, nb);
    if blocks.len() == 1 {
        assert(dir_bytes(blocks.drop_last(), nb) =~= Seq::<u8>::empty());
        assert(zeros(2)[0] == 0);
        assert(zeros(2)[1] == 0);
        assert(d[0] == 0);
        assert(d[1] == 0);
        assert(d[2] == nb);
    } else {
        lemma_dir_bytes_head(blocks.drop_last(), nb);
        let pre = dir_bytes(blocks.drop_last(), nb);
        assert(d[0] == pre[0]);
        assert(d[1] == pre[1]);
        assert(d[2] == pre[2]);
    }
}

/// The layout is readable off the image: its third byte — the block-count
/// field — is zero exactly when the compact layout was chosen, and holds
/// the name-block count otherwise.
pub proof fn lemma_layout_marker(names: Seq<Seq<u8>>, contents: Seq<Seq<u8>>)
    requires
        name_blocks(names).len() <= 255,
    ensures
        spec_pack(names, contents).len() >= 3,
        compact_ok(name_blocks(names), names.len() as int) ==> spec_pack(names, contents)[2] == 0,
        !compact_ok(name_blocks(names), names.len() as int) ==> spec_pack(names, contents)[2]
            == name_blocks(names).len() as u8 && spec_pack(names, contents)[2] != 0,
{
    let blocks = name_blocks(names);
    let head = head_bytes(names, contents);
    lemma_name_blocks_nonempty(names);
    lemma_pad_block_aligned(head);
    if compact_ok(blocks, names.len() as int) {
        assert(head[2] == 0);
    } else {
        lemma_dir_bytes_head(blocks, blocks.len() as u8);
        let dir = dir_bytes(blocks, blocks.len() as u8);
        lemma_pad_block_aligned(dir);
        assert(head[2] == dir[2]);
    }
    assert(spec_pack(names, contents)[2] == head[2]);
}
pub open spec fn head_bytes(names: Seq<Seq<u8>>, contents: Seq<Seq<u8>>) -> Seq<u8> {
    let blocks = name_blocks(names);
    let pairs = spec_pairs(contents);
    if compact_ok(blocks, names.len() as int) {
        compact_head(blocks[0], pairs)
    } else {
        pad_block(dir_bytes(blocks, blocks.len() as u8)) + table_bytes(pairs)
    }
}

/// Byte image of the whole archive for the given files: the header region
/// padded to a block boundary, then the data blob.
pub open spec fn spec_pack(names: Seq<Seq<u8>>, contents: Seq<Seq<u8>>) -> Seq<u8> {
    pad_block(head_bytes(names, contents)) + blob_bytes(contents)
}

/// Where the data blob starts within the archive.
pub open spec fn spec_data_start(names: Seq<Seq<u8>>, contents: Seq<Seq<u8>>) -> int {
    pad_block(head_bytes(names, contents)).len() as int
}

/// The data blob always begins on a block boundary, in either layout.
pub proof fn lemma_blob_block_aligned(names: Seq<Seq<u8>>, contents: Seq<Seq<u8>>)
    ensures
        spec_data_start(names, contents) % (BLOCK as int) == 0,
        spec_pack(names, contents) == pad_block(head_bytes(names, contents)) + blob_bytes(
            contents,
        ),
        forall|i: int|
            0 <= i < blob_bytes(contents).len() ==> #[trigger] spec_pack(names, contents)[
                spec_data_start(names, contents) + i
            ] == blob_bytes(contents)[i],
{
    lemma_pad_block_aligned(head_bytes(names, contents));
}

/// Append the (offset, size) pairs with indexes in `start..end`, each as two
/// little-endian words.
fn emit_pairs(out: &mut Vec<u8>, pairs: &Vec<(u32, u32)>, start: usize, end: usize)
    requires
        start <= end <= old(out)@.len() + pairs@.len(),
        end <= pairs@.len(),
    ensures
        final(out)@ == old(out)@ + pairs_bytes(pairs@.subrange(start as int, end as int)),
{
    let mut j: usize = start;
    proof {
        assert(pairs@.subrange(start as int, start as int) =~= Seq::<(u32, u32)>::empty());
        assert(out@ =~= old(out)@ + pairs_bytes(pairs@.subrange(start as int, start as int)));
    }
    while j < end
        invariant
            start <= j <= end <= pairs@.len(),
            out@ == old(out)@ + pairs_bytes(pairs@.subrange(start as int, j as int)),
        decreases end - j,
    {
        let p = pairs[j];
        push_u32_le(out, p.0);
        push_u32_le(out, p.1);
        proof {
            let sub = pairs@.subrange(start as int, j + 1);
            assert(sub.drop_last() =~= pairs@.subrange(start as int, j as int));
            assert(sub.last() == pairs@[j as int]);
            assert(out@ =~= old(out)@ + pairs_bytes(sub));
        }
        j = j + 1;
    }
}

/// Decide the layout for the given name blocks and file count: true exactly
/// when the compact single-block form applies.
pub fn compact_layout(blocks: &Vec<Vec<u8>>, nfiles: usize) -> (r: bool)
    ensures
        r == compact_ok(blocks.deep_view(), nfiles as int),
{
    if blocks.len() != 1 {
        return false;
    }
    if nfiles > RECORD_MAX {
        return false;
    }
    let l = blocks[0].len();
    proof {
        assert(blocks.deep_view()[0] =~= blocks@[0]@);
    }
    if nfiles * 8 + 12 > BLOCK {
        false
    } else {
        l <= BLOCK - 12 - nfiles * 8
    }
}

/// Encode the named files as one archive byte buffer. Fails on the first
/// name longer than 255 bytes, before anything is built; otherwise the
/// result is exactly the archive image for these files.
#[verifier::rlimit(50)]
pub fn pack(names: &Vec<Vec<u8>>, contents: &Vec<Vec<u8>>) -> (r: Result<Vec<u8>, PacError>)
    requires
        names@.len() == contents@.len(),
        total_size(contents.deep_view()) <= u32::MAX,
        names_fit(names.deep_view()) ==> name_blocks(names.deep_view()).len() <= 255,
    ensures
        match r {
            Ok(out) => {
                &&& names_fit(names.deep_view())
                &&& out@ == spec_pack(names.deep_view(), contents.deep_view())
            },
            Err(e) => match e {
                PacError::OversizedName { index, len } => {
                    &&& 0 <= (index as int) < names.deep_view().len()
                    &&& names.deep_view()[index as int].len() == len
                    &&& len > 255
                    &&& forall|j: int|
                        0 <= j < index as int ==> #[trigger] names.deep_view()[j].len() <= 255
                },
                _ => false,
            },
        },
{
    let ghost gn = names.deep_view();
    let ghost gc = contents.deep_view();
    let blocks = match build_name_blocks(names) {
        Ok(b) => b,
        Err(e) => {
            return Err(e);
        },
    };
    let (blob, pairs) = build_data_layout(contents);
    proof {
        assert(pairs@ =~= spec_pairs(gc));
        assert(gn.len() == gc.len());
        assert(pairs@.len() == gn.len());
    }
    let nfiles = names.len();
    let mut out: Vec<u8> = Vec::new();
    if compact_layout(&blocks, nfiles) {
        let l0 = blocks[0].len();
        proof {
            assert(blocks.deep_view()[0] =~= blocks@[0]@);
        }
        push_u16_le(&mut out, (l0 + 4) as u16);
        out.push(0u8);
        out.extend_from_slice(blocks[0].as_slice());
        push_zeros(&mut out, 3);
        push_u16_le(&mut out, pairs.len() as u16);
        push_zeros(&mut out, 4);
        emit_pairs(&mut out, &pairs, 0, pairs.len());
        proof {
            assert(pairs@.subrange(0, pairs@.len() as int) =~= pairs@);
            assert(out@ =~= compact_head(name_blocks(gn)[0], spec_pairs(gc)));
            assert(out@ =~= head_bytes(gn, gc));
        }
    } else {
        let nb_usize = blocks.len();
        let nb = nb_usize as u8;
        let ghost gblocks = blocks.deep_view();
        let mut bi: usize = 0;
        proof {
            assert(out@ =~= dir_bytes(gblocks.take(0), nb));
        }
        while bi < blocks.len()
            invariant
                bi <= blocks@.len(),
                gblocks == blocks.deep_view(),
                gblocks.len() == blocks@.len(),
                out@ == dir_bytes(gblocks.take(bi as int), nb),
            decreases blocks@.len() - bi,
        {
            push_zeros(&mut out, 2);
            out.push(nb);
            out.extend_from_slice(blocks[bi].as_slice());
            proof {
                assert(blocks@[bi as int]@ =~= gblocks[bi as int]);
                let t = gblocks.take(bi + 1);
                assert(t.drop_last() =~= gblocks.take(bi as int));
                assert(t.last() == gblocks[bi as int]);
                assert(out@ =~= dir_bytes(t, nb));
            }
            bi = bi + 1;
        }
        proof {
            assert(gblocks.take(gblocks.len() as int) =~= gblocks);
        }
        let rem = out.len() % BLOCK;
        if rem != 0 {
            push_zeros(&mut out, BLOCK - rem);
        }
        proof {
            assert(out@ =~= pad_block(dir_bytes(gblocks, nb)));
        }
        let ghost base = out@;
        let mut start: usize = 0;
        proof {
            assert(pairs@.skip(0) =~= pairs@);
        }
        while pairs.len() - start > RECORD_MAX
            invariant
                start <= pairs@.len(),
                out@ + table_bytes(pairs@.skip(start as int)) == base + table_bytes(pairs@),
            decreases pairs@.len() - start,
        {
            push_zeros(&mut out, 2);
            out.push(0xFFu8);
            out.push(0xFFu8);
            push_zeros(&mut out, 4);
            emit_pairs(&mut out, &pairs, start, start + RECORD_MAX);
            proof {
                let rem0 = pairs@.skip(start as int);
                assert(rem0.take(RECORD_MAX as int) =~= pairs@.subrange(
                    start as int,
                    start + RECORD_MAX,
                ));
                assert(rem0.skip(RECORD_MAX as int) =~= pairs@.skip(start + RECORD_MAX));
                assert(record_header(RECORD_MAX as u16, false) =~= zeros(2) + seq![
                    0xFFu8,
                    0xFFu8,
                ] + zeros(4));
                assert(out@ + table_bytes(pairs@.skip(start + RECORD_MAX)) =~= base + table_bytes(
                    pairs@,
                ));
            }
            start = start + RECORD_MAX;
        }
        let count = pairs.len() - start;
        push_zeros(&mut out, 2);
        push_u16_le(&mut out, count as u16);
        push_zeros(&mut out, 4);
        emit_pairs(&mut out, &pairs, start, pairs.len());
        proof {
            let rem0 = pairs@.skip(start as int);
            assert(rem0 =~= pairs@.subrange(start as int, pairs@.len() as int));
            assert(out@ =~= base + table_bytes(pairs@));
            assert(out@ =~= head_bytes(gn, gc));
        }
    }
    let rem2 = out.len() % BLOCK;
    if rem2 != 0 {
        push_zeros(&mut out, BLOCK - rem2);
    }
    proof {
        assert(out@ =~= pad_block(head_bytes(gn, gc)));
    }
    out.extend_from_slice(blob.as_slice());
    proof {
        assert(out@ =~= spec_pack(gn, gc));
    }
    Ok(out)
}

} // verus!
