//! Building the name directory of an archive: each filename becomes a
//! `(length, hash, raw bytes)` entry, and entries are grouped into fixed-size
//! blocks; a block is flushed and zero-padded as soon as the next entry would
//! no longer fit beside the three reserved header bytes, so an entry never
//! spans two blocks.

use vstd::prelude::*;

use crate::bytes::zeros;
use crate::error::PacError;
use crate::util::{xor_hash, xor_seq, BLOCK};

verus! {

/// Content capacity of one name block: the block size minus its three
/// reserved header bytes.
pub const BLOCK_CONTENT: usize = 0x1FD;

/// Directory entry stored for one filename: length byte, xor checksum, then
/// the raw name bytes.
pub open spec fn entry_bytes(name: Seq<u8>) -> Seq<u8> {
    seq![name.len() as u8, xor_seq(name)] + name
}

/// Contents of the name blocks that the given filenames fill, in order.
/// A new block begins exactly when the next entry, beside the three reserved
/// bytes, would reach the block size; the finished block is zero-padded to
/// its full content capacity.
pub open spec fn name_blocks(names: Seq<Seq<u8>>) -> Seq<Seq<u8>>
    decreases names.len(),
{
    if names.len() == 0 {
        seq![Seq::<u8>::empty()]
    } else {
        let prev = name_blocks(names.drop_last());
        let e = entry_bytes(names.last());
        let cur = prev.last();
        if 3 + cur.len() + e.len() >= BLOCK {
            prev.update(prev.len() - 1, cur + zeros(BLOCK_CONTENT - cur.len())).push(e)
        } else {
            prev.update(prev.len() - 1, cur + e)
        }
    }
}

/// Every name fits its one-byte length field.
pub open spec fn names_fit(names: Seq<Seq<u8>>) -> bool {
    forall|j: int| 0 <= j < names.len() ==> #[trigger] names[j].len() <= 255
}

/// Shape of the name directory: there is always at least one block, every
/// block but the last is zero-padded to its full content capacity, and the
/// last always has room left beside the reserved bytes — an entry is never
/// split across two blocks.
pub proof fn lemma_name_blocks_shape(names: Seq<Seq<u8>>)
    requires
        names_fit(names),
    ensures
        name_blocks(names).len() >= 1,
        forall|b: int|
            0 <= b < name_blocks(names).len() - 1 ==> #[trigger] name_blocks(names)[b].len()
                == BLOCK_CONTENT,
        name_blocks(names).last().len() <= BLOCK_CONTENT - 1,
    decreases names.len(),
{
    if names.len() > 0 {
        assert(names_fit(names.drop_last())) by {
            assert(forall|j: int|
                0 <= j < names.drop_last().len() ==> #[trigger] names.drop_last()[j].len()
                    == names[j].len());
        }
        lemma_name_blocks_shape(names.drop_last());
        let prev = name_blocks(names.drop_last());
        let e = entry_bytes(names.last());
        assert(names[names.len() - 1].len() <= 255);
        assert(e.len() == 2 + names.last().len());
        let cur = prev.last();
        if 3 + cur.len() + e.len() >= BLOCK {
            assert((cur + zeros(BLOCK_CONTENT - cur.len())).len() == BLOCK_CONTENT);
        }
    }
}

proof fn lemma_name_blocks_len_monotone(names: Seq<Seq<u8>>)
    requires
        names.len() >= 1,
    ensures
        name_blocks(names.drop_last()).len() <= name_blocks(names).len(),
        name_blocks(names).len() >= 1,
        name_blocks(names.drop_last()).len() >= 1,
    decreases names.len(),
{
    if names.len() > 1 {
        lemma_name_blocks_len_monotone(names.drop_last());
    }
}

/// When every name fits one block, the block's content is exactly the
/// entries of all the names, back to back.
pub proof fn lemma_single_block_content(names: Seq<Seq<u8>>)
    requires
        name_blocks(names).len() == 1,
    ensures
        name_blocks(names)[0] == crate::decode::cat_entries(names),
    decreases names.len(),
{
    if names.len() == 0 {
        assert(name_blocks(names)[0] =~= crate::decode::cat_entries(names));
    } else {
        lemma_name_blocks_len_monotone(names);
        let prev = name_blocks(names.drop_last());
        let e = entry_bytes(names.last());
        assert(prev.len() == 1);
        assert(3 + prev.last().len() + e.len() < BLOCK);
        lemma_single_block_content(names.drop_last());
        assert(name_blocks(names)[0] == prev[0] + e);
        assert(crate::decode::cat_entries(names) =~= crate::decode::cat_entries(
            names.drop_last(),
        ) + e) by {
            lemma_cat_entries_snoc(names);
        }
    }
}

proof fn lemma_cat_entries_snoc(names: Seq<Seq<u8>>)
    requires
        names.len() >= 1,
    ensures
        crate::decode::cat_entries(names) == crate::decode::cat_entries(names.drop_last())
            + entry_bytes(names.last()),
    decreases names.len(),
{
    if names.len() == 1 {
        assert(names.drop_first() =~= Seq::<Seq<u8>>::empty());
        assert(names.drop_last() =~= Seq::<Seq<u8>>::empty());
        assert(crate::decode::cat_entries(Seq::<Seq<u8>>::empty()) =~= Seq::<u8>::empty());
        assert(crate::decode::cat_entries(names) =~= entry_bytes(names.first()));
        assert(crate::decode::cat_entries(names.drop_last()) + entry_bytes(names.last())
            =~= entry_bytes(names.first()));
    } else {
        lemma_cat_entries_snoc(names.drop_first());
        assert(names.drop_first().drop_last() =~= names.drop_last().drop_first());
        assert(names.drop_first().last() == names.last());
        assert(names.drop_last().first() == names.first());
        assert(crate::decode::cat_entries(names.drop_last()) == entry_bytes(names.first())
            + crate::decode::cat_entries(names.drop_last().drop_first()));
        assert(entry_bytes(names.first()) + (crate::decode::cat_entries(
            names.drop_first().drop_last(),
        ) + entry_bytes(names.last())) =~= (entry_bytes(names.first())
            + crate::decode::cat_entries(names.drop_first().drop_last())) + entry_bytes(
            names.last(),
        ));
    }
}

/// Group the filenames into name blocks. Fails on the first name longer than
/// 255 bytes, before anything is built from the names after it.
pub fn build_name_blocks(names: &Vec<Vec<u8>>) -> (r: Result<Vec<Vec<u8>>, PacError>)
    ensures
        match r {
            Ok(blocks) => {
                &&& names_fit(names.deep_view())
                &&& blocks.deep_view() == name_blocks(names.deep_view())
            },
            Err(e) => match e {
                PacError::OversizedName { index, len } => {
                    &&& 0 <= (index as int) < names.deep_view().len()
                    &&& names.deep_view()[index as int].len() == len
                    &&& len > 255
                    &&& forall|j: int|
                        0 <= j < index as int ==> #[trigger] names.deep_view()[j].len() <= 255
                },
                _ => false,
            },
        },
{
    let ghost gnames = names.deep_view();
    let mut done: Vec<Vec<u8>> = Vec::new();
    let mut cur: Vec<u8> = Vec::new();
    let mut i: usize = 0;
    proof {
        assert(done.deep_view().push(cur@) =~= name_blocks(gnames.take(0)));
    }
    while i < names.len()
        invariant
            i <= names@.len(),
            gnames == names.deep_view(),
            gnames.len() == names@.len(),
            forall|j: int| 0 <= j < i ==> #[trigger] gnames[j].len() <= 255,
            done.deep_view().push(cur@) == name_blocks(gnames.take(i as int)),
            cur@.len() <= BLOCK_CONTENT - 1,
        decreases names@.len() - i,
    {
        let name: &Vec<u8> = &names[i];
        proof {
            assert(name@ =~= gnames[i as int]);
        }
        if name.len() > 255 {
            return Err(PacError::OversizedName { index: i, len: name.len() });
        }
        let mut entry: Vec<u8> = Vec::new();
        entry.push(name.len() as u8);
        entry.push(xor_hash(name.as_slice()));
        entry.extend_from_slice(name.as_slice());
        proof {
            assert(entry@ =~= entry_bytes(gnames[i as int]));
            assert(gnames.take(i + 1).drop_last() =~= gnames.take(i as int));
            assert(gnames.take(i + 1).last() == gnames[i as int]);
        }
        let ghost prev = name_blocks(gnames.take(i as int));
        let ghost old_done = done.deep_view();
        let ghost old_cur = cur@;
        if 3 + cur.len() + entry.len() >= BLOCK {
            let pad = BLOCK_CONTENT - cur.len();
            crate::bytes::push_zeros(&mut cur, pad);
            done.push(cur);
            cur = entry;
            proof {
                assert(prev.update(prev.len() - 1, old_cur + zeros(BLOCK_CONTENT - old_cur.len()))
                    =~= old_done.push(old_cur + zeros(BLOCK_CONTENT - old_cur.len())));
                assert(done.deep_view() =~~= old_done.push(
                    old_cur + zeros(BLOCK_CONTENT - old_cur.len()),
                ));
                assert(done.deep_view().push(cur@) =~= name_blocks(gnames.take(i + 1)));
            }
        } else {
            cur.append(&mut entry);
            proof {
                assert(cur@ =~= old_cur + entry_bytes(gnames[i as int]));
                assert(prev.update(prev.len() - 1, old_cur + entry_bytes(gnames[i as int]))
                    =~= old_done.push(old_cur + entry_bytes(gnames[i as int])));
                assert(done.deep_view().push(cur@) =~= name_blocks(gnames.take(i + 1)));
            }
        }
        i = i + 1;
    }
    proof {
        assert(gnames.take(gnames.len() as int) =~= gnames);
    }
    done.push(cur);
    proof {
        assert(done.deep_view() =~~= name_blocks(gnames));
    }
    Ok(done)
}

} // verus!
