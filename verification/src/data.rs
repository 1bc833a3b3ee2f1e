//! The data blob and the per-file (offset, size) pairs of the size table.
//! File contents are packed contiguously, in manifest order, with no padding
//! between files; every offset is relative to the start of the blob.

use vstd::prelude::*;

verus! {

/// Total number of content bytes of all files.
pub open spec fn total_size(contents: Seq<Seq<u8>>) -> int
    decreases contents.len(),
{
    if contents.len() == 0 {
        0
    } else {
        total_size(contents.drop_last()) + contents.last().len()
    }
}

/// The data blob: all file contents concatenated in order.
pub open spec fn blob_bytes(contents: Seq<Seq<u8>>) -> Seq<u8>
    decreases contents.len(),
{
    if contents.len() == 0 {
        Seq::empty()
    } else {
        blob_bytes(contents.drop_last()) + contents.last()
    }
}

/// Offset of file `i` within the blob: the bytes of all files before it.
pub open spec fn offset_of(contents: Seq<Seq<u8>>, i: int) -> int {
    total_size(contents.take(i))
}

pub proof fn lemma_total_size_step(contents: Seq<Seq<u8>>, i: int)
    requires
        0 <= i < contents.len(),
    ensures
        total_size(contents.take(i + 1)) == total_size(contents.take(i)) + contents[i].len(),
        blob_bytes(contents.take(i + 1)) == blob_bytes(contents.take(i)) + contents[i],
{
    assert(contents.take(i + 1).drop_last() =~= contents.take(i));
    assert(contents.take(i + 1).last() == contents[i]);
}

pub proof fn lemma_total_size_nonneg(contents: Seq<Seq<u8>>)
    ensures
        total_size(contents) >= 0,
        blob_bytes(contents).len() == total_size(contents),
    decreases contents.len(),
{
    if contents.len() > 0 {
        lemma_total_size_nonneg(contents.drop_last());
    }
}

/// No prefix of the files holds more bytes than the whole set.
pub proof fn lemma_total_size_take(contents: Seq<Seq<u8>>, i: int)
    requires
        0 <= i <= contents.len(),
    ensures
        total_size(contents.take(i)) <= total_size(contents),
    decreases contents.len(),
{
    if i == contents.len() {
        assert(contents.take(i) =~= contents);
    } else {
        assert(contents.drop_last().take(i) =~= contents.take(i));
        lemma_total_size_take(contents.drop_last(), i);
    }
}

/// The blob of a prefix of the files is the corresponding prefix of the
/// whole blob.
pub proof fn lemma_blob_prefix(contents: Seq<Seq<u8>>, m: int)
    requires
        0 <= m <= contents.len(),
    ensures
        total_size(contents.take(m)) <= total_size(contents),
        blob_bytes(contents.take(m)) == blob_bytes(contents).subrange(
            0,
            total_size(contents.take(m)),
        ),
    decreases contents.len(),
{
    lemma_total_size_nonneg(contents);
    lemma_total_size_nonneg(contents.take(m));
    lemma_total_size_take(contents, m);
    if m == contents.len() {
        assert(contents.take(m) =~= contents);
        assert(blob_bytes(contents).subrange(0, total_size(contents)) =~= blob_bytes(contents));
    } else {
        assert(contents.drop_last().take(m) =~= contents.take(m));
        lemma_blob_prefix(contents.drop_last(), m);
        lemma_total_size_nonneg(contents.drop_last());
        let t = total_size(contents.take(m));
        lemma_total_size_take(contents.drop_last(), m);
        assert(blob_bytes(contents).subrange(0, t) =~= blob_bytes(contents.drop_last()).subrange(
            0,
            t,
        ));
    }
}

/// Each file's bytes sit in the blob at its offset, with its own length.
pub proof fn lemma_blob_slice(contents: Seq<Seq<u8>>, j: int)
    requires
        0 <= j < contents.len(),
    ensures
        offset_of(contents, j) >= 0,
        offset_of(contents, j) + contents[j].len() == total_size(contents.take(j + 1)),
        total_size(contents.take(j + 1)) <= total_size(contents),
        blob_bytes(contents).subrange(
            offset_of(contents, j),
            offset_of(contents, j) + contents[j].len(),
        ) == contents[j],
{
    lemma_total_size_step(contents, j);
    lemma_total_size_nonneg(contents.take(j as int));
    lemma_blob_prefix(contents, j);
    lemma_blob_prefix(contents, j + 1);
    let off = offset_of(contents, j);
    let hi = total_size(contents.take(j + 1));
    lemma_total_size_nonneg(contents.take(j + 1));
    lemma_total_size_nonneg(contents);
    assert(blob_bytes(contents.take(j + 1)) == blob_bytes(contents.take(j as int))
        + contents[j]);
    assert(contents[j] =~= blob_bytes(contents.take(j + 1)).subrange(off, hi));
    assert(blob_bytes(contents).subrange(0, hi).subrange(off, hi) =~= blob_bytes(
        contents,
    ).subrange(off, hi));
}

/// Lay the file contents out as one contiguous blob and record, for each
/// file, its offset within the blob and its size, in order.
pub fn build_data_layout(contents: &Vec<Vec<u8>>) -> (r: (Vec<u8>, Vec<(u32, u32)>))
    requires
        total_size(contents.deep_view()) <= u32::MAX,
    ensures
        r.0@ == blob_bytes(contents.deep_view()),
        r.1@.len() == contents.deep_view().len(),
        forall|i: int|
            0 <= i < contents.deep_view().len() ==> (#[trigger] r.1@[i]).0
                == offset_of(contents.deep_view(), i) && r.1@[i].1
                == contents.deep_view()[i].len(),
{
    let ghost cd = contents.deep_view();
    let mut blob: Vec<u8> = Vec::new();
    let mut pairs: Vec<(u32, u32)> = Vec::new();
    let mut i: usize = 0;
    proof {
        assert(blob@ =~= blob_bytes(cd.take(0)));
    }
    while i < contents.len()
        invariant
            i <= contents@.len(),
            cd == contents.deep_view(),
            cd.len() == contents@.len(),
            total_size(cd) <= u32::MAX,
            blob@ == blob_bytes(cd.take(i as int)),
            blob@.len() == total_size(cd.take(i as int)),
            pairs@.len() == i,
            forall|j: int|
                0 <= j < i ==> (#[trigger] pairs@[j]).0 == offset_of(cd, j) && pairs@[j].1
                    == cd[j].len(),
        decreases contents@.len() - i,
    {
        let item: &Vec<u8> = &contents[i];
        proof {
            assert(item@ =~= cd[i as int]);
            lemma_total_size_step(cd, i as int);
            lemma_total_size_take(cd, i + 1);
            lemma_total_size_nonneg(cd.take(i as int));
        }
        pairs.push((blob.len() as u32, item.len() as u32));
        blob.extend_from_slice(item.as_slice());
        i = i + 1;
    }
    proof {
        assert(cd.take(cd.len() as int) =~= cd);
    }
    (blob, pairs)
}

} // verus!
