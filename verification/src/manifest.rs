//! The manifest text that accompanies an unpacked archive: one filename per
//! line, newline-terminated, in directory order.

use vstd::prelude::*;

verus! {

/// Bytes of the manifest for the given names, in order, each line closed by
/// a newline.
pub open spec fn manifest_bytes(names: Seq<Seq<u8>>) -> Seq<u8>
    decreases names.len(),
{
    if names.len() == 0 {
        Seq::empty()
    } else {
        manifest_bytes(names.drop_last()) + names.last() + seq![0x0Au8]
    }
}

/// Write the manifest for the given names.
pub fn build_manifest(names: &Vec<Vec<u8>>) -> (r: Vec<u8>)
    ensures
        r@ == manifest_bytes(names.deep_view()),
{
    let ghost gn = names.deep_view();
    let mut out: Vec<u8> = Vec::new();
    let mut i: usize = 0;
    proof {
        assert(out@ =~= manifest_bytes(gn.take(0)));
    }
    while i < names.len()
        invariant
            i <= names@.len(),
            gn == names.deep_view(),
            gn.len() == names@.len(),
            out@ == manifest_bytes(gn.take(i as int)),
        decreases names@.len() - i,
    {
        out.extend_from_slice(names[i].as_slice());
        out.push(0x0Au8);
        proof {
            assert(names@[i as int]@ =~= gn[i as int]);
            let t = gn.take(i + 1);
            assert(t.drop_last() =~= gn.take(i as int));
            assert(t.last() == gn[i as int]);
            assert(out@ =~= manifest_bytes(t));
        }
        i = i + 1;
    }
    proof {
        assert(gn.take(gn.len() as int) =~= gn);
    }
    out
}

/// Position of the newline that ends the line starting at `i`, or the end of
/// the text when the final line is unterminated.
pub open spec fn line_end(s: Seq<u8>, i: int) -> int
    decreases s.len() - i,
{
    if i >= s.len() || i < 0 {
        i
    } else if s[i] == 0x0Au8 {
        i
    } else {
        line_end(s, i + 1)
    }
}

pub proof fn lemma_line_end_bounds(s: Seq<u8>, i: int)
    requires
        0 <= i <= s.len(),
    ensures
        i <= line_end(s, i) <= s.len(),
    decreases s.len() - i,
{
    if i < s.len() && s[i] != 0x0Au8 {
        lemma_line_end_bounds(s, i + 1);
    }
}

/// The names listed from position `i` on: one per line, a carriage return
/// before a newline stripped, the final line ending optional.
pub open spec fn spec_lines(s: Seq<u8>, i: int) -> Seq<Seq<u8>>
    decreases s.len() - i,
    via spec_lines_dec
{
    if i >= s.len() || i < 0 {
        Seq::empty()
    } else {
        let e = line_end(s, i);
        let raw = s.subrange(i, e);
        if e < s.len() {
            let l = if raw.len() > 0 && raw.last() == 0x0Du8 {
                raw.drop_last()
            } else {
                raw
            };
            seq![l] + spec_lines(s, e + 1)
        } else {
            seq![raw]
        }
    }
}

#[via_fn]
proof fn spec_lines_dec(s: Seq<u8>, i: int) {
    if 0 <= i < s.len() {
        lemma_line_end_bounds(s, i);
    }
}

proof fn lemma_line_end_at(s: Seq<u8>, i: int, j: int)
    requires
        0 <= i <= j <= s.len(),
        forall|k: int| i <= k < j ==> s[k] != 0x0Au8,
        j == s.len() || s[j] == 0x0Au8,
    ensures
        line_end(s, i) == j,
    decreases j - i,
{
    if i < j {
        lemma_line_end_at(s, i + 1, j);
    }
}

/// A one-line manifest round-trips: writing a single name and parsing the
/// text back yields that name again, as long as the name holds no newline
/// and does not end in a carriage return.
pub proof fn lemma_manifest_single_roundtrip(name: Seq<u8>)
    requires
        forall|k: int| 0 <= k < name.len() ==> name[k] != 0x0Au8,
        name.len() > 0 ==> name.last() != 0x0Du8,
    ensures
        spec_lines(manifest_bytes(seq![name]), 0) == seq![name],
{
    let s = manifest_bytes(seq![name]);
    assert(seq![name].drop_last() =~= Seq::<Seq<u8>>::empty());
    assert(seq![name].last() == name);
    assert(manifest_bytes(Seq::<Seq<u8>>::empty()) =~= Seq::<u8>::empty());
    assert(s =~= manifest_bytes(Seq::<Seq<u8>>::empty()) + name + seq![0x0Au8]);
    assert(s =~= name + seq![0x0Au8]);
    assert(forall|k: int| 0 <= k < name.len() ==> s[k] == name[k]);
    assert(s[name.len() as int] == 0x0Au8);
    lemma_line_end_at(s, 0, name.len() as int);
    let raw = s.subrange(0, name.len() as int);
    assert(raw =~= name);
    assert(spec_lines(s, name.len() as int + 1) =~= Seq::<Seq<u8>>::empty());
    assert(spec_lines(s, 0) =~= seq![raw] + spec_lines(s, name.len() as int + 1));
    assert(spec_lines(s, 0) =~= seq![name]);
}

/// Split a manifest text into the names it lists, one per line.
pub fn parse_manifest(text: &[u8]) -> (r: Vec<Vec<u8>>)
    ensures
        r.deep_view() == spec_lines(text@, 0),
{
    let ghost s = text@;
    let mut names: Vec<Vec<u8>> = Vec::new();
    let mut cur: Vec<u8> = Vec::new();
    let mut start: usize = 0;
    let mut pos: usize = 0;
    while pos < text.len()
        invariant
            0 <= start <= pos <= s.len(),
            s == text@,
            cur@ == s.subrange(start as int, pos as int),
            forall|k: int| start <= k < pos ==> s[k] != 0x0Au8,
            names.deep_view() + spec_lines(s, start as int) == spec_lines(s, 0),
        decreases s.len() - pos,
    {
        let b = text[pos];
        if b == 0x0Au8 {
            proof {
                lemma_line_end_at(s, start as int, pos as int);
            }
            if cur.len() > 0 && cur[cur.len() - 1] == 0x0Du8 {
                cur.pop();
            }
            names.push(cur);
            cur = Vec::new();
            proof {
                assert(cur@ =~= s.subrange(pos + 1, pos + 1));
                let raw = s.subrange(start as int, pos as int);
                let stripped = if raw.len() > 0 && raw.last() == 0x0Du8 {
                    raw.drop_last()
                } else {
                    raw
                };
                assert(names.deep_view() =~~= names.deep_view().drop_last().push(stripped));
                assert(names.deep_view() + spec_lines(s, pos + 1) =~~= names.deep_view()
                    .drop_last() + spec_lines(s, start as int));
            }
            start = pos + 1;
        } else {
            cur.push(b);
            proof {
                assert(cur@ =~= s.subrange(start as int, pos + 1));
            }
        }
        pos = pos + 1;
    }
    if cur.len() > 0 {
        proof {
            lemma_line_end_at(s, start as int, s.len() as int);
        }
        names.push(cur);
        proof {
            assert(names.deep_view() =~~= names.deep_view().drop_last().push(
                s.subrange(start as int, s.len() as int),
            ));
            assert(names.deep_view() =~~= names.deep_view().drop_last() + spec_lines(
                s,
                start as int,
            ));
        }
    } else {
        proof {
            assert(spec_lines(s, start as int) =~~= Seq::<Seq<u8>>::empty());
        }
    }
    proof {
        assert(names.deep_view() =~~= spec_lines(s, 0));
    }
    names
}

} // verus!
