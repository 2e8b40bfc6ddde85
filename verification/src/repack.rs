//! Repacking numbered slots into a logo image.
use vstd::prelude::*;
use crate::logo::{blobs_fit, blobs_view, image_bytes, layout_image, lemma_image_roundtrip, parse_image, total_len, LogoImage, LogoImageView};
use crate::error::MtkError;
use crate::order::{insert_by, lemma_insert_by_at, lemma_sort_by_sorted, sort_by_spec, sorted_by};

verus! {

/// Slot `a` goes before slot `b`: a smaller index.
pub open spec fn slot_before(a: (usize, Vec<u8>), b: (usize, Vec<u8>)) -> bool {
    a.0 < b.0
}

pub open spec fn by_slot_index() -> spec_fn((usize, Vec<u8>), (usize, Vec<u8>)) -> bool {
    |a: (usize, Vec<u8>), b: (usize, Vec<u8>)| slot_before(a, b)
}

/// The contents of the slots, in order.
pub open spec fn slot_blobs(s: Seq<(usize, Vec<u8>)>) -> Seq<Seq<u8>> {
    s.map_values(|x: (usize, Vec<u8>)| x.1@)
}

/// The slots sorted stably by index.
pub open spec fn sorted_slots(s: Seq<(usize, Vec<u8>)>) -> Seq<(usize, Vec<u8>)> {
    sort_by_spec(s, by_slot_index())
}

/// The bytes of the image made of the slots, sorted stably by index.
pub open spec fn repack_spec(s: Seq<(usize, Vec<u8>)>) -> Seq<u8> {
    image_bytes(layout_image(slot_blobs(sorted_slots(s))))
}

proof fn lemma_total_push(q: Seq<Seq<u8>>, e: Seq<u8>)
    ensures
        total_len(q.push(e)) == total_len(q) + e.len(),
{
    assert(q.push(e).drop_last() =~= q);
}

proof fn lemma_total_insert(s: Seq<(usize, Vec<u8>)>, x: (usize, Vec<u8>))
    ensures
        total_len(slot_blobs(insert_by(s, x, by_slot_index()))) == total_len(slot_blobs(s)) + x.1@.len(),
    decreases s.len(),
{
    if s.len() == 0 {
        assert(slot_blobs(seq![x]) =~= Seq::<Seq<u8>>::empty().push(x.1@));
        lemma_total_push(Seq::empty(), x.1@);
    } else if slot_before(x, s.last()) {
        lemma_total_insert(s.drop_last(), x);
        let r0 = insert_by(s.drop_last(), x, by_slot_index());
        assert(slot_blobs(r0.push(s.last())) =~= slot_blobs(r0).push(s.last().1@));
        lemma_total_push(slot_blobs(r0), s.last().1@);
        assert(slot_blobs(s) =~= slot_blobs(s.drop_last()).push(s.last().1@));
        lemma_total_push(slot_blobs(s.drop_last()), s.last().1@);
    } else {
        assert(slot_blobs(s.push(x)) =~= slot_blobs(s).push(x.1@));
        lemma_total_push(slot_blobs(s), x.1@);
    }
}

/// Sorting the slots keeps their total size.
pub proof fn lemma_sorted_slots_total(s: Seq<(usize, Vec<u8>)>)
    ensures
        total_len(slot_blobs(sorted_slots(s))) == total_len(slot_blobs(s)),
        sorted_slots(s).len() == s.len(),
    decreases s.len(),
{
    if s.len() > 0 {
        lemma_sorted_slots_total(s.drop_last());
        lemma_total_insert(sorted_slots(s.drop_last()), s.last());
        assert(slot_blobs(s) =~= slot_blobs(s.drop_last()).push(s.last().1@));
        lemma_total_push(slot_blobs(s.drop_last()), s.last().1@);
        crate::order::lemma_sort_by_multiset(s, by_slot_index());
    }
}

/// The slots sorted stably by index.
pub fn sort_slots(slots: Vec<(usize, Vec<u8>)>) -> (r: Vec<(usize, Vec<u8>)>)
    ensures
        r@ == sorted_slots(slots@),
{
    let ghost orig = slots@;
    let mut rest = slots;
    let mut out: Vec<(usize, Vec<u8>)> = Vec::new();
    let ghost mut i: int = 0;
    while rest.len() > 0
        invariant
            0 <= i <= orig.len(),
            rest@ == orig.skip(i),
            out@ == sorted_slots(orig.take(i)),
        decreases rest@.len(),
    {
        let x = rest.remove(0);
        let mut j = out.len();
        while j > 0 && x.0 < out[j - 1].0
            invariant
                j <= out@.len(),
                forall|k: int| j <= k < out@.len() ==> slot_before(x, #[trigger] out@[k]),
            decreases j,
        {
            j = j - 1;
        }
        proof {
            lemma_insert_by_at(out@, x, by_slot_index(), j as int);
            assert(x == orig[i]);
            assert(orig.take(i + 1).drop_last() =~= orig.take(i));
            assert(rest@ =~= orig.skip(i + 1));
        }
        out.insert(j, x);
        proof {
            i = i + 1;
        }
    }
    assert(orig.take(i) =~= orig);
    out
}

/// The bytes of the image made of the slots, sorted stably by index.
pub fn repack_slots(slots: Vec<(usize, Vec<u8>)>) -> (r: Vec<u8>)
    requires
        blobs_fit(slot_blobs(slots@)),
    ensures
        r@ == repack_spec(slots@),
{
    proof {
        lemma_sorted_slots_total(slots@);
    }
    let mut sorted = sort_slots(slots);
    let ghost ss = sorted@;
    let mut blobs: Vec<Vec<u8>> = Vec::new();
    let ghost mut i: int = 0;
    while sorted.len() > 0
        invariant
            0 <= i <= ss.len(),
            sorted@ == ss.skip(i),
            blobs_view(blobs@) == slot_blobs(ss.take(i)),
        decreases sorted@.len(),
    {
        let (_, blob) = sorted.remove(0);
        proof {
            assert(ss[i].1 == blob);
            assert(slot_blobs(ss.take(i + 1)) =~= slot_blobs(ss.take(i)).push(blob@));
        }
        let ghost before = blobs_view(blobs@);
        blobs.push(blob);
        assert(blobs_view(blobs@) =~= before.push(blob@));
        proof {
            i = i + 1;
            assert(sorted@ =~= ss.skip(i));
        }
    }
    assert(ss.take(i) =~= ss);
    let image = LogoImage::new_blobs(blobs);
    let mut out: Vec<u8> = Vec::new();
    image.write(&mut out);
    assert(out@ =~= repack_spec(slots@));
    out
}

/// Law: the repacked bytes read back as the image of the slots, sorted
/// stably by index: no slot has a greater index than a later one.
pub proof fn lemma_repack_roundtrip(s: Seq<(usize, Vec<u8>)>)
    requires
        blobs_fit(slot_blobs(s)),
    ensures
        parse_image(repack_spec(s)) == Ok::<LogoImageView, MtkError>(layout_image(slot_blobs(sorted_slots(s)))),
        forall|i: int, j: int| 0 <= i < j < sorted_slots(s).len() ==> (#[trigger] sorted_slots(s)[i]).0 <= (#[trigger] sorted_slots(s)[j]).0,
{
    lemma_sorted_slots_total(s);
    lemma_sort_by_sorted(s, by_slot_index());
    assert(sorted_by(sorted_slots(s), by_slot_index()));
    lemma_image_roundtrip(slot_blobs(sorted_slots(s)));
}

} // verus!
