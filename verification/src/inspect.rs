//! Inflating the slots of a logo image, and describing them.
use vstd::prelude::*;
use std::io::Read;
use crate::color::{all_modes, mode_name, ColorMode};
use crate::error::MtkError;
use crate::logo::{blobs_view, parse_image, LogoImage, LogoImageView};

verus! {

/// What inflating a zlib stream with `flate2` gives: the inflated bytes, or the error's message.
pub uninterp spec fn zlib_inflate(data: Seq<u8>) -> Result<Seq<u8>, Seq<char>>;

/// Calls `flate2::read::ZlibDecoder::read_to_end` on `data`.
/// Claimed: the result (the inflated bytes, or the message of the error) is
/// `zlib_inflate` of `data`. What the inflated bytes are is not stated.
#[verifier::external_body]
fn inflate(data: &[u8]) -> (r: Result<Vec<u8>, String>)
    ensures
        match r {
            Ok(v) => zlib_inflate(data@) == Ok::<Seq<u8>, Seq<char>>(v@),
            Err(e) => zlib_inflate(data@) == Err::<Seq<u8>, Seq<char>>(e@),
        },
{
    let mut out = Vec::new();
    match flate2::read::ZlibDecoder::new(data).read_to_end(&mut out) {
        Ok(_) => Ok(out),
        Err(e) => Err(e.to_string()),
    }
}

/// What a slot looks like: its index, its size, and its inflated size or why it does not inflate.
#[derive(Clone, Debug)]
pub struct LogoSlot {
    pub index: usize,
    pub raw_size: usize,
    pub inflated_size: Option<usize>,
    pub inflation_error: Option<String>,
}

/// A slot's description as a mathematical value.
pub struct LogoSlotView {
    pub index: usize,
    pub raw_size: usize,
    pub inflated_size: Option<usize>,
    pub inflation_error: Option<Seq<char>>,
}

impl View for LogoSlot {
    type V = LogoSlotView;

    open spec fn view(&self) -> LogoSlotView {
        LogoSlotView {
            index: self.index,
            raw_size: self.raw_size,
            inflated_size: self.inflated_size,
            inflation_error: match self.inflation_error {
                Some(e) => Some(e@),
                None => None,
            },
        }
    }
}

/// What a logo image looks like: its slots, its sizes, and the color modes there are.
#[derive(Clone, Debug)]
pub struct LogoInspection {
    pub slot_count: usize,
    pub header_size: u32,
    pub block_size: u32,
    pub slots: Vec<LogoSlot>,
    pub supported_modes: Vec<String>,
}

/// An inspection as a mathematical value.
pub struct LogoInspectionView {
    pub slot_count: usize,
    pub header_size: u32,
    pub block_size: u32,
    pub slots: Seq<LogoSlotView>,
    pub supported_modes: Seq<Seq<char>>,
}

impl View for LogoInspection {
    type V = LogoInspectionView;

    open spec fn view(&self) -> LogoInspectionView {
        LogoInspectionView {
            slot_count: self.slot_count,
            header_size: self.header_size,
            block_size: self.block_size,
            slots: self.slots@.map_values(|s: LogoSlot| s@),
            supported_modes: self.supported_modes@.map_values(|s: String| s@),
        }
    }
}

/// The description of slot `index`, holding `blob`.
pub open spec fn slot_description(index: int, blob: Seq<u8>) -> LogoSlotView {
    match zlib_inflate(blob) {
        Ok(inflated) => LogoSlotView {
            index: index as usize,
            raw_size: blob.len() as usize,
            inflated_size: Some(inflated.len() as usize),
            inflation_error: None,
        },
        Err(message) => LogoSlotView {
            index: index as usize,
            raw_size: blob.len() as usize,
            inflated_size: None,
            inflation_error: Some(message),
        },
    }
}

/// The description of a logo image.
pub open spec fn inspection_of(img: LogoImageView) -> LogoInspectionView {
    LogoInspectionView {
        slot_count: img.blobs.len() as usize,
        header_size: img.table.header.size,
        block_size: img.table.block_size,
        slots: Seq::new(img.blobs.len(), |i: int| slot_description(i, img.blobs[i])),
        supported_modes: all_modes().map_values(|m: ColorMode| mode_name(m)),
    }
}

/// Reads a logo image from `bytes` and describes it: each slot's size and
/// inflated size (or why it does not inflate), and the color modes there are.
pub fn inspect_logo(bytes: &[u8]) -> (r: Result<LogoInspection, MtkError>)
    ensures
        match r {
            Ok(ins) => parse_image(bytes@) matches Ok(img) && ins@ == inspection_of(img),
            Err(e) => parse_image(bytes@) == Err::<LogoImageView, MtkError>(e),
        },
{
    let image = LogoImage::read(bytes)?;
    let ghost bv = blobs_view(image.blobs@);
    let n = image.blobs.len();
    let mut slots: Vec<LogoSlot> = Vec::new();
    let mut index: usize = 0;
    while index < n
        invariant
            n == image.blobs@.len(),
            bv == blobs_view(image.blobs@),
            index <= n,
            slots@.len() == index,
            forall|j: int| 0 <= j < index ==> (#[trigger] slots@[j])@ == slot_description(j, bv[j]),
        decreases n - index,
    {
        let blob = image.blobs[index].as_slice();
        let slot = match inflate(blob) {
            Ok(inflated) => LogoSlot {
                index,
                raw_size: blob.len(),
                inflated_size: Some(inflated.len()),
                inflation_error: None,
            },
            Err(error) => LogoSlot { index, raw_size: blob.len(), inflated_size: None, inflation_error: Some(error) },
        };
        slots.push(slot);
        index = index + 1;
    }
    let modes = ColorMode::enumerate();
    let mut supported_modes: Vec<String> = Vec::new();
    let mut k: usize = 0;
    while k < modes.len()
        invariant
            modes@ == all_modes(),
            k <= modes@.len(),
            supported_modes@.len() == k,
            forall|j: int| 0 <= j < k ==> (#[trigger] supported_modes@[j])@ == mode_name(all_modes()[j]),
        decreases modes@.len() - k,
    {
        supported_modes.push(modes[k].name());
        k = k + 1;
    }
    let ins = LogoInspection {
        slot_count: n,
        header_size: image.table.header.size,
        block_size: image.table.block_size,
        slots,
        supported_modes,
    };
    assert(ins@.slots =~= inspection_of(image@).slots);
    assert(ins@.supported_modes =~= inspection_of(image@).supported_modes);
    Ok(ins)
}

/// The inflated size of each selected slot, as a `u32` (truncated), in slot
/// order; the first slot that does not inflate gives its message.
pub open spec fn inflated_sizes_upto(blobs: Seq<Seq<u8>>, selected: Option<Seq<usize>>, k: nat) -> Result<Seq<u32>, Seq<char>>
    decreases k,
{
    if k == 0 {
        Ok(Seq::empty())
    } else {
        match inflated_sizes_upto(blobs, selected, (k - 1) as nat) {
            Err(e) => Err(e),
            Ok(sizes) => {
                let chosen = match selected {
                    None => true,
                    Some(s) => s.contains((k - 1) as usize),
                };
                if !chosen {
                    Ok(sizes)
                } else {
                    match zlib_inflate(blobs[k - 1]) {
                        Err(e) => Err(e),
                        Ok(inflated) => Ok(sizes.push(inflated.len() as u32)),
                    }
                }
            }
        }
    }
}

proof fn lemma_inflated_err_persists(blobs: Seq<Seq<u8>>, selected: Option<Seq<usize>>, k1: nat, k2: nat)
    requires
        k1 <= k2,
        inflated_sizes_upto(blobs, selected, k1) is Err,
    ensures
        inflated_sizes_upto(blobs, selected, k2) == inflated_sizes_upto(blobs, selected, k1),
    decreases k2 - k1,
{
    if k1 < k2 {
        lemma_inflated_err_persists(blobs, selected, k1, (k2 - 1) as nat);
    }
}

fn contains_index(v: &Vec<usize>, x: usize) -> (r: bool)
    ensures
        r == v@.contains(x),
{
    let n = v.len();
    let mut i: usize = 0;
    while i < n
        invariant
            n == v@.len(),
            i <= n,
            forall|j: int| 0 <= j < i ==> v@[j] != x,
        decreases n - i,
    {
        if v[i] == x {
            return true;
        }
        i = i + 1;
    }
    false
}

/// The inflated sizes of the selected slots of `image` (all of them when
/// `slots` is `None`), in slot order, as `u32` (truncated); the message of
/// the first slot that does not inflate otherwise.
pub fn inflated_sizes(image: &LogoImage, slots: &Option<Vec<usize>>) -> (r: Result<Vec<u32>, String>)
    ensures
        ({
            let selected = match slots {
                Some(s) => Some(s@),
                None => None,
            };
            match r {
                Ok(v) => inflated_sizes_upto(blobs_view(image.blobs@), selected, image.blobs@.len() as nat)
                    == Ok::<Seq<u32>, Seq<char>>(v@),
                Err(e) => inflated_sizes_upto(blobs_view(image.blobs@), selected, image.blobs@.len() as nat)
                    == Err::<Seq<u32>, Seq<char>>(e@),
            }
        }),
{
    let ghost selected = match slots {
        Some(s) => Some(s@),
        None => None::<Seq<usize>>,
    };
    let ghost bv = blobs_view(image.blobs@);
    let n = image.blobs.len();
    let mut sizes: Vec<u32> = Vec::new();
    let mut id: usize = 0;
    while id < n
        invariant
            n == image.blobs@.len(),
            bv == blobs_view(image.blobs@),
            selected == match slots {
                Some(s) => Some(s@),
                None => None::<Seq<usize>>,
            },
            id <= n,
            inflated_sizes_upto(bv, selected, id as nat) == Ok::<Seq<u32>, Seq<char>>(sizes@),
        decreases n - id,
    {
        let chosen = match slots {
            None => true,
            Some(selected_slots) => contains_index(selected_slots, id),
        };
        if chosen {
            match inflate(image.blobs[id].as_slice()) {
                Ok(inflated) => {
                    #[verifier::truncate]
                    let size = inflated.len() as u32;
                    sizes.push(size);
                },
                Err(e) => {
                    proof {
                        lemma_inflated_err_persists(bv, selected, (id + 1) as nat, n as nat);
                    }
                    return Err(e);
                },
            }
        }
        id = id + 1;
    }
    Ok(sizes)
}

} // verus!
