//! Inference of a device profile from the inflated sizes of its slots.
//!
//! Each inflated size is explained by candidate formats (a color mode and
//! dimensions whose pixels fill exactly that many bytes), scored by how
//! common the dimensions are and how well they match an optional screen
//! hint. The profile takes the color mode with the best total score and,
//! for each slot, its best format in that mode.
use vstd::prelude::*;
use crate::color::{mode_name, spec_bytes_per_pixel, ColorMode, Endian};
use crate::config::{Format, FormatView, Profile, ProfileView, formats_view};
use crate::error::MtkError;
use crate::order::{insert_by, lemma_insert_by_at, lemma_sort_by_multiset, lemma_sort_by_sorted, sort_by_spec, sorted_by, strict_weak_order};

verus! {

/// The size of the screen the logo is meant for.
#[derive(Clone, Copy, Debug, PartialEq, Eq, Structural)]
pub struct ScreenHint {
    pub width: u32,
    pub height: u32,
}

/// Whether the screen hint only raises scores, or also rules out every
/// format that is not the screen's size.
#[derive(Clone, Copy, Debug, PartialEq, Eq, Structural)]
pub enum ScreenHintMode {
    Prefer,
    Strict,
}

/// Inferred dimensions of a slot's picture.
#[derive(Clone, Copy, Debug, PartialEq, Eq, Structural)]
pub struct InferredFormat {
    pub width: u32,
    pub height: u32,
}

/// One explanation of a slot: a color mode and dimensions.
#[derive(Clone, Copy, Debug, PartialEq, Eq, Structural)]
pub struct SlotInference {
    pub mode: ColorMode,
    pub format: InferredFormat,
}

/// An explanation of a slot with its score.
#[derive(Clone, Copy, Debug, PartialEq, Eq, Structural)]
pub struct ScoredInference {
    pub inference: SlotInference,
    pub score: u32,
}

/// The orientation that the large formats of a mode favour.
#[derive(Clone, Copy, Debug, PartialEq, Eq, Structural)]
pub enum Orientation {
    Portrait,
    Landscape,
}

// ---------------------------------------------------------------------------
// Scores.

/// The color modes, in the order in which they are tried.
pub open spec fn preferred_modes_spec() -> Seq<ColorMode> {
    seq![
        ColorMode::Bgra(Endian::Big),
        ColorMode::Bgra(Endian::Little),
        ColorMode::Rgba(Endian::Big),
        ColorMode::Rgba(Endian::Little),
        ColorMode::Rgb565(Endian::Little),
        ColorMode::Rgb565(Endian::Big),
    ]
}

/// How much a color mode is favoured.
pub open spec fn mode_bias_spec(m: ColorMode) -> u32 {
    match m {
        ColorMode::Bgra(Endian::Big) => 10,
        ColorMode::Bgra(Endian::Little) => 8,
        ColorMode::Rgba(Endian::Big) => 6,
        ColorMode::Rgba(Endian::Little) => 5,
        ColorMode::Rgb565(Endian::Little) => 2,
        ColorMode::Rgb565(Endian::Big) => 1,
    }
}

pub open spec fn portrait(width: int, height: int) -> bool {
    height >= width
}

pub open spec fn landscape(width: int, height: int) -> bool {
    width > height
}

pub open spec fn large_format(width: int, height: int) -> bool {
    width * height >= 1_000_000
}

/// Whether the dimensions are the hint's, either way round.
pub open spec fn matches_hint(width: int, height: int, hint: ScreenHint) -> bool {
    (width == hint.width && height == hint.height) || (width == hint.height && height == hint.width)
}

/// How much the screen hint favours the dimensions: 200 for the hint's size
/// either way round, 40 for a large format that shares the hint's width or
/// height, 25 for one that shares them the other way round, 0 otherwise.
pub open spec fn hint_bias_spec(width: int, height: int, hint: Option<ScreenHint>) -> u32 {
    match hint {
        None => 0,
        Some(s) => {
            if matches_hint(width, height, s) {
                200
            } else if large_format(width, height) && (width == s.width || height == s.height) {
                40
            } else if large_format(width, height) && (width == s.height || height == s.width) {
                25
            } else {
                0
            }
        }
    }
}

/// The known screen sizes with their base scores: (width, height, score).
pub open spec fn known_formats_spec() -> Seq<(u32, u32, u32)> {
    seq![
        (14u32, 16u32, 68u32), (42, 64, 72), (45, 64, 70), (45, 56, 71), (57, 64, 65),
        (120, 120, 74), (192, 120, 76), (24, 19, 62), (84, 121, 55), (108, 121, 55),
        (163, 29, 65), (163, 1, 80), (304, 27, 77), (304, 52, 50), (304, 1, 70),
        (720, 1280, 85), (720, 1440, 90), (720, 1600, 90), (1200, 1920, 88), (1080, 1920, 92),
        (1080, 2160, 94), (1080, 2280, 95), (1080, 2340, 95), (1080, 2400, 100), (1080, 2460, 94),
        (1536, 1500, 89), (1600, 1440, 96), (1920, 1200, 106), (1440, 2560, 90), (1440, 3040, 93),
        (1440, 3200, 93), (2160, 3840, 82),
    ]
}

/// Common screen widths.
pub open spec fn common_widths_spec() -> Seq<u32> {
    seq![720u32, 1080, 1200, 1440, 1600, 1920, 2160]
}

pub open spec fn scored(m: ColorMode, width: u32, height: u32, score: u32) -> ScoredInference {
    ScoredInference {
        inference: SlotInference { mode: m, format: InferredFormat { width, height } },
        score,
    }
}

/// The candidates that the screen hint itself gives: its size, and its size turned.
pub open spec fn hint_part(m: ColorMode, pixels: int, hint: Option<ScreenHint>) -> Seq<ScoredInference> {
    match hint {
        None => Seq::empty(),
        Some(s) => {
            let score = (150 + mode_bias_spec(m)) as u32;
            let straight = if s.width * s.height == pixels {
                seq![scored(m, s.width, s.height, score)]
            } else {
                Seq::empty()
            };
            let turned = if s.width != s.height && s.height * s.width == pixels {
                seq![scored(m, s.height, s.width, score)]
            } else {
                Seq::empty()
            };
            straight + turned
        }
    }
}

/// The candidates that the first `k` known sizes give.
pub open spec fn known_part(m: ColorMode, pixels: int, hint: Option<ScreenHint>, k: nat) -> Seq<ScoredInference>
    decreases k,
{
    if k == 0 {
        Seq::empty()
    } else {
        let (w, h, base) = known_formats_spec()[k - 1];
        let prev = known_part(m, pixels, hint, (k - 1) as nat);
        if w * h == pixels {
            prev.push(scored(m, w, h, (base + mode_bias_spec(m) + hint_bias_spec(w as int, h as int, hint)) as u32))
        } else {
            prev
        }
    }
}

/// The score of a common width: 40 for a portrait at most four times as
/// high as wide, 36 for a landscape at most four times as wide as high, 10
/// otherwise; plus the mode's and the hint's bias.
pub open spec fn width_score(m: ColorMode, w: int, h: int, hint: Option<ScreenHint>) -> u32 {
    let shape: int = if portrait(w, h) && h <= w * 4 {
        40
    } else if landscape(w, h) && w <= h * 4 {
        36
    } else {
        10
    };
    (shape + mode_bias_spec(m) + hint_bias_spec(w, h, hint)) as u32
}

/// The candidates that the first `k` common widths give.
pub open spec fn width_part(m: ColorMode, pixels: int, hint: Option<ScreenHint>, k: nat) -> Seq<ScoredInference>
    decreases k,
{
    if k == 0 {
        Seq::empty()
    } else {
        let w = common_widths_spec()[k - 1];
        let prev = width_part(m, pixels, hint, (k - 1) as nat);
        if pixels % (w as int) == 0 {
            prev.push(scored(m, w, (pixels / (w as int)) as u32, width_score(m, w as int, pixels / (w as int), hint)))
        } else {
            prev
        }
    }
}

/// The candidates of one color mode for a slot of `size` inflated bytes.
pub open spec fn mode_part(m: ColorMode, size: u32, hint: Option<ScreenHint>) -> Seq<ScoredInference> {
    if size % spec_bytes_per_pixel(m) != 0 {
        Seq::empty()
    } else {
        let pixels = (size / spec_bytes_per_pixel(m)) as int;
        hint_part(m, pixels, hint) + known_part(m, pixels, hint, 32) + width_part(m, pixels, hint, 7)
    }
}

/// The candidates of the first `k` preferred modes, in the order they are found.
pub open spec fn raw_candidates_upto(size: u32, hint: Option<ScreenHint>, k: nat) -> Seq<ScoredInference>
    decreases k,
{
    if k == 0 {
        Seq::empty()
    } else {
        raw_candidates_upto(size, hint, (k - 1) as nat) + mode_part(preferred_modes_spec()[k - 1], size, hint)
    }
}

pub open spec fn raw_candidates(size: u32, hint: Option<ScreenHint>) -> Seq<ScoredInference> {
    raw_candidates_upto(size, hint, 6)
}

// ---------------------------------------------------------------------------
// Scores, executable.

/// The color modes, in the order in which they are tried.
pub fn preferred_modes() -> (r: Vec<ColorMode>)
    ensures
        r@ == preferred_modes_spec(),
{
    let r = vec![
        ColorMode::Bgra(Endian::Big),
        ColorMode::Bgra(Endian::Little),
        ColorMode::Rgba(Endian::Big),
        ColorMode::Rgba(Endian::Little),
        ColorMode::Rgb565(Endian::Little),
        ColorMode::Rgb565(Endian::Big),
    ];
    assert(r@ =~= preferred_modes_spec());
    r
}

/// How much a color mode is favoured.
pub fn mode_bias(mode: &ColorMode) -> (r: u32)
    ensures
        r == mode_bias_spec(*mode),
{
    match mode {
        ColorMode::Bgra(Endian::Big) => 10,
        ColorMode::Bgra(Endian::Little) => 8,
        ColorMode::Rgba(Endian::Big) => 6,
        ColorMode::Rgba(Endian::Little) => 5,
        ColorMode::Rgb565(Endian::Little) => 2,
        ColorMode::Rgb565(Endian::Big) => 1,
    }
}

/// At least as high as wide.
pub fn is_portrait(width: u32, height: u32) -> (r: bool)
    ensures
        r == portrait(width as int, height as int),
{
    height >= width
}

/// Wider than high.
pub fn is_landscape(width: u32, height: u32) -> (r: bool)
    ensures
        r == landscape(width as int, height as int),
{
    width > height
}

/// At least a million pixels.
pub fn is_large_format(width: u32, height: u32) -> (r: bool)
    requires
        width * height <= u32::MAX,
    ensures
        r == large_format(width as int, height as int),
{
    width * height >= 1_000_000
}

/// How much the screen hint favours the dimensions (see `hint_bias_spec`).
pub fn screen_hint_bias(width: u32, height: u32, screen_hint: Option<ScreenHint>) -> (r: u32)
    requires
        screen_hint matches Some(s) && !matches_hint(width as int, height as int, s) ==> width * height
            <= u32::MAX,
    ensures
        r == hint_bias_spec(width as int, height as int, screen_hint),
{
    match screen_hint {
        Some(ScreenHint { width: screen_width, height: screen_height }) => {
            if (width == screen_width && height == screen_height) || (width == screen_height && height
                == screen_width) {
                200
            } else if is_large_format(width, height) && (width == screen_width || height == screen_height) {
                40
            } else if is_large_format(width, height) && (width == screen_height || height == screen_width) {
                25
            } else {
                0
            }
        },
        None => 0,
    }
}

fn known_formats() -> (r: Vec<(u32, u32, u32)>)
    ensures
        r@ == known_formats_spec(),
{
    let r = vec![
        (14u32, 16u32, 68u32), (42, 64, 72), (45, 64, 70), (45, 56, 71), (57, 64, 65),
        (120, 120, 74), (192, 120, 76), (24, 19, 62), (84, 121, 55), (108, 121, 55),
        (163, 29, 65), (163, 1, 80), (304, 27, 77), (304, 52, 50), (304, 1, 70),
        (720, 1280, 85), (720, 1440, 90), (720, 1600, 90), (1200, 1920, 88), (1080, 1920, 92),
        (1080, 2160, 94), (1080, 2280, 95), (1080, 2340, 95), (1080, 2400, 100), (1080, 2460, 94),
        (1536, 1500, 89), (1600, 1440, 96), (1920, 1200, 106), (1440, 2560, 90), (1440, 3040, 93),
        (1440, 3200, 93), (2160, 3840, 82),
    ];
    assert(r@ =~= known_formats_spec());
    r
}

fn common_widths() -> (r: Vec<u32>)
    ensures
        r@ == common_widths_spec(),
{
    let r = vec![720u32, 1080, 1200, 1440, 1600, 1920, 2160];
    assert(r@ =~= common_widths_spec());
    r
}

/// The product of two `u32`, as a `u64`.
fn product(a: u32, b: u32) -> (r: u64)
    ensures
        r == a * b,
{
    let x: u64 = a as u64;
    let y: u64 = b as u64;
    assert(x * y <= u64::MAX) by (nonlinear_arith)
        requires
            x <= u32::MAX,
            y <= u32::MAX,
    ;
    x * y
}

fn make_scored(m: ColorMode, width: u32, height: u32, score: u32) -> (r: ScoredInference)
    ensures
        r == scored(m, width, height, score),
{
    ScoredInference {
        inference: SlotInference { mode: m, format: InferredFormat { width, height } },
        score,
    }
}

/// Appends the candidates of one color mode for a slot of `size` inflated bytes.
fn push_mode_candidates(
    mode: ColorMode,
    size: u32,
    screen_hint: Option<ScreenHint>,
    out: &mut Vec<ScoredInference>,
)
    ensures
        final(out)@ == old(out)@ + mode_part(mode, size, screen_hint),
{
    let bpp = mode.bytes_per_pixel();
    if size % bpp != 0 {
        assert(mode_part(mode, size, screen_hint) =~= Seq::<ScoredInference>::empty());
        return;
    }
    let pixels = size / bpp;
    let bias = mode_bias(&mode);
    let ghost start = out@;
    if let Some(ScreenHint { width, height }) = screen_hint {
        if product(width, height) == pixels as u64 {
            out.push(make_scored(mode, width, height, 150 + bias));
        }
        if width != height && product(height, width) == pixels as u64 {
            out.push(make_scored(mode, height, width, 150 + bias));
        }
    }
    assert(out@ =~= start + hint_part(mode, pixels as int, screen_hint));
    let ghost after_hint = out@;
    let known = known_formats();
    let mut k: usize = 0;
    while k < known.len()
        invariant
            known@ == known_formats_spec(),
            k <= known@.len(),
            bias == mode_bias_spec(mode),
            out@ == after_hint + known_part(mode, pixels as int, screen_hint, k as nat),
        decreases known@.len() - k,
    {
        let (width, height, base_score) = known[k];
        assert(base_score <= 106 && width <= 2160) by {
            assert(known_formats_spec()[k as int] == (width, height, base_score));
        }
        if product(width, height) == pixels as u64 {
            let hint_bias = screen_hint_bias(width, height, screen_hint);
            out.push(make_scored(mode, width, height, base_score + bias + hint_bias));
        }
        k = k + 1;
    }
    let ghost after_known = out@;
    let widths = common_widths();
    let mut k: usize = 0;
    while k < widths.len()
        invariant
            widths@ == common_widths_spec(),
            k <= widths@.len(),
            bias == mode_bias_spec(mode),
            out@ == after_known + width_part(mode, pixels as int, screen_hint, k as nat),
        decreases widths@.len() - k,
    {
        let width = widths[k];
        assert(720 <= width <= 2160) by {
            assert(common_widths_spec()[k as int] == width);
        }
        if pixels % width == 0 {
            let height = pixels / width;
            assert(width * height == pixels) by (nonlinear_arith)
                requires
                    pixels % width == 0,
                    height == pixels / width,
                    width > 0,
            ;
            let shape: u32 = if is_portrait(width, height) && (height as u64) <= (width as u64) * 4 {
                40
            } else if is_landscape(width, height) && (width as u64) <= (height as u64) * 4 {
                36
            } else {
                10
            };
            let hint_bias = screen_hint_bias(width, height, screen_hint);
            out.push(make_scored(mode, width, height, shape + bias + hint_bias));
        }
        k = k + 1;
    }
}

/// Every candidate for a slot of `size` inflated bytes, in the order found.
fn raw_candidates_exec(size: u32, screen_hint: Option<ScreenHint>) -> (r: Vec<ScoredInference>)
    ensures
        r@ == raw_candidates(size, screen_hint),
{
    let modes = preferred_modes();
    let mut out: Vec<ScoredInference> = Vec::new();
    let mut k: usize = 0;
    while k < modes.len()
        invariant
            modes@ == preferred_modes_spec(),
            k <= modes@.len(),
            out@ == raw_candidates_upto(size, screen_hint, k as nat),
        decreases modes@.len() - k,
    {
        push_mode_candidates(modes[k], size, screen_hint, &mut out);
        k = k + 1;
    }
    out
}

// ---------------------------------------------------------------------------
// Ranking the candidates of a slot.

/// `a` ranks ahead of `b`: a higher score, then a greater height, then a greater width.
pub open spec fn candidate_before(a: ScoredInference, b: ScoredInference) -> bool {
    ||| a.score > b.score
    ||| a.score == b.score && a.inference.format.height > b.inference.format.height
    ||| a.score == b.score && a.inference.format.height == b.inference.format.height
        && a.inference.format.width > b.inference.format.width
}

pub open spec fn by_candidate() -> spec_fn(ScoredInference, ScoredInference) -> bool {
    |a: ScoredInference, b: ScoredInference| candidate_before(a, b)
}

/// Drops each candidate whose explanation (mode and format) is the same as the one just before it.
pub open spec fn dedup_candidates(s: Seq<ScoredInference>) -> Seq<ScoredInference>
    decreases s.len(),
{
    if s.len() == 0 {
        s
    } else {
        let d = dedup_candidates(s.drop_last());
        if s.len() >= 2 && s[s.len() - 1].inference == s[s.len() - 2].inference {
            d
        } else {
            d.push(s.last())
        }
    }
}

/// Keeps the candidates whose format is the hint's size, either way round.
pub open spec fn keep_hint_matches(s: Seq<ScoredInference>, hint: Option<ScreenHint>) -> Seq<ScoredInference>
    decreases s.len(),
{
    if s.len() == 0 {
        s
    } else {
        let k = keep_hint_matches(s.drop_last(), hint);
        let f = s.last().inference.format;
        if hint_bias_spec(f.width as int, f.height as int, hint) >= 160 {
            k.push(s.last())
        } else {
            k
        }
    }
}

/// The candidates of a slot of `size` inflated bytes, best first: every
/// candidate, sorted stably, without a repeat of the explanation just
/// before it, and in strict mode only those of the hint's size.
pub open spec fn scored_candidates_spec(size: u32, hint: Option<ScreenHint>, mode: ScreenHintMode) -> Seq<ScoredInference> {
    let d = dedup_candidates(sort_by_spec(raw_candidates(size, hint), by_candidate()));
    if mode == ScreenHintMode::Strict {
        keep_hint_matches(d, hint)
    } else {
        d
    }
}

/// The screen hint's own size is multiplied only where some mode divides the size
/// (every mode has an even number of bytes per pixel); it must then stay a `u32`.
pub open spec fn hint_in_range(size: u32, hint: Option<ScreenHint>) -> bool {
    hint matches Some(s) ==> (s.width * s.height <= u32::MAX || size % 2 != 0)
}

/// The candidate's pixels fill exactly `size` bytes in its color mode.
pub open spec fn explains(c: ScoredInference, size: u32) -> bool {
    let bpp = spec_bytes_per_pixel(c.inference.mode);
    &&& size % bpp == 0
    &&& c.inference.format.width * c.inference.format.height == size / bpp
}

/// Every candidate explains the size.
pub open spec fn all_explain(s: Seq<ScoredInference>, size: u32) -> bool {
    forall|i: int| 0 <= i < s.len() ==> explains(#[trigger] s[i], size)
}

proof fn lemma_candidate_order()
    ensures
        strict_weak_order(by_candidate()),
{
}

proof fn lemma_known_part_explains(m: ColorMode, size: u32, hint: Option<ScreenHint>, k: nat)
    requires
        size % spec_bytes_per_pixel(m) == 0,
        k <= 32,
    ensures
        all_explain(known_part(m, (size / spec_bytes_per_pixel(m)) as int, hint, k), size),
        forall|i: int| 0 <= i < known_part(m, (size / spec_bytes_per_pixel(m)) as int, hint, k).len()
            ==> (#[trigger] known_part(m, (size / spec_bytes_per_pixel(m)) as int, hint, k)[i]).inference.mode == m,
    decreases k,
{
    if k > 0 {
        lemma_known_part_explains(m, size, hint, (k - 1) as nat);
    }
}

proof fn lemma_width_part_explains(m: ColorMode, size: u32, hint: Option<ScreenHint>, k: nat)
    requires
        size % spec_bytes_per_pixel(m) == 0,
        k <= 7,
    ensures
        all_explain(width_part(m, (size / spec_bytes_per_pixel(m)) as int, hint, k), size),
        forall|i: int| 0 <= i < width_part(m, (size / spec_bytes_per_pixel(m)) as int, hint, k).len()
            ==> (#[trigger] width_part(m, (size / spec_bytes_per_pixel(m)) as int, hint, k)[i]).inference.mode == m,
    decreases k,
{
    if k > 0 {
        lemma_width_part_explains(m, size, hint, (k - 1) as nat);
        let p = (size / spec_bytes_per_pixel(m)) as int;
        let w = common_widths_spec()[k - 1] as int;
        assert(w > 0);
        if p % w == 0 {
            assert(w * (p / w) == p) by (nonlinear_arith)
                requires
                    w > 0,
                    p % w == 0,
            ;
            assert(0 <= p / w <= p) by (nonlinear_arith)
                requires
                    w > 0,
                    p >= 0,
            ;
        }
    }
}

proof fn lemma_mode_part_explains(m: ColorMode, size: u32, hint: Option<ScreenHint>)
    ensures
        all_explain(mode_part(m, size, hint), size),
{
    if size % spec_bytes_per_pixel(m) == 0 {
        let p = (size / spec_bytes_per_pixel(m)) as int;
        lemma_known_part_explains(m, size, hint, 32);
        lemma_width_part_explains(m, size, hint, 7);
        let h = hint_part(m, p, hint);
        assert(all_explain(h, size)) by {
            if let Some(s) = hint {
                assert(s.height * s.width == s.width * s.height) by (nonlinear_arith);
            }
        }
        let a = h + known_part(m, p, hint, 32);
        assert(all_explain(a, size)) by {
            assert forall|i: int| 0 <= i < a.len() implies explains(#[trigger] a[i], size) by {
                if i >= h.len() {
                    assert(a[i] == known_part(m, p, hint, 32)[i - h.len()]);
                }
            }
        }
        let b = a + width_part(m, p, hint, 7);
        assert forall|i: int| 0 <= i < b.len() implies explains(#[trigger] b[i], size) by {
            if i >= a.len() {
                assert(b[i] == width_part(m, p, hint, 7)[i - a.len()]);
            }
        }
    }
}

/// Every candidate found for a size explains it.
pub proof fn lemma_raw_candidates_explain(size: u32, hint: Option<ScreenHint>, k: nat)
    requires
        k <= 6,
    ensures
        all_explain(raw_candidates_upto(size, hint, k), size),
    decreases k,
{
    if k > 0 {
        lemma_raw_candidates_explain(size, hint, (k - 1) as nat);
        let a = raw_candidates_upto(size, hint, (k - 1) as nat);
        let mp = mode_part(preferred_modes_spec()[k - 1], size, hint);
        lemma_mode_part_explains(preferred_modes_spec()[k - 1], size, hint);
        let b = a + mp;
        assert forall|i: int| 0 <= i < b.len() implies explains(#[trigger] b[i], size) by {
            if i >= a.len() {
                assert(b[i] == mp[i - a.len()]);
            }
        }
    }
}

/// An element of the deduplicated sequence is an element of the sequence.
proof fn lemma_dedup_subset(s: Seq<ScoredInference>)
    ensures
        forall|i: int| 0 <= i < dedup_candidates(s).len() ==> s.contains(#[trigger] dedup_candidates(s)[i]),
    decreases s.len(),
{
    if s.len() > 0 {
        lemma_dedup_subset(s.drop_last());
        let d = dedup_candidates(s.drop_last());
        assert forall|i: int| 0 <= i < dedup_candidates(s).len() implies s.contains(#[trigger] dedup_candidates(s)[i]) by {
            if i < d.len() {
                let e = d[i];
                assert(s.drop_last().contains(e));
                let k = choose|k: int| 0 <= k < s.drop_last().len() && s.drop_last()[k] == e;
                assert(s[k] == e);
            } else {
                assert(s[s.len() - 1] == s.last());
            }
        }
    }
}

/// An element kept for the hint is an element of the sequence, and matches the hint.
proof fn lemma_keep_subset(s: Seq<ScoredInference>, hint: Option<ScreenHint>)
    ensures
        forall|i: int| 0 <= i < keep_hint_matches(s, hint).len() ==> s.contains(#[trigger] keep_hint_matches(s, hint)[i]),
        forall|i: int| 0 <= i < keep_hint_matches(s, hint).len() ==> hint_bias_spec(
            (#[trigger] keep_hint_matches(s, hint)[i]).inference.format.width as int,
            keep_hint_matches(s, hint)[i].inference.format.height as int,
            hint,
        ) >= 160,
    decreases s.len(),
{
    if s.len() > 0 {
        lemma_keep_subset(s.drop_last(), hint);
        let d = keep_hint_matches(s.drop_last(), hint);
        assert forall|i: int| 0 <= i < keep_hint_matches(s, hint).len() implies s.contains(#[trigger] keep_hint_matches(s, hint)[i]) by {
            if i < d.len() {
                let e = d[i];
                assert(s.drop_last().contains(e));
                let k = choose|k: int| 0 <= k < s.drop_last().len() && s.drop_last()[k] == e;
                assert(s[k] == e);
            } else {
                assert(s[s.len() - 1] == s.last());
            }
        }
    }
}

/// Every element of a subsequence-like result explains the size when every element of the source does.
proof fn lemma_contains_explain(s: Seq<ScoredInference>, r: Seq<ScoredInference>, size: u32)
    requires
        all_explain(s, size),
        forall|i: int| 0 <= i < r.len() ==> s.contains(#[trigger] r[i]),
    ensures
        all_explain(r, size),
{
    assert forall|i: int| 0 <= i < r.len() implies explains(#[trigger] r[i], size) by {
        assert(s.contains(r[i]));
        let k = choose|k: int| 0 <= k < s.len() && s[k] == r[i];
        assert(explains(s[k], size));
    }
}

/// Law: every candidate of a slot explains its size: its pixels fill exactly
/// the slot's inflated bytes in its color mode.
pub proof fn lemma_scored_candidates_explain(size: u32, hint: Option<ScreenHint>, mode: ScreenHintMode)
    ensures
        all_explain(scored_candidates_spec(size, hint, mode), size),
{
    broadcast use vstd::seq_lib::group_to_multiset_ensures;

    let raw = raw_candidates(size, hint);
    lemma_raw_candidates_explain(size, hint, 6);
    let sorted = sort_by_spec(raw, by_candidate());
    lemma_sort_by_multiset(raw, by_candidate());
    assert forall|i: int| 0 <= i < sorted.len() implies raw.contains(#[trigger] sorted[i]) by {
        assert(sorted.contains(sorted[i]));
        assert(sorted.to_multiset().count(sorted[i]) > 0);
    }
    lemma_contains_explain(raw, sorted, size);
    let d = dedup_candidates(sorted);
    lemma_dedup_subset(sorted);
    lemma_contains_explain(sorted, d, size);
    if mode == ScreenHintMode::Strict {
        lemma_keep_subset(d, hint);
        lemma_contains_explain(d, keep_hint_matches(d, hint), size);
    }
}

proof fn lemma_dedup_sorted(s: Seq<ScoredInference>)
    requires
        sorted_by(s, by_candidate()),
    ensures
        sorted_by(dedup_candidates(s), by_candidate()),
    decreases s.len(),
{
    if s.len() > 0 {
        let dl = s.drop_last();
        assert(sorted_by(dl, by_candidate()));
        lemma_dedup_sorted(dl);
        lemma_dedup_subset(dl);
        let d = dedup_candidates(dl);
        let r = d.push(s.last());
        assert forall|i: int, j: int| 0 <= i < j < r.len() implies !candidate_before(#[trigger] r[j], #[trigger] r[i]) by {
            if j < d.len() {
                assert(r[j] == d[j] && r[i] == d[i]);
                assert(!by_candidate()(d[j], d[i]));
            } else {
                assert(dl.contains(d[i]));
                let k = choose|k: int| 0 <= k < dl.len() && dl[k] == d[i];
                assert(!by_candidate()(s[s.len() - 1], s[k]));
            }
        }
    }
}

proof fn lemma_keep_sorted(s: Seq<ScoredInference>, hint: Option<ScreenHint>)
    requires
        sorted_by(s, by_candidate()),
    ensures
        sorted_by(keep_hint_matches(s, hint), by_candidate()),
    decreases s.len(),
{
    if s.len() > 0 {
        let dl = s.drop_last();
        assert(sorted_by(dl, by_candidate()));
        lemma_keep_sorted(dl, hint);
        lemma_keep_subset(dl, hint);
        let d = keep_hint_matches(dl, hint);
        let r = d.push(s.last());
        assert forall|i: int, j: int| 0 <= i < j < r.len() implies !candidate_before(#[trigger] r[j], #[trigger] r[i]) by {
            if j < d.len() {
                assert(r[j] == d[j] && r[i] == d[i]);
                assert(!by_candidate()(d[j], d[i]));
            } else {
                assert(dl.contains(d[i]));
                let k = choose|k: int| 0 <= k < dl.len() && dl[k] == d[i];
                assert(!by_candidate()(s[s.len() - 1], s[k]));
            }
        }
    }
}

/// Law: the candidates of a slot come best first: no candidate ranks ahead of
/// an earlier one (higher score, then greater height, then greater width).
pub proof fn lemma_scored_candidates_sorted(size: u32, hint: Option<ScreenHint>, mode: ScreenHintMode)
    ensures
        sorted_by(scored_candidates_spec(size, hint, mode), by_candidate()),
{
    let sorted = sort_by_spec(raw_candidates(size, hint), by_candidate());
    lemma_candidate_order();
    lemma_sort_by_sorted(raw_candidates(size, hint), by_candidate());
    lemma_dedup_sorted(sorted);
    if mode == ScreenHintMode::Strict {
        lemma_keep_sorted(dedup_candidates(sorted), hint);
    }
}

/// The last candidate kept by `dedup_candidates` has the explanation of the last one given.
proof fn lemma_dedup_last(s: Seq<ScoredInference>)
    requires
        s.len() > 0,
    ensures
        dedup_candidates(s).len() > 0,
        dedup_candidates(s).last().inference == s.last().inference,
    decreases s.len(),
{
    if s.len() >= 2 && s[s.len() - 1].inference == s[s.len() - 2].inference {
        lemma_dedup_last(s.drop_last());
    }
}

/// No two neighbours kept by `dedup_candidates` have the same explanation.
proof fn lemma_dedup_distinct_neighbours(s: Seq<ScoredInference>)
    ensures
        forall|i: int| 0 <= i < dedup_candidates(s).len() - 1 ==> (#[trigger] dedup_candidates(s)[i]).inference
            != dedup_candidates(s)[i + 1].inference,
    decreases s.len(),
{
    if s.len() > 0 {
        lemma_dedup_distinct_neighbours(s.drop_last());
        if s.len() >= 2 && !(s[s.len() - 1].inference == s[s.len() - 2].inference) {
            lemma_dedup_last(s.drop_last());
        }
    }
}

/// Law: in prefer mode no two neighbouring candidates of a slot have the same
/// explanation (mode and format).
pub proof fn lemma_prefer_candidates_distinct_neighbours(size: u32, hint: Option<ScreenHint>)
    ensures
        forall|i: int| 0 <= i < scored_candidates_spec(size, hint, ScreenHintMode::Prefer).len() - 1
            ==> (#[trigger] scored_candidates_spec(size, hint, ScreenHintMode::Prefer)[i]).inference
            != scored_candidates_spec(size, hint, ScreenHintMode::Prefer)[i + 1].inference,
{
    lemma_dedup_distinct_neighbours(sort_by_spec(raw_candidates(size, hint), by_candidate()));
}

/// Some candidate of `s` has the explanation `inf`.
pub open spec fn has_explanation(s: Seq<ScoredInference>, inf: SlotInference) -> bool {
    exists|k: int| 0 <= k < s.len() && (#[trigger] s[k]).inference == inf
}

/// `dedup_candidates` keeps every explanation that it is given.
proof fn lemma_dedup_keeps_explanations(s: Seq<ScoredInference>)
    ensures
        forall|i: int| 0 <= i < s.len() ==> has_explanation(dedup_candidates(s), (#[trigger] s[i]).inference),
    decreases s.len(),
{
    if s.len() > 0 {
        let t = s.drop_last();
        let d = dedup_candidates(t);
        lemma_dedup_keeps_explanations(t);
        assert forall|i: int| 0 <= i < s.len() implies has_explanation(dedup_candidates(s), (#[trigger] s[i]).inference) by {
            if s.len() >= 2 && s[s.len() - 1].inference == s[s.len() - 2].inference {
                if i == s.len() - 1 {
                    assert(t[s.len() - 2] == s[s.len() - 2]);
                    assert(has_explanation(d, t[s.len() - 2].inference));
                } else {
                    assert(t[i] == s[i]);
                    assert(has_explanation(d, t[i].inference));
                }
            } else {
                let e = d.push(s.last());
                if i == s.len() - 1 {
                    assert(e[d.len() as int].inference == s[i].inference);
                } else {
                    assert(t[i] == s[i]);
                    assert(has_explanation(d, t[i].inference));
                    let k = choose|k: int| 0 <= k < d.len() && (#[trigger] d[k]).inference == t[i].inference;
                    assert(e[k] == d[k]);
                }
            }
        }
    }
}

/// Law: in prefer mode the candidates of a slot keep the explanation of
/// every candidate that was found for it.
pub proof fn lemma_prefer_candidates_complete(size: u32, hint: Option<ScreenHint>, c: ScoredInference)
    requires
        raw_candidates(size, hint).contains(c),
    ensures
        has_explanation(scored_candidates_spec(size, hint, ScreenHintMode::Prefer), c.inference),
{
    broadcast use vstd::seq_lib::group_to_multiset_ensures;

    let raw = raw_candidates(size, hint);
    let sorted = sort_by_spec(raw, by_candidate());
    lemma_sort_by_multiset(raw, by_candidate());
    assert(raw.to_multiset().count(c) > 0);
    assert(sorted.contains(c));
    let i = choose|i: int| 0 <= i < sorted.len() && sorted[i] == c;
    lemma_dedup_keeps_explanations(sorted);
    assert(has_explanation(dedup_candidates(sorted), sorted[i].inference));
}

/// Each candidate of the first `k` common widths is among those of all of them.
proof fn lemma_width_part_contains(m: ColorMode, pixels: int, hint: Option<ScreenHint>, k: nat, i: int)
    requires
        0 <= i < k <= 7,
        pixels >= 0,
        pixels % (common_widths_spec()[i] as int) == 0,
    ensures
        width_part(m, pixels, hint, k).contains(
            scored(
                m,
                common_widths_spec()[i],
                (pixels / (common_widths_spec()[i] as int)) as u32,
                width_score(m, common_widths_spec()[i] as int, pixels / (common_widths_spec()[i] as int), hint),
            ),
        ),
    decreases k,
{
    let w = common_widths_spec()[i];
    let x = scored(m, w, (pixels / (w as int)) as u32, width_score(m, w as int, pixels / (w as int), hint));
    let prev = width_part(m, pixels, hint, (k - 1) as nat);
    if i == k - 1 {
        assert(width_part(m, pixels, hint, k) == prev.push(x));
        assert(prev.push(x)[prev.len() as int] == x);
    } else {
        lemma_width_part_contains(m, pixels, hint, (k - 1) as nat, i);
        let j = choose|j: int| 0 <= j < prev.len() && prev[j] == x;
        let kw = common_widths_spec()[k - 1];
        if pixels % (kw as int) == 0 {
            let y = scored(m, kw, (pixels / (kw as int)) as u32, width_score(m, kw as int, pixels / (kw as int), hint));
            assert(prev.push(y)[j] == x);
        }
    }
}

/// Each candidate of the first `k` preferred modes is among those of all of them.
proof fn lemma_raw_upto_contains(size: u32, hint: Option<ScreenHint>, k: nat, j: int, x: ScoredInference)
    requires
        0 <= j < k <= 6,
        mode_part(preferred_modes_spec()[j], size, hint).contains(x),
    ensures
        raw_candidates_upto(size, hint, k).contains(x),
    decreases k,
{
    let prev = raw_candidates_upto(size, hint, (k - 1) as nat);
    let part = mode_part(preferred_modes_spec()[k - 1], size, hint);
    if j == k - 1 {
        let i = choose|i: int| 0 <= i < part.len() && part[i] == x;
        assert((prev + part)[prev.len() + i] == x);
    } else {
        lemma_raw_upto_contains(size, hint, (k - 1) as nat, j, x);
        let i = choose|i: int| 0 <= i < prev.len() && prev[i] == x;
        assert((prev + part)[i] == x);
    }
}

/// Law: in prefer mode, where the `j`-th preferred mode divides a slot into
/// `pixels` pixels and the `i`-th common width divides those, some candidate
/// explains the slot as that mode and that width, `pixels / width` high.
pub proof fn lemma_prefer_candidates_cover_common_widths(size: u32, hint: Option<ScreenHint>, j: int, i: int)
    requires
        0 <= j < 6,
        0 <= i < 7,
        size % spec_bytes_per_pixel(preferred_modes_spec()[j]) == 0,
        (size / spec_bytes_per_pixel(preferred_modes_spec()[j])) % common_widths_spec()[i] == 0,
    ensures
        has_explanation(
            scored_candidates_spec(size, hint, ScreenHintMode::Prefer),
            SlotInference {
                mode: preferred_modes_spec()[j],
                format: InferredFormat {
                    width: common_widths_spec()[i],
                    height: ((size / spec_bytes_per_pixel(preferred_modes_spec()[j])) / common_widths_spec()[i]) as u32,
                },
            },
        ),
{
    let m = preferred_modes_spec()[j];
    let pixels = (size / spec_bytes_per_pixel(m)) as int;
    let w = common_widths_spec()[i];
    let x = scored(m, w, (pixels / (w as int)) as u32, width_score(m, w as int, pixels / (w as int), hint));
    lemma_width_part_contains(m, pixels, hint, 7, i);
    let hk = hint_part(m, pixels, hint) + known_part(m, pixels, hint, 32);
    let wp = width_part(m, pixels, hint, 7);
    let q = choose|q: int| 0 <= q < wp.len() && wp[q] == x;
    assert(mode_part(m, size, hint) == hk + wp);
    assert((hk + wp)[hk.len() + q] == x);
    lemma_raw_upto_contains(size, hint, 6, j, x);
    lemma_prefer_candidates_complete(size, hint, x);
}

/// Law: in strict mode every candidate is of the hint's size, either way round.
pub proof fn lemma_strict_candidates_match_hint(size: u32, s: ScreenHint)
    ensures
        forall|i: int| 0 <= i < scored_candidates_spec(size, Some(s), ScreenHintMode::Strict).len() ==> matches_hint(
            (#[trigger] scored_candidates_spec(size, Some(s), ScreenHintMode::Strict)[i]).inference.format.width as int,
            scored_candidates_spec(size, Some(s), ScreenHintMode::Strict)[i].inference.format.height as int,
            s,
        ),
{
    let d = dedup_candidates(sort_by_spec(raw_candidates(size, Some(s)), by_candidate()));
    lemma_keep_subset(d, Some(s));
}

/// A candidate of the hint's size is kept by the strict filter.
proof fn lemma_keep_contains(s: Seq<ScoredInference>, hint: Option<ScreenHint>, k: int)
    requires
        0 <= k < s.len(),
        hint_bias_spec(s[k].inference.format.width as int, s[k].inference.format.height as int, hint) >= 160,
    ensures
        keep_hint_matches(s, hint).contains(s[k]),
    decreases s.len(),
{
    let dl = s.drop_last();
    let kd = keep_hint_matches(dl, hint);
    if k == s.len() - 1 {
        assert(keep_hint_matches(s, hint) == kd.push(s.last()));
        assert(kd.push(s.last())[kd.len() as int] == s[k]);
    } else {
        assert(dl[k] == s[k]);
        lemma_keep_contains(dl, hint, k);
        let q = choose|q: int| 0 <= q < kd.len() && kd[q] == s[k];
        let f = s.last().inference.format;
        if hint_bias_spec(f.width as int, f.height as int, hint) >= 160 {
            assert(kd.push(s.last())[q] == s[k]);
        }
    }
}

/// Law: when a screen hint `w x h` is given and the `j`-th preferred mode
/// fills the slot with exactly `w * h` pixels, the slot's candidates (in
/// either hint mode) explain it as that mode, `w` wide and `h` high, just as
/// the hint gives them.
pub proof fn lemma_candidates_include_hint_as_given(size: u32, s: ScreenHint, hmode: ScreenHintMode, j: int)
    requires
        0 <= j < 6,
        size % spec_bytes_per_pixel(preferred_modes_spec()[j]) == 0,
        s.width * s.height == size / spec_bytes_per_pixel(preferred_modes_spec()[j]),
    ensures
        has_explanation(
            scored_candidates_spec(size, Some(s), hmode),
            SlotInference {
                mode: preferred_modes_spec()[j],
                format: InferredFormat { width: s.width, height: s.height },
            },
        ),
{
    let m = preferred_modes_spec()[j];
    let pixels = (size / spec_bytes_per_pixel(m)) as int;
    let hint = Some(s);
    let x = scored(m, s.width, s.height, (150 + mode_bias_spec(m)) as u32);
    let hp = hint_part(m, pixels, hint);
    assert(hp[0] == x);
    let rest = known_part(m, pixels, hint, 32) + width_part(m, pixels, hint, 7);
    assert(mode_part(m, size, hint) == hp + rest);
    assert((hp + rest)[0] == x);
    lemma_raw_upto_contains(size, hint, 6, j, x);
    lemma_prefer_candidates_complete(size, hint, x);
    if hmode == ScreenHintMode::Strict {
        let d = dedup_candidates(sort_by_spec(raw_candidates(size, hint), by_candidate()));
        assert(has_explanation(d, x.inference));
        let k = choose|k: int| 0 <= k < d.len() && (#[trigger] d[k]).inference == x.inference;
        assert(matches_hint(d[k].inference.format.width as int, d[k].inference.format.height as int, s));
        lemma_keep_contains(d, hint, k);
        let kh = keep_hint_matches(d, hint);
        let q = choose|q: int| 0 <= q < kh.len() && kh[q] == d[k];
        assert(kh[q].inference == x.inference);
    }
}

/// Law: the candidates of a slot come by falling score; among equal scores
/// the taller comes first, and among equal scores and heights the wider.
pub proof fn lemma_candidates_ranked(size: u32, hint: Option<ScreenHint>, hmode: ScreenHintMode)
    ensures
        forall|i: int, j: int|
            0 <= i < j < scored_candidates_spec(size, hint, hmode).len() ==> {
                let a = #[trigger] scored_candidates_spec(size, hint, hmode)[i];
                let b = #[trigger] scored_candidates_spec(size, hint, hmode)[j];
                &&& a.score >= b.score
                &&& a.score == b.score ==> a.inference.format.height >= b.inference.format.height
                &&& a.score == b.score && a.inference.format.height == b.inference.format.height
                    ==> a.inference.format.width >= b.inference.format.width
            },
{
    let cs = scored_candidates_spec(size, hint, hmode);
    lemma_scored_candidates_sorted(size, hint, hmode);
    assert forall|i: int, j: int| 0 <= i < j < cs.len() implies !candidate_before(#[trigger] cs[j], #[trigger] cs[i]) by {
        assert(!by_candidate()(cs[j], cs[i]));
    }
}

// ---------------------------------------------------------------------------
// Ranking, executable.

fn candidate_comes_before(a: &ScoredInference, b: &ScoredInference) -> (r: bool)
    ensures
        r == candidate_before(*a, *b),
{
    a.score > b.score || (a.score == b.score && a.inference.format.height > b.inference.format.height)
        || (a.score == b.score && a.inference.format.height == b.inference.format.height
        && a.inference.format.width > b.inference.format.width)
}

/// The candidates sorted stably, best first.
fn sort_candidates(v: &Vec<ScoredInference>) -> (r: Vec<ScoredInference>)
    ensures
        r@ == sort_by_spec(v@, by_candidate()),
{
    let mut r: Vec<ScoredInference> = Vec::new();
    let n = v.len();
    let mut i: usize = 0;
    while i < n
        invariant
            n == v@.len(),
            i <= n,
            r@ == sort_by_spec(v@.take(i as int), by_candidate()),
        decreases n - i,
    {
        let x = v[i];
        proof {
            lemma_sort_by_multiset(v@.take(i as int), by_candidate());
        }
        let mut j = r.len();
        while j > 0 && candidate_comes_before(&x, &r[j - 1])
            invariant
                j <= r@.len(),
                forall|k: int| j <= k < r@.len() ==> candidate_before(x, #[trigger] r@[k]),
            decreases j,
        {
            j = j - 1;
        }
        proof {
            lemma_insert_by_at(r@, x, by_candidate(), j as int);
            assert(v@.take(i + 1).drop_last() =~= v@.take(i as int));
        }
        r.insert(j, x);
        i = i + 1;
    }
    assert(v@.take(n as int) =~= v@);
    r
}

/// The candidates without a repeat of the explanation just before.
fn dedup_candidates_exec(v: &Vec<ScoredInference>) -> (r: Vec<ScoredInference>)
    ensures
        r@ == dedup_candidates(v@),
{
    let mut r: Vec<ScoredInference> = Vec::new();
    let n = v.len();
    let mut i: usize = 0;
    while i < n
        invariant
            n == v@.len(),
            i <= n,
            r@ == dedup_candidates(v@.take(i as int)),
        decreases n - i,
    {
        assert(v@.take(i + 1).drop_last() =~= v@.take(i as int));
        if i == 0 || v[i].inference != v[i - 1].inference {
            r.push(v[i]);
        }
        i = i + 1;
    }
    assert(v@.take(n as int) =~= v@);
    r
}

/// The candidates of the hint's size.
fn keep_hint_matches_exec(v: &Vec<ScoredInference>, screen_hint: Option<ScreenHint>, Ghost(size): Ghost<u32>) -> (r: Vec<ScoredInference>)
    requires
        all_explain(v@, size),
    ensures
        r@ == keep_hint_matches(v@, screen_hint),
{
    let mut r: Vec<ScoredInference> = Vec::new();
    let n = v.len();
    let mut i: usize = 0;
    while i < n
        invariant
            n == v@.len(),
            i <= n,
            all_explain(v@, size),
            r@ == keep_hint_matches(v@.take(i as int), screen_hint),
        decreases n - i,
    {
        assert(v@.take(i + 1).drop_last() =~= v@.take(i as int));
        let c = v[i];
        proof {
            assert(explains(v@[i as int], size));
            let bpp = spec_bytes_per_pixel(c.inference.mode);
            assert(size / bpp <= size) by (nonlinear_arith)
                requires
                    bpp > 0,
            ;
        }
        if screen_hint_bias(c.inference.format.width, c.inference.format.height, screen_hint) >= 160 {
            r.push(c);
        }
        i = i + 1;
    }
    assert(v@.take(n as int) =~= v@);
    r
}

/// The candidates for a slot of `inflated_size` bytes, best first (see `scored_candidates_spec`).
pub fn scored_candidates(
    inflated_size: u32,
    screen_hint: Option<ScreenHint>,
    screen_hint_mode: ScreenHintMode,
) -> (r: Vec<ScoredInference>)
    requires
        hint_in_range(inflated_size, screen_hint),
    ensures
        r@ == scored_candidates_spec(inflated_size, screen_hint, screen_hint_mode),
        all_explain(r@, inflated_size),
{
    proof {
        lemma_scored_candidates_explain(inflated_size, screen_hint, ScreenHintMode::Prefer);
        lemma_scored_candidates_explain(inflated_size, screen_hint, screen_hint_mode);
    }
    let guesses = raw_candidates_exec(inflated_size, screen_hint);
    let sorted = sort_candidates(&guesses);
    let deduped = dedup_candidates_exec(&sorted);
    if screen_hint_mode == ScreenHintMode::Strict {
        keep_hint_matches_exec(&deduped, screen_hint, Ghost(inflated_size))
    } else {
        deduped
    }
}

// ---------------------------------------------------------------------------
// The profile, as spec functions.

/// An inferred profile: a color mode and the distinct formats of the slots.
#[derive(Clone, Debug)]
pub struct ProfileInference {
    pub mode: ColorMode,
    pub formats: Vec<InferredFormat>,
}

/// An inferred profile as a mathematical value.
pub struct ProfileInferenceView {
    pub mode: ColorMode,
    pub formats: Seq<InferredFormat>,
}

impl View for ProfileInference {
    type V = ProfileInferenceView;

    open spec fn view(&self) -> ProfileInferenceView {
        ProfileInferenceView { mode: self.mode, formats: self.formats@ }
    }
}

/// The candidates of each slot.
pub open spec fn all_candidates_spec(sizes: Seq<u32>, hint: Option<ScreenHint>, mode: ScreenHintMode) -> Seq<Seq<ScoredInference>> {
    Seq::new(sizes.len(), |i: int| scored_candidates_spec(sizes[i], hint, mode))
}

/// Whether `i` is the first candidate that satisfies `p`.
pub open spec fn is_first_with(cs: Seq<ScoredInference>, p: spec_fn(ScoredInference) -> bool, i: int) -> bool {
    &&& 0 <= i < cs.len()
    &&& p(cs[i])
    &&& forall|j: int| 0 <= j < i ==> !p(#[trigger] cs[j])
}

/// The first candidate that satisfies `p`, if any.
pub open spec fn first_with(cs: Seq<ScoredInference>, p: spec_fn(ScoredInference) -> bool) -> Option<ScoredInference> {
    if exists|i: int| is_first_with(cs, p, i) {
        Some(cs[choose|i: int| is_first_with(cs, p, i)])
    } else {
        None
    }
}

pub open spec fn of_mode(m: ColorMode) -> spec_fn(ScoredInference) -> bool {
    |c: ScoredInference| c.inference.mode == m
}

pub open spec fn score_of(o: Option<ScoredInference>) -> int {
    match o {
        Some(c) => c.score as int,
        None => 0,
    }
}

/// The total, over the first `k` slots, of the score of each slot's best candidate in mode `m`.
pub open spec fn mode_score_upto(all: Seq<Seq<ScoredInference>>, m: ColorMode, k: nat) -> int
    decreases k,
{
    if k == 0 {
        0
    } else {
        mode_score_upto(all, m, (k - 1) as nat) + score_of(first_with(all[k - 1], of_mode(m)))
    }
}

/// The total score of mode `m`: over the slots, the score of each slot's best candidate in that mode.
pub open spec fn mode_score(all: Seq<Seq<ScoredInference>>, m: ColorMode) -> int {
    mode_score_upto(all, m, all.len())
}

/// Whether preferred mode `i` has the greatest total score, and no earlier mode has as much.
pub open spec fn is_best_mode_index(all: Seq<Seq<ScoredInference>>, i: int) -> bool {
    &&& 0 <= i < 6
    &&& forall|j: int| 0 <= j < 6 ==> mode_score(all, #[trigger] preferred_modes_spec()[j]) <= mode_score(all, preferred_modes_spec()[i])
    &&& forall|j: int| 0 <= j < i ==> mode_score(all, #[trigger] preferred_modes_spec()[j]) < mode_score(all, preferred_modes_spec()[i])
}

pub open spec fn max_int(a: int, b: int) -> int {
    if a >= b { a } else { b }
}

/// The greatest score of the candidates that satisfy `p` (0 if none does).
pub open spec fn max_score_where(cs: Seq<ScoredInference>, p: spec_fn(ScoredInference) -> bool) -> int
    decreases cs.len(),
{
    if cs.len() == 0 {
        0
    } else {
        max_int(max_score_where(cs.drop_last(), p), if p(cs.last()) { cs.last().score as int } else { 0 })
    }
}

/// The greatest score, over the first `k` slots, of the candidates that satisfy `p`.
pub open spec fn max_score_all(all: Seq<Seq<ScoredInference>>, p: spec_fn(ScoredInference) -> bool, k: nat) -> int
    decreases k,
{
    if k == 0 {
        0
    } else {
        max_int(max_score_all(all, p, (k - 1) as nat), max_score_where(all[k - 1], p))
    }
}

/// Large candidates of mode `m`, landscape ones or the others.
pub open spec fn large_of_mode(m: ColorMode, land: bool) -> spec_fn(ScoredInference) -> bool {
    |c: ScoredInference| c.inference.mode == m
        && large_format(c.inference.format.width as int, c.inference.format.height as int)
        && landscape(c.inference.format.width as int, c.inference.format.height as int) == land
}

/// The orientation that the large candidates of mode `m` favour: the one
/// with the best-scored large candidate, portrait on a tie; none where mode
/// `m` has no large candidate.
pub open spec fn dominant_orientation_spec(all: Seq<Seq<ScoredInference>>, m: ColorMode) -> Option<Orientation> {
    let portrait_score = max_score_all(all, large_of_mode(m, false), all.len());
    let landscape_score = max_score_all(all, large_of_mode(m, true), all.len());
    if portrait_score == 0 && landscape_score == 0 {
        None
    } else if landscape_score > portrait_score {
        Some(Orientation::Landscape)
    } else {
        Some(Orientation::Portrait)
    }
}

/// A large format must have the favoured orientation; any other format fits.
pub open spec fn fits_orientation(f: InferredFormat, o: Option<Orientation>) -> bool {
    match o {
        Some(Orientation::Landscape) => large_format(f.width as int, f.height as int) ==> landscape(
            f.width as int,
            f.height as int,
        ),
        Some(Orientation::Portrait) => large_format(f.width as int, f.height as int) ==> portrait(
            f.width as int,
            f.height as int,
        ),
        None => true,
    }
}

pub open spec fn fitting(m: ColorMode, o: Option<Orientation>) -> spec_fn(ScoredInference) -> bool {
    |c: ScoredInference| c.inference.mode == m && fits_orientation(c.inference.format, o)
}

/// The candidate picked for a slot: its best candidate of mode `m` that fits
/// the orientation, or else its best candidate of mode `m`.
pub open spec fn pick_spec(cs: Seq<ScoredInference>, m: ColorMode, o: Option<Orientation>) -> Option<ScoredInference> {
    match first_with(cs, fitting(m, o)) {
        Some(c) => Some(c),
        None => first_with(cs, of_mode(m)),
    }
}

/// The formats picked for the first `k` slots, each kept once, in order of first appearance.
pub open spec fn collect_formats(all: Seq<Seq<ScoredInference>>, m: ColorMode, o: Option<Orientation>, k: nat) -> Seq<InferredFormat>
    decreases k,
{
    if k == 0 {
        Seq::empty()
    } else {
        let prev = collect_formats(all, m, o, (k - 1) as nat);
        match pick_spec(all[k - 1], m, o) {
            Some(c) => if prev.contains(c.inference.format) {
                prev
            } else {
                prev.push(c.inference.format)
            },
            None => prev,
        }
    }
}

/// `a` has more pixels than `b`.
pub open spec fn area_before(a: InferredFormat, b: InferredFormat) -> bool {
    a.width * a.height > b.width * b.height
}

pub open spec fn by_area() -> spec_fn(InferredFormat, InferredFormat) -> bool {
    |a: InferredFormat, b: InferredFormat| area_before(a, b)
}

/// The profile inferred from the inflated sizes of the slots: the preferred
/// mode with the greatest total score (the first such), unless that score is
/// 0; with the format picked for each slot in that mode, each kept once,
/// sorted stably from the most pixels to the fewest.
pub open spec fn infer_profile_spec(sizes: Seq<u32>, hint: Option<ScreenHint>, hmode: ScreenHintMode) -> Option<ProfileInferenceView> {
    let all = all_candidates_spec(sizes, hint, hmode);
    if exists|i: int| is_best_mode_index(all, i) {
        let m = preferred_modes_spec()[choose|i: int| is_best_mode_index(all, i)];
        if mode_score(all, m) == 0 {
            None
        } else {
            Some(ProfileInferenceView {
                mode: m,
                formats: sort_by_spec(
                    collect_formats(all, m, dominant_orientation_spec(all, m), all.len()),
                    by_area(),
                ),
            })
        }
    } else {
        None
    }
}

/// Some preferred mode always has the greatest total score with no earlier mode as high.
proof fn lemma_best_mode_exists(all: Seq<Seq<ScoredInference>>)
    ensures
        exists|i: int| is_best_mode_index(all, i),
{
    let ms = preferred_modes_spec();
    let s0 = mode_score(all, ms[0]);
    let s1 = mode_score(all, ms[1]);
    let s2 = mode_score(all, ms[2]);
    let s3 = mode_score(all, ms[3]);
    let s4 = mode_score(all, ms[4]);
    let s5 = mode_score(all, ms[5]);
    let mx = max_int(max_int(max_int(s0, s1), max_int(s2, s3)), max_int(s4, s5));
    assert forall|j: int| 0 <= j < 6 implies mode_score(all, #[trigger] ms[j]) <= mx by {
        if j == 0 {} else if j == 1 {} else if j == 2 {} else if j == 3 {} else if j == 4 {} else {}
    }
    let i: int = if s0 == mx { 0 } else if s1 == mx { 1 } else if s2 == mx { 2 } else if s3 == mx { 3 } else if s4
        == mx { 4 } else { 5 };
    assert(mode_score(all, ms[i]) == mx);
    assert forall|j: int| 0 <= j < i implies mode_score(all, #[trigger] ms[j]) < mode_score(all, ms[i]) by {
        if j == 0 {} else if j == 1 {} else if j == 2 {} else if j == 3 {} else {}
    }
    assert(is_best_mode_index(all, i));
}

/// Law: no profile is inferred exactly when every mode's total score is 0;
/// an inferred profile names the first preferred mode with the greatest
/// total score.
pub proof fn lemma_infer_profile_mode(sizes: Seq<u32>, hint: Option<ScreenHint>, hmode: ScreenHintMode)
    ensures
        infer_profile_spec(sizes, hint, hmode) is None <==> forall|j: int|
            0 <= j < 6 ==> mode_score(all_candidates_spec(sizes, hint, hmode), #[trigger] preferred_modes_spec()[j]) == 0,
        infer_profile_spec(sizes, hint, hmode) matches Some(p) ==> exists|i: int|
            is_best_mode_index(all_candidates_spec(sizes, hint, hmode), i) && p.mode == #[trigger] preferred_modes_spec()[i],
{
    let all = all_candidates_spec(sizes, hint, hmode);
    let ms = preferred_modes_spec();
    lemma_best_mode_exists(all);
    let bi = choose|i: int| is_best_mode_index(all, i);
    assert(is_best_mode_index(all, bi));
    assert forall|j: int| 0 <= j < 6 implies 0 <= mode_score(all, #[trigger] ms[j]) by {
        lemma_mode_score_monotone(all, ms[j], 0, all.len());
    }
    if mode_score(all, ms[bi]) == 0 {
        assert(infer_profile_spec(sizes, hint, hmode) is None);
        assert forall|j: int| 0 <= j < 6 implies mode_score(all, #[trigger] ms[j]) == 0 by {
            assert(mode_score(all, ms[j]) <= mode_score(all, ms[bi]));
        }
    } else {
        assert(infer_profile_spec(sizes, hint, hmode) is Some);
        assert(mode_score(all, ms[bi]) != 0);
    }
}

/// Summing the scores of a mode never overflows, and the hint's size is in range for every slot.
pub open spec fn infer_in_range(sizes: Seq<u32>, hint: Option<ScreenHint>, hmode: ScreenHintMode) -> bool {
    &&& forall|i: int| 0 <= i < sizes.len() ==> hint_in_range(#[trigger] sizes[i], hint)
    &&& forall|j: int| 0 <= j < 6 ==> mode_score(all_candidates_spec(sizes, hint, hmode), #[trigger] preferred_modes_spec()[j]) <= u32::MAX
}

// ---------------------------------------------------------------------------
// Lemmas on the profile.

/// The first candidate that satisfies `p` is unique, so `first_with` gives it.
pub proof fn lemma_first_with_is(cs: Seq<ScoredInference>, p: spec_fn(ScoredInference) -> bool, i: int)
    requires
        is_first_with(cs, p, i),
    ensures
        first_with(cs, p) == Some(cs[i]),
{
    let k = choose|i: int| is_first_with(cs, p, i);
    assert(is_first_with(cs, p, k));
    if k < i {
        assert(!p(cs[k]));
    } else if k > i {
        assert(!p(cs[i]));
    }
}

/// Where no candidate satisfies `p`, `first_with` gives nothing.
pub proof fn lemma_first_with_none(cs: Seq<ScoredInference>, p: spec_fn(ScoredInference) -> bool)
    requires
        forall|j: int| 0 <= j < cs.len() ==> !p(#[trigger] cs[j]),
    ensures
        first_with(cs, p) is None,
{
    if exists|i: int| is_first_with(cs, p, i) {
        let i = choose|i: int| is_first_with(cs, p, i);
        assert(p(cs[i]));
    }
}

/// The first candidate that satisfies `p` is one of the candidates, and satisfies `p`.
pub proof fn lemma_first_with_member(cs: Seq<ScoredInference>, p: spec_fn(ScoredInference) -> bool)
    requires
        first_with(cs, p) is Some,
    ensures
        cs.contains(first_with(cs, p)->Some_0),
        p(first_with(cs, p)->Some_0),
{
    let i = choose|i: int| is_first_with(cs, p, i);
    assert(cs[i] == first_with(cs, p)->Some_0);
}

/// The partial totals of a mode grow with the number of slots.
proof fn lemma_mode_score_monotone(all: Seq<Seq<ScoredInference>>, m: ColorMode, k1: nat, k2: nat)
    requires
        k1 <= k2,
    ensures
        0 <= mode_score_upto(all, m, k1) <= mode_score_upto(all, m, k2),
    decreases k2,
{
    if k2 > 0 {
        if k1 < k2 {
            lemma_mode_score_monotone(all, m, k1, (k2 - 1) as nat);
        } else {
            lemma_mode_score_monotone(all, m, 0, (k2 - 1) as nat);
        }
    }
}

proof fn lemma_max_score_where_range(cs: Seq<ScoredInference>, p: spec_fn(ScoredInference) -> bool)
    ensures
        0 <= max_score_where(cs, p) <= u32::MAX,
    decreases cs.len(),
{
    if cs.len() > 0 {
        lemma_max_score_where_range(cs.drop_last(), p);
    }
}

proof fn lemma_max_score_all_range(all: Seq<Seq<ScoredInference>>, p: spec_fn(ScoredInference) -> bool, k: nat)
    requires
        k <= all.len(),
    ensures
        0 <= max_score_all(all, p, k) <= u32::MAX,
    decreases k,
{
    if k > 0 {
        lemma_max_score_all_range(all, p, (k - 1) as nat);
        lemma_max_score_where_range(all[k - 1], p);
    }
}

/// The picked candidate is a candidate of the slot, in mode `m`.
proof fn lemma_pick_member(cs: Seq<ScoredInference>, m: ColorMode, o: Option<Orientation>)
    requires
        pick_spec(cs, m, o) is Some,
    ensures
        cs.contains(pick_spec(cs, m, o)->Some_0),
        (pick_spec(cs, m, o)->Some_0).inference.mode == m,
{
    if first_with(cs, fitting(m, o)) is Some {
        lemma_first_with_member(cs, fitting(m, o));
    } else {
        lemma_first_with_member(cs, of_mode(m));
    }
}

/// `f` is the format of a candidate in mode `m` of one of the first `k` slots.
pub open spec fn format_of_some_slot(all: Seq<Seq<ScoredInference>>, m: ColorMode, k: int, f: InferredFormat) -> bool {
    exists|i: int, j: int|
        #![trigger all[i][j]]
        0 <= i < k && 0 <= j < all[i].len() && all[i][j].inference.mode == m && f == all[i][j].inference.format
}

/// The collected formats are distinct, and each is the format of a candidate of some slot, in mode `m`.
proof fn lemma_collect_formats(all: Seq<Seq<ScoredInference>>, m: ColorMode, o: Option<Orientation>, k: nat)
    requires
        k <= all.len(),
    ensures
        collect_formats(all, m, o, k).no_duplicates(),
        forall|x: int| 0 <= x < collect_formats(all, m, o, k).len() ==> format_of_some_slot(
            all,
            m,
            k as int,
            #[trigger] collect_formats(all, m, o, k)[x],
        ),
    decreases k,
{
    if k > 0 {
        lemma_collect_formats(all, m, o, (k - 1) as nat);
        let prev = collect_formats(all, m, o, (k - 1) as nat);
        let cur = collect_formats(all, m, o, k);
        let last = all[k - 1];
        assert forall|x: int| 0 <= x < cur.len() implies format_of_some_slot(all, m, k as int, #[trigger] cur[x]) by {
            if x < prev.len() {
                assert(cur[x] == prev[x]);
                assert(format_of_some_slot(all, m, k - 1, prev[x]));
                let (i1, j1) = choose|i: int, j: int|
                    #![trigger all[i][j]]
                    0 <= i < k - 1 && 0 <= j < all[i].len() && all[i][j].inference.mode == m
                        && prev[x] == all[i][j].inference.format;
                assert(0 <= i1 < k && 0 <= j1 < all[i1].len() && all[i1][j1].inference.mode == m
                    && cur[x] == all[i1][j1].inference.format);
            } else {
                let c = pick_spec(last, m, o)->Some_0;
                lemma_pick_member(last, m, o);
                assert(last.contains(c));
                let j0 = choose|j: int| 0 <= j < last.len() && last[j] == c;
                assert(cur[x] == last[j0].inference.format);
                assert(0 <= k - 1 < k && 0 <= j0 < all[k - 1].len() && all[k - 1][j0].inference.mode == m);
            }
        }
    }
}

/// `area_before` orders strictly and weakly.
proof fn lemma_area_order()
    ensures
        strict_weak_order(by_area()),
{
}

/// `f` fills exactly the inflated bytes of some slot in mode `m`.
pub open spec fn explains_some_slot(sizes: Seq<u32>, m: ColorMode, f: InferredFormat) -> bool {
    exists|i: int|
        #![trigger sizes[i]]
        0 <= i < sizes.len() && sizes[i] % spec_bytes_per_pixel(m) == 0 && f.width * f.height == sizes[i]
            / spec_bytes_per_pixel(m)
}

/// Law: an inferred profile names a mode with the greatest total score,
/// greater than 0; its formats are distinct, sorted from the most pixels to
/// the fewest, and each fills exactly the inflated bytes of some slot in
/// that mode; in strict mode each is of the hint's size, either way round.
pub proof fn lemma_infer_profile_laws(sizes: Seq<u32>, hint: Option<ScreenHint>, hmode: ScreenHintMode)
    requires
        infer_profile_spec(sizes, hint, hmode) is Some,
    ensures
        mode_score(all_candidates_spec(sizes, hint, hmode), infer_profile_spec(sizes, hint, hmode)->Some_0.mode) > 0,
        forall|j: int| 0 <= j < 6 ==> mode_score(all_candidates_spec(sizes, hint, hmode), #[trigger] preferred_modes_spec()[j])
            <= mode_score(all_candidates_spec(sizes, hint, hmode), infer_profile_spec(sizes, hint, hmode)->Some_0.mode),
        infer_profile_spec(sizes, hint, hmode)->Some_0.formats.no_duplicates(),
        sorted_by(infer_profile_spec(sizes, hint, hmode)->Some_0.formats, by_area()),
        forall|x: int| 0 <= x < infer_profile_spec(sizes, hint, hmode)->Some_0.formats.len() ==> explains_some_slot(
            sizes,
            infer_profile_spec(sizes, hint, hmode)->Some_0.mode,
            #[trigger] infer_profile_spec(sizes, hint, hmode)->Some_0.formats[x],
        ),
        hmode == ScreenHintMode::Strict && hint is Some ==> forall|x: int|
            0 <= x < infer_profile_spec(sizes, hint, hmode)->Some_0.formats.len() ==> matches_hint(
                (#[trigger] infer_profile_spec(sizes, hint, hmode)->Some_0.formats[x]).width as int,
                infer_profile_spec(sizes, hint, hmode)->Some_0.formats[x].height as int,
                hint->Some_0,
            ),
{
    broadcast use vstd::seq_lib::group_to_multiset_ensures, vstd::multiset::group_multiset_axioms;

    let p = infer_profile_spec(sizes, hint, hmode)->Some_0;
    let all = all_candidates_spec(sizes, hint, hmode);
    let bi = choose|i: int| is_best_mode_index(all, i);
    let m = preferred_modes_spec()[bi];
    assert(is_best_mode_index(all, bi));
    assert(p.mode == m);
    lemma_mode_score_monotone(all, m, 0, all.len());
    let o = dominant_orientation_spec(all, m);
    let collected = collect_formats(all, m, o, all.len());
    assert(p.formats == sort_by_spec(collected, by_area()));
    lemma_collect_formats(all, m, o, all.len());
    lemma_area_order();
    lemma_sort_by_sorted(collected, by_area());
    lemma_sort_by_multiset(collected, by_area());
    collected.lemma_multiset_has_no_duplicates();
    p.formats.lemma_multiset_has_no_duplicates_conv();
    assert forall|x: int| 0 <= x < p.formats.len() implies explains_some_slot(sizes, m, #[trigger] p.formats[x])
        && (hmode == ScreenHintMode::Strict && hint is Some ==> matches_hint(
            p.formats[x].width as int,
            p.formats[x].height as int,
            hint->Some_0,
        )) by {
        let f = p.formats[x];
        assert(p.formats.contains(f));
        assert(p.formats.to_multiset().count(f) > 0);
        assert(collected.contains(f));
        let y = choose|y: int| 0 <= y < collected.len() && collected[y] == f;
        assert(format_of_some_slot(all, m, all.len() as int, collected[y]));
        let (i, j) = choose|i: int, j: int|
            #![trigger all[i][j]]
            0 <= i < all.len() && 0 <= j < all[i].len() && all[i][j].inference.mode == m
                && collected[y] == all[i][j].inference.format;
        lemma_scored_candidates_explain(sizes[i], hint, hmode);
        assert(all[i] == scored_candidates_spec(sizes[i], hint, hmode));
        assert(explains(all[i][j], sizes[i]));
        if hmode == ScreenHintMode::Strict && hint is Some {
            lemma_strict_candidates_match_hint(sizes[i], hint->Some_0);
        }
    }
}

/// No candidate scores more than 316 (a known size's best base score, 106, plus the
/// best mode bias, 10, plus the hint's bias for its own size, 200).
pub open spec fn scores_bounded(s: Seq<ScoredInference>) -> bool {
    forall|i: int| 0 <= i < s.len() ==> (#[trigger] s[i]).score <= 316
}

proof fn lemma_mode_part_bounded(m: ColorMode, size: u32, hint: Option<ScreenHint>)
    ensures
        scores_bounded(mode_part(m, size, hint)),
{
    if size % spec_bytes_per_pixel(m) == 0 {
        let p = (size / spec_bytes_per_pixel(m)) as int;
        lemma_known_part_bounded(m, p, hint, 32);
        lemma_width_part_bounded(m, p, hint, 7);
        let h = hint_part(m, p, hint);
        let a = h + known_part(m, p, hint, 32);
        assert(scores_bounded(a)) by {
            assert forall|i: int| 0 <= i < a.len() implies (#[trigger] a[i]).score <= 316 by {
                if i >= h.len() {
                    assert(a[i] == known_part(m, p, hint, 32)[i - h.len()]);
                }
            }
        }
        let b = a + width_part(m, p, hint, 7);
        assert forall|i: int| 0 <= i < b.len() implies (#[trigger] b[i]).score <= 316 by {
            if i >= a.len() {
                assert(b[i] == width_part(m, p, hint, 7)[i - a.len()]);
            }
        }
    }
}

proof fn lemma_known_part_bounded(m: ColorMode, p: int, hint: Option<ScreenHint>, k: nat)
    requires
        k <= 32,
    ensures
        scores_bounded(known_part(m, p, hint, k)),
    decreases k,
{
    if k > 0 {
        lemma_known_part_bounded(m, p, hint, (k - 1) as nat);
        assert(known_formats_spec()[k - 1].2 <= 106);
    }
}

proof fn lemma_width_part_bounded(m: ColorMode, p: int, hint: Option<ScreenHint>, k: nat)
    requires
        k <= 7,
    ensures
        scores_bounded(width_part(m, p, hint, k)),
    decreases k,
{
    if k > 0 {
        lemma_width_part_bounded(m, p, hint, (k - 1) as nat);
    }
}

proof fn lemma_raw_bounded(size: u32, hint: Option<ScreenHint>, k: nat)
    requires
        k <= 6,
    ensures
        scores_bounded(raw_candidates_upto(size, hint, k)),
    decreases k,
{
    if k > 0 {
        lemma_raw_bounded(size, hint, (k - 1) as nat);
        let a = raw_candidates_upto(size, hint, (k - 1) as nat);
        let mp = mode_part(preferred_modes_spec()[k - 1], size, hint);
        lemma_mode_part_bounded(preferred_modes_spec()[k - 1], size, hint);
        let b = a + mp;
        assert forall|i: int| 0 <= i < b.len() implies (#[trigger] b[i]).score <= 316 by {
            if i >= a.len() {
                assert(b[i] == mp[i - a.len()]);
            }
        }
    }
}

proof fn lemma_contains_bounded(s: Seq<ScoredInference>, r: Seq<ScoredInference>)
    requires
        scores_bounded(s),
        forall|i: int| 0 <= i < r.len() ==> s.contains(#[trigger] r[i]),
    ensures
        scores_bounded(r),
{
    assert forall|i: int| 0 <= i < r.len() implies (#[trigger] r[i]).score <= 316 by {
        assert(s.contains(r[i]));
        let k = choose|k: int| 0 <= k < s.len() && s[k] == r[i];
        assert(s[k].score <= 316);
    }
}

/// Every candidate of a slot scores at most 316.
pub proof fn lemma_scored_candidates_bounded(size: u32, hint: Option<ScreenHint>, mode: ScreenHintMode)
    ensures
        scores_bounded(scored_candidates_spec(size, hint, mode)),
{
    broadcast use vstd::seq_lib::group_to_multiset_ensures;

    let raw = raw_candidates(size, hint);
    lemma_raw_bounded(size, hint, 6);
    let sorted = sort_by_spec(raw, by_candidate());
    lemma_sort_by_multiset(raw, by_candidate());
    assert forall|i: int| 0 <= i < sorted.len() implies raw.contains(#[trigger] sorted[i]) by {
        assert(sorted.contains(sorted[i]));
        assert(sorted.to_multiset().count(sorted[i]) > 0);
    }
    lemma_contains_bounded(raw, sorted);
    let d = dedup_candidates(sorted);
    lemma_dedup_subset(sorted);
    lemma_contains_bounded(sorted, d);
    if mode == ScreenHintMode::Strict {
        lemma_keep_subset(d, hint);
        lemma_contains_bounded(d, keep_hint_matches(d, hint));
    }
}

proof fn lemma_mode_score_bounded(all: Seq<Seq<ScoredInference>>, m: ColorMode, k: nat)
    requires
        k <= all.len(),
        forall|i: int| 0 <= i < all.len() ==> scores_bounded(#[trigger] all[i]),
    ensures
        mode_score_upto(all, m, k) <= 316 * k,
    decreases k,
{
    if k > 0 {
        lemma_mode_score_bounded(all, m, (k - 1) as nat);
        let cs = all[k - 1];
        assert(scores_bounded(cs));
        if first_with(cs, of_mode(m)) is Some {
            lemma_first_with_member(cs, of_mode(m));
            let c = first_with(cs, of_mode(m))->Some_0;
            let j = choose|j: int| 0 <= j < cs.len() && cs[j] == c;
            assert(cs[j].score <= 316);
        }
    }
}

/// Profiling stays in range for up to `MAX_PROFILED_SLOTS` slots (316 times
/// that fits a `u32`), provided each slot keeps the hint in range.
pub proof fn lemma_infer_in_range(sizes: Seq<u32>, hint: Option<ScreenHint>, hmode: ScreenHintMode)
    requires
        sizes.len() <= MAX_PROFILED_SLOTS,
        forall|i: int| 0 <= i < sizes.len() ==> hint_in_range(#[trigger] sizes[i], hint),
    ensures
        infer_in_range(sizes, hint, hmode),
{
    let all = all_candidates_spec(sizes, hint, hmode);
    assert forall|i: int| 0 <= i < all.len() implies scores_bounded(#[trigger] all[i]) by {
        lemma_scored_candidates_bounded(sizes[i], hint, hmode);
    }
    assert forall|j: int| 0 <= j < 6 implies mode_score(all, #[trigger] preferred_modes_spec()[j]) <= u32::MAX by {
        lemma_mode_score_bounded(all, preferred_modes_spec()[j], all.len());
    }
}

// ---------------------------------------------------------------------------
// The profile, executable.

pub open spec fn cands_view(v: Seq<Vec<ScoredInference>>) -> Seq<Seq<ScoredInference>> {
    v.map_values(|c: Vec<ScoredInference>| c@)
}

/// The index of the first candidate of mode `m`.
fn first_of_mode(cs: &Vec<ScoredInference>, m: ColorMode) -> (r: Option<usize>)
    ensures
        match r {
            Some(i) => is_first_with(cs@, of_mode(m), i as int),
            None => forall|j: int| 0 <= j < cs@.len() ==> !of_mode(m)(#[trigger] cs@[j]),
        },
{
    let n = cs.len();
    let mut i: usize = 0;
    while i < n
        invariant
            n == cs@.len(),
            i <= n,
            forall|j: int| 0 <= j < i ==> !of_mode(m)(#[trigger] cs@[j]),
        decreases n - i,
    {
        if cs[i].inference.mode == m {
            return Some(i);
        }
        i = i + 1;
    }
    None
}

/// Whether the format fits the favoured orientation.
fn fits_orientation_exec(f: InferredFormat, o: Option<Orientation>) -> (r: bool)
    ensures
        r == fits_orientation(f, o),
{
    let large = product(f.width, f.height) >= 1_000_000;
    match o {
        Some(Orientation::Landscape) => !large || is_landscape(f.width, f.height),
        Some(Orientation::Portrait) => !large || is_portrait(f.width, f.height),
        None => true,
    }
}

/// The index of the first candidate of mode `m` that fits the orientation.
fn first_fitting(cs: &Vec<ScoredInference>, m: ColorMode, o: Option<Orientation>) -> (r: Option<usize>)
    ensures
        match r {
            Some(i) => is_first_with(cs@, fitting(m, o), i as int),
            None => forall|j: int| 0 <= j < cs@.len() ==> !fitting(m, o)(#[trigger] cs@[j]),
        },
{
    let n = cs.len();
    let mut i: usize = 0;
    while i < n
        invariant
            n == cs@.len(),
            i <= n,
            forall|j: int| 0 <= j < i ==> !fitting(m, o)(#[trigger] cs@[j]),
        decreases n - i,
    {
        if cs[i].inference.mode == m && fits_orientation_exec(cs[i].inference.format, o) {
            return Some(i);
        }
        i = i + 1;
    }
    None
}

/// The total score of mode `m` over the slots.
fn mode_total(all: &Vec<Vec<ScoredInference>>, m: ColorMode) -> (r: u32)
    requires
        mode_score(cands_view(all@), m) <= u32::MAX,
    ensures
        r == mode_score(cands_view(all@), m),
{
    let ghost av = cands_view(all@);
    let n = all.len();
    let mut total: u32 = 0;
    let mut k: usize = 0;
    while k < n
        invariant
            av == cands_view(all@),
            n == all@.len(),
            k <= n,
            mode_score(av, m) <= u32::MAX,
            total == mode_score_upto(av, m, k as nat),
        decreases n - k,
    {
        proof {
            lemma_mode_score_monotone(av, m, (k + 1) as nat, n as nat);
        }
        let cs = &all[k];
        assert(av[k as int] == cs@);
        match first_of_mode(cs, m) {
            Some(i) => {
                proof {
                    lemma_first_with_is(cs@, of_mode(m), i as int);
                }
                total = total + cs[i].score;
            },
            None => {
                proof {
                    lemma_first_with_none(cs@, of_mode(m));
                }
            },
        }
        k = k + 1;
    }
    total
}

/// The greatest score of the large candidates of mode `m` with the given orientation.
fn max_large_score(all: &Vec<Vec<ScoredInference>>, m: ColorMode, land: bool) -> (r: u32)
    ensures
        r == max_score_all(cands_view(all@), large_of_mode(m, land), all@.len() as nat),
{
    let ghost av = cands_view(all@);
    let ghost p = large_of_mode(m, land);
    let n = all.len();
    let mut best: u32 = 0;
    let mut k: usize = 0;
    while k < n
        invariant
            av == cands_view(all@),
            p == large_of_mode(m, land),
            n == all@.len(),
            k <= n,
            best == max_score_all(av, p, k as nat),
        decreases n - k,
    {
        let cs = &all[k];
        assert(av[k as int] == cs@);
        let mut best_here: u32 = 0;
        let mut i: usize = 0;
        while i < cs.len()
            invariant
                i <= cs@.len(),
                best_here == max_score_where(cs@.take(i as int), p),
                p == large_of_mode(m, land),
            decreases cs@.len() - i,
        {
            let c = cs[i];
            assert(cs@.take(i + 1).drop_last() =~= cs@.take(i as int));
            let f = c.inference.format;
            if c.inference.mode == m && product(f.width, f.height) >= 1_000_000 && is_landscape(f.width, f.height)
                == land {
                if c.score > best_here {
                    best_here = c.score;
                }
            }
            i = i + 1;
        }
        assert(cs@.take(cs@.len() as int) =~= cs@);
        if best_here > best {
            best = best_here;
        }
        k = k + 1;
    }
    best
}

/// The orientation that the large candidates of mode `m` favour.
fn dominant_orientation(all: &Vec<Vec<ScoredInference>>, mode: ColorMode) -> (r: Option<Orientation>)
    ensures
        r == dominant_orientation_spec(cands_view(all@), mode),
{
    let portrait_score = max_large_score(all, mode, false);
    let landscape_score = max_large_score(all, mode, true);
    if portrait_score == 0 && landscape_score == 0 {
        None
    } else if landscape_score > portrait_score {
        Some(Orientation::Landscape)
    } else {
        Some(Orientation::Portrait)
    }
}

/// The format picked for a slot (see `pick_spec`).
fn pick_format(cs: &Vec<ScoredInference>, m: ColorMode, o: Option<Orientation>) -> (r: Option<InferredFormat>)
    ensures
        match pick_spec(cs@, m, o) {
            Some(c) => r == Some(c.inference.format),
            None => r is None,
        },
{
    match first_fitting(cs, m, o) {
        Some(i) => {
            proof {
                lemma_first_with_is(cs@, fitting(m, o), i as int);
            }
            Some(cs[i].inference.format)
        },
        None => {
            proof {
                lemma_first_with_none(cs@, fitting(m, o));
            }
            match first_of_mode(cs, m) {
                Some(i) => {
                    proof {
                        lemma_first_with_is(cs@, of_mode(m), i as int);
                    }
                    Some(cs[i].inference.format)
                },
                None => {
                    proof {
                        lemma_first_with_none(cs@, of_mode(m));
                    }
                    None
                },
            }
        },
    }
}

fn contains_format(v: &Vec<InferredFormat>, f: InferredFormat) -> (r: bool)
    ensures
        r == v@.contains(f),
{
    let n = v.len();
    let mut i: usize = 0;
    while i < n
        invariant
            n == v@.len(),
            i <= n,
            forall|j: int| 0 <= j < i ==> v@[j] != f,
        decreases n - i,
    {
        if v[i] == f {
            return true;
        }
        i = i + 1;
    }
    false
}

/// The formats sorted stably from the most pixels to the fewest.
fn sort_by_area(v: &Vec<InferredFormat>) -> (r: Vec<InferredFormat>)
    ensures
        r@ == sort_by_spec(v@, by_area()),
{
    let mut r: Vec<InferredFormat> = Vec::new();
    let n = v.len();
    let mut i: usize = 0;
    while i < n
        invariant
            n == v@.len(),
            i <= n,
            r@ == sort_by_spec(v@.take(i as int), by_area()),
        decreases n - i,
    {
        let x = v[i];
        let mut j = r.len();
        while j > 0 && product(x.width, x.height) > product(r[j - 1].width, r[j - 1].height)
            invariant
                j <= r@.len(),
                forall|k: int| j <= k < r@.len() ==> area_before(x, #[trigger] r@[k]),
            decreases j,
        {
            j = j - 1;
        }
        proof {
            lemma_insert_by_at(r@, x, by_area(), j as int);
            assert(v@.take(i + 1).drop_last() =~= v@.take(i as int));
        }
        r.insert(j, x);
        i = i + 1;
    }
    assert(v@.take(n as int) =~= v@);
    r
}

/// Infers a profile from the inflated sizes of the slots (see `infer_profile_spec`).
pub fn infer_profile(
    inflated_sizes: &[u32],
    screen_hint: Option<ScreenHint>,
    screen_hint_mode: ScreenHintMode,
) -> (r: Option<ProfileInference>)
    requires
        infer_in_range(inflated_sizes@, screen_hint, screen_hint_mode),
    ensures
        match r {
            Some(p) => infer_profile_spec(inflated_sizes@, screen_hint, screen_hint_mode) == Some(p@),
            None => infer_profile_spec(inflated_sizes@, screen_hint, screen_hint_mode) is None,
        },
{
    let ghost spec_all = all_candidates_spec(inflated_sizes@, screen_hint, screen_hint_mode);
    let n = inflated_sizes.len();
    let mut all: Vec<Vec<ScoredInference>> = Vec::new();
    let mut k: usize = 0;
    while k < n
        invariant
            n == inflated_sizes@.len(),
            spec_all == all_candidates_spec(inflated_sizes@, screen_hint, screen_hint_mode),
            forall|i: int| 0 <= i < n ==> hint_in_range(#[trigger] inflated_sizes@[i], screen_hint),
            k <= n,
            all@.len() == k,
            forall|j: int| 0 <= j < k ==> (#[trigger] all@[j])@ == spec_all[j],
        decreases n - k,
    {
        all.push(scored_candidates(inflated_sizes[k], screen_hint, screen_hint_mode));
        k = k + 1;
    }
    assert(cands_view(all@) =~= spec_all);
    let modes = preferred_modes();
    let mut best: Option<(ColorMode, u32)> = None;
    let ghost mut best_index: int = 0;
    let mut k: usize = 0;
    while k < modes.len()
        invariant
            modes@ == preferred_modes_spec(),
            cands_view(all@) == spec_all,
            forall|j: int| 0 <= j < 6 ==> mode_score(spec_all, #[trigger] preferred_modes_spec()[j]) <= u32::MAX,
            k <= 6,
            k == 0 <==> best is None,
            best matches Some((m, s)) ==> {
                &&& 0 <= best_index < k
                &&& m == preferred_modes_spec()[best_index]
                &&& s == mode_score(spec_all, m)
                &&& forall|j: int| 0 <= j < k ==> mode_score(spec_all, #[trigger] preferred_modes_spec()[j]) <= s
                &&& forall|j: int| 0 <= j < best_index ==> mode_score(spec_all, #[trigger] preferred_modes_spec()[j]) < s
            },
        decreases 6 - k,
    {
        let mode = modes[k];
        assert(mode_score(spec_all, preferred_modes_spec()[k as int]) <= u32::MAX);
        let score = mode_total(&all, mode);
        match best {
            Some((_, best_score)) if score <= best_score => {},
            _ => {
                best = Some((mode, score));
                proof {
                    best_index = k as int;
                }
            },
        }
        k = k + 1;
    }
    let (mode, score) = match best {
        Some(b) => b,
        None => {
            return None;
        },
    };
    proof {
        assert(is_best_mode_index(spec_all, best_index));
        let c = choose|i: int| is_best_mode_index(spec_all, i);
        assert(is_best_mode_index(spec_all, c));
        if c < best_index {
            assert(mode_score(spec_all, preferred_modes_spec()[c]) < mode_score(spec_all, preferred_modes_spec()[best_index]));
        } else if c > best_index {
            assert(mode_score(spec_all, preferred_modes_spec()[best_index]) < mode_score(spec_all, preferred_modes_spec()[c]));
        }
    }
    if score == 0 {
        return None;
    }
    let preferred_orientation = dominant_orientation(&all, mode);
    let mut formats: Vec<InferredFormat> = Vec::new();
    let mut k: usize = 0;
    while k < all.len()
        invariant
            cands_view(all@) == spec_all,
            spec_all.len() == all@.len(),
            k <= all@.len(),
            formats@ == collect_formats(spec_all, mode, preferred_orientation, k as nat),
        decreases all@.len() - k,
    {
        assert(spec_all[k as int] == all@[k as int]@);
        if let Some(format) = pick_format(&all[k], mode, preferred_orientation) {
            if !contains_format(&formats, format) {
                formats.push(format);
            }
        }
        k = k + 1;
    }
    let sorted = sort_by_area(&formats);
    Some(ProfileInference { mode, formats: sorted })
}

/// The most slots whose scores are summed in a `u32` whatever their sizes:
/// no candidate scores more than 316.
pub const MAX_PROFILED_SLOTS: usize = 13_591_668;

/// Whether `i` is the first slot whose size takes the hint out of range.
pub open spec fn is_first_out_of_range(sizes: Seq<u32>, hint: Option<ScreenHint>, i: int) -> bool {
    &&& 0 <= i < sizes.len()
    &&& !hint_in_range(sizes[i], hint)
    &&& forall|j: int| 0 <= j < i ==> hint_in_range(#[trigger] sizes[j], hint)
}

/// What `try_infer_profile` gives: `TooManySlots` beyond `MAX_PROFILED_SLOTS`
/// slots, else `ScreenHintTooLarge` for the first slot that takes the hint out
/// of range, else the inferred profile.
pub open spec fn try_infer_profile_spec(sizes: Seq<u32>, hint: Option<ScreenHint>, hmode: ScreenHintMode) -> Result<
    Option<ProfileInferenceView>,
    MtkError,
> {
    if sizes.len() > MAX_PROFILED_SLOTS {
        Err(MtkError::TooManySlots { count: sizes.len() as usize })
    } else if exists|i: int| is_first_out_of_range(sizes, hint, i) {
        let i = choose|i: int| is_first_out_of_range(sizes, hint, i);
        Err(MtkError::ScreenHintTooLarge { size: sizes[i] })
    } else {
        Ok(infer_profile_spec(sizes, hint, hmode))
    }
}

/// `infer_profile` on any input: the sizes are first checked to be few enough
/// and to keep the hint in range (see `try_infer_profile_spec`).
pub fn try_infer_profile(
    inflated_sizes: &[u32],
    screen_hint: Option<ScreenHint>,
    screen_hint_mode: ScreenHintMode,
) -> (r: Result<Option<ProfileInference>, MtkError>)
    ensures
        match r {
            Ok(Some(p)) => try_infer_profile_spec(inflated_sizes@, screen_hint, screen_hint_mode) == Ok::<
                Option<ProfileInferenceView>,
                MtkError,
            >(Some(p@)),
            Ok(None) => try_infer_profile_spec(inflated_sizes@, screen_hint, screen_hint_mode) == Ok::<
                Option<ProfileInferenceView>,
                MtkError,
            >(None),
            Err(e) => try_infer_profile_spec(inflated_sizes@, screen_hint, screen_hint_mode) == Err::<
                Option<ProfileInferenceView>,
                MtkError,
            >(e),
        },
{
    let n = inflated_sizes.len();
    if n > MAX_PROFILED_SLOTS {
        return Err(MtkError::TooManySlots { count: n });
    }
    if let Some(hint) = screen_hint {
        let pixels = product(hint.width, hint.height);
        if pixels > 0xFFFF_FFFFu64 {
            let mut i: usize = 0;
            while i < n
                invariant
                    n == inflated_sizes@.len(),
                    n <= MAX_PROFILED_SLOTS,
                    screen_hint == Some(hint),
                    pixels == hint.width * hint.height,
                    pixels > u32::MAX,
                    i <= n,
                    forall|j: int| 0 <= j < i ==> hint_in_range(#[trigger] inflated_sizes@[j], screen_hint),
                decreases n - i,
            {
                if inflated_sizes[i] % 2 == 0 {
                    proof {
                        assert(is_first_out_of_range(inflated_sizes@, screen_hint, i as int));
                        let c = choose|c: int| is_first_out_of_range(inflated_sizes@, screen_hint, c);
                        if c < i {
                            assert(hint_in_range(inflated_sizes@[c], screen_hint));
                        } else if c > i {
                            assert(hint_in_range(inflated_sizes@[i as int], screen_hint));
                        }
                    }
                    return Err(MtkError::ScreenHintTooLarge { size: inflated_sizes[i] });
                }
                i = i + 1;
            }
        }
    }
    assert(forall|j: int| 0 <= j < n ==> hint_in_range(#[trigger] inflated_sizes@[j], screen_hint));
    assert(!exists|i: int| is_first_out_of_range(inflated_sizes@, screen_hint, i));
    proof {
        lemma_infer_in_range(inflated_sizes@, screen_hint, screen_hint_mode);
    }
    Ok(infer_profile(inflated_sizes, screen_hint, screen_hint_mode))
}

/// The untitled format of inferred dimensions.
pub open spec fn untitled_format(f: InferredFormat) -> FormatView {
    FormatView { w: f.width, h: f.height, t: None }
}

impl ProfileInference {
    /// The configuration profile `name` of this inference: its color model
    /// and its formats, untitled, without other names.
    pub fn to_profile(&self, name: &str) -> (r: Profile)
        ensures
            r@ == (ProfileView {
                name: name@,
                color_model: mode_name(self.mode),
                alias: None,
                formats: self.formats@.map_values(|f: InferredFormat| untitled_format(f)),
            }),
    {
        let mut formats: Vec<Format> = Vec::new();
        let n = self.formats.len();
        let mut i: usize = 0;
        while i < n
            invariant
                n == self.formats@.len(),
                i <= n,
                formats_view(formats@) == self.formats@.take(i as int).map_values(|f: InferredFormat| untitled_format(f)),
            decreases n - i,
        {
            let f = self.formats[i];
            let ghost before = formats_view(formats@);
            formats.push(Format { w: f.width, h: f.height, t: None });
            assert(formats_view(formats@) =~= before.push(untitled_format(f)));
            assert(self.formats@.take(i + 1).map_values(|f: InferredFormat| untitled_format(f)) =~= self.formats@.take(i as int).map_values(|f: InferredFormat| untitled_format(f)).push(untitled_format(f)));
            i = i + 1;
        }
        assert(self.formats@.take(n as int) =~= self.formats@);
        Profile { name: name.to_owned(), color_model: self.mode.name(), alias: None, formats }
    }
}

/// A size that no candidate explains (with the hint only preferred).
pub open spec fn unresolved(size: u32, hint: Option<ScreenHint>) -> bool {
    scored_candidates_spec(size, hint, ScreenHintMode::Prefer).len() == 0
}

/// The sizes among the first `k` that no candidate explains, as a set.
pub open spec fn is_unresolved_among(sizes: Seq<u32>, hint: Option<ScreenHint>, k: int, x: u32) -> bool {
    exists|i: int| 0 <= i < k && sizes[i] == x && #[trigger] unresolved(sizes[i], hint)
}

/// The distinct sizes that no candidate explains, in increasing order.
pub fn unresolved_sizes(sizes: &[u32], screen_hint: Option<ScreenHint>) -> (r: Vec<u32>)
    requires
        forall|i: int| 0 <= i < sizes@.len() ==> hint_in_range(#[trigger] sizes@[i], screen_hint),
    ensures
        forall|i: int, j: int| 0 <= i < j < r@.len() ==> r@[i] < r@[j],
        forall|x: u32| r@.contains(x) <==> is_unresolved_among(sizes@, screen_hint, sizes@.len() as int, x),
{
    let n = sizes.len();
    let mut r: Vec<u32> = Vec::new();
    let mut k: usize = 0;
    while k < n
        invariant
            n == sizes@.len(),
            forall|i: int| 0 <= i < n ==> hint_in_range(#[trigger] sizes@[i], screen_hint),
            k <= n,
            forall|i: int, j: int| 0 <= i < j < r@.len() ==> r@[i] < r@[j],
            forall|x: u32| r@.contains(x) <==> is_unresolved_among(sizes@, screen_hint, k as int, x),
        decreases n - k,
    {
        let x = sizes[k];
        let empty = scored_candidates(x, screen_hint, ScreenHintMode::Prefer).len() == 0;
        let ghost before = r@;
        if empty {
            let mut j: usize = 0;
            while j < r.len() && r[j] < x
                invariant
                    j <= r@.len(),
                    forall|i: int| 0 <= i < j ==> r@[i] < x,
                decreases r@.len() - j,
            {
                j = j + 1;
            }
            if j == r.len() || r[j] != x {
                r.insert(j, x);
                assert forall|a: int, b: int| 0 <= a < b < r@.len() implies r@[a] < r@[b] by {
                    if b < j as int {
                        assert(r@[a] == before[a] && r@[b] == before[b]);
                    } else if b == j as int {
                        assert(r@[a] == before[a]);
                    } else if a < j as int {
                        assert(r@[a] == before[a] && r@[b] == before[b - 1]);
                        assert(before[a] < before[j as int]);
                        assert(before[j as int] <= before[b - 1]) by {
                            if j as int != b - 1 {
                                assert(before[j as int] < before[b - 1]);
                            }
                        }
                    } else if a == j as int {
                        assert(r@[b] == before[b - 1]);
                        assert(x <= before[j as int]);
                        if j as int != b - 1 {
                            assert(before[j as int] < before[b - 1]);
                        }
                    } else {
                        assert(r@[a] == before[a - 1] && r@[b] == before[b - 1]);
                    }
                }
                assert forall|y: u32| r@.contains(y) <==> (before.contains(y) || y == x) by {
                    if r@.contains(y) {
                        let p = choose|p: int| 0 <= p < r@.len() && r@[p] == y;
                        if p < j as int {
                            assert(before[p] == y);
                        } else if p > j as int {
                            assert(before[p - 1] == y);
                        }
                    }
                    if before.contains(y) {
                        let p = choose|p: int| 0 <= p < before.len() && before[p] == y;
                        if p < j as int {
                            assert(r@[p] == y);
                        } else {
                            assert(r@[p + 1] == y);
                        }
                    }
                    if y == x {
                        assert(r@[j as int] == x);
                    }
                }
            } else {
                assert(before[j as int] == x);
            }
        }
        assert forall|y: u32| r@.contains(y) <==> is_unresolved_among(sizes@, screen_hint, k + 1, y) by {
            if is_unresolved_among(sizes@, screen_hint, k + 1, y) {
                let i = choose|i: int| 0 <= i < k + 1 && sizes@[i] == y && #[trigger] unresolved(sizes@[i], screen_hint);
                if i < k {
                    assert(is_unresolved_among(sizes@, screen_hint, k as int, y));
                }
            }
            if before.contains(y) {
                let i = choose|i: int| 0 <= i < k && sizes@[i] == y && #[trigger] unresolved(sizes@[i], screen_hint);
                assert(0 <= i < k + 1);
            }
            if empty && y == x {
                assert(sizes@[k as int] == y && unresolved(sizes@[k as int], screen_hint));
            }
            if !empty && is_unresolved_among(sizes@, screen_hint, k + 1, y) && !before.contains(y) {
                let i = choose|i: int| 0 <= i < k + 1 && sizes@[i] == y && #[trigger] unresolved(sizes@[i], screen_hint);
                assert(i == k);
            }
        }
        k = k + 1;
    }
    r
}

} // verus!
