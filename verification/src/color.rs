//! The pixel color modes of logo slots, and their names.
use vstd::prelude::*;
use crate::error::MtkError;

verus! {

/// The byte order of a pixel.
#[derive(Clone, Copy, Debug, PartialEq, Eq, Structural)]
pub enum Endian {
    Big,
    Little,
}

/// How a pixel is stored in a slot.
#[derive(Clone, Copy, Debug, PartialEq, Eq, Structural)]
pub enum ColorMode {
    Rgba(Endian),
    Bgra(Endian),
    Rgb565(Endian),
}

/// The number of bytes of one pixel.
pub open spec fn spec_bytes_per_pixel(m: ColorMode) -> u32 {
    match m {
        ColorMode::Rgb565(_) => 2,
        _ => 4,
    }
}

/// The name of a color mode, as in configuration files and slot file names.
pub open spec fn mode_name(m: ColorMode) -> Seq<char> {
    match m {
        ColorMode::Rgba(Endian::Big) => seq!['r', 'g', 'b', 'a', 'b', 'e'],
        ColorMode::Rgba(Endian::Little) => seq!['r', 'g', 'b', 'a', 'l', 'e'],
        ColorMode::Bgra(Endian::Big) => seq!['b', 'g', 'r', 'a', 'b', 'e'],
        ColorMode::Bgra(Endian::Little) => seq!['b', 'g', 'r', 'a', 'l', 'e'],
        ColorMode::Rgb565(Endian::Big) => seq!['r', 'g', 'b', '5', '6', '5', 'b', 'e'],
        ColorMode::Rgb565(Endian::Little) => seq!['r', 'g', 'b', '5', '6', '5', 'l', 'e'],
    }
}

/// Every color mode, in the order `ColorMode::enumerate` lists them.
pub open spec fn all_modes() -> Seq<ColorMode> {
    seq![
        ColorMode::Rgba(Endian::Big),
        ColorMode::Rgba(Endian::Little),
        ColorMode::Bgra(Endian::Big),
        ColorMode::Bgra(Endian::Little),
        ColorMode::Rgb565(Endian::Big),
        ColorMode::Rgb565(Endian::Little),
    ]
}

/// The color mode named `name`, if any.
pub open spec fn mode_of_name(name: Seq<char>) -> Result<ColorMode, MtkError> {
    if exists|m: ColorMode| mode_name(m) == name {
        Ok(choose|m: ColorMode| mode_name(m) == name)
    } else {
        Err(MtkError::UnknownColorMode)
    }
}

/// Distinct color modes have distinct names.
pub proof fn lemma_mode_names_distinct(a: ColorMode, b: ColorMode)
    ensures
        mode_name(a) == mode_name(b) ==> a == b,
{
    if mode_name(a) == mode_name(b) {
        let na = mode_name(a);
        let nb = mode_name(b);
        assert(na.len() == nb.len());
        assert(na[0] == nb[0]);
        assert(na[3] == nb[3]);
        assert(na[na.len() - 2] == nb[nb.len() - 2]);
    }
}

/// Naming a mode and looking the name up gives the mode back.
pub proof fn lemma_name_roundtrip(m: ColorMode)
    ensures
        mode_of_name(mode_name(m)) == Ok::<ColorMode, MtkError>(m),
{
    let c = choose|k: ColorMode| mode_name(k) == mode_name(m);
    lemma_mode_names_distinct(c, m);
}

impl ColorMode {
    /// The number of bytes of one pixel.
    pub fn bytes_per_pixel(&self) -> (r: u32)
        ensures
            r == spec_bytes_per_pixel(*self),
    {
        match self {
            ColorMode::Rgb565(_) => 2,
            _ => 4,
        }
    }

    /// The name of this mode (what `Display` shows).
    pub fn name(&self) -> (r: String)
        ensures
            r@ == mode_name(*self),
    {
        let s = match self {
            ColorMode::Rgba(Endian::Big) => "rgbabe",
            ColorMode::Rgba(Endian::Little) => "rgbale",
            ColorMode::Bgra(Endian::Big) => "bgrabe",
            ColorMode::Bgra(Endian::Little) => "bgrale",
            ColorMode::Rgb565(Endian::Big) => "rgb565be",
            ColorMode::Rgb565(Endian::Little) => "rgb565le",
        };
        proof {
            reveal_strlit("rgbabe");
            reveal_strlit("rgbale");
            reveal_strlit("bgrabe");
            reveal_strlit("bgrale");
            reveal_strlit("rgb565be");
            reveal_strlit("rgb565le");
        }
        let r = s.to_owned();
        assert(r@ =~= mode_name(*self));
        r
    }

    /// Every color mode.
    pub fn enumerate() -> (r: Vec<ColorMode>)
        ensures
            r@ == all_modes(),
    {
        let r = vec![
            ColorMode::Rgba(Endian::Big),
            ColorMode::Rgba(Endian::Little),
            ColorMode::Bgra(Endian::Big),
            ColorMode::Bgra(Endian::Little),
            ColorMode::Rgb565(Endian::Big),
            ColorMode::Rgb565(Endian::Little),
        ];
        assert(r@ =~= all_modes());
        r
    }

    /// The color mode named `name`.
    pub fn by_name(name: &str) -> (r: Result<ColorMode, MtkError>)
        ensures
            r == mode_of_name(name@),
    {
        let wanted = name.to_owned();
        let modes = ColorMode::enumerate();
        let mut i: usize = 0;
        while i < modes.len()
            invariant
                modes@ == all_modes(),
                wanted@ == name@,
                i <= modes@.len(),
                forall|j: int| 0 <= j < i ==> mode_name(#[trigger] modes@[j]) != name@,
            decreases modes@.len() - i,
        {
            let m = modes[i];
            if m.name() == wanted {
                proof {
                    lemma_name_roundtrip(m);
                }
                return Ok(m);
            }
            i = i + 1;
        }
        proof {
            if exists|m: ColorMode| mode_name(m) == name@ {
                let m = choose|m: ColorMode| mode_name(m) == name@;
                assert(all_modes().contains(m)) by {
                    match m {
                        ColorMode::Rgba(Endian::Big) => assert(all_modes()[0] == m),
                        ColorMode::Rgba(Endian::Little) => assert(all_modes()[1] == m),
                        ColorMode::Bgra(Endian::Big) => assert(all_modes()[2] == m),
                        ColorMode::Bgra(Endian::Little) => assert(all_modes()[3] == m),
                        ColorMode::Rgb565(Endian::Big) => assert(all_modes()[4] == m),
                        ColorMode::Rgb565(Endian::Little) => assert(all_modes()[5] == m),
                    }
                }
                let k = choose|k: int| 0 <= k < 6 && all_modes()[k] == m;
                assert(mode_name(modes@[k]) != name@);
            }
        }
        Err(MtkError::UnknownColorMode)
    }
}

} // verus!
