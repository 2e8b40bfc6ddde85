//! The 512-byte MTK header that starts every MTK partition image.
//!
//! Layout: the magic bytes `88 16 88 58`, the little-endian size of the block
//! that follows the header, the partition type name zero-padded to 32 bytes,
//! and `0xff` filling up to 512 bytes.
use vstd::prelude::*;
use crate::codec::{le_bytes, lemma_le_roundtrip, push_u32_le, read_u32_le, u32_at};
use crate::error::MtkError;

verus! {

/// The number of bytes of an MTK header.
pub const MTK_HEADER_SIZE: usize = 512;

/// The number of bytes of the type name field.
pub const TYPE_FIELD_SIZE: usize = 32;

/// The partition type that an MTK header names.
#[derive(Clone, Copy, Debug, PartialEq, Eq, Structural)]
pub enum MtkType {
    LOGO,
    RECOVERY,
    ROOTFS,
    KERNEL,
}

/// The meaningful part of an MTK header: the size of the block it precedes, and its type.
#[derive(Clone, Copy, Debug, PartialEq, Eq, Structural)]
pub struct MtkHeader {
    pub size: u32,
    pub mtk_type: MtkType,
}

pub open spec fn magic() -> Seq<u8> {
    seq![0x88u8, 0x16u8, 0x88u8, 0x58u8]
}

/// The ASCII name of a partition type.
pub open spec fn partition_name(t: MtkType) -> Seq<u8> {
    match t {
        MtkType::LOGO => seq![76u8, 79u8, 71u8, 79u8],
        MtkType::RECOVERY => seq![82u8, 69u8, 67u8, 79u8, 86u8, 69u8, 82u8, 89u8],
        MtkType::ROOTFS => seq![82u8, 79u8, 79u8, 84u8, 70u8, 83u8],
        MtkType::KERNEL => seq![75u8, 69u8, 82u8, 78u8, 69u8, 76u8],
    }
}

/// The 32-byte type field: the name followed by zeros.
pub open spec fn type_field(t: MtkType) -> Seq<u8> {
    partition_name(t) + Seq::new((32 - partition_name(t).len()) as nat, |i: int| 0u8)
}

/// The bytes after the type field, up to the end of the header.
pub open spec fn header_padding() -> Seq<u8> {
    Seq::new(472, |i: int| 0xffu8)
}

/// The 512 bytes that encode `h`.
pub open spec fn header_bytes(h: MtkHeader) -> Seq<u8> {
    magic() + le_bytes(h.size) + type_field(h.mtk_type) + header_padding()
}

/// The type whose field is `f`, if any.
pub open spec fn type_of_field(f: Seq<u8>) -> Option<MtkType> {
    if f == type_field(MtkType::LOGO) {
        Some(MtkType::LOGO)
    } else if f == type_field(MtkType::RECOVERY) {
        Some(MtkType::RECOVERY)
    } else if f == type_field(MtkType::ROOTFS) {
        Some(MtkType::ROOTFS)
    } else if f == type_field(MtkType::KERNEL) {
        Some(MtkType::KERNEL)
    } else {
        None
    }
}

/// What reading an MTK header from the start of `d` gives.
pub open spec fn parse_header(d: Seq<u8>) -> Result<MtkHeader, MtkError> {
    if d.len() < 512 {
        Err(MtkError::UnexpectedEof)
    } else if d.subrange(0, 4) != magic() {
        Err(MtkError::BadMagic)
    } else {
        match type_of_field(d.subrange(8, 40)) {
            None => Err(MtkError::UnknownType),
            Some(t) => Ok(MtkHeader { size: u32_at(d, 4), mtk_type: t }),
        }
    }
}

/// Whether `d[start..start + expected.len()]` equals `expected`.
fn bytes_match(d: &[u8], start: usize, expected: &Vec<u8>) -> (r: bool)
    requires
        start + expected@.len() <= d@.len(),
    ensures
        r == (d@.subrange(start as int, start + expected@.len()) == expected@),
{
    let n = expected.len();
    let dl = d.len();
    let mut i: usize = 0;
    while i < n
        invariant
            dl == d@.len(),
            i <= n,
            n == expected@.len(),
            start + n <= d@.len(),
            forall|j: int| 0 <= j < i ==> d@[start + j] == expected@[j],
        decreases n - i,
    {
        if d[start + i] != expected[i] {
            assert(d@.subrange(start as int, start + n)[i as int] != expected@[i as int]);
            return false;
        }
        i = i + 1;
    }
    assert(d@.subrange(start as int, start + n) =~= expected@);
    true
}

fn magic_bytes() -> (r: Vec<u8>)
    ensures
        r@ == magic(),
{
    let r = vec![0x88u8, 0x16u8, 0x88u8, 0x58u8];
    assert(r@ =~= magic());
    r
}

/// The 32-byte type field of `t`.
fn type_field_bytes(t: MtkType) -> (r: Vec<u8>)
    ensures
        r@ == type_field(t),
{
    let mut r = match t {
        MtkType::LOGO => vec![76u8, 79u8, 71u8, 79u8],
        MtkType::RECOVERY => vec![82u8, 69u8, 67u8, 79u8, 86u8, 69u8, 82u8, 89u8],
        MtkType::ROOTFS => vec![82u8, 79u8, 79u8, 84u8, 70u8, 83u8],
        MtkType::KERNEL => vec![75u8, 69u8, 82u8, 78u8, 69u8, 76u8],
    };
    assert(r@ =~= partition_name(t));
    let ghost name = r@;
    while r.len() < TYPE_FIELD_SIZE
        invariant
            name == partition_name(t),
            name.len() <= r@.len() <= 32,
            r@.subrange(0, name.len() as int) == name,
            forall|j: int| name.len() <= j < r@.len() ==> r@[j] == 0u8,
        decreases 32 - r@.len(),
    {
        r.push(0u8);
    }
    assert(r@ =~= type_field(t));
    r
}

impl MtkHeader {
    /// Reads an MTK header from the start of `data`.
    pub fn read(data: &[u8]) -> (r: Result<MtkHeader, MtkError>)
        ensures
            r == parse_header(data@),
    {
        if data.len() < MTK_HEADER_SIZE {
            return Err(MtkError::UnexpectedEof);
        }
        if !bytes_match(data, 0, &magic_bytes()) {
            return Err(MtkError::BadMagic);
        }
        let size = read_u32_le(data, 4);
        let t = if bytes_match(data, 8, &type_field_bytes(MtkType::LOGO)) {
            MtkType::LOGO
        } else if bytes_match(data, 8, &type_field_bytes(MtkType::RECOVERY)) {
            MtkType::RECOVERY
        } else if bytes_match(data, 8, &type_field_bytes(MtkType::ROOTFS)) {
            MtkType::ROOTFS
        } else if bytes_match(data, 8, &type_field_bytes(MtkType::KERNEL)) {
            MtkType::KERNEL
        } else {
            return Err(MtkError::UnknownType);
        };
        Ok(MtkHeader { size, mtk_type: t })
    }

    /// Appends the 512 bytes of this header to `out`.
    pub fn write(&self, out: &mut Vec<u8>)
        ensures
            final(out)@ == old(out)@ + header_bytes(*self),
    {
        let ghost start = out@;
        let mb = magic_bytes();
        let mut i: usize = 0;
        while i < 4
            invariant
                mb@ == magic(),
                i <= 4,
                out@ == start + magic().subrange(0, i as int),
            decreases 4 - i,
        {
            out.push(mb[i]);
            i = i + 1;
            assert(magic().subrange(0, i as int) =~= magic().subrange(0, i - 1).push(magic()[i - 1]));
        }
        push_u32_le(out, self.size);
        let field = type_field_bytes(self.mtk_type);
        let ghost before_field = out@;
        i = 0;
        while i < TYPE_FIELD_SIZE
            invariant
                field@ == type_field(self.mtk_type),
                field@.len() == 32,
                i <= 32,
                out@ == before_field + field@.subrange(0, i as int),
            decreases 32 - i,
        {
            out.push(field[i]);
            i = i + 1;
            assert(field@.subrange(0, i as int) =~= field@.subrange(0, i - 1).push(field@[i - 1]));
        }
        let ghost before_pad = out@;
        i = 0;
        while i < 472
            invariant
                i <= 472,
                out@ == before_pad + Seq::new(i as nat, |j: int| 0xffu8),
            decreases 472 - i,
        {
            out.push(0xffu8);
            i = i + 1;
            assert(Seq::new(i as nat, |j: int| 0xffu8) =~= Seq::new((i - 1) as nat, |j: int| 0xffu8).push(0xffu8));
        }
        assert(magic().subrange(0, 4) =~= magic());
        assert(field@.subrange(0, 32) =~= field@);
        assert(out@ =~= start + header_bytes(*self));
    }
}

/// Reading the bytes of a header, whatever follows them, gives the header back.
pub proof fn lemma_header_roundtrip(h: MtkHeader, rest: Seq<u8>)
    ensures
        header_bytes(h).len() == MTK_HEADER_SIZE,
        parse_header(header_bytes(h) + rest) == Ok::<MtkHeader, MtkError>(h),
{
    lemma_le_roundtrip(h.size);
    let d = header_bytes(h) + rest;
    assert(type_field(h.mtk_type).len() == 32);
    assert(d.subrange(0, 4) =~= magic());
    assert(d.subrange(8, 40) =~= type_field(h.mtk_type));
    assert(d.subrange(4, 8) =~= le_bytes(h.size));
    // the type fields of distinct types differ in their first two bytes
    assert(type_field(MtkType::LOGO)[0] == 76u8);
    assert(type_field(MtkType::RECOVERY)[0] == 82u8);
    assert(type_field(MtkType::ROOTFS)[0] == 82u8);
    assert(type_field(MtkType::KERNEL)[0] == 75u8);
    assert(type_field(MtkType::RECOVERY)[1] == 69u8);
    assert(type_field(MtkType::ROOTFS)[1] == 79u8);
}

} // verus!
