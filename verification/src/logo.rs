//! The logo table and the whole logo image (table and slots).
//!
//! After the MTK header come the number of slots, the block size (the number
//! of bytes after the header) and one offset per slot, all little-endian
//! `u32`. Offsets count from the end of the header. Slot `i` spans from its
//! offset to the next slot's offset, or to the block size for the last slot.
use vstd::prelude::*;
use crate::codec::{le_bytes, lemma_le_roundtrip, lemma_u32_at_encoding, push_u32_le, read_u32_le, u32_at};
use crate::error::MtkError;
use crate::header::{header_bytes, lemma_header_roundtrip, parse_header, MtkHeader, MtkType, MTK_HEADER_SIZE};

verus! {

/// Where the slot count starts: just after the MTK header.
pub const TABLE_START: usize = 512;

/// The logo table: the MTK header and what describes the slots.
/// Padding and other bytes without meaning are not kept.
#[derive(Debug)]
pub struct LogoTable {
    /// The MTK header.
    pub header: MtkHeader,
    /// The number of slots.
    pub logo_count: u32,
    /// The number of bytes after the MTK header.
    pub block_size: u32,
    /// The offset of each slot, from the end of the MTK header.
    pub offsets: Vec<u32>,
}

/// A logo table as a mathematical value.
pub struct LogoTableView {
    pub header: MtkHeader,
    pub logo_count: u32,
    pub block_size: u32,
    pub offsets: Seq<u32>,
}

impl View for LogoTable {
    type V = LogoTableView;

    open spec fn view(&self) -> LogoTableView {
        LogoTableView {
            header: self.header,
            logo_count: self.logo_count,
            block_size: self.block_size,
            offsets: self.offsets@,
        }
    }
}

/// A whole logo image: its table and the bytes of each slot.
pub struct LogoImage {
    pub table: LogoTable,
    pub blobs: Vec<Vec<u8>>,
}

/// The contents of each slot.
pub open spec fn blobs_view(v: Seq<Vec<u8>>) -> Seq<Seq<u8>> {
    v.map_values(|b: Vec<u8>| b@)
}

/// A logo image as a mathematical value.
pub struct LogoImageView {
    pub table: LogoTableView,
    pub blobs: Seq<Seq<u8>>,
}

impl View for LogoImage {
    type V = LogoImageView;

    open spec fn view(&self) -> LogoImageView {
        LogoImageView { table: self.table@, blobs: blobs_view(self.blobs@) }
    }
}

// ---------------------------------------------------------------------------
// The format, as spec functions.

/// Whether offset `i` breaks the table's rules: beyond the block, or below the previous offset.
pub open spec fn offset_is_bad(offsets: Seq<u32>, block_size: u32, i: int) -> bool {
    offsets[i] > block_size || (i > 0 && offsets[i] < offsets[i - 1])
}

/// Whether `i` is the first offset that breaks the table's rules.
pub open spec fn is_first_bad(offsets: Seq<u32>, block_size: u32, i: int) -> bool {
    &&& 0 <= i < offsets.len()
    &&& offset_is_bad(offsets, block_size, i)
    &&& forall|j: int| 0 <= j < i ==> !offset_is_bad(offsets, block_size, j)
}

/// What checking a table gives: the count must match the offsets, and the
/// offsets must lie within the block, in increasing order; the first
/// offset that breaks a rule names the error.
pub open spec fn validate_table(t: LogoTableView) -> Result<(), MtkError> {
    if t.offsets.len() != t.logo_count {
        Err(MtkError::OffsetCountMismatch)
    } else if exists|i: int| is_first_bad(t.offsets, t.block_size, i) {
        let i = choose|i: int| is_first_bad(t.offsets, t.block_size, i);
        if t.offsets[i] > t.block_size {
            Err(MtkError::OffsetExceedsBlock { index: i as usize })
        } else {
            Err(MtkError::OffsetsNotOrdered)
        }
    } else {
        Ok(())
    }
}

/// A table that describes a logo, with consistent sizes and valid offsets.
pub open spec fn table_is_valid(t: LogoTableView) -> bool {
    &&& t.header.mtk_type == MtkType::LOGO
    &&& t.header.size == t.block_size
    &&& t.offsets.len() == t.logo_count
    &&& forall|i: int| 0 <= i < t.offsets.len() ==> t.offsets[i] <= t.block_size
    &&& forall|i: int, j: int| 0 <= i <= j < t.offsets.len() ==> t.offsets[i] <= t.offsets[j]
}

/// What reading a logo table from the start of `d` gives.
pub open spec fn parse_table(d: Seq<u8>) -> Result<LogoTableView, MtkError> {
    match parse_header(d) {
        Err(e) => Err(e),
        Ok(h) => {
            if h.mtk_type != MtkType::LOGO {
                Err(MtkError::NotALogo)
            } else if d.len() < 520 {
                Err(MtkError::UnexpectedEof)
            } else {
                let count = u32_at(d, 512);
                let block = u32_at(d, 516);
                if block != h.size {
                    Err(MtkError::SizeMismatch { header_size: h.size, block_size: block })
                } else if d.len() < 520 + 4 * count {
                    Err(MtkError::UnexpectedEof)
                } else {
                    let t = LogoTableView {
                        header: h,
                        logo_count: count,
                        block_size: block,
                        offsets: Seq::new(count as nat, |i: int| u32_at(d, 520 + 4 * i)),
                    };
                    match validate_table(t) {
                        Ok(_) => Ok(t),
                        Err(e) => Err(e),
                    }
                }
            }
        }
    }
}

/// The bytes of a sequence of offsets.
pub open spec fn offsets_bytes(s: Seq<u32>) -> Seq<u8>
    decreases s.len(),
{
    if s.len() == 0 {
        Seq::empty()
    } else {
        offsets_bytes(s.drop_last()) + le_bytes(s.last())
    }
}

/// The bytes of a table: header, count, block size, offsets.
pub open spec fn table_bytes(t: LogoTableView) -> Seq<u8> {
    header_bytes(t.header) + le_bytes(t.logo_count) + le_bytes(t.block_size) + offsets_bytes(t.offsets)
}

/// Where slot `i` starts and ends, from the end of the header.
pub open spec fn blob_bounds(t: LogoTableView, i: usize) -> Result<(u32, u32), MtkError> {
    if i >= t.offsets.len() {
        Err(MtkError::BlobIndexOutOfRange { index: i })
    } else {
        let offset = t.offsets[i as int];
        let next = if i + 1 < t.offsets.len() { t.offsets[i + 1] } else { t.block_size };
        if next < offset {
            Err(MtkError::OffsetsNotOrdered)
        } else {
            Ok((offset, next))
        }
    }
}

/// What reading slot `i` of the image `d` gives: the bytes between its
/// bounds (after the header); an empty slot is read without touching the
/// data, wherever its bounds lie.
pub open spec fn read_blob_spec(t: LogoTableView, d: Seq<u8>, i: usize) -> Result<Seq<u8>, MtkError> {
    match blob_bounds(t, i) {
        Err(e) => Err(e),
        Ok((offset, next)) => {
            if next == offset {
                Ok(Seq::empty())
            } else if 512 + next > d.len() {
                Err(MtkError::UnexpectedEof)
            } else {
                Ok(d.subrange(512 + offset, 512 + next))
            }
        }
    }
}

/// What reading the first `k` slots in order gives; the first failure wins.
pub open spec fn read_blobs_upto(t: LogoTableView, d: Seq<u8>, k: nat) -> Result<Seq<Seq<u8>>, MtkError>
    decreases k,
{
    if k == 0 {
        Ok(Seq::empty())
    } else {
        match read_blobs_upto(t, d, (k - 1) as nat) {
            Err(e) => Err(e),
            Ok(s) => match read_blob_spec(t, d, (k - 1) as usize) {
                Err(e) => Err(e),
                Ok(b) => Ok(s.push(b)),
            },
        }
    }
}

/// What reading all `logo_count` slots gives.
pub open spec fn read_blobs_spec(t: LogoTableView, d: Seq<u8>) -> Result<Seq<Seq<u8>>, MtkError> {
    read_blobs_upto(t, d, t.logo_count as nat)
}

/// What reading a whole logo image from `d` gives.
pub open spec fn parse_image(d: Seq<u8>) -> Result<LogoImageView, MtkError> {
    match parse_table(d) {
        Err(e) => Err(e),
        Ok(t) => match read_blobs_spec(t, d) {
            Err(e) => Err(e),
            Ok(b) => Ok(LogoImageView { table: t, blobs: b }),
        },
    }
}

/// The concatenation of the slots.
pub open spec fn concat_blobs(b: Seq<Seq<u8>>) -> Seq<u8>
    decreases b.len(),
{
    if b.len() == 0 {
        Seq::empty()
    } else {
        concat_blobs(b.drop_last()) + b.last()
    }
}

/// The total number of bytes of the slots.
pub open spec fn total_len(b: Seq<Seq<u8>>) -> int
    decreases b.len(),
{
    if b.len() == 0 {
        0
    } else {
        total_len(b.drop_last()) + b.last().len()
    }
}

/// The bytes of an image: its table, then its slots one after the other.
pub open spec fn image_bytes(img: LogoImageView) -> Seq<u8> {
    table_bytes(img.table) + concat_blobs(img.blobs)
}

/// The offset of the first slot of an image of `n` slots: after the count, the block size and `n` offsets.
pub open spec fn first_offset(n: nat) -> int {
    4 * (2 + n as int)
}

/// Whether an image of these slots fits the format: every offset and the block size are `u32`.
pub open spec fn blobs_fit(b: Seq<Seq<u8>>) -> bool {
    first_offset(b.len()) + total_len(b) <= u32::MAX
}

/// The table that lays the slots `b` out one after the other, right after the offsets.
pub open spec fn layout_table(b: Seq<Seq<u8>>) -> LogoTableView {
    let block = (first_offset(b.len()) + total_len(b)) as u32;
    LogoTableView {
        header: MtkHeader { size: block, mtk_type: MtkType::LOGO },
        logo_count: b.len() as u32,
        block_size: block,
        offsets: Seq::new(b.len(), |i: int| (first_offset(b.len()) + total_len(b.take(i))) as u32),
    }
}

/// The image made of the slots `b`.
pub open spec fn layout_image(b: Seq<Seq<u8>>) -> LogoImageView {
    LogoImageView { table: layout_table(b), blobs: b }
}

// ---------------------------------------------------------------------------
// Lemmas on the format.

/// The first bad offset is unique, so it is the one `choose` picks.
proof fn lemma_first_bad_is_chosen(offsets: Seq<u32>, block_size: u32, i: int)
    requires
        is_first_bad(offsets, block_size, i),
    ensures
        (choose|i: int| is_first_bad(offsets, block_size, i)) == i,
{
    let k = choose|i: int| is_first_bad(offsets, block_size, i);
    assert(is_first_bad(offsets, block_size, k));
    if k < i {
        assert(!offset_is_bad(offsets, block_size, k));
    } else if k > i {
        assert(!offset_is_bad(offsets, block_size, i));
    }
}

/// A table passes the check exactly when its count matches and its offsets are in the block and in order.
proof fn lemma_validate_ok(t: LogoTableView)
    ensures
        validate_table(t) is Ok <==> (
            t.offsets.len() == t.logo_count
            && forall|i: int| 0 <= i < t.offsets.len() ==> !offset_is_bad(t.offsets, t.block_size, i)),
{
    if t.offsets.len() == t.logo_count {
        if exists|i: int| 0 <= i < t.offsets.len() && offset_is_bad(t.offsets, t.block_size, i) {
            let w = choose|i: int| 0 <= i < t.offsets.len() && offset_is_bad(t.offsets, t.block_size, i);
            lemma_some_first_bad(t.offsets, t.block_size, w);
        }
    }
}

/// Where some offset is bad, a first bad offset exists.
proof fn lemma_some_first_bad(offsets: Seq<u32>, block_size: u32, w: int)
    requires
        0 <= w < offsets.len(),
        offset_is_bad(offsets, block_size, w),
    ensures
        exists|i: int| is_first_bad(offsets, block_size, i),
    decreases w,
{
    if forall|j: int| 0 <= j < w ==> !offset_is_bad(offsets, block_size, j) {
        assert(is_first_bad(offsets, block_size, w));
    } else {
        let v = choose|j: int| 0 <= j < w && offset_is_bad(offsets, block_size, j);
        lemma_some_first_bad(offsets, block_size, v);
    }
}

/// Offsets that are each no smaller than the previous one are in order.
proof fn lemma_sorted_from_steps(offsets: Seq<u32>, block_size: u32)
    requires
        forall|i: int| 0 <= i < offsets.len() ==> !offset_is_bad(offsets, block_size, i),
    ensures
        forall|i: int, j: int| 0 <= i <= j < offsets.len() ==> offsets[i] <= offsets[j],
{
    assert forall|i: int, j: int| 0 <= i <= j < offsets.len() implies offsets[i] <= offsets[j] by {
        lemma_sorted_step(offsets, block_size, i, j);
    }
}

proof fn lemma_sorted_step(offsets: Seq<u32>, block_size: u32, i: int, j: int)
    requires
        forall|k: int| 0 <= k < offsets.len() ==> !offset_is_bad(offsets, block_size, k),
        0 <= i <= j < offsets.len(),
    ensures
        offsets[i] <= offsets[j],
    decreases j - i,
{
    if i < j {
        lemma_sorted_step(offsets, block_size, i, j - 1);
        assert(!offset_is_bad(offsets, block_size, j));
    }
}

/// Once reading the slots fails, reading more of them fails the same way.
proof fn lemma_upto_err_persists(t: LogoTableView, d: Seq<u8>, k1: nat, k2: nat)
    requires
        k1 <= k2,
        read_blobs_upto(t, d, k1) is Err,
    ensures
        read_blobs_upto(t, d, k2) == read_blobs_upto(t, d, k1),
    decreases k2 - k1,
{
    if k1 < k2 {
        lemma_upto_err_persists(t, d, k1, (k2 - 1) as nat);
    }
}

/// Law: reading the first `k` slots succeeds exactly when each of them reads,
/// and gives slot `j`'s bytes at `j`; when it fails, it fails with the error
/// of the first slot that does not read.
pub proof fn lemma_read_blobs_closed_form(t: LogoTableView, d: Seq<u8>, k: nat)
    requires
        k <= t.logo_count,
    ensures
        read_blobs_upto(t, d, k) is Ok <==> forall|j: int| 0 <= j < k ==> (#[trigger] read_blob_spec(t, d, j as usize)) is Ok,
        read_blobs_upto(t, d, k) matches Ok(s) ==> s.len() == k && forall|j: int|
            0 <= j < k ==> read_blob_spec(t, d, j as usize) == Ok::<Seq<u8>, MtkError>(#[trigger] s[j]),
        read_blobs_upto(t, d, k) matches Err(e) ==> exists|j: int|
            0 <= j < k && #[trigger] read_blob_spec(t, d, j as usize) == Err::<Seq<u8>, MtkError>(e) && forall|i: int|
                0 <= i < j ==> (#[trigger] read_blob_spec(t, d, i as usize)) is Ok,
    decreases k,
{
    if k > 0 {
        let k1 = (k - 1) as nat;
        lemma_read_blobs_closed_form(t, d, k1);
        match read_blobs_upto(t, d, k1) {
            Ok(s) => {
                match read_blob_spec(t, d, k1 as usize) {
                    Ok(b) => {
                        assert forall|j: int| 0 <= j < k implies read_blob_spec(t, d, j as usize) == Ok::<Seq<u8>, MtkError>(
                            #[trigger] s.push(b)[j],
                        ) by {
                            if j < k1 {
                                assert(s.push(b)[j] == s[j]);
                            }
                        }
                    },
                    Err(e) => {
                        assert(read_blob_spec(t, d, (k1 as int) as usize) == Err::<Seq<u8>, MtkError>(e));
                    },
                }
            },
            Err(e) => {
                let j = choose|j: int|
                    0 <= j < k1 && #[trigger] read_blob_spec(t, d, j as usize) == Err::<Seq<u8>, MtkError>(e) && forall|i: int|
                        0 <= i < j ==> (#[trigger] read_blob_spec(t, d, i as usize)) is Ok;
                assert(0 <= j < k && read_blob_spec(t, d, j as usize) is Err);
            },
        }
    }
}

/// A table that reading accepts is valid.
pub proof fn lemma_parsed_table_is_valid(d: Seq<u8>)
    requires
        parse_table(d) is Ok,
    ensures
        table_is_valid(parse_table(d)->Ok_0),
{
    let t = parse_table(d)->Ok_0;
    let h = parse_header(d)->Ok_0;
    assert(parse_header(d) is Ok);
    assert(t.header == h && h.mtk_type == MtkType::LOGO);
    assert(t.block_size == h.size);
    assert(t.offsets.len() == t.logo_count);
    assert(validate_table(t) is Ok);
    lemma_validate_ok(t);
    lemma_sorted_from_steps(t.offsets, t.block_size);
    assert forall|i: int| 0 <= i < t.offsets.len() implies t.offsets[i] <= t.block_size by {
        assert(!offset_is_bad(t.offsets, t.block_size, i));
    }
}

// ---------------------------------------------------------------------------
// Reading and writing.

/// Appends the bytes `b` to `out`.
fn append_bytes(out: &mut Vec<u8>, b: &[u8])
    ensures
        final(out)@ == old(out)@ + b@,
{
    let ghost start = out@;
    let n = b.len();
    let mut i: usize = 0;
    while i < n
        invariant
            n == b@.len(),
            i <= n,
            out@ == start + b@.subrange(0, i as int),
        decreases n - i,
    {
        out.push(b[i]);
        i = i + 1;
        assert(b@.subrange(0, i as int) =~= b@.subrange(0, i - 1).push(b@[i - 1]));
    }
    assert(b@.subrange(0, n as int) =~= b@);
}

impl LogoTable {
    /// Checks the table: as many offsets as slots, each within the block and
    /// no smaller than the previous one.
    fn validate(&self) -> (r: Result<(), MtkError>)
        ensures
            r == validate_table(self@),
    {
        if self.offsets.len() as u64 != self.logo_count as u64 {
            return Err(MtkError::OffsetCountMismatch);
        }
        let n = self.offsets.len();
        let mut previous: u32 = 0;
        let mut index: usize = 0;
        while index < n
            invariant
                n == self.offsets@.len(),
                n == self.logo_count,
                index <= n,
                index > 0 ==> previous == self.offsets@[index - 1],
                forall|j: int| 0 <= j < index ==> !offset_is_bad(self.offsets@, self.block_size, j),
            decreases n - index,
        {
            let offset = self.offsets[index];
            if offset > self.block_size {
                proof {
                    assert(is_first_bad(self@.offsets, self@.block_size, index as int));
                    lemma_first_bad_is_chosen(self.offsets@, self.block_size, index as int);
                }
                return Err(MtkError::OffsetExceedsBlock { index });
            }
            if index > 0 && offset < previous {
                proof {
                    assert(is_first_bad(self@.offsets, self@.block_size, index as int));
                    lemma_first_bad_is_chosen(self.offsets@, self.block_size, index as int);
                }
                return Err(MtkError::OffsetsNotOrdered);
            }
            previous = offset;
            index = index + 1;
        }
        proof {
            if exists|i: int| is_first_bad(self.offsets@, self.block_size, i) {
                let i = choose|i: int| is_first_bad(self.offsets@, self.block_size, i);
                assert(!offset_is_bad(self.offsets@, self.block_size, i));
            }
        }
        Ok(())
    }

    /// Reads a logo table from the start of the image `data`.
    pub fn read(data: &[u8]) -> (r: Result<LogoTable, MtkError>)
        ensures
            match r {
                Ok(t) => parse_table(data@) == Ok::<LogoTableView, MtkError>(t@),
                Err(e) => parse_table(data@) == Err::<LogoTableView, MtkError>(e),
            },
    {
        let header = MtkHeader::read(data)?;
        if header.mtk_type != MtkType::LOGO {
            return Err(MtkError::NotALogo);
        }
        if data.len() < 520 {
            return Err(MtkError::UnexpectedEof);
        }
        let logo_count = read_u32_le(data, TABLE_START);
        let block_size = read_u32_le(data, TABLE_START + 4);
        if block_size != header.size {
            return Err(MtkError::SizeMismatch { header_size: header.size, block_size });
        }
        if (data.len() as u64) < 520 + 4 * (logo_count as u64) {
            return Err(MtkError::UnexpectedEof);
        }
        let ghost d = data@;
        let mut offsets: Vec<u32> = Vec::new();
        let mut i: u32 = 0;
        while i < logo_count
            invariant
                d == data@,
                data@.len() == data.len(),
                520 + 4 * logo_count <= data@.len(),
                i <= logo_count,
                offsets@.len() == i,
                forall|j: int| 0 <= j < i ==> offsets@[j] == u32_at(d, 520 + 4 * j),
            decreases logo_count - i,
        {
            let pos: usize = 520 + 4 * (i as usize);
            offsets.push(read_u32_le(data, pos));
            i = i + 1;
        }
        let table = LogoTable { header, logo_count, block_size, offsets };
        assert(table@.offsets =~= Seq::new(logo_count as nat, |j: int| u32_at(d, 520 + 4 * j)));
        table.validate()?;
        Ok(table)
    }

    /// Appends the bytes of this table (not the slots) to `out`.
    pub fn write(&self, out: &mut Vec<u8>)
        ensures
            final(out)@ == old(out)@ + table_bytes(self@),
    {
        let ghost start = out@;
        self.header.write(out);
        push_u32_le(out, self.logo_count);
        push_u32_le(out, self.block_size);
        let ghost before = out@;
        let n = self.offsets.len();
        let mut i: usize = 0;
        while i < n
            invariant
                n == self.offsets@.len(),
                i <= n,
                out@ == before + offsets_bytes(self.offsets@.subrange(0, i as int)),
            decreases n - i,
        {
            push_u32_le(out, self.offsets[i]);
            i = i + 1;
            assert(self.offsets@.subrange(0, i as int).drop_last() =~= self.offsets@.subrange(0, i - 1));
        }
        assert(self.offsets@.subrange(0, n as int) =~= self.offsets@);
        assert(out@ =~= start + table_bytes(self@));
    }

    /// Where slot `i` starts and ends.
    fn blob_bounds(&self, i: usize) -> (r: Result<(u32, u32), MtkError>)
        ensures
            r == blob_bounds(self@, i),
    {
        if i >= self.offsets.len() {
            return Err(MtkError::BlobIndexOutOfRange { index: i });
        }
        let offset = self.offsets[i];
        let next_offset = if i + 1 < self.offsets.len() {
            self.offsets[i + 1]
        } else {
            self.block_size
        };
        if next_offset < offset {
            return Err(MtkError::OffsetsNotOrdered);
        }
        Ok((offset, next_offset))
    }

    /// Reads the bytes of slot `i` from the image `data`.
    pub fn read_blob(&self, data: &[u8], i: usize) -> (r: Result<Vec<u8>, MtkError>)
        ensures
            match r {
                Ok(b) => read_blob_spec(self@, data@, i) == Ok::<Seq<u8>, MtkError>(b@),
                Err(e) => read_blob_spec(self@, data@, i) == Err::<Seq<u8>, MtkError>(e),
            },
    {
        let (offset, next_offset) = self.blob_bounds(i)?;
        if next_offset == offset {
            return Ok(Vec::new());
        }
        if 512 + (next_offset as u64) > data.len() as u64 {
            return Err(MtkError::UnexpectedEof);
        }
        let start: usize = MTK_HEADER_SIZE + offset as usize;
        let end: usize = MTK_HEADER_SIZE + next_offset as usize;
        let mut blob: Vec<u8> = Vec::new();
        append_bytes(&mut blob, vstd::slice::slice_subrange(data, start, end));
        assert(blob@ =~= data@.subrange(512 + offset, 512 + next_offset));
        Ok(blob)
    }

    /// Reads the bytes of every slot, in order, from the image `data`.
    pub fn read_blobs(&self, data: &[u8]) -> (r: Result<Vec<Vec<u8>>, MtkError>)
        ensures
            match r {
                Ok(b) => read_blobs_spec(self@, data@) == Ok::<Seq<Seq<u8>>, MtkError>(blobs_view(b@)),
                Err(e) => read_blobs_spec(self@, data@) == Err::<Seq<Seq<u8>>, MtkError>(e),
            },
    {
        let logo_count = self.logo_count;
        let mut blobs: Vec<Vec<u8>> = Vec::new();
        assert(blobs_view(blobs@) =~= Seq::<Seq<u8>>::empty());
        let mut i: u32 = 0;
        while i < logo_count
            invariant
                logo_count == self.logo_count,
                i <= logo_count,
                read_blobs_upto(self@, data@, i as nat) == Ok::<Seq<Seq<u8>>, MtkError>(blobs_view(blobs@)),
            decreases logo_count - i,
        {
            let r = self.read_blob(data, i as usize);
            match r {
                Err(e) => {
                    proof {
                        lemma_upto_err_persists(self@, data@, (i + 1) as nat, logo_count as nat);
                    }
                    return Err(e);
                },
                Ok(blob) => {
                    let ghost before = blobs_view(blobs@);
                    blobs.push(blob);
                    assert(blobs_view(blobs@) =~= before.push(blob@));
                    i = i + 1;
                },
            }
        }
        Ok(blobs)
    }
}

// ---------------------------------------------------------------------------
// Lemmas on lengths and concatenation.

/// The slots before `i` hold no more bytes than all of them.
pub proof fn lemma_total_len_prefix(b: Seq<Seq<u8>>, i: int)
    requires
        0 <= i <= b.len(),
    ensures
        0 <= total_len(b.take(i)) <= total_len(b),
    decreases b.len(),
{
    if i == b.len() {
        assert(b.take(i) =~= b);
        lemma_total_len_nonneg(b);
    } else {
        lemma_total_len_prefix(b.drop_last(), i);
        assert(b.drop_last().take(i) =~= b.take(i));
    }
}

proof fn lemma_total_len_nonneg(b: Seq<Seq<u8>>)
    ensures
        total_len(b) >= 0,
    decreases b.len(),
{
    if b.len() > 0 {
        lemma_total_len_nonneg(b.drop_last());
    }
}

/// One more slot adds its length.
proof fn lemma_total_len_step(b: Seq<Seq<u8>>, i: int)
    requires
        0 <= i < b.len(),
    ensures
        total_len(b.take(i + 1)) == total_len(b.take(i)) + b[i].len(),
        concat_blobs(b.take(i + 1)) == concat_blobs(b.take(i)) + b[i],
{
    assert(b.take(i + 1).drop_last() =~= b.take(i));
}

/// The concatenation is as long as the slots together.
proof fn lemma_concat_len(b: Seq<Seq<u8>>)
    ensures
        concat_blobs(b).len() == total_len(b),
    decreases b.len(),
{
    if b.len() > 0 {
        lemma_concat_len(b.drop_last());
    }
}

/// The concatenation splits at any slot boundary.
proof fn lemma_concat_split(b: Seq<Seq<u8>>, m: int)
    requires
        0 <= m <= b.len(),
    ensures
        concat_blobs(b) == concat_blobs(b.take(m)) + concat_blobs(b.skip(m)),
    decreases b.len(),
{
    if m == b.len() {
        assert(b.take(m) =~= b);
        assert(b.skip(m) =~= Seq::<Seq<u8>>::empty());
        assert(concat_blobs(b) + Seq::<u8>::empty() =~= concat_blobs(b));
    } else {
        lemma_concat_split(b.drop_last(), m);
        assert(b.drop_last().take(m) =~= b.take(m));
        assert(b.skip(m).drop_last() =~= b.drop_last().skip(m));
        assert(b.skip(m).last() == b.last());
        assert(concat_blobs(b) =~= concat_blobs(b.take(m)) + concat_blobs(b.skip(m)));
    }
}

/// Slot `k` sits in the concatenation after the slots before it.
proof fn lemma_concat_slot(b: Seq<Seq<u8>>, k: int)
    requires
        0 <= k < b.len(),
    ensures
        concat_blobs(b).subrange(total_len(b.take(k)), total_len(b.take(k + 1))) == b[k],
        total_len(b.take(k + 1)) <= concat_blobs(b).len(),
{
    lemma_concat_split(b, k + 1);
    lemma_total_len_step(b, k);
    lemma_concat_len(b.take(k));
    lemma_concat_len(b.take(k + 1));
    let pre = concat_blobs(b.take(k));
    let post = concat_blobs(b.skip(k + 1));
    assert(concat_blobs(b) =~= pre + b[k] + post);
    assert(concat_blobs(b).subrange(pre.len() as int, (pre.len() + b[k].len()) as int) =~= b[k]);
}

/// The encoding of a sequence of offsets has four bytes per offset.
proof fn lemma_offsets_bytes_len(s: Seq<u32>)
    ensures
        offsets_bytes(s).len() == 4 * s.len(),
    decreases s.len(),
{
    if s.len() > 0 {
        lemma_offsets_bytes_len(s.drop_last());
        lemma_le_roundtrip(s.last());
    }
}

/// Offset `i` can be read back from its place in the encoding.
proof fn lemma_offsets_bytes_at(pre: Seq<u8>, s: Seq<u32>, post: Seq<u8>, i: int)
    requires
        0 <= i < s.len(),
    ensures
        u32_at(pre + offsets_bytes(s) + post, pre.len() + 4 * i) == s[i],
    decreases s.len(),
{
    let init = s.drop_last();
    lemma_offsets_bytes_len(init);
    lemma_le_roundtrip(s.last());
    if i < s.len() - 1 {
        lemma_offsets_bytes_at(pre, init, le_bytes(s.last()) + post, i);
        assert(pre + offsets_bytes(s) + post =~= pre + offsets_bytes(init) + (le_bytes(s.last()) + post));
    } else {
        lemma_u32_at_encoding(pre + offsets_bytes(init), s.last(), post);
        assert(pre + offsets_bytes(s) + post =~= (pre + offsets_bytes(init)) + le_bytes(s.last()) + post);
    }
}

/// The bytes of a table: 512 for the header, 8 for the count and block size, 4 per offset.
pub proof fn lemma_table_bytes_len(t: LogoTableView)
    ensures
        table_bytes(t).len() == 520 + 4 * t.offsets.len(),
{
    lemma_header_roundtrip(t.header, Seq::empty());
    lemma_le_roundtrip(t.logo_count);
    lemma_le_roundtrip(t.block_size);
    lemma_offsets_bytes_len(t.offsets);
}

// ---------------------------------------------------------------------------
// Laws.

/// Reading back the bytes of a valid table, whatever follows them, gives the table.
pub proof fn lemma_table_roundtrip(t: LogoTableView, rest: Seq<u8>)
    requires
        table_is_valid(t),
    ensures
        parse_table(table_bytes(t) + rest) == Ok::<LogoTableView, MtkError>(t),
{
    let h = t.header;
    let c = le_bytes(t.logo_count);
    let bl = le_bytes(t.block_size);
    let ob = offsets_bytes(t.offsets);
    let d = table_bytes(t) + rest;
    lemma_le_roundtrip(t.logo_count);
    lemma_le_roundtrip(t.block_size);
    lemma_offsets_bytes_len(t.offsets);
    lemma_table_bytes_len(t);
    lemma_header_roundtrip(h, c + bl + ob + rest);
    assert(d =~= header_bytes(h) + (c + bl + ob + rest));
    lemma_u32_at_encoding(header_bytes(h), t.logo_count, bl + ob + rest);
    assert(d =~= header_bytes(h) + c + (bl + ob + rest));
    lemma_u32_at_encoding(header_bytes(h) + c, t.block_size, ob + rest);
    assert(d =~= (header_bytes(h) + c) + bl + (ob + rest));
    let pre = header_bytes(h) + c + bl;
    assert(d =~= pre + ob + rest);
    assert forall|i: int| 0 <= i < t.offsets.len() implies u32_at(d, 520 + 4 * i) == t.offsets[i] by {
        lemma_offsets_bytes_at(pre, t.offsets, rest, i);
    }
    let parsed = Seq::new(t.logo_count as nat, |i: int| u32_at(d, 520 + 4 * i));
    assert(parsed =~= t.offsets);
    assert forall|i: int| 0 <= i < t.offsets.len() implies !offset_is_bad(t.offsets, t.block_size, i) by {
        if i > 0 {
            assert(t.offsets[i - 1] <= t.offsets[i]);
        }
    }
    lemma_validate_ok(t);
}

/// Laying slots out one after the other gives a valid table.
pub proof fn lemma_layout_is_valid(b: Seq<Seq<u8>>)
    requires
        blobs_fit(b),
    ensures
        table_is_valid(layout_table(b)),
{
    let t = layout_table(b);
    let fo = first_offset(b.len());
    lemma_total_len_nonneg(b);
    assert forall|i: int| 0 <= i < t.offsets.len() implies t.offsets[i] == fo + total_len(b.take(i)) by {
        lemma_total_len_prefix(b, i);
    }
    assert forall|i: int, j: int| 0 <= i <= j < t.offsets.len() implies t.offsets[i] <= t.offsets[j] by {
        lemma_total_len_prefix(b.take(j), i);
        assert(b.take(j).take(i) =~= b.take(i));
    }
    assert forall|i: int| 0 <= i < t.offsets.len() implies t.offsets[i] <= t.block_size by {
        lemma_total_len_prefix(b, i);
    }
}

/// Law: in the bytes of an image laid out from slots, slot `k` stands right
/// after the header at its offset, and the offsets follow one another by the
/// slots' lengths, the first right after the offsets.
pub proof fn lemma_layout_positions(b: Seq<Seq<u8>>, k: int)
    requires
        blobs_fit(b),
        0 <= k < b.len(),
    ensures
        layout_table(b).offsets[k] == first_offset(b.len()) + total_len(b.take(k)),
        k + 1 < b.len() ==> layout_table(b).offsets[k + 1] == layout_table(b).offsets[k] + b[k].len(),
        image_bytes(layout_image(b)).subrange(
            512 + layout_table(b).offsets[k],
            512 + layout_table(b).offsets[k] + b[k].len(),
        ) == b[k],
{
    let t = layout_table(b);
    let n = b.len();
    lemma_total_len_prefix(b, k);
    lemma_total_len_prefix(b, k + 1);
    lemma_total_len_step(b, k);
    lemma_concat_slot(b, k);
    lemma_table_bytes_len(t);
    let tb = table_bytes(t);
    let lo = total_len(b.take(k));
    let hi = total_len(b.take(k + 1));
    assert(tb.len() == 512 + first_offset(n));
    lemma_concat_len(b);
    assert(image_bytes(layout_image(b)).subrange(tb.len() + lo, tb.len() + hi) =~= concat_blobs(b).subrange(lo, hi));
}

/// Writing an image made of slots and reading the bytes back gives the same image, slots in order.
pub proof fn lemma_image_roundtrip(b: Seq<Seq<u8>>)
    requires
        blobs_fit(b),
    ensures
        parse_image(image_bytes(layout_image(b))) == Ok::<LogoImageView, MtkError>(layout_image(b)),
{
    lemma_image_roundtrip_with_rest(b, Seq::empty());
    assert(image_bytes(layout_image(b)) + Seq::<u8>::empty() =~= image_bytes(layout_image(b)));
}

/// Law: reading gives back the image made of slots `b`, slots in order and
/// each exactly as written, whatever bytes follow the image (such as the
/// padding of a partition dump): every slot, the last one too, ends at the
/// block size, not at the end of the data.
pub proof fn lemma_image_roundtrip_with_rest(b: Seq<Seq<u8>>, rest: Seq<u8>)
    requires
        blobs_fit(b),
    ensures
        parse_image(image_bytes(layout_image(b)) + rest) == Ok::<LogoImageView, MtkError>(layout_image(b)),
{
    let t = layout_table(b);
    let d = image_bytes(layout_image(b)) + rest;
    let n = b.len();
    lemma_layout_is_valid(b);
    lemma_table_roundtrip(t, concat_blobs(b) + rest);
    assert(d =~= table_bytes(t) + (concat_blobs(b) + rest));
    lemma_table_bytes_len(t);
    lemma_concat_len(b);
    lemma_total_len_nonneg(b);
    assert forall|k: int| 0 <= k < n implies #[trigger] read_blob_spec(t, d, k as usize)
        == Ok::<Seq<u8>, MtkError>(b[k]) by {
        lemma_total_len_prefix(b, k);
        lemma_total_len_prefix(b, k + 1);
        lemma_concat_slot(b, k);
        assert(b.take(n as int) =~= b);
        let tb = table_bytes(t);
        let lo = total_len(b.take(k));
        let hi = total_len(b.take(k + 1));
        lemma_total_len_step(b, k);
        if lo == hi {
            assert(b[k] =~= Seq::<u8>::empty());
        } else {
            assert(d.subrange(tb.len() + lo, tb.len() + hi) =~= concat_blobs(b).subrange(lo, hi));
        }
    }
    assert forall|k: nat| k <= n implies read_blobs_upto(t, d, k) == Ok::<Seq<Seq<u8>>, MtkError>(b.take(k as int)) by {
        lemma_read_layout_upto(b, t, d, k);
    }
    assert(b.take(n as int) =~= b);
}

proof fn lemma_read_layout_upto(b: Seq<Seq<u8>>, t: LogoTableView, d: Seq<u8>, k: nat)
    requires
        k <= b.len(),
        forall|j: int| 0 <= j < b.len() ==> #[trigger] read_blob_spec(t, d, j as usize) == Ok::<Seq<u8>, MtkError>(b[j]),
    ensures
        read_blobs_upto(t, d, k) == Ok::<Seq<Seq<u8>>, MtkError>(b.take(k as int)),
    decreases k,
{
    if k == 0 {
        assert(b.take(0) =~= Seq::<Seq<u8>>::empty());
    } else {
        lemma_read_layout_upto(b, t, d, (k - 1) as nat);
        assert(read_blob_spec(t, d, (k - 1) as usize) == Ok::<Seq<u8>, MtkError>(b[k - 1]));
        assert(b.take(k as int) =~= b.take(k - 1).push(b[k - 1]));
    }
}

// ---------------------------------------------------------------------------
// The whole image.

impl LogoImage {
    /// Reads a whole logo image (table and slots) from `data`.
    pub fn read(data: &[u8]) -> (r: Result<LogoImage, MtkError>)
        ensures
            match r {
                Ok(img) => parse_image(data@) == Ok::<LogoImageView, MtkError>(img@),
                Err(e) => parse_image(data@) == Err::<LogoImageView, MtkError>(e),
            },
    {
        let table = LogoTable::read(data)?;
        let blobs = table.read_blobs(data)?;
        Ok(LogoImage { table, blobs })
    }

    /// Makes the image of the slots `blobs`, laid out one after the other
    /// right after the offsets.
    pub fn new_blobs(blobs: Vec<Vec<u8>>) -> (r: LogoImage)
        requires
            blobs_fit(blobs_view(blobs@)),
        ensures
            r@ == layout_image(blobs_view(blobs@)),
    {
        let ghost b = blobs_view(blobs@);
        let n = blobs.len();
        proof {
            lemma_total_len_nonneg(b);
        }
        let mut offsets: Vec<u32> = Vec::new();
        let mut offset: u32 = (2 + n as u32) * 4;
        let mut i: usize = 0;
        while i < n
            invariant
                n == blobs@.len(),
                b == blobs_view(blobs@),
                blobs_fit(b),
                i <= n,
                offsets@.len() == i,
                offset == first_offset(n as nat) + total_len(b.take(i as int)),
                forall|j: int| 0 <= j < i ==> offsets@[j] == first_offset(n as nat) + total_len(b.take(j)),
            decreases n - i,
        {
            proof {
                lemma_total_len_step(b, i as int);
                lemma_total_len_prefix(b, i + 1);
            }
            offsets.push(offset);
            offset = offset + blobs[i].len() as u32;
            i = i + 1;
        }
        let block_size = offset;
        assert(b.take(n as int) =~= b);
        let header = MtkHeader { size: block_size, mtk_type: MtkType::LOGO };
        let table = LogoTable { header, logo_count: n as u32, block_size, offsets };
        assert(table@.offsets =~= layout_table(b).offsets);
        LogoImage { table, blobs }
    }

    /// Appends the bytes of this image (table, then slots in order) to `out`.
    pub fn write(&self, out: &mut Vec<u8>)
        ensures
            final(out)@ == old(out)@ + image_bytes(self@),
    {
        let ghost start = out@;
        let ghost b = blobs_view(self.blobs@);
        self.table.write(out);
        let ghost before = out@;
        let n = self.blobs.len();
        let mut i: usize = 0;
        while i < n
            invariant
                n == self.blobs@.len(),
                b == blobs_view(self.blobs@),
                i <= n,
                out@ == before + concat_blobs(b.take(i as int)),
            decreases n - i,
        {
            proof {
                lemma_total_len_step(b, i as int);
            }
            append_bytes(out, self.blobs[i].as_slice());
            i = i + 1;
        }
        assert(b.take(n as int) =~= b);
        assert(out@ =~= start + image_bytes(self@));
    }
}

} // verus!
