//! Names of slot files: `logo_<index>_<mode>.<ext>`, where the extension
//! `z` marks a compressed slot as it is in the image, and `png` a picture
//! in the named color mode.
use vstd::prelude::*;
use crate::color::{mode_of_name, ColorMode};
use crate::error::MtkError;

verus! {

/// What a slot file holds.
#[derive(Clone, Copy, Debug, PartialEq, Eq, Structural)]
pub enum ContentType {
    /// The compressed slot, as stored in the image.
    Z,
    /// A picture, to be stored in the given color mode.
    PNG(ColorMode),
}

/// What the name of a slot file says: the slot's index and the content.
#[derive(Clone, Copy, Debug, PartialEq, Eq, Structural)]
pub struct FileInfo {
    pub id: usize,
    pub content_type: ContentType,
}

pub open spec fn name_prefix() -> Seq<char> {
    seq!['l', 'o', 'g', 'o', '_']
}

pub open spec fn is_digit(c: char) -> bool {
    '0' <= c <= '9'
}

/// The decimal value of a sequence of digits.
pub open spec fn digits_value(s: Seq<char>) -> int
    decreases s.len(),
{
    if s.len() == 0 {
        0
    } else {
        digits_value(s.drop_last()) * 10 + (s.last() as int - '0' as int)
    }
}

/// Whether `n` is `logo_`, `k` digits, `_`, a mode, `.` at index `d`, and an extension without `.`.
pub open spec fn splits_at(n: Seq<char>, k: int, d: int) -> bool {
    &&& n.len() >= 5
    &&& n.subrange(0, 5) == name_prefix()
    &&& 1 <= k
    &&& 5 + k < n.len()
    &&& forall|i: int| 5 <= i < 5 + k ==> is_digit(#[trigger] n[i])
    &&& n[5 + k] == '_'
    &&& 6 + k <= d < n.len()
    &&& n[d] == '.'
    &&& forall|e: int| d < e < n.len() ==> #[trigger] n[e] != '.'
}

/// What the name `n` of a slot file says.
pub open spec fn parse_file_name(n: Seq<char>) -> Result<FileInfo, MtkError> {
    if exists|k: int, d: int| splits_at(n, k, d) {
        let (k, d) = choose|k: int, d: int| splits_at(n, k, d);
        let id = digits_value(n.subrange(5, 5 + k));
        let mode = n.subrange(6 + k, d);
        let ext = n.subrange(d + 1, n.len() as int);
        if id > usize::MAX {
            Err(MtkError::BadFileName)
        } else if ext == seq!['z'] {
            Ok(FileInfo { id: id as usize, content_type: ContentType::Z })
        } else if ext == seq!['p', 'n', 'g'] {
            match mode_of_name(mode) {
                Ok(m) => Ok(FileInfo { id: id as usize, content_type: ContentType::PNG(m) }),
                Err(_) => Err(MtkError::BadFileName),
            }
        } else {
            Err(MtkError::BadFileName)
        }
    } else {
        Err(MtkError::BadFileName)
    }
}

/// The split of a name is unique.
proof fn lemma_split_unique(n: Seq<char>, k: int, d: int)
    requires
        splits_at(n, k, d),
    ensures
        (choose|k: int, d: int| splits_at(n, k, d)) == (k, d),
{
    let (k2, d2) = choose|k: int, d: int| splits_at(n, k, d);
    assert(splits_at(n, k2, d2));
    if k2 < k {
        assert(is_digit(n[5 + k2]));
    } else if k2 > k {
        assert(is_digit(n[5 + k]));
    }
    if d2 < d {
        assert(n[d] != '.');
    } else if d2 > d {
        assert(n[d2] != '.');
    }
}

proof fn lemma_digits_step(s: Seq<char>, i: int)
    requires
        0 <= i < s.len(),
    ensures
        digits_value(s.take(i + 1)) == digits_value(s.take(i)) * 10 + (s[i] as int - '0' as int),
{
    assert(s.take(i + 1).drop_last() =~= s.take(i));
}

proof fn lemma_digits_grow(s: Seq<char>, i: int, j: int)
    requires
        0 <= i <= j <= s.len(),
        forall|x: int| 0 <= x < s.len() ==> is_digit(#[trigger] s[x]),
    ensures
        0 <= digits_value(s.take(i)) <= digits_value(s.take(j)),
    decreases j,
{
    if j > 0 {
        if i < j {
            lemma_digits_grow(s, i, j - 1);
        } else {
            lemma_digits_grow(s, 0, j - 1);
        }
        lemma_digits_step(s, j - 1);
    }
}

impl FileInfo {
    /// Reads the slot index and the content type from the name of a slot file.
    pub fn from_name(name: &str) -> (r: Result<FileInfo, MtkError>)
        ensures
            r == parse_file_name(name@),
    {
        let ghost n = name@;
        let len = name.unicode_len();
        proof {
            reveal_strlit("logo_");
        }
        if len < 5 || name.substring_char(0, 5).to_owned() != "logo_".to_owned() {
            proof {
                if exists|k: int, d: int| splits_at(n, k, d) {
                    let (k, d) = choose|k: int, d: int| splits_at(n, k, d);
                    assert(splits_at(n, k, d));
                    assert("logo_"@ =~= name_prefix());
                }
            }
            return Err(MtkError::BadFileName);
        }
        assert(n.subrange(0, 5) =~= name_prefix()) by {
            assert("logo_"@ =~= name_prefix());
        }
        // the index
        let mut i: usize = 5;
        let mut id: usize = 0;
        while i < len && '0' <= name.get_char(i) && name.get_char(i) <= '9'
            invariant
                n == name@,
                len == n.len(),
                5 <= i <= len,
                forall|x: int| 5 <= x < i ==> is_digit(#[trigger] n[x]),
                id == digits_value(n.subrange(5, i as int)),
            decreases len - i,
        {
            let c = name.get_char(i);
            let digit = (c as u32 - '0' as u32) as usize;
            proof {
                lemma_digits_step(n.subrange(5, len as int), i - 5);
                assert(n.subrange(5, len as int).take(i - 5) =~= n.subrange(5, i as int));
                assert(n.subrange(5, len as int).take(i + 1 - 5) =~= n.subrange(5, i + 1));
            }
            if id > (usize::MAX - digit) / 10 {
                proof {
                    assert(id * 10 + digit > usize::MAX) by (nonlinear_arith)
                        requires
                            id > (usize::MAX - digit) / 10,
                            digit <= 9,
                    ;
                    if exists|k: int, d: int| splits_at(n, k, d) {
                        let (k, d) = choose|k: int, d: int| splits_at(n, k, d);
                        assert(splits_at(n, k, d));
                        if k < i - 5 + 1 {
                            assert(is_digit(n[5 + k]));
                        }
                        let ds = n.subrange(5, 5 + k);
                        assert forall|x: int| 0 <= x < ds.len() implies is_digit(#[trigger] ds[x]) by {
                            assert(ds[x] == n[5 + x]);
                        }
                        lemma_digits_grow(ds, i + 1 - 5, k);
                        assert(ds.take(i + 1 - 5) =~= n.subrange(5, i + 1));
                        assert(ds.take(k) =~= ds);
                    }
                }
                return Err(MtkError::BadFileName);
            }
            id = id * 10 + digit;
            i = i + 1;
        }
        let k = i - 5;
        if k == 0 || i >= len || name.get_char(i) != '_' {
            proof {
                if exists|k2: int, d: int| splits_at(n, k2, d) {
                    let (k2, d) = choose|k2: int, d: int| splits_at(n, k2, d);
                    assert(splits_at(n, k2, d));
                    if k2 < k {
                        assert(is_digit(n[5 + k2]));
                    } else if k2 > k {
                        assert(is_digit(n[5 + k as int]));
                    }
                }
            }
            return Err(MtkError::BadFileName);
        }
        // the last dot
        let mut d = len;
        while d > i + 1 && name.get_char(d - 1) != '.'
            invariant
                n == name@,
                len == n.len(),
                i + 1 <= d <= len,
                forall|e: int| d <= e < len ==> #[trigger] n[e] != '.',
            decreases d,
        {
            d = d - 1;
        }
        if d == i + 1 {
            proof {
                if exists|k2: int, d2: int| splits_at(n, k2, d2) {
                    let (k2, d2) = choose|k2: int, d2: int| splits_at(n, k2, d2);
                    assert(splits_at(n, k2, d2));
                    if k2 < k {
                        assert(is_digit(n[5 + k2]));
                    } else if k2 > k {
                        assert(is_digit(n[5 + k as int]));
                    }
                    assert(n[d2] == '.');
                }
            }
            return Err(MtkError::BadFileName);
        }
        let dot = d - 1;
        proof {
            assert(splits_at(n, k as int, dot as int));
            lemma_split_unique(n, k as int, dot as int);
        }
        let mode = name.substring_char(i + 1, dot);
        let ext = name.substring_char(dot + 1, len).to_owned();
        proof {
            reveal_strlit("z");
            reveal_strlit("png");
        }
        if ext == "z".to_owned() {
            assert("z"@ =~= seq!['z']);
            Ok(FileInfo { id, content_type: ContentType::Z })
        } else if ext == "png".to_owned() {
            assert("png"@ =~= seq!['p', 'n', 'g']);
            match ColorMode::by_name(mode) {
                Ok(m) => Ok(FileInfo { id, content_type: ContentType::PNG(m) }),
                Err(_) => Err(MtkError::BadFileName),
            }
        } else {
            assert("z"@ =~= seq!['z']);
            assert("png"@ =~= seq!['p', 'n', 'g']);
            Err(MtkError::BadFileName)
        }
    }
}

} // verus!
