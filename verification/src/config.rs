//! Configuration profiles: the slot formats of a device, and where the
//! configuration file is looked for.
use vstd::prelude::*;
use crate::color::{mode_of_name, spec_bytes_per_pixel, ColorMode};
use crate::error::MtkError;

verus! {

/// The dimensions of a slot's picture, with an optional title.
#[derive(Clone, Debug)]
pub struct Format {
    pub w: u32,
    pub h: u32,
    pub t: Option<String>,
}

/// A format as a mathematical value.
pub struct FormatView {
    pub w: u32,
    pub h: u32,
    pub t: Option<Seq<char>>,
}

pub open spec fn opt_string_view(o: Option<String>) -> Option<Seq<char>> {
    match o {
        Some(s) => Some(s@),
        None => None,
    }
}

impl View for Format {
    type V = FormatView;

    open spec fn view(&self) -> FormatView {
        FormatView { w: self.w, h: self.h, t: opt_string_view(self.t) }
    }
}

/// The title of a flipped format: `flip(<title>)`.
pub open spec fn flipped_title(s: Seq<char>) -> Seq<char> {
    seq!['f', 'l', 'i', 'p', '('] + s + seq![')']
}

/// A format turned by a quarter: width and height swap, and the title says so.
pub open spec fn flip_spec(f: FormatView) -> FormatView {
    FormatView {
        w: f.h,
        h: f.w,
        t: match f.t {
            Some(s) => Some(flipped_title(s)),
            None => None,
        },
    }
}

/// A device profile: its name, color model, other names, and the formats of its slots.
#[derive(Clone, Debug)]
pub struct Profile {
    pub name: String,
    pub color_model: String,
    pub alias: Option<Vec<String>>,
    pub formats: Vec<Format>,
}

/// A profile as a mathematical value.
pub struct ProfileView {
    pub name: Seq<char>,
    pub color_model: Seq<char>,
    pub alias: Option<Seq<Seq<char>>>,
    pub formats: Seq<FormatView>,
}

pub open spec fn strings_view(v: Seq<String>) -> Seq<Seq<char>> {
    v.map_values(|s: String| s@)
}

pub open spec fn formats_view(v: Seq<Format>) -> Seq<FormatView> {
    v.map_values(|f: Format| f@)
}

impl View for Profile {
    type V = ProfileView;

    open spec fn view(&self) -> ProfileView {
        ProfileView {
            name: self.name@,
            color_model: self.color_model@,
            alias: match self.alias {
                Some(a) => Some(strings_view(a@)),
                None => None,
            },
            formats: formats_view(self.formats@),
        }
    }
}

/// The number of pixels of a format.
pub open spec fn format_pixels(f: FormatView) -> int {
    f.w * f.h
}

/// Whether `i` is the first format with exactly `pixels` pixels.
pub open spec fn is_first_match(fs: Seq<FormatView>, pixels: int, i: int) -> bool {
    &&& 0 <= i < fs.len()
    &&& format_pixels(fs[i]) == pixels
    &&& forall|j: int| 0 <= j < i ==> format_pixels(#[trigger] fs[j]) != pixels
}

/// Searching the formats in order for `pixels` pixels never multiplies past `u32::MAX`
/// before it finds one: every format whose pixel count overflows comes after a match.
pub open spec fn search_stays_in_range(fs: Seq<FormatView>, pixels: int) -> bool {
    forall|i: int|
        0 <= i < fs.len() && format_pixels(#[trigger] fs[i]) > u32::MAX ==> exists|j: int|
            0 <= j < i && format_pixels(#[trigger] fs[j]) == pixels
}

/// What guessing the format of a slot of `size` inflated bytes gives: the
/// first format of the profile with as many pixels as `size` bytes hold in
/// the profile's color model, flipped if asked.
pub open spec fn guess_format_spec(p: ProfileView, size: u32, flip: bool) -> Result<FormatView, MtkError> {
    match mode_of_name(p.color_model) {
        Err(e) => Err(e),
        Ok(m) => {
            let pixels = size / spec_bytes_per_pixel(m);
            if exists|i: int| is_first_match(p.formats, pixels as int, i) {
                let i = choose|i: int| is_first_match(p.formats, pixels as int, i);
                if flip {
                    Ok(flip_spec(p.formats[i]))
                } else {
                    Ok(p.formats[i])
                }
            } else {
                Err(MtkError::NoMatchingFormat { size })
            }
        }
    }
}

/// The first match is unique, so it is the one `choose` picks.
proof fn lemma_first_match_is_chosen(fs: Seq<FormatView>, pixels: int, i: int)
    requires
        is_first_match(fs, pixels, i),
    ensures
        (choose|i: int| is_first_match(fs, pixels, i)) == i,
{
    let k = choose|i: int| is_first_match(fs, pixels, i);
    assert(is_first_match(fs, pixels, k));
    if k < i {
        assert(format_pixels(fs[k]) != pixels);
    } else if k > i {
        assert(format_pixels(fs[i]) != pixels);
    }
}

/// Law: the format guess depends only on what the profile holds: one
/// `Profile` type serves both the command line and the GUI, and two profiles
/// with the same name, color model, other names and formats give the same
/// result for every size and flip.
pub proof fn lemma_guess_format_same_profile(a: ProfileView, b: ProfileView, size: u32, flip: bool)
    requires
        a.name == b.name,
        a.color_model == b.color_model,
        a.alias == b.alias,
        a.formats == b.formats,
    ensures
        guess_format_spec(a, size, flip) == guess_format_spec(b, size, flip),
{
    assert(a == b);
}

/// A format with `pixels` pixels makes a first one exist.
proof fn lemma_first_match_exists(fs: Seq<FormatView>, pixels: int, i: int)
    requires
        0 <= i < fs.len(),
        format_pixels(fs[i]) == pixels,
    ensures
        exists|k: int| is_first_match(fs, pixels, k),
    decreases i,
{
    if exists|j: int| 0 <= j < i && format_pixels(#[trigger] fs[j]) == pixels {
        let j = choose|j: int| 0 <= j < i && format_pixels(#[trigger] fs[j]) == pixels;
        lemma_first_match_exists(fs, pixels, j);
    } else {
        assert(is_first_match(fs, pixels, i));
    }
}

/// Law: a guessed format has exactly as many pixels as the slot's bytes hold
/// in the profile's color mode; it is the profile's first format with that
/// many pixels, turned by a quarter when asked; and when the color model is
/// known, the guess fails exactly when no format has that many pixels.
pub proof fn lemma_guess_format_fits(p: ProfileView, size: u32, flip: bool)
    ensures
        guess_format_spec(p, size, flip) matches Ok(f) ==> mode_of_name(p.color_model) matches Ok(m) && {
            &&& f.w * f.h == size / spec_bytes_per_pixel(m)
            &&& exists|i: int|
                0 <= i < p.formats.len() && f == (if flip { flip_spec(#[trigger] p.formats[i]) } else { p.formats[i] })
                    && p.formats[i].w * p.formats[i].h == size / spec_bytes_per_pixel(m) && forall|j: int|
                    0 <= j < i ==> (#[trigger] p.formats[j]).w * p.formats[j].h != size / spec_bytes_per_pixel(m)
        },
        mode_of_name(p.color_model) matches Ok(m) ==> (guess_format_spec(p, size, flip) is Err <==> forall|i: int|
            0 <= i < p.formats.len() ==> (#[trigger] p.formats[i]).w * p.formats[i].h != size / spec_bytes_per_pixel(m)),
{
    if let Ok(m) = mode_of_name(p.color_model) {
        let pixels = size / spec_bytes_per_pixel(m);
        let fs = p.formats;
        if exists|i: int| is_first_match(fs, pixels as int, i) {
            let i = choose|i: int| is_first_match(fs, pixels as int, i);
            assert(is_first_match(fs, pixels as int, i));
            assert(format_pixels(fs[i]) == pixels);
            if flip {
                assert(flip_spec(fs[i]).w * flip_spec(fs[i]).h == fs[i].h * fs[i].w);
                assert(fs[i].h * fs[i].w == fs[i].w * fs[i].h) by (nonlinear_arith);
            }
            assert forall|j: int| 0 <= j < i implies (#[trigger] fs[j]).w * fs[j].h != pixels by {
                assert(format_pixels(fs[j]) != pixels);
            }
        } else {
            assert forall|i: int| 0 <= i < fs.len() implies (#[trigger] fs[i]).w * fs[i].h != pixels by {
                if fs[i].w * fs[i].h == pixels {
                    lemma_first_match_exists(fs, pixels as int, i);
                }
            }
        }
    }
}

/// Flipping twice gives the dimensions back.
pub proof fn lemma_flip_flip_dimensions(f: FormatView)
    ensures
        flip_spec(flip_spec(f)).w == f.w,
        flip_spec(flip_spec(f)).h == f.h,
        format_pixels(flip_spec(f)) == format_pixels(f),
{
    assert(f.h * f.w == f.w * f.h) by (nonlinear_arith);
}

fn copy_opt_string(o: &Option<String>) -> (r: Option<String>)
    ensures
        opt_string_view(r) == opt_string_view(*o),
{
    match o {
        Some(s) => Some(s.clone()),
        None => None,
    }
}

impl Format {
    /// The same format turned by a quarter: width and height swap, and the
    /// title `t` becomes `flip(t)`.
    pub fn flip(&self) -> (r: Format)
        ensures
            r@ == flip_spec(self@),
    {
        let flipped_title = match &self.t {
            Some(s) => {
                let mut title = "flip(".to_owned();
                title.append(s.as_str());
                title.append(")");
                proof {
                    reveal_strlit("flip(");
                    reveal_strlit(")");
                    assert(title@ =~= flipped_title(s@));
                }
                Some(title)
            },
            None => None,
        };
        Format { w: self.h, h: self.w, t: flipped_title }
    }

    /// A copy of this format.
    fn copied(&self) -> (r: Format)
        ensures
            r@ == self@,
    {
        Format { w: self.w, h: self.h, t: copy_opt_string(&self.t) }
    }
}

impl Profile {
    /// The same profile with another color model.
    pub fn with_color_model(self, color_model: String) -> (r: Profile)
        ensures
            r@ == (ProfileView { color_model: color_model@, ..self@ }),
    {
        Profile { name: self.name, color_model, alias: self.alias, formats: self.formats }
    }

    /// The format of a slot of `size` inflated bytes: the first format of the
    /// profile with as many pixels as `size` bytes hold in the profile's
    /// color model, flipped if `flip`.
    pub fn guess_format(&self, size: u32, flip: bool) -> (r: Result<Format, MtkError>)
        requires
            mode_of_name(self@.color_model) matches Ok(m) ==> search_stays_in_range(
                self@.formats,
                (size / spec_bytes_per_pixel(m)) as int,
            ),
        ensures
            match r {
                Ok(f) => guess_format_spec(self@, size, flip) == Ok::<FormatView, MtkError>(f@),
                Err(e) => guess_format_spec(self@, size, flip) == Err::<FormatView, MtkError>(e),
            },
    {
        let mode = ColorMode::by_name(self.color_model.as_str())?;
        let bpp = mode.bytes_per_pixel();
        let pixels = size / bpp;
        let ghost fs = self@.formats;
        let n = self.formats.len();
        let mut i: usize = 0;
        while i < n
            invariant
                n == self.formats@.len(),
                fs == formats_view(self.formats@),
                fs == self@.formats,
                fs.len() == n,
                mode_of_name(self@.color_model) == Ok::<ColorMode, MtkError>(mode),
                pixels == size / spec_bytes_per_pixel(mode),
                i <= n,
                forall|j: int| 0 <= j < i ==> format_pixels(#[trigger] fs[j]) != pixels,
            decreases n - i,
        {
            let f = &self.formats[i];
            assert(fs[i as int] == f@);
            let w: u64 = f.w as u64;
            let h: u64 = f.h as u64;
            assert(w * h <= u64::MAX) by (nonlinear_arith)
                requires
                    w <= u32::MAX,
                    h <= u32::MAX,
            ;
            if w * h == pixels as u64 {
                proof {
                    assert(is_first_match(self@.formats, pixels as int, i as int));
                    lemma_first_match_is_chosen(self@.formats, pixels as int, i as int);
                }
                if flip {
                    return Ok(f.flip());
                } else {
                    return Ok(f.copied());
                }
            }
            i = i + 1;
        }
        proof {
            if exists|k: int| is_first_match(fs, pixels as int, k) {
                let k = choose|k: int| is_first_match(fs, pixels as int, k);
                assert(format_pixels(fs[k]) != pixels);
            }
        }
        Err(MtkError::NoMatchingFormat { size })
    }
}

/// The configuration: a version and the known device profiles.
#[derive(Clone, Debug)]
pub struct Config {
    pub version: String,
    pub profiles: Vec<Profile>,
}

/// `base`, then `part`, with a `/` between them unless the base is empty or
/// already ends with `/`. On every target this names the same path as
/// `std::path::Path::join` of a relative part (`/` separates on every
/// target), though on Windows `join` writes the separator as `\`.
pub open spec fn join_spec(base: Seq<char>, part: Seq<char>) -> Seq<char> {
    if base.len() == 0 {
        part
    } else if base.last() == '/' {
        base + part
    } else {
        base + seq!['/'] + part
    }
}

/// Joins a relative part to a base path (see `join_spec`).
fn join_segment(base: &str, part: &str) -> (r: String)
    ensures
        r@ == join_spec(base@, part@),
{
    let n = base.unicode_len();
    let mut r = base.to_owned();
    if n > 0 && base.get_char(n - 1) != '/' {
        r.append("/");
        proof {
            reveal_strlit("/");
        }
    }
    r.append(part);
    assert(r@ =~= join_spec(base@, part@));
    r
}

/// A path whose parent is the same on every target: no `.`, `\\` or `:`
/// anywhere (so no prefix and no current-directory part) and no two `/` in a row.
pub open spec fn portable_plain_path(p: Seq<char>) -> bool {
    &&& forall|i: int| 0 <= i < p.len() ==> #[trigger] p[i] != '.' && p[i] != '\\' && p[i] != ':'
    &&& forall|i: int| 0 <= i < p.len() - 1 ==> !(#[trigger] p[i] == '/' && p[i + 1] == '/')
}

/// Whether the last `/` of `p` is at `k`, neither first nor last.
pub open spec fn last_separator_at(p: Seq<char>, k: int) -> bool {
    &&& 0 < k < p.len() - 1
    &&& p[k] == '/'
    &&& forall|j: int| k < j < p.len() ==> #[trigger] p[j] != '/'
}

/// Whether the last `/` of `p`, at `k`, splits it into a directory and a name
/// that every target reads the same way: no backslash and no `:` anywhere (so no
/// prefix and one kind of separator), no two `/` in a row, a directory whose
/// last part is not `.`, and a name other than `.`. Other dots are free.
pub open spec fn plain_parent_at(p: Seq<char>, k: int) -> bool {
    &&& last_separator_at(p, k)
    &&& forall|i: int| 0 <= i < p.len() ==> #[trigger] p[i] != '\\' && p[i] != ':'
    &&& forall|i: int| 0 <= i < p.len() - 1 ==> !(#[trigger] p[i] == '/' && p[i + 1] == '/')
    &&& !(p[k - 1] == '.' && (k == 1 || p[k - 2] == '/'))
    &&& !(k == p.len() - 2 && p[k + 1] == '.')
}

/// Calls `std::path::Path::parent` on a UTF-8 path.
/// Claimed: where the last `/` of the path, at `k`, splits it as
/// `plain_parent_at` says, the parent is the path up to that `/` (its final
/// component removed; such a path has no prefix, `/` separates on every
/// target, and the directory's last part is kept as written). Of any other
/// path nothing is stated: the result depends on the target's path rules.
#[verifier::external_body]
fn parent_path(path: &str) -> (r: Option<String>)
    ensures
        forall|k: int| #[trigger] plain_parent_at(path@, k) ==> opt_string_view(r) == Some(path@.subrange(0, k)),
{
    std::path::Path::new(path).parent().map(|p| p.to_string_lossy().into_owned())
}

/// A portable plain path splits plainly at its last `/`.
proof fn lemma_portable_is_plain(p: Seq<char>, k: int)
    requires
        portable_plain_path(p),
        last_separator_at(p, k),
    ensures
        plain_parent_at(p, k),
{
    assert(p[k - 1] != '.');
    assert(p[k + 1] != '.');
}

/// Law: where the program's directory is `d` (not empty, not ending in `/`),
/// the last place looked in is `d/mtklogo.yaml`.
pub proof fn lemma_candidate_in_program_dir(home: Option<Seq<char>>, d: Seq<char>)
    requires
        d.len() > 0,
        d.last() != '/',
    ensures
        candidate_paths_spec(home, Some(d)).len() >= 2,
        candidate_paths_spec(home, Some(d)).last() == d + seq!['/'] + relative_config(),
{
}

/// The configuration file name.
pub open spec fn relative_config() -> Seq<char> {
    seq!['m', 't', 'k', 'l', 'o', 'g', 'o', '.', 'y', 'a', 'm', 'l']
}

/// The global configuration file.
pub open spec fn global_config() -> Seq<char> {
    seq!['/', 'e', 't', 'c', '/'] + relative_config()
}

/// The per-user configuration directory, under the home directory.
pub open spec fn user_config_dir() -> Seq<char> {
    seq!['.', 'c', 'o', 'n', 'f', 'i', 'g']
}

pub open spec fn opt_str_view(o: Option<&str>) -> Option<Seq<char>> {
    match o {
        Some(s) => Some(s@),
        None => None,
    }
}

/// Where the configuration file is looked for, in this order: in
/// `$HOME/.config`, in `/etc`, and in `parent`, the directory of the program.
pub open spec fn candidate_paths_spec(home: Option<Seq<char>>, parent: Option<Seq<char>>) -> Seq<Seq<char>> {
    let first = match home {
        Some(h) => seq![join_spec(join_spec(h, user_config_dir()), relative_config())],
        None => Seq::empty(),
    };
    let last = match parent {
        Some(p) => seq![join_spec(p, relative_config())],
        None => Seq::empty(),
    };
    first + seq![global_config()] + last
}

/// What the search for the configuration file gives, once the first
/// `failed` candidates could not be opened: the next candidate to open, or
/// `ConfigNotFound` once none is left.
pub open spec fn next_candidate_spec(candidate_count: nat, failed: nat) -> Result<nat, MtkError> {
    if failed < candidate_count {
        Ok(failed)
    } else {
        Err(MtkError::ConfigNotFound)
    }
}

/// The profile is called `name`, or has `name` among its other names.
pub open spec fn profile_is_named(p: ProfileView, name: Seq<char>) -> bool {
    p.name == name || (p.alias matches Some(a) && a.contains(name))
}

/// Whether `i` is the first profile called `name`.
pub open spec fn is_first_named(ps: Seq<ProfileView>, name: Seq<char>, i: int) -> bool {
    &&& 0 <= i < ps.len()
    &&& profile_is_named(ps[i], name)
    &&& forall|j: int| 0 <= j < i ==> !profile_is_named(#[trigger] ps[j], name)
}

pub open spec fn profiles_view(v: Seq<Profile>) -> Seq<ProfileView> {
    v.map_values(|p: Profile| p@)
}

fn has_alias(aliases: &Vec<String>, wanted: &String) -> (r: bool)
    ensures
        r == strings_view(aliases@).contains(wanted@),
{
    let n = aliases.len();
    let mut i: usize = 0;
    while i < n
        invariant
            n == aliases@.len(),
            i <= n,
            forall|j: int| 0 <= j < i ==> (#[trigger] aliases@[j])@ != wanted@,
        decreases n - i,
    {
        if aliases[i] == *wanted {
            assert(strings_view(aliases@)[i as int] == wanted@);
            return true;
        }
        i = i + 1;
    }
    proof {
        if strings_view(aliases@).contains(wanted@) {
            let j = choose|j: int| 0 <= j < n && strings_view(aliases@)[j] == wanted@;
            assert(aliases@[j]@ == wanted@);
        }
    }
    false
}

impl Config {
    /// The index of the first profile called `name`, by its name or by one of its other names.
    pub fn find_profile(&self, name: &str) -> (r: Option<usize>)
        ensures
            match r {
                Some(i) => is_first_named(profiles_view(self.profiles@), name@, i as int),
                None => forall|j: int| 0 <= j < self.profiles@.len() ==> !profile_is_named(
                    #[trigger] profiles_view(self.profiles@)[j],
                    name@,
                ),
            },
    {
        let wanted = name.to_owned();
        let ghost ps = profiles_view(self.profiles@);
        let n = self.profiles.len();
        let mut i: usize = 0;
        while i < n
            invariant
                n == self.profiles@.len(),
                ps == profiles_view(self.profiles@),
                wanted@ == name@,
                i <= n,
                forall|j: int| 0 <= j < i ==> !profile_is_named(#[trigger] ps[j], name@),
            decreases n - i,
        {
            let p = &self.profiles[i];
            assert(ps[i as int] == p@);
            let named = if p.name == wanted {
                true
            } else {
                match &p.alias {
                    Some(aliases) => has_alias(aliases, &wanted),
                    None => false,
                }
            };
            if named {
                return Some(i);
            }
            i = i + 1;
        }
        None
    }

    /// Where the configuration file is looked for, in this order:
    /// - `mtklogo.yaml` in `$HOME/.config`, where there is a home directory,
    /// - `/etc/mtklogo.yaml`,
    /// - `mtklogo.yaml` in the directory of the program, where it has one.
    pub fn candidate_paths(home: Option<&str>, current_exe: &str) -> (r: Vec<String>)
        ensures
            exists|parent: Option<Seq<char>>| strings_view(r@) == #[trigger] candidate_paths_spec(
                opt_str_view(home),
                parent,
            ),
            forall|k: int| portable_plain_path(current_exe@) && #[trigger] last_separator_at(current_exe@, k)
                ==> strings_view(r@) == candidate_paths_spec(
                opt_str_view(home),
                Some(current_exe@.subrange(0, k)),
            ),
            forall|k: int| #[trigger] plain_parent_at(current_exe@, k) ==> strings_view(r@) == candidate_paths_spec(
                opt_str_view(home),
                Some(current_exe@.subrange(0, k)),
            ),
            forall|k: int| #[trigger] plain_parent_at(current_exe@, k) ==> r@.len() >= 2 && r@.last()@
                == current_exe@.subrange(0, k) + seq!['/'] + relative_config(),
    {
        proof {
            reveal_strlit("mtklogo.yaml");
            reveal_strlit("/etc/mtklogo.yaml");
            reveal_strlit(".config");
        }
        let ghost home_view = match home {
            Some(h) => Some(h@),
            None => None::<Seq<char>>,
        };
        assert(".config"@ =~= user_config_dir());
        assert("mtklogo.yaml"@ =~= relative_config());
        assert("/etc/mtklogo.yaml"@ =~= global_config());
        let ghost first = match home_view {
            Some(hv) => seq![join_spec(join_spec(hv, user_config_dir()), relative_config())],
            None => Seq::<Seq<char>>::empty(),
        };
        let mut candidates: Vec<String> = Vec::new();
        if let Some(h) = home {
            let dir = join_segment(h, ".config");
            candidates.push(join_segment(dir.as_str(), "mtklogo.yaml"));
        }
        assert(strings_view(candidates@) =~= first);
        candidates.push("/etc/mtklogo.yaml".to_owned());
        assert(strings_view(candidates@) =~= first + seq![global_config()]);
        let parent = parent_path(current_exe);
        if let Some(p) = parent {
            candidates.push(join_segment(p.as_str(), "mtklogo.yaml"));
        }
        let ghost pv = opt_string_view(parent);
        assert(strings_view(candidates@) =~= candidate_paths_spec(home_view, pv));
        proof {
            assert forall|k: int| portable_plain_path(current_exe@) && #[trigger] last_separator_at(current_exe@, k)
                implies plain_parent_at(current_exe@, k) by {
                lemma_portable_is_plain(current_exe@, k);
            }
            assert forall|k: int| #[trigger] plain_parent_at(current_exe@, k) implies candidates@.len() >= 2
                && candidates@.last()@ == current_exe@.subrange(0, k) + seq!['/'] + relative_config() by {
                let d = current_exe@.subrange(0, k);
                assert(current_exe@[k - 1] != '/');
                lemma_candidate_in_program_dir(home_view, d);
                assert(strings_view(candidates@).last() == candidates@.last()@);
            }
        }
        candidates
    }

    /// One step of the search for the configuration file: with `candidate_count`
    /// candidates of which the first `failed` could not be opened, the index of
    /// the next one to open, or `ConfigNotFound`.
    pub fn next_candidate(candidate_count: usize, failed: usize) -> (r: Result<usize, MtkError>)
        ensures
            match r {
                Ok(i) => next_candidate_spec(candidate_count as nat, failed as nat) == Ok::<nat, MtkError>(i as nat),
                Err(e) => next_candidate_spec(candidate_count as nat, failed as nat) == Err::<nat, MtkError>(e),
            },
    {
        if failed < candidate_count {
            Ok(failed)
        } else {
            Err(MtkError::ConfigNotFound)
        }
    }
}

} // verus!
