use mtklogo::color::{ColorMode, Endian};
use mtklogo::config::{Config, Format, Profile};
use mtklogo::error::{ErrorKind, MtkError};
use std::path::PathBuf;

fn profile(color_model: &str, formats: Vec<Format>) -> Profile {
    Profile { name: "default".to_string(), color_model: color_model.to_string(), alias: None, formats }
}

fn format(w: u32, h: u32, t: Option<&str>) -> Format {
    Format { w, h, t: t.map(|s| s.to_string()) }
}

#[test]
fn config_candidates_follow_home_then_etc_then_executable_order() {
    let home = "/tmp/home";
    let exe = "/tmp/bin/mtklogo";

    let candidates = Config::candidate_paths(Some(home), exe);

    assert_eq!(
        candidates.iter().map(PathBuf::from).collect::<Vec<_>>(),
        vec![
            PathBuf::from("/tmp/home/.config/mtklogo.yaml"),
            PathBuf::from("/etc/mtklogo.yaml"),
            PathBuf::from("/tmp/bin/mtklogo.yaml"),
        ]
    );
}

#[test]
fn config_candidates_without_home() {
    let candidates = Config::candidate_paths(None, "/usr/bin/mtklogo");
    assert_eq!(candidates, vec!["/etc/mtklogo.yaml".to_string(), "/usr/bin/mtklogo.yaml".to_string()]);
    let candidates = Config::candidate_paths(None, "/");
    assert_eq!(candidates, vec!["/etc/mtklogo.yaml".to_string()]);
}

#[test]
fn config_search_steps() {
    assert_eq!(Config::next_candidate(3, 0), Ok(0));
    assert_eq!(Config::next_candidate(3, 2), Ok(2));
    let err = Config::next_candidate(3, 3).unwrap_err();
    assert_eq!(err, MtkError::ConfigNotFound);
    assert_eq!(err.kind(), ErrorKind::NotFound);
}

#[test]
fn flip_swaps_dimensions_and_marks_title() {
    let f = format(720, 1280, Some("boot")).flip();
    assert_eq!((f.w, f.h), (1280, 720));
    assert_eq!(f.t.as_deref(), Some("flip(boot)"));
    let g = format(3, 4, None).flip();
    assert_eq!((g.w, g.h, g.t), (4, 3, None));
}

#[test]
fn with_color_model_replaces_only_the_model() {
    let p = profile("bgrabe", vec![format(1, 2, None)]).with_color_model("rgb565le".to_string());
    assert_eq!(p.name, "default");
    assert_eq!(p.color_model, "rgb565le");
    assert_eq!(p.formats.len(), 1);
}

#[test]
fn guess_format_finds_first_matching_format() {
    let p = profile("bgrabe", vec![format(10, 10, Some("a")), format(20, 5, Some("b")), format(4, 25, None)]);
    let f = p.guess_format(400, false).unwrap();
    assert_eq!((f.w, f.h, f.t.as_deref()), (10, 10, Some("a")));
    let f = p.guess_format(400, true).unwrap();
    assert_eq!((f.w, f.h, f.t.as_deref()), (10, 10, Some("flip(a)")));
    let err = p.guess_format(404, false).unwrap_err();
    assert_eq!(err, MtkError::NoMatchingFormat { size: 404 });
    assert_eq!(err.kind(), ErrorKind::InvalidData);
}

#[test]
fn guess_format_uses_the_color_model() {
    let p = profile("rgb565le", vec![format(10, 10, None), format(10, 20, None)]);
    let f = p.guess_format(400, false).unwrap();
    assert_eq!((f.w, f.h), (10, 20));
    let bad = profile("cmyk", vec![format(10, 10, None)]);
    let err = bad.guess_format(400, false).unwrap_err();
    assert_eq!(err, MtkError::UnknownColorMode);
    assert_eq!(err.kind(), ErrorKind::InvalidInput);
}

#[test]
fn color_mode_names_roundtrip() {
    let modes = ColorMode::enumerate();
    assert_eq!(modes.len(), 6);
    for m in modes {
        assert_eq!(ColorMode::by_name(&m.name()), Ok(m));
    }
    assert_eq!(ColorMode::Bgra(Endian::Big).name(), "bgrabe");
    assert_eq!(ColorMode::Rgb565(Endian::Little).name(), "rgb565le");
    assert_eq!(ColorMode::Rgb565(Endian::Big).bytes_per_pixel(), 2);
    assert_eq!(ColorMode::Rgba(Endian::Little).bytes_per_pixel(), 4);
    assert_eq!(ColorMode::by_name("bgra"), Err(MtkError::UnknownColorMode));
}

#[test]
fn find_profile_by_name_or_alias() {
    let mut a = profile("bgrabe", vec![]);
    a.name = "alpha".to_string();
    a.alias = Some(vec!["first".to_string(), "one".to_string()]);
    let mut b = profile("rgbabe", vec![]);
    b.name = "beta".to_string();
    b.alias = Some(vec!["one".to_string()]);
    let config = Config { version: "1".to_string(), profiles: vec![a, b] };
    assert_eq!(config.find_profile("alpha"), Some(0));
    assert_eq!(config.find_profile("beta"), Some(1));
    assert_eq!(config.find_profile("one"), Some(0));
    assert_eq!(config.find_profile("first"), Some(0));
    assert_eq!(config.find_profile("gamma"), None);
}

#[test]
fn guess_format_agrees_for_equal_profiles() {
    let p = profile("bgrabe", vec![format(10, 10, Some("a"))]);
    let q = p.clone();
    let (f, g) = (p.guess_format(400, true).unwrap(), q.guess_format(400, true).unwrap());
    assert_eq!((f.w, f.h, f.t), (g.w, g.h, g.t));
}
