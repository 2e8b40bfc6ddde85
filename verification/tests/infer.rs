use mtklogo::color::{ColorMode, Endian};
use mtklogo::error::MtkError;
use mtklogo::infer::{
    infer_profile, is_landscape, is_large_format, is_portrait, mode_bias, preferred_modes,
    scored_candidates, screen_hint_bias, try_infer_profile, unresolved_sizes, InferredFormat, ScreenHint, ScreenHintMode,
};

const BGRA_BE: ColorMode = ColorMode::Bgra(Endian::Big);

#[test]
fn shape_predicates() {
    assert!(is_portrait(10, 10));
    assert!(is_portrait(10, 20));
    assert!(!is_portrait(20, 10));
    assert!(is_landscape(20, 10));
    assert!(!is_landscape(10, 10));
    assert!(is_large_format(1000, 1000));
    assert!(!is_large_format(999, 1000));
}

#[test]
fn mode_biases_follow_preference() {
    let modes = preferred_modes();
    let biases: Vec<u32> = modes.iter().map(mode_bias).collect();
    assert_eq!(biases, vec![10, 8, 6, 5, 2, 1]);
    assert_eq!(modes[0], BGRA_BE);
}

#[test]
fn screen_hint_bias_values() {
    let hint = Some(ScreenHint { width: 1080, height: 2400 });
    assert_eq!(screen_hint_bias(1080, 2400, None), 0);
    assert_eq!(screen_hint_bias(1080, 2400, hint), 200);
    assert_eq!(screen_hint_bias(2400, 1080, hint), 200);
    assert_eq!(screen_hint_bias(1080, 1920, hint), 40);
    assert_eq!(screen_hint_bias(2400, 720, hint), 25);
    assert_eq!(screen_hint_bias(1080, 100, hint), 0);
}

#[test]
fn candidates_come_best_first() {
    let size = 1080 * 2400 * 4;
    let c = scored_candidates(size, None, ScreenHintMode::Prefer);
    assert_eq!(c[0].inference.mode, BGRA_BE);
    assert_eq!(c[0].inference.format, InferredFormat { width: 1080, height: 2400 });
    assert_eq!(c[0].score, 110);
    for w in c.windows(2) {
        assert!(w[0].score >= w[1].score);
    }
    for s in &c {
        let bpp = s.inference.mode.bytes_per_pixel();
        assert_eq!(s.inference.format.width * s.inference.format.height * bpp, size);
    }
}

#[test]
fn strict_hint_keeps_only_its_size() {
    let size = 1080 * 2400 * 4;
    let hint = Some(ScreenHint { width: 2400, height: 1080 });
    let c = scored_candidates(size, hint, ScreenHintMode::Strict);
    assert!(!c.is_empty());
    for s in &c {
        let f = s.inference.format;
        assert!((f.width, f.height) == (2400, 1080) || (f.width, f.height) == (1080, 2400));
    }
    assert_eq!(c[0].score, 1080 * 0 + 100 + 10 + 200);
}

#[test]
fn odd_sizes_have_no_candidates() {
    assert!(scored_candidates(1001, None, ScreenHintMode::Prefer).is_empty());
    assert!(infer_profile(&[1001, 7], None, ScreenHintMode::Prefer).is_none());
    assert!(infer_profile(&[], None, ScreenHintMode::Prefer).is_none());
}

#[test]
fn infer_profile_picks_best_mode_and_formats() {
    let sizes = [1080 * 2400 * 4, 1080 * 2400 * 4, 120 * 120 * 4];
    let p = infer_profile(&sizes, None, ScreenHintMode::Prefer).unwrap();
    assert_eq!(p.mode, BGRA_BE);
    assert_eq!(
        p.formats,
        vec![InferredFormat { width: 1080, height: 2400 }, InferredFormat { width: 120, height: 120 }]
    );
    let profile = p.to_profile("inferred_logo");
    assert_eq!(profile.name, "inferred_logo");
    assert_eq!(profile.color_model, "bgrabe");
    assert!(profile.alias.is_none());
    assert_eq!(profile.formats.len(), 2);
    assert_eq!((profile.formats[0].w, profile.formats[0].h), (1080, 2400));
    assert!(profile.formats[1].t.is_none());
}

#[test]
fn infer_profile_follows_the_hint() {
    let size = 1920 * 1200 * 4;
    let hint = Some(ScreenHint { width: 1200, height: 1920 });
    let p = infer_profile(&[size], hint, ScreenHintMode::Strict).unwrap();
    assert_eq!(p.mode, BGRA_BE);
    assert_eq!(p.formats.len(), 1);
    let f = p.formats[0];
    assert!((f.width, f.height) == (1200, 1920) || (f.width, f.height) == (1920, 1200));
}

#[test]
fn unresolved_sizes_are_distinct_and_increasing() {
    let sizes = [1001, 1080 * 2400 * 4, 7, 1001, 3];
    assert_eq!(unresolved_sizes(&sizes, None), vec![3, 7, 1001]);
    assert!(unresolved_sizes(&[1080 * 2400 * 4], None).is_empty());
}

#[test]
fn try_infer_profile_checks_its_input() {
    let huge = Some(ScreenHint { width: 70000, height: 70000 });
    assert_eq!(
        try_infer_profile(&[3, 2, 4], huge, ScreenHintMode::Prefer).unwrap_err(),
        MtkError::ScreenHintTooLarge { size: 2 }
    );
    assert!(try_infer_profile(&[3, 5], huge, ScreenHintMode::Prefer).unwrap().is_none());
    let sizes = [1080 * 2400 * 4, 120 * 120 * 4];
    let checked = try_infer_profile(&sizes, None, ScreenHintMode::Prefer).unwrap().unwrap();
    let direct = infer_profile(&sizes, None, ScreenHintMode::Prefer).unwrap();
    assert_eq!(checked.mode, direct.mode);
    assert_eq!(checked.formats, direct.formats);
}

#[test]
fn prefer_candidates_have_distinct_neighbours_and_cover_common_widths() {
    let size = 1080 * 2400 * 4;
    let hint = Some(ScreenHint { width: 1080, height: 2400 });
    let c = scored_candidates(size, hint, ScreenHintMode::Prefer);
    for w in c.windows(2) {
        assert_ne!(w[0].inference, w[1].inference);
    }
    for mode in preferred_modes() {
        let bpp = mode.bytes_per_pixel();
        if size % bpp != 0 {
            continue;
        }
        let pixels = size / bpp;
        for width in [720u32, 1080, 1200, 1440, 1600, 1920, 2160] {
            if pixels % width == 0 {
                let f = InferredFormat { width, height: pixels / width };
                assert!(c.iter().any(|s| s.inference.mode == mode && s.inference.format == f));
            }
        }
    }
}
