use hexsnake::board::BoundaryMode;
use hexsnake::highscores::mode_key;
use hexsnake::mode::parse;
use hexsnake::settings::{Settings, SizePreset, Speed};

const PRESETS: [(i32, i32); 3] = [(16, 12), (24, 18), (32, 24)];
const SPEEDS: [&str; 3] = ["slow", "normal", "fast"];

#[test]
fn accepts_all_valid_modes() {
    for b in ["walls", "torus"] {
        for (w, h) in PRESETS {
            for s in SPEEDS {
                let key = format!("{b}-{w}x{h}-{s}");
                assert!(parse(&key).is_some(), "should accept {key}");
            }
        }
    }
}

#[test]
fn rejects_non_presets_and_garbage() {
    assert!(parse("walls-20x15-normal").is_none(), "custom size");
    assert!(parse("walls-16x12-turbo").is_none(), "bad speed");
    assert!(parse("diag-16x12-normal").is_none(), "bad boundary");
    assert!(parse("walls-16x12").is_none(), "missing speed");
    assert!(parse("walls-16x12-normal-extra").is_none(), "trailing");
    assert!(parse("").is_none());
}

#[test]
fn implied_board_matches_key() {
    let board = parse("torus-24x18-fast").unwrap();
    assert_eq!(board.boundary, BoundaryMode::Periodic);
    assert_eq!((board.width, board.height), (24, 18));
}

#[test]
fn every_preset_key_parses_back() {
    for boundary in [BoundaryMode::Walls, BoundaryMode::Periodic] {
        for preset in [SizePreset::Small, SizePreset::Medium, SizePreset::Large] {
            for speed in Speed::all() {
                let s = Settings { boundary, preset, speed, ..Settings::default() };
                let (w, h) = s.dimensions();
                let board = parse(&mode_key(&s)).expect("preset key parses");
                assert_eq!((board.boundary, board.width, board.height), (boundary, w, h));
            }
        }
    }
    let custom = Settings { preset: SizePreset::Custom, custom_width: 20, custom_height: 15, ..Settings::default() };
    assert!(parse(&mode_key(&custom)).is_none(), "custom sizes have no global table");
}

#[test]
fn only_plain_decimal_sizes_name_a_table() {
    assert!(parse("walls-016x12-normal").is_none(), "leading zero");
    assert!(parse("walls-+16x12-normal").is_none(), "plus sign");
    assert!(parse("torus-32x024-fast").is_none(), "leading zero in height");
    assert!(parse("walls-16x12-normal").is_some());
}
