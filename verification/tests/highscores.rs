use hexsnake::board::BoundaryMode;
use hexsnake::daily::civil_from_days;
use hexsnake::highscores::{mode_key, today_iso, Entry, Highscores, MAX_ENTRIES};
use hexsnake::settings::{Settings, SizePreset, Speed};

fn entry(name: &str, score: u32) -> Entry {
    Entry {
        name: name.into(),
        score,
        date: "2026-06-12".into(),
    }
}

#[test]
fn insert_sorts_descending_and_truncates() {
    let mut hs = Highscores::default();
    for i in 0..15 {
        hs.insert("walls-16x12-normal", entry(&format!("p{i}"), i));
    }
    let table = hs.table("walls-16x12-normal");
    assert_eq!(table.len(), MAX_ENTRIES);
    assert_eq!(table.first().unwrap().score, 14);
    assert_eq!(table.last().unwrap().score, 5);
    assert!(table.windows(2).all(|w| w[0].score >= w[1].score));
}

#[test]
fn tables_are_separate_per_mode() {
    let mut hs = Highscores::default();
    hs.insert("walls-16x12-normal", entry("a", 3));
    hs.insert("torus-16x12-normal", entry("b", 7));
    assert_eq!(hs.table("walls-16x12-normal").len(), 1);
    assert_eq!(hs.table("torus-16x12-normal").len(), 1);
    assert!(hs.table("walls-24x18-fast").is_empty());
}

#[test]
fn highscores_qualification_rules() {
    let mut hs = Highscores::default();
    assert!(!hs.qualifies("k", 0), "score 0 never qualifies");
    assert!(hs.qualifies("k", 1), "any positive score on empty table");
    for i in 10..20 {
        hs.insert("k", entry("x", i));
    }
    assert!(!hs.qualifies("k", 9), "below the worst of a full table");
    assert!(!hs.qualifies("k", 10), "equal to the worst of a full table");
    assert!(hs.qualifies("k", 11));
}

#[test]
fn ties_keep_insertion_order() {
    let mut hs = Highscores::default();
    hs.insert("k", entry("first", 5));
    hs.insert("k", entry("second", 5));
    let table = hs.table("k");
    assert_eq!(table[0].name, "first");
    assert_eq!(table[1].name, "second");
}

#[test]
fn civil_from_days_known_dates() {
    assert_eq!(civil_from_days(0), (1970, 1, 1));
    assert_eq!(civil_from_days(19_723), (2024, 1, 1)); // leap year
    assert_eq!(civil_from_days(20_617), (2026, 6, 13));
    assert_eq!(civil_from_days(-1), (1969, 12, 31));
}

#[test]
fn mode_key_distinguishes_all_dimensions() {
    let mut s = Settings {
        preset: SizePreset::Small,
        ..Default::default()
    };
    let base = mode_key(&s);
    assert_eq!(base, "walls-16x12-normal");
    s.boundary = BoundaryMode::Periodic;
    assert_ne!(mode_key(&s), base);
    s.boundary = BoundaryMode::Walls;
    s.speed = Speed::Fast;
    assert_ne!(mode_key(&s), base);
    s.speed = Speed::Normal;
    s.preset = SizePreset::Large;
    assert_ne!(mode_key(&s), base);
}

#[test]
fn qualifying_score_enters_the_table_at_its_rank() {
    let mut hs = Highscores::default();
    for i in 1..=10 {
        hs.insert("k", entry("x", i * 10));
    }
    assert!(hs.qualifies("k", 55));
    hs.insert("k", entry("new", 55));
    let table = hs.table("k");
    assert_eq!(table.len(), MAX_ENTRIES);
    assert_eq!(table[5].name, "new");
    assert_eq!(table.last().unwrap().score, 20);
    assert_eq!(hs.keys(), vec!["k".to_string()]);
}

#[test]
fn custom_mode_key_and_today() {
    let s = Settings {
        preset: SizePreset::Custom,
        custom_width: 7,
        custom_height: -3,
        speed: Speed::Slow,
        boundary: BoundaryMode::Periodic,
        ..Default::default()
    };
    assert_eq!(mode_key(&s), "torus-7x-3-slow");
    let today = today_iso();
    assert_eq!(today.len(), 10);
    assert_eq!(&today[4..5], "-");
}

#[test]
fn mode_keys_of_custom_sizes_stay_distinct() {
    let mut keys = Vec::new();
    for w in [-12, -1, 1, 12, 121] {
        for h in [-5, 5, 15] {
            let s = Settings {
                preset: SizePreset::Custom,
                custom_width: w,
                custom_height: h,
                ..Default::default()
            };
            keys.push(mode_key(&s));
        }
    }
    assert_eq!(keys[0], "walls--12x-5-normal");
    for i in 0..keys.len() {
        for j in 0..i {
            assert_ne!(keys[i], keys[j]);
        }
    }
}

#[test]
fn qualifying_is_exactly_changing_the_table() {
    let key = "torus-24x18-fast";
    let mut hs = Highscores::default();
    for i in 1..=10 {
        hs.insert(key, entry(&format!("p{i}"), i * 10));
    }
    // A tie with the last entry does not qualify and changes nothing.
    assert!(!hs.qualifies(key, 10));
    let before: Vec<Entry> = hs.table(key).to_vec();
    hs.insert(key, entry("tie", 10));
    assert_eq!(hs.table(key), &before[..]);
    // A higher score qualifies and enters.
    assert!(hs.qualifies(key, 11));
    hs.insert(key, entry("new", 11));
    assert_ne!(hs.table(key), &before[..]);
    assert_eq!(hs.table(key).last().unwrap().score, 11);
    // Zero never qualifies.
    assert!(!hs.qualifies("walls-16x12-slow", 0));
}
