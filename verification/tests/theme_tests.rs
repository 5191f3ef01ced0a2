use order_ledger::dates::{Date, Timestamp};
use order_ledger::model::KvRow;
use order_ledger::store::Store;
use order_ledger::theme::{clamp_confetti, sanitize_color, BaseTheme, ThemeDTO};
use order_ledger::StoreError;

fn stamp() -> Timestamp {
    Timestamp { date: Date { year: 2024, month: 3, day: 1 }, ms: 0 }
}

#[test]
fn base_theme_round_trips_case_insensitively() {
    assert_eq!(BaseTheme::from_str_case_insensitive("DARK"), BaseTheme::Dark);
    assert_eq!(BaseTheme::from_str_case_insensitive("Custom"), BaseTheme::Custom);
    assert_eq!(BaseTheme::from_str_case_insensitive("light"), BaseTheme::Light);
    assert_eq!(BaseTheme::from_str_case_insensitive("nonsense"), BaseTheme::Light);
    assert_eq!(BaseTheme::Dark.as_str(), "dark");
    assert_eq!(BaseTheme::default(), BaseTheme::Light);
}

#[test]
fn sanitize_and_clamp_shape_the_palette() {
    assert_eq!(sanitize_color("  #fff  "), Some("#fff".to_string()));
    assert_eq!(sanitize_color("   "), None);
    let cleaned = clamp_confetti(vec![
        " #A ".to_string(),
        "#a".to_string(),
        "".to_string(),
        "#b".to_string(),
        "#c".to_string(),
        "#d".to_string(),
        "#e".to_string(),
        "#f".to_string(),
    ]);
    assert_eq!(cleaned, vec!["#A", "#b", "#c", "#d", "#e"]);
}

#[test]
fn theme_save_and_read_round_trip() {
    let mut s = Store::new();
    assert!(s.get_theme_colors().is_none());
    let dto = ThemeDTO {
        base: BaseTheme::Dark,
        colors: vec![("bg".to_string(), "#111".to_string()), ("fg".to_string(), "#eee".to_string())],
        confetti_colors: Some(vec![" #1 ".to_string(), "#1".to_string(), "#2".to_string()]),
    };
    s.save_theme_colors(dto, stamp()).unwrap();
    let read = s.get_theme_colors().unwrap();
    assert_eq!(read.base, BaseTheme::Dark);
    assert_eq!(
        read.colors,
        vec![("bg".to_string(), "#111".to_string()), ("fg".to_string(), "#eee".to_string())]
    );
    assert_eq!(
        read.confetti_colors,
        Some(vec!["#1".to_string(), "#2".to_string()])
    );
    assert_eq!(s.get_confetti_palette(), vec!["#1".to_string(), "#2".to_string()]);
}

#[test]
fn duplicate_or_reserved_color_keys_are_rejected() {
    let mut s = Store::new();
    let dup = ThemeDTO {
        base: BaseTheme::Light,
        colors: vec![("bg".to_string(), "#1".to_string()), ("bg".to_string(), "#2".to_string())],
        confetti_colors: None,
    };
    assert_eq!(s.save_theme_colors(dup, stamp()), Err(StoreError::ConstraintViolation));
    let reserved = ThemeDTO {
        base: BaseTheme::Light,
        colors: vec![("base".to_string(), "#1".to_string())],
        confetti_colors: None,
    };
    assert_eq!(
        s.save_theme_colors(reserved, stamp()),
        Err(StoreError::ConstraintViolation)
    );
    assert!(s.get_theme_colors().is_none());
}

#[test]
fn palette_defaults_depend_on_the_base_theme() {
    let mut s = Store::new();
    assert_eq!(s.get_confetti_palette(), vec!["#000000".to_string()]);
    let dark = ThemeDTO { base: BaseTheme::Dark, colors: vec![], confetti_colors: None };
    s.save_theme_colors(dark, stamp()).unwrap();
    assert_eq!(s.get_confetti_palette(), vec!["#ffffff".to_string()]);
    let custom = ThemeDTO { base: BaseTheme::Custom, colors: vec![], confetti_colors: None };
    s.save_theme_colors(custom, stamp()).unwrap();
    assert_eq!(
        s.get_confetti_palette(),
        vec!["#ef4444", "#22c55e", "#3b82f6", "#eab308", "#a855f7"]
    );
    let read = s.get_theme_colors().unwrap();
    assert_eq!(read.confetti_colors.unwrap().len(), 5);
}

#[test]
fn legacy_numbered_keys_feed_the_palette_in_suffix_order() {
    let mut s = Store::new();
    s.theme.push(KvRow { key: "base".to_string(), value: "custom".to_string(), updated_at: stamp() });
    s.theme.push(KvRow { key: "confetti2".to_string(), value: " #b ".to_string(), updated_at: stamp() });
    s.theme.push(KvRow { key: "Confetti1".to_string(), value: "#a".to_string(), updated_at: stamp() });
    s.theme.push(KvRow { key: "confetti10".to_string(), value: "#c".to_string(), updated_at: stamp() });
    s.theme.push(KvRow { key: "confettix".to_string(), value: "#zz".to_string(), updated_at: stamp() });
    let read = s.get_theme_colors().unwrap();
    assert_eq!(read.base, BaseTheme::Custom);
    assert_eq!(
        read.confetti_colors,
        Some(vec!["#a".to_string(), "#b".to_string(), "#c".to_string()])
    );
    // color tokens exclude the base and palette keys, including the
    // malformed one that still starts with the palette prefix
    assert_eq!(read.colors, vec![]);
}

#[test]
fn encoded_palette_row_wins_over_legacy_keys() {
    let mut s = Store::new();
    s.theme.push(KvRow {
        key: "CONFETTI".to_string(),
        value: "[\"#x\", 5, \"#y\"]".to_string(),
        updated_at: stamp(),
    });
    s.theme.push(KvRow { key: "confetti1".to_string(), value: "#legacy".to_string(), updated_at: stamp() });
    let read = s.get_theme_colors().unwrap();
    assert_eq!(read.base, BaseTheme::Light);
    assert_eq!(read.confetti_colors, Some(vec!["#x".to_string(), "#y".to_string()]));
    // an unreadable encoded row falls back to the legacy keys
    s.theme[0].value = "not an array".to_string();
    let read = s.get_theme_colors().unwrap();
    assert_eq!(read.confetti_colors, Some(vec!["#legacy".to_string()]));
}
