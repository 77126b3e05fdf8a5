//! Checks of configuration layering and text handling.

use rusty_cli::config::{resolve_setting, strip_bom};
use rusty_cli::Config;

#[test]
fn explicit_values_win_over_the_layer_below() {
    let flags = Config {
        iterations: Some(1),
        ..Default::default()
    };
    let file = Config {
        name: Some("from file".into()),
        iterations: Some(999),
        ..Default::default()
    };

    let merged = flags.or(file);
    assert_eq!(merged.iterations, Some(1), "the flag should win");
    assert_eq!(
        merged.name.as_deref(),
        Some("from file"),
        "the file fills in what the flag left unset"
    );
}

#[test]
fn the_default_config_sets_nothing() {
    let config = Config::default();
    assert_eq!(config.name, None);
    assert_eq!(config.count, None);
    assert_eq!(config.iterations, None);
    assert_eq!(config.limit, None);
    assert_eq!(config.delay_ms, None);
    assert_eq!(config.quiet, None);
}

#[test]
fn the_example_sets_every_field() {
    let example = Config::example();
    assert_eq!(example.name.as_deref(), Some("Dhruv"));
    assert_eq!(example.count, Some(20));
    assert_eq!(example.iterations, Some(100_000));
    assert_eq!(example.limit, Some(500_000));
    assert_eq!(example.delay_ms, Some(50));
    assert_eq!(example.quiet, Some(false));
}

#[test]
fn layering_over_nothing_and_under_nothing_changes_nothing() {
    let example = Config::example();
    assert_eq!(example.clone().or(Config::default()), example);
    assert_eq!(Config::default().or(example.clone()), example);
}

#[test]
fn layering_is_associative() {
    let a = Config { iterations: Some(1), ..Default::default() };
    let b = Config { iterations: Some(2), name: Some("b".into()), ..Default::default() };
    let c = Config { limit: Some(3), name: Some("c".into()), quiet: Some(true), ..Default::default() };
    let left = a.clone().or(b.clone().or(c.clone()));
    let right = a.or(b).or(c);
    assert_eq!(left, right);
    assert_eq!(left.iterations, Some(1));
    assert_eq!(left.name.as_deref(), Some("b"));
    assert_eq!(left.limit, Some(3));
    assert_eq!(left.quiet, Some(true));
    assert_eq!(left.count, None);
}

#[test]
fn every_field_layers_the_same_way() {
    let upper = Config {
        name: None,
        count: Some(1),
        iterations: None,
        limit: Some(4),
        delay_ms: None,
        quiet: Some(false),
    };
    let lower = Config::example();
    let merged = upper.or(lower);
    assert_eq!(merged.name.as_deref(), Some("Dhruv"));
    assert_eq!(merged.count, Some(1));
    assert_eq!(merged.iterations, Some(100_000));
    assert_eq!(merged.limit, Some(4));
    assert_eq!(merged.delay_ms, Some(50));
    assert_eq!(merged.quiet, Some(false));
}

#[test]
fn a_setting_comes_from_the_flag_then_the_file_then_the_default() {
    assert_eq!(resolve_setting(Some(1u32), Some(2), 3), 1);
    assert_eq!(resolve_setting(None, Some(2u32), 3), 2);
    assert_eq!(resolve_setting(None::<u32>, None, 3), 3);
}

#[test]
fn a_leading_bom_is_stripped_once() {
    assert_eq!(strip_bom("\u{feff}{\"name\": \"Dhruv\"}"), "{\"name\": \"Dhruv\"}");
    assert_eq!(strip_bom("{}"), "{}");
    assert_eq!(strip_bom(""), "");
    assert_eq!(strip_bom("\u{feff}"), "");
    assert_eq!(strip_bom("\u{feff}\u{feff}x"), "\u{feff}x");
    assert_eq!(strip_bom("x\u{feff}"), "x\u{feff}");
}
