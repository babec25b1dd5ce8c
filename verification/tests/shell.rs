use open_task::shell::{key_for_vk, lparam_xy, resolve_dark, ThemePreference};
use open_task::view::Key;

#[test]
fn theme_names_are_case_insensitive_and_unknown_means_system() {
    assert_eq!(ThemePreference::parse("dark"), ThemePreference::Dark);
    assert_eq!(ThemePreference::parse("LIGHT"), ThemePreference::Light);
    assert_eq!(ThemePreference::parse("Dark"), ThemePreference::Dark);
    assert_eq!(ThemePreference::parse("system"), ThemePreference::System);
    assert_eq!(ThemePreference::parse("darker"), ThemePreference::System);
    assert_eq!(ThemePreference::parse(""), ThemePreference::System);
    assert_eq!(ThemePreference::parse("dÄrk"), ThemePreference::System);
}

#[test]
fn explicit_themes_override_the_system_setting() {
    assert!(resolve_dark(ThemePreference::Dark, false));
    assert!(!resolve_dark(ThemePreference::Light, true));
    assert!(resolve_dark(ThemePreference::System, true));
    assert!(!resolve_dark(ThemePreference::System, false));
}

#[test]
fn packed_coordinates_are_signed_sixteen_bit_halves() {
    assert_eq!(lparam_xy(0x0002_0001), (1, 2));
    assert_eq!(lparam_xy(0xFFFF_FFFE_u32 as isize), (-2, -1));
}

#[test]
fn navigation_keys_are_recognised() {
    assert_eq!(key_for_vk(0x26), Some(Key::Up));
    assert_eq!(key_for_vk(0x28), Some(Key::Down));
    assert_eq!(key_for_vk(0x41), None);
}
