use mimic::settings::{
    diff, is_volatile, merge, overlay_between, Change, PersistedFile, PersistedSection, PersistedSetting,
    PersistedSettings, SettingsMap,
};

fn section(name: &str, settings: &[(&str, &str)]) -> PersistedSection {
    PersistedSection {
        name: name.to_owned(),
        settings: settings
            .iter()
            .map(|(name, value)| PersistedSetting { name: (*name).to_owned(), value: (*value).to_owned() })
            .collect(),
    }
}

/// A `PersistedSettings.json` in the shape a Windows install writes, with a local key.
fn persisted() -> PersistedSettings {
    PersistedSettings {
        description: None,
        files: vec![
            PersistedFile {
                name: "Game.cfg".to_owned(),
                sections: vec![
                    section("ColorPalette", &[("ColorPalette", "0")]),
                    section("General", &[("CameraMode", "0"), ("CfgVersion", "14.9.581.8651"), ("WindowMode", "2")]),
                    section("HUD", &[("DeathRecapNativeOffsetX", "0.1355"), ("MinimapScale", "1.0000")]),
                ],
            },
            PersistedFile {
                name: "Input.ini".to_owned(),
                sections: vec![section(
                    "GameEvents",
                    &[("evtCastSpell1", "[q]"), ("evtCastSpell2", "[w]"), ("evtPushToTalk", "[<Unbound>]")],
                )],
            },
        ],
    }
}

fn sample() -> SettingsMap {
    SettingsMap::from_persisted(&persisted())
}

#[test]
fn parses_and_drops_local_keys() {
    let persisted = persisted();
    let total: usize = persisted.files.iter().flat_map(|f| &f.sections).map(|s| s.settings.len()).sum();
    let map = sample();

    assert_eq!(map.file_names(), ["Game.cfg", "Input.ini"]);
    assert_eq!(map.len(), total - 1);
    assert!(map.get("Input.ini", "GameEvents", "evtCastSpell1").is_some());
    assert!(map.get("Game.cfg", "General", "CameraMode").is_some());
    assert_eq!(map.get("Game.cfg", "General", "CfgVersion"), None);
}

#[test]
fn round_trips_through_persisted_shape() {
    let map = sample();
    let persisted = PersistedSettings::from_map(&map);
    assert_eq!(SettingsMap::from_persisted(&persisted), map);
}

#[test]
fn diff_reports_changed_added_and_removed() {
    let from = sample();
    let cast1 = from.get("Input.ini", "GameEvents", "evtCastSpell1").unwrap().to_owned();
    let palette = from.get("Game.cfg", "ColorPalette", "ColorPalette").unwrap().to_owned();

    let mut to = from.clone();
    to.set("Input.ini", "GameEvents", "evtCastSpell1", "[Shift][F12]");
    to.set("Input.ini", "GameEvents", "evtNotARealEvent", "[e]");
    to.remove_section("Game.cfg", "ColorPalette");

    let changes = diff(&from, &to);
    assert_eq!(
        changes,
        vec![
            Change::new("Game.cfg", "ColorPalette", "ColorPalette", Some(&palette), None),
            Change::new("Input.ini", "GameEvents", "evtCastSpell1", Some(&cast1), Some("[Shift][F12]")),
            Change::new("Input.ini", "GameEvents", "evtNotARealEvent", None, Some("[e]")),
        ]
    );
    assert!(diff(&from, &from).is_empty());
}

#[test]
fn layout_the_game_rewrites_is_volatile() {
    for key in ["DeathRecapNativeOffsetX", "ItemShopPrevX", "ItemShopResizeWidth"] {
        assert!(is_volatile("Game.cfg", "HUD", key), "{key}");
    }
    assert!(is_volatile("Game.cfg", "Chat", "ChatX"));
    assert!(is_volatile("Game.cfg", "ItemShop", "NativeOffsetY"));
    assert!(is_volatile("Input.ini", "GameEvents", "evtPushToTalk"));
    assert!(!is_volatile("Game.cfg", "HUD", "MinimapScale"));
    assert!(!is_volatile("Input.ini", "GameEvents", "evtCastSpell1"));

    // The real file has such keys, and a diff made only of them counts as nothing.
    let base = sample();
    let mut moved = base.clone();
    moved.set("Game.cfg", "HUD", "DeathRecapNativeOffsetX", "0.0852");
    assert!(overlay_between(&base, &moved).is_only_volatile());
    moved.set("Input.ini", "GameEvents", "evtCastSpell1", "[Shift][F12]");
    assert!(!overlay_between(&base, &moved).is_only_volatile());
    assert!(SettingsMap::default().is_only_volatile());
}

#[test]
fn overlay_merges_back_to_target() {
    let base = sample();
    let mut target = base.clone();
    target.set("Input.ini", "GameEvents", "evtCastSpell2", "[Shift][F11]");
    target.set("Game.cfg", "General", "CameraMode", "not-a-real-mode");

    let overlay = overlay_between(&base, &target);
    assert_eq!(overlay.len(), 2);
    assert_eq!(merge(&base, &overlay), target);
    assert_eq!(merge(&base, &SettingsMap::default()), base);
}

#[test]
fn reading_a_setting_gives_what_was_written() {
    let mut map = SettingsMap::default();
    map.set("Game.cfg", "HUD", "MinimapScale", "1.2");
    map.set("Game.cfg", "HUD", "MinimapScale", "1.6");
    assert_eq!(map.get("Game.cfg", "HUD", "MinimapScale"), Some("1.6"));
    assert_eq!(map.len(), 1);
    assert_eq!(map.get("Game.cfg", "HUD", "Other"), None);
}

#[test]
fn settings_are_listed_in_order_of_where_they_live() {
    let mut map = SettingsMap::default();
    map.set("Input.ini", "GameEvents", "b", "2");
    map.set("Game.cfg", "HUD", "z", "3");
    map.set("Input.ini", "GameEvents", "a", "1");
    let keys: Vec<String> = map.iter().into_iter().map(|(_, _, key, _)| key).collect();
    assert_eq!(keys, ["z", "a", "b"]);
}

#[test]
fn the_persisted_shape_has_no_local_keys_and_groups_by_file() {
    let map = sample();
    let persisted = PersistedSettings::from_map(&map);
    let names: Vec<&str> = persisted.files.iter().map(|f| f.name.as_str()).collect();
    assert_eq!(names, ["Game.cfg", "Input.ini"]);
    assert!(persisted.description.is_none());
    let general = persisted.files[0].sections.iter().find(|s| s.name == "General").unwrap();
    assert!(general.settings.iter().all(|s| s.name != "CfgVersion"));
}
