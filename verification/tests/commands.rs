use mimic::champions::{Champion, Champions};
use mimic::commands::{
    account_rows, account_view, differences, override_rows, profile_views, setting_rows, update_found_message,
    update_message, valid_name, ChampionView, SettingRow,
};
use mimic::engine::Status;
use mimic::lcu::Summoner;
use mimic::naming::{file_stem, free_name};
use mimic::profiles::{Account, Profile};
use mimic::settings::SettingsMap;
use mimic::tray::{panel_x, Notice, PanelHidden};
use mimic::updates::Available;

#[test]
fn file_names_are_safe_on_windows() {
    assert_eq!(file_stem("hide under bush"), "hide under bush");
    assert_eq!(file_stem("a/b:c*?"), "a_b_c__");
    assert_eq!(file_stem("   "), "profile");
    assert_eq!(file_stem("Éclair 2"), "Éclair 2");
}

#[test]
fn profile_names_have_one_to_forty_characters() {
    assert_eq!(valid_name("  Main  "), Ok("Main".to_owned()));
    assert!(valid_name("   ").is_err());
    assert_eq!(valid_name(&"x".repeat(41)), Err("A profile name needs 1 to 40 characters".to_owned()));
    assert!(valid_name(&"é".repeat(40)).is_ok());
}

#[test]
fn free_names_count_up() {
    assert_eq!(free_name("Main", &[]), "Main");
    assert_eq!(free_name("Main", &["Main".to_owned(), "Main 2".to_owned()]), "Main 3");
}

#[test]
fn rows_show_every_setting_and_what_an_override_replaces() {
    let mut overlay = SettingsMap::default();
    overlay.set("Input.ini", "GameEvents", "evtCastSpell1", "[a]");
    overlay.set("Input.ini", "GameEvents", "evtCastSpell2", "[w]");
    let mut base = SettingsMap::default();
    base.set("Input.ini", "GameEvents", "evtCastSpell1", "[q]");
    base.set("Input.ini", "GameEvents", "evtCastSpell2", "[w]");
    let rows = override_rows(&overlay, Some(&base));
    assert_eq!(rows[0].from.as_deref(), Some("[q]"));
    assert_eq!(rows[1].from, None);
    assert_eq!(override_rows(&overlay, None)[0].from, None);
    assert_eq!(
        setting_rows(&overlay)[0],
        SettingRow::of(("Input.ini", "GameEvents", "evtCastSpell1", "[a]"))
    );
}

#[test]
fn the_panel_lists_profiles_with_what_they_would_change() {
    let mut a = SettingsMap::default();
    a.set("Input.ini", "GameEvents", "evtCastSpell1", "[q]");
    let profiles = [Profile { id: "a".into(), ..Profile::new("A", a.clone()) }];
    let mut current = SettingsMap::default();
    current.set("Input.ini", "GameEvents", "evtCastSpell1", "[x]");
    let counts = differences(&current, &profiles);
    assert_eq!(counts, [1]);
    let views = profile_views(&profiles, Some("a"), Some(&counts));
    assert!(views[0].active);
    assert_eq!((views[0].settings, views[0].differs), (1, Some(1)));
    assert_eq!(profile_views(&profiles, None, None)[0].differs, None);
}

#[test]
fn accounts_list_the_connected_one_first() {
    let entries = vec![
        ("p1".to_owned(), Account::new("zed#1".into())),
        ("p2".to_owned(), Account { profile_id: Some("m".into()), ..Account::new("Ahri#2".into()) }),
        ("p3".to_owned(), Account::new("bard#3".into())),
    ];
    let profiles = [Profile { id: "m".into(), ..Profile::new("Main", SettingsMap::default()) }];
    let rows = account_rows(&entries, &profiles, Some("p1"));
    let names: Vec<&str> = rows.iter().map(|r| r.name.as_str()).collect();
    assert_eq!(names, ["zed#1", "Ahri#2", "bard#3"]);
    assert!(rows[0].connected);
    assert_eq!(rows[1].profile.as_deref(), Some("Main"));
}

#[test]
fn the_header_shows_the_connected_or_last_account() {
    let champions = Champions::new("/data");
    let account = Summoner { game_name: "P".into(), tag_line: "1".into(), profile_icon_id: 7, summoner_level: 30, ..Summoner::default() };
    let connected = Status::Connected { account, phase: "Lobby".into(), queue: None };
    let view = account_view(&connected, None, &champions).unwrap();
    assert_eq!((view.name.as_str(), view.level), ("P#1", 30));
    assert!(view.icon.ends_with("profile-icons/7.jpg"));
    let last = Account { icon: Some(9), ..Account::new("Q#2".into()) };
    assert_eq!(account_view(&Status::ClientDown, Some(&last), &champions).unwrap().level, 0);
    assert_eq!(account_view(&Status::ClientDown, Some(&Account::new("Q#2".into())), &champions), None);
}

#[test]
fn champions_are_shown_by_name() {
    let champions = Champions::new("/data");
    let list = [Champion { id: 157, name: "Yasuo".into() }];
    assert_eq!(ChampionView::of(&champions, &list, 157).name, "Yasuo");
    assert_eq!(ChampionView::of(&champions, &list, 18).name, "Champion 18");
}

#[test]
fn answers_say_what_happened() {
    assert_eq!(update_message(0), "Already matches this account");
    assert_eq!(update_message(1), "Updated with 1 changed setting");
    assert_eq!(update_message(4), "Updated with 4 changed settings");
    assert_eq!(update_found_message(Some("1.2.0")), "mimic 1.2.0 is available");
    assert_eq!(update_found_message(None), "mimic is up to date");
}

#[test]
fn the_panel_reopens_only_after_the_guard() {
    let mut hidden = PanelHidden::default();
    assert!(!hidden.just_hidden(1000));
    hidden.hidden(1000);
    assert!(hidden.just_hidden(1100));
    assert!(!hidden.just_hidden(1250));
    assert_eq!(panel_x(500, 320, 12, 1000), 340);
    assert_eq!(panel_x(0, 320, 12, 1000), 12);
    assert_eq!(panel_x(5000, 320, 12, 1000), 1000);

    let mut notice = Notice::default();
    notice.set("hello".into());
    assert_eq!(notice.current(), "hello");
    let mut available = Available::default();
    available.remember(Some("2.0".into()));
    assert_eq!(available.version().as_deref(), Some("2.0"));
}
