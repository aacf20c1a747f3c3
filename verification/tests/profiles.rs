use mimic::profiles::{
    check_schema, is_json_name, order_overlays, order_profiles, order_snapshots, snapshots_to_remove, Account,
    Accounts, Overlay, Profile, ProfileError, Snapshot, State, Store, SCHEMA_VERSION,
};
use mimic::settings::SettingsMap;

fn settings(cast1: &str) -> SettingsMap {
    let mut map = SettingsMap::default();
    map.set("Input.ini", "GameEvents", "evtCastSpell1", cast1);
    map
}

#[test]
fn rejects_ids_that_would_escape_the_profiles_dir() {
    let store = Store::new("data");
    for id in ["", "../evil", "a/b", "a\\b", "c:evil"] {
        assert!(matches!(store.profile_path(id), Err(ProfileError::InvalidId(_))), "{id:?}");
    }
    assert_eq!(store.profile_path("main").unwrap(), "data/profiles/main.json");
    assert_eq!(store.profile_path("18a2f-x_Y").unwrap(), "data/profiles/18a2f-x_Y.json");
}

#[test]
fn files_live_where_the_store_says() {
    let store = Store::new("C:\\Users\\me\\AppData\\Roaming\\mimic\\");
    assert_eq!(store.overlay_path(157), "C:\\Users\\me\\AppData\\Roaming\\mimic\\overlays/157.json");
    let store = Store::new("/data");
    assert_eq!(store.accounts_path(), "/data/accounts.json");
    assert_eq!(store.state_path(), "/data/state.json");
    // Zero-padded so that file names sort by time.
    assert_eq!(store.snapshot_path(1_700_000_000), "/data/snapshots/00000000001700000000.json");
    assert_eq!(store.snapshot_path(-5), "/data/snapshots/-0000000000000000005.json");
}

#[test]
fn profiles_round_trip_and_list_by_name() {
    let main = Profile { id: "main".into(), ..Profile::new("main", settings("[q]")) };
    let alt = Profile { id: "alt".into(), ..Profile::new("Alt", settings("[a]")) };
    let names: Vec<String> = order_profiles(vec![main, alt]).into_iter().map(|p| p.name).collect();
    assert_eq!(names, ["Alt", "main"]);
}

#[test]
fn refuses_files_from_a_newer_schema() {
    assert_eq!(check_schema("p.json", Some(1)), Ok(()));
    assert_eq!(check_schema("p.json", None), Ok(()));
    assert_eq!(
        check_schema("p.json", Some(SCHEMA_VERSION as u64 + 1)),
        Err(ProfileError::UnsupportedSchema { path: "p.json".to_owned(), found: SCHEMA_VERSION + 1 })
    );
}

#[test]
fn errors_say_what_went_wrong() {
    let newer = ProfileError::UnsupportedSchema { path: "p.json".to_owned(), found: 2 };
    assert_eq!(newer.message(), "p.json was written by a newer mimic (schema 2, this build reads up to 1)");
    assert_eq!(ProfileError::InvalidId("../x".to_owned()).message(), "\"../x\" is not a valid profile id");
    let io = ProfileError::Io { path: "a".to_owned(), message: "denied".to_owned() };
    assert_eq!(io.message(), "a: denied");
}

#[test]
fn overlays_and_accounts_round_trip() {
    let yasuo = Overlay::new(157, settings("[Shift][q]"));
    let other = Overlay::new(18, settings("[q]"));
    let ids: Vec<u32> = order_overlays(vec![yasuo, other]).into_iter().map(|o| o.champion_id).collect();
    assert_eq!(ids, [18, 157]);

    let mut accounts = Accounts::new();
    let account = Account {
        profile_id: Some("main".into()),
        auto_apply: true,
        baseline: Some(settings("[q]")),
        ..Account::new("Player#NA1".into())
    };
    accounts.insert("puuid-1".into(), account);
    assert_eq!(accounts.get("puuid-1").unwrap().display_name, "Player#NA1");
    accounts.insert("puuid-1".into(), Account::new("Renamed#NA1".into()));
    assert_eq!(accounts.entries().len(), 1);
    assert_eq!(accounts.get("puuid-1").unwrap().display_name, "Renamed#NA1");
    assert!(accounts.remove("puuid-1").is_some());
    assert!(accounts.remove("puuid-1").is_none());
    assert_eq!(accounts.schema(), SCHEMA_VERSION);
}

#[test]
fn a_deleted_profile_is_forgotten_everywhere() {
    let mut accounts = Accounts::new();
    accounts.insert("a".into(), Account { profile_id: Some("main".into()), auto_apply: true, ..Account::new("A".into()) });
    accounts.insert("b".into(), Account { profile_id: Some("alt".into()), auto_apply: true, ..Account::new("B".into()) });
    accounts.unlink_profile("main");
    assert_eq!(accounts.get("a").unwrap().profile_id, None);
    assert!(!accounts.get("a").unwrap().auto_apply);
    assert_eq!(accounts.get("b").unwrap().profile_id.as_deref(), Some("alt"));

    let mut state = State::new();
    state.active_profile = Some("main".into());
    state.pending_apply = Some("alt".into());
    state.forget_profile("main");
    assert_eq!(state.active_profile, None);
    assert_eq!(state.pending_apply.as_deref(), Some("alt"));
}

#[test]
fn muting_keeps_the_list_sorted_and_once() {
    let mut state = State::new();
    assert!(state.mute("Input.ini/GameEvents/b"));
    assert!(state.mute("Game.cfg/HUD/a"));
    assert!(!state.mute("Game.cfg/HUD/a"));
    assert_eq!(state.muted, ["Game.cfg/HUD/a", "Input.ini/GameEvents/b"]);
    state.unmute("Game.cfg/HUD/a");
    assert_eq!(state.muted, ["Input.ini/GameEvents/b"]);
}

#[test]
fn snapshots_keep_only_the_newest() {
    let names: Vec<String> = (0..5).map(|n| format!("{:020}.json", 1_000 + n)).collect();
    let mut shuffled = names.clone();
    shuffled.reverse();
    let removed = snapshots_to_remove(shuffled, 3);
    assert_eq!(removed, names[..2].to_vec());
    assert!(snapshots_to_remove(names, 20).is_empty());
}

#[test]
fn snapshots_list_newest_first() {
    let older = Snapshot::at("apply 1", None, settings("[q]"), 10);
    let newer = Snapshot::at("apply 2", None, settings("[q]"), 20);
    let reasons: Vec<String> = order_snapshots(vec![older, newer]).into_iter().map(|s| s.reason).collect();
    assert_eq!(reasons, ["apply 2", "apply 1"]);
}

#[test]
fn only_json_files_are_read() {
    assert!(is_json_name("00001.json"));
    assert!(!is_json_name(".json"));
    assert!(!is_json_name("profile.json.tmp"));
}

#[test]
fn a_new_profile_is_named_by_when_it_was_made() {
    let at = Profile::at("Main", settings("[q]"), 0x1a2b);
    assert_eq!(at.id, "1a2b");
    assert_eq!((at.created, at.updated, at.schema), (0x1a2b, 0x1a2b, SCHEMA_VERSION));
    let now = Profile::new("Main", settings("[q]"));
    assert_eq!(now.id, format!("{:x}", now.created));
    assert!(now.created > 0);
}
