use mimic::json::Json;
use mimic::lcu::{
    basic_authorization, is_unbound, settings_endpoint, split_unbinds, websocket_url, LcuError, LcuEvent, Lockfile,
    Summoner,
};
use mimic::settings::SettingsMap;

fn text(s: &str) -> Json {
    Json::Str(s.to_owned())
}

fn object(members: Vec<(&str, Json)>) -> Json {
    Json::Object(members.into_iter().map(|(k, v)| (k.to_owned(), v)).collect())
}

#[test]
fn parses_a_lockfile() {
    let lockfile = Lockfile::parse("LeagueClient:18956:65040:s3cr3t-pass_word:https").unwrap();
    assert_eq!(lockfile.pid, 18956);
    assert_eq!(lockfile.port, 65040);
    assert_eq!(lockfile.password, "s3cr3t-pass_word");
    assert_eq!(lockfile.base_url(), "https://127.0.0.1:65040");
}

#[test]
fn rejects_malformed_lockfiles() {
    assert!(Lockfile::parse("").is_err());
    assert!(Lockfile::parse("LeagueClient:1:2:pw").is_err());
    assert!(Lockfile::parse("LeagueClient:pid:65040:pw:https").is_err());
    assert!(Lockfile::parse("LeagueClient:1:99999:pw:https").is_err());
}

#[test]
fn a_malformed_lockfile_says_so() {
    assert!(matches!(Lockfile::parse("LeagueClient:1:2:pw"), Err(LcuError::MalformedLockfile(_))));
}

#[test]
fn maps_settings_files_to_endpoints() {
    assert_eq!(settings_endpoint("Game.cfg").unwrap(), "/lol-game-settings/v1/game-settings");
    assert_eq!(settings_endpoint("Input.ini").unwrap(), "/lol-game-settings/v1/input-settings");
    assert!(matches!(settings_endpoint("Other.cfg"), Err(LcuError::UnknownSettingsFile(_))));
}

#[test]
fn frees_keys_before_binding_them() {
    let mut settings = SettingsMap::default();
    settings.set("Input.ini", "GameEvents", "evtPushToTalk", "[<Unbound>]");
    settings.set("Input.ini", "GameEvents", "evtPlayerAttackMove", "[<Unbound>],[<Unbound>]");
    settings.set("Input.ini", "GameEvents", "evtShowHealthBars", "");
    settings.set("Input.ini", "GameEvents", "evtSelectAlly3", "[c]");
    settings.set("Input.ini", "GameEvents", "evtSmartCast", "[<Unbound>],[x]");
    // Not a keybind, so an empty value is just a value.
    settings.set("Game.cfg", "Chat", "Transparency", "");

    let (unbinds, rest) = split_unbinds(&settings);
    let keys = |map: &SettingsMap| map.iter().into_iter().map(|(_, _, key, _)| key).collect::<Vec<_>>();
    assert_eq!(keys(&unbinds), ["evtPlayerAttackMove", "evtPushToTalk", "evtShowHealthBars"]);
    assert_eq!(keys(&rest), ["Transparency", "evtSelectAlly3", "evtSmartCast"]);
}

#[test]
fn unbound_means_no_key_in_any_slot() {
    assert!(is_unbound(""));
    assert!(is_unbound(" [<Unbound>] , "));
    assert!(!is_unbound("[q]"));
    assert!(!is_unbound("[<Unbound>],[q]"));
}

#[test]
fn parses_current_summoner() {
    let json = object(vec![
        ("accountId", Json::Int(1)),
        ("gameName", text("Player")),
        ("tagLine", text("NA1")),
        ("puuid", text("abc-123")),
        ("summonerLevel", Json::Int(20)),
    ]);
    let summoner = Summoner::from_json(&json).unwrap();
    assert_eq!(summoner.puuid, "abc-123");
    assert_eq!(summoner.game_name, "Player");
    assert_eq!(summoner.tag_line, "NA1");
    assert_eq!(summoner.summoner_level, 20);
    assert_eq!(summoner.profile_icon_id, 0);
    assert_eq!(Summoner::from_json(&object(vec![("puuid", text("x"))])), None);
}

fn frame(opcode: i128, body: Option<Json>) -> Json {
    let mut items = vec![Json::Int(opcode), text("OnJsonApiEvent")];
    if let Some(body) = body {
        items.push(body);
    }
    Json::Array(items)
}

#[test]
fn parses_event_frames() {
    let body = object(vec![
        ("data", text("ChampSelect")),
        ("eventType", text("Update")),
        ("uri", text("/lol-gameflow/v1/gameflow-phase")),
    ]);
    let event = LcuEvent::parse(Some(frame(8, Some(body)))).unwrap();
    assert_eq!(event.uri, "/lol-gameflow/v1/gameflow-phase");
    assert_eq!(event.event_type, "Update");
    assert_eq!(event.data, text("ChampSelect"));
}

#[test]
fn delete_events_have_no_data() {
    let body = object(vec![("eventType", text("Delete")), ("uri", text("/lol-champ-select/v1/session"))]);
    assert_eq!(LcuEvent::parse(Some(frame(8, Some(body)))).unwrap().data, Json::Null);
}

#[test]
fn ignores_other_frames() {
    assert_eq!(LcuEvent::parse(None), None);
    assert_eq!(LcuEvent::parse(Some(frame(5, None))), None);
    let body = object(vec![("eventType", text("Update")), ("uri", text("/x"))]);
    assert_eq!(LcuEvent::parse(Some(frame(3, Some(body)))), None);
}

#[test]
fn websocket_credentials_are_basic_auth_for_riot() {
    // base64("riot:pass") is "cmlvdDpwYXNz".
    assert_eq!(basic_authorization("pass"), "Basic cmlvdDpwYXNz");
    // One and two bytes over a multiple of three are padded.
    assert_eq!(basic_authorization("p"), "Basic cmlvdDpw");
    assert_eq!(basic_authorization("pa"), "Basic cmlvdDpwYQ==");
    assert_eq!(basic_authorization("pas"), "Basic cmlvdDpwYXM=");
    assert_eq!(websocket_url(65040), "wss://127.0.0.1:65040/");
}
