use mimic::engine::{
    applied_after, asked_about, at_login, champion_to_keep, copy_name, count, discards, imported, in_game,
    keep_muted, last_snapshot_of, login_notice, matching_profile, mute_id, on_pick, picked_champion,
    settle_message, snapshot_id, snapshot_to_restore, swiftplay_champion, user_changes, would_change,
    ActionError, Applied, AtLogin, DriftChoice, Follow, FollowAction, Outcome, Status, Step,
};
use mimic::json::Json;
use mimic::lcu::{LcuEvent, Summoner};
use mimic::profiles::{Profile, Snapshot};
use mimic::settings::{Change, SettingsMap};

fn text(s: &str) -> Json {
    Json::Str(s.to_owned())
}

fn object(members: Vec<(&str, Json)>) -> Json {
    Json::Object(members.into_iter().map(|(k, v)| (k.to_owned(), v)).collect())
}

#[test]
fn labels_say_what_the_tray_should_show() {
    let account = Summoner { game_name: "Player".into(), tag_line: "NA1".into(), ..Summoner::default() };
    assert_eq!(Status::Connected { account, phase: "Lobby".into(), queue: None }.label(), "Player#NA1");
    assert_eq!(Status::ClientDown.label(), "League client is not running");
}

#[test]
fn activity_names_the_queue_and_what_is_going_on() {
    let status = |phase: &str, queue: Option<&str>| Status::Connected {
        account: Summoner::default(),
        phase: phase.into(),
        queue: queue.map(str::to_owned),
    };
    assert_eq!(status("None", None).activity(), None);
    assert_eq!(status("Lobby", Some("Swiftplay")).activity().as_deref(), Some("In lobby"));
    assert_eq!(status("Matchmaking", Some("Swiftplay")).activity().as_deref(), Some("Swiftplay \u{b7} In queue"));
    assert_eq!(status("InProgress", Some("ARAM")).activity().as_deref(), Some("ARAM \u{b7} In game"));
    assert_eq!(status("ChampSelect", None).activity().as_deref(), Some("Champ select"));
    assert_eq!(Status::ClientDown.activity(), None);
}

#[test]
fn the_other_statuses_have_their_own_labels() {
    assert_eq!(Status::Starting.label(), "Starting\u{2026}");
    assert_eq!(Status::NoInstall.label(), "League of Legends not found");
    assert_eq!(Status::LoggingIn.label(), "Waiting for login\u{2026}");
    assert_eq!(Status::default(), Status::Starting);
    assert_eq!(Status::LoggingIn.riot_id(), None);
}

#[test]
fn login_applies_a_queued_profile_or_an_opted_in_one() {
    assert_eq!(at_login(None, None, true, false, "None"), AtLogin::Nothing);
    // Having a profile is not consent to auto-apply.
    assert_eq!(at_login(None, Some("main"), false, false, "Lobby"), AtLogin::Nothing);
    assert_eq!(at_login(None, Some("main"), true, false, "Lobby"), AtLogin::Apply("main"));
    // What the user explicitly queued wins, with or without auto-apply.
    assert_eq!(at_login(Some("alt"), Some("main"), true, false, "None"), AtLogin::Apply("alt"));
    assert_eq!(at_login(Some("alt"), None, false, false, "None"), AtLogin::Apply("alt"));
}

#[test]
fn login_asks_before_auto_apply_overwrites_changes() {
    // Changed behind our back: auto-apply must not silently undo it.
    assert_eq!(at_login(None, Some("main"), true, true, "None"), AtLogin::AskAboutChanges);
    assert_eq!(at_login(None, Some("main"), false, true, "None"), AtLogin::AskAboutChanges);
    // An explicit request still goes ahead.
    assert_eq!(at_login(Some("alt"), Some("main"), true, true, "None"), AtLogin::Apply("alt"));
}

#[test]
fn login_waits_when_a_game_is_under_way() {
    for phase in ["ChampSelect", "GameStart", "InProgress", "Reconnect"] {
        assert_eq!(at_login(Some("alt"), None, false, false, phase), AtLogin::GameUnderWay, "{phase}");
        assert_eq!(at_login(None, Some("main"), true, true, phase), AtLogin::GameUnderWay, "{phase}");
        assert!(in_game(phase));
    }
    assert_eq!(at_login(None, None, false, false, "InProgress"), AtLogin::Nothing);
    assert_eq!(at_login(Some("alt"), None, false, false, "EndOfGame"), AtLogin::Apply("alt"));
    assert!(!in_game("Lobby"));
}

fn muted_scenario() -> (SettingsMap, SettingsMap, SettingsMap) {
    let mut baseline = SettingsMap::default();
    baseline.set("Game.cfg", "HUD", "ShowFPS", "0");
    baseline.set("Input.ini", "GameEvents", "evtCastSpell1", "[q]");
    let expected = baseline.clone();
    let mut current = baseline.clone();
    current.set("Game.cfg", "HUD", "ShowFPS", "1");
    current.set("Input.ini", "GameEvents", "evtCastSpell1", "[a]");
    (baseline, expected, current)
}

#[test]
fn actions_changes_to_muted_settings_are_kept_in_the_baseline() {
    let (mut baseline, expected, current) = muted_scenario();
    let muted = ["Game.cfg/HUD/ShowFPS".to_owned()];
    assert_eq!(keep_muted(&mut baseline, &expected, &current, &muted), 1);
    // The muted one is no longer a difference; the other still is.
    let left = user_changes(&baseline, &current);
    assert_eq!(left.len(), 1);
    assert_eq!(left[0].key, "evtCastSpell1");
}

#[test]
fn drift_changes_to_muted_settings_are_kept_in_the_baseline() {
    let (mut baseline, expected, current) = muted_scenario();
    let muted = ["Game.cfg/HUD/ShowFPS".to_owned()];
    assert_eq!(keep_muted(&mut baseline, &expected, &current, &muted), 1);
    let left = user_changes(&baseline, &current);
    assert_eq!(left.len(), 1);
    assert_eq!(left[0].key, "evtCastSpell1");
}

#[test]
fn muted_settings_are_not_asked_about() {
    let (_, expected, current) = muted_scenario();
    let muted = ["Game.cfg/HUD/ShowFPS".to_owned()];
    let asked = asked_about(&expected, &current, &muted);
    assert_eq!(asked.len(), 1);
    assert_eq!(mute_id(&asked[0]), "Input.ini/GameEvents/evtCastSpell1");
    assert_eq!(asked_about(&expected, &current, &[]).len(), 2);
}

#[test]
fn a_preview_lists_only_what_an_apply_would_alter() {
    let mut current = SettingsMap::default();
    current.set("Input.ini", "GameEvents", "evtCastSpell1", "[q]");
    current.set("Input.ini", "GameEvents", "evtCastSpell2", "[w]");
    current.set("Game.cfg", "HUD", "OnlyOnThisAccount", "1");
    current.set("Game.cfg", "ItemShop", "CurrentTab", "0");

    let mut profile = SettingsMap::default();
    profile.set("Input.ini", "GameEvents", "evtCastSpell1", "[Shift][q]");
    profile.set("Input.ini", "GameEvents", "evtCastSpell2", "[w]");
    profile.set("Game.cfg", "ItemShop", "CurrentTab", "1");

    // One real difference. The key the profile lacks is not deleted, and the shop's
    // state does not count.
    let changes = would_change(&current, &profile);
    assert_eq!(changes.len(), 1);
    assert_eq!(changes[0].key, "evtCastSpell1");
    assert_eq!((changes[0].from.as_deref(), changes[0].to.as_deref()), (Some("[q]"), Some("[Shift][q]")));
    assert!(would_change(&current, &current).is_empty());
}

#[test]
fn user_changes_ignore_layout_the_game_moves() {
    let mut baseline = SettingsMap::default();
    baseline.set("Input.ini", "GameEvents", "evtCastSpell1", "[q]");
    baseline.set("Game.cfg", "HUD", "DeathRecapNativeOffsetX", "0.1355");
    let mut current = baseline.clone();
    current.set("Game.cfg", "HUD", "DeathRecapNativeOffsetX", "0.0852");
    assert!(user_changes(&baseline, &current).is_empty());

    current.set("Input.ini", "GameEvents", "evtCastSpell1", "[Shift][q]");
    let changes = user_changes(&baseline, &current);
    assert_eq!(changes.len(), 1);
    assert_eq!((changes[0].key.as_str(), changes[0].to.as_deref()), ("evtCastSpell1", Some("[Shift][q]")));
}

fn profile(id: &str, name: &str, settings: SettingsMap) -> Profile {
    Profile { id: id.into(), ..Profile::new(name, settings) }
}

#[test]
fn recognises_the_profile_an_account_is_already_on() {
    let mut current = SettingsMap::default();
    current.set("Input.ini", "GameEvents", "evtCastSpell1", "[q]");
    current.set("Game.cfg", "HUD", "DeathRecapNativeOffsetX", "0.0852");
    current.set("Game.cfg", "HUD", "OnlyOnThisAccount", "1");

    // Same binds; the layout differs and the account has an extra key. Still a match.
    let mut same = SettingsMap::default();
    same.set("Input.ini", "GameEvents", "evtCastSpell1", "[q]");
    same.set("Game.cfg", "HUD", "DeathRecapNativeOffsetX", "0.1355");
    let mut other = SettingsMap::default();
    other.set("Input.ini", "GameEvents", "evtCastSpell1", "[a]");

    let profiles = [
        profile("other", "Other", other),
        profile("same", "Same", same.clone()),
        profile("empty", "Empty", SettingsMap::default()),
    ];
    assert_eq!(matching_profile(&current, &profiles, None), Some("same".into()));
    assert_eq!(matching_profile(&current, &profiles[..1], None), None);

    // Between identical profiles the one used last wins over the newer one.
    let older = Profile {
        schema: profiles[1].schema,
        id: profiles[1].id.clone(),
        name: profiles[1].name.clone(),
        created: profiles[1].created,
        updated: profiles[1].updated,
        settings: profiles[1].settings.clone(),
        client: Vec::new(),
    };
    let mut newer = profile("copy", "Copy", same.clone());
    newer.updated = older.updated + 1;
    let with_copy = [older, newer];
    assert_eq!(matching_profile(&current, &with_copy, None), Some("copy".into()));
    assert_eq!(matching_profile(&current, &with_copy, Some("same")), Some("same".into()));
    // Having been used last does not make a profile match.
    assert_eq!(matching_profile(&current, &profiles, Some("other")), Some("same".into()));
}

#[test]
fn describes_a_queued_apply() {
    let outcome = Outcome::Queued("Main".into());
    assert_eq!(outcome.describe(), "'Main' will be applied the next time you log into League");
}

#[test]
fn describes_the_outcome_of_an_apply() {
    assert_eq!(Applied::default().describe("Applied"), "Already up to date");
    assert_eq!(Applied { changed: 96, stuck: vec![] }.describe("Applied"), "Applied 96 settings. They take effect next game.");
    assert_eq!(
        Applied { changed: 94, stuck: vec!["evtPushToTalk".into(), "evtSelectAlly4".into()] }.describe("Restored"),
        "Restored 94 settings. League refused 2: evtPushToTalk, evtSelectAlly4"
    );
    assert_eq!(Applied { changed: 1, stuck: vec![] }.describe("Applied"), "Applied 1 setting. They take effect next game.");
    assert_eq!(Outcome::Applied(Applied::default()).describe(), "Already up to date");
}

#[test]
fn a_pick_switches_overlays_only_when_needed() {
    // No overlay anywhere: nothing to do.
    assert_eq!(on_pick(None, 157, false), Step::Nothing);
    // Picking a champion with an overlay puts it on.
    assert_eq!(on_pick(None, 157, true), Step::Apply);
    // Already on, as when the session updates without the pick changing.
    assert_eq!(on_pick(Some(157), 157, true), Step::Nothing);
    // Rerolled to another champion with an overlay: switch.
    assert_eq!(on_pick(Some(157), 18, true), Step::Apply);
    // Rerolled to one without: the previous champion's settings must come off.
    assert_eq!(on_pick(Some(157), 18, false), Step::Restore);
}

fn player(cell: i128, champion: i128) -> Json {
    object(vec![("cellId", Json::Int(cell)), ("championId", Json::Int(champion))])
}

#[test]
fn reads_the_local_players_pick() {
    let session = object(vec![
        ("localPlayerCellId", Json::Int(2)),
        ("myTeam", Json::Array(vec![player(1, 99), player(2, 157)])),
    ]);
    assert_eq!(picked_champion(&session), Some(157));

    // Hovering is not picking: championId stays 0 until lock-in.
    let hovering = object(vec![("localPlayerCellId", Json::Int(2)), ("myTeam", Json::Array(vec![player(2, 0)]))]);
    assert_eq!(picked_champion(&hovering), None);
    assert_eq!(picked_champion(&object(vec![])), None);
}

fn lobby(queue: i128, slots: Vec<i128>) -> Json {
    object(vec![
        ("gameConfig", object(vec![("queueId", Json::Int(queue))])),
        (
            "localMember",
            object(vec![(
                "playerSlots",
                Json::Array(slots.into_iter().map(|c| object(vec![("championId", Json::Int(c))])).collect()),
            )]),
        ),
    ])
}

#[test]
fn reads_the_first_swiftplay_slot() {
    assert_eq!(swiftplay_champion(&lobby(480, vec![246, 145])), Some(246));
    // Other queues have a real champ select and are left to it.
    assert_eq!(swiftplay_champion(&lobby(400, vec![246])), None);
    assert_eq!(swiftplay_champion(&lobby(480, vec![])), None);
}

fn stored(name: &str, settings: SettingsMap) -> Profile {
    Profile { id: "../../evil".to_owned(), ..Profile::new(name, settings) }
}

fn cast1() -> SettingsMap {
    let mut settings = SettingsMap::default();
    settings.set("Input.ini", "GameEvents", "evtCastSpell1", "[q]");
    settings
}

/// Imports `file` as read from a file that lists exactly the settings files it holds.
fn import(file: Option<Profile>, taken: &[String]) -> Result<Profile, ActionError> {
    let files = file.as_ref().map(|f| f.settings.file_names()).unwrap_or_default();
    imported(file, &files, taken)
}

#[test]
fn an_import_gets_its_own_id_and_a_free_name() {
    let profile = import(Some(stored("Main", cast1())), &["Main".to_owned(), "Main 2".to_owned()]).unwrap();
    assert_eq!(profile.name, "Main 3");
    assert!(profile.id.chars().all(|c| c.is_ascii_hexdigit()), "{}", profile.id);
    assert_eq!(profile.settings.get("Input.ini", "GameEvents", "evtCastSpell1"), Some("[q]"));
}

#[test]
fn refuses_files_that_are_not_profiles() {
    assert!(matches!(import(None, &[]), Err(ActionError::InvalidImport(_))));

    let mut odd = cast1();
    odd.set("Other.cfg", "S", "k", "v");
    match import(Some(stored("Main", odd)), &[]) {
        Err(ActionError::InvalidImport(why)) => {
            assert_eq!(why, "it has settings for \"Other.cfg\", which mimic does not know")
        }
        other => panic!("{other:?}"),
    }

    let mut newer = stored("Main", cast1());
    newer.schema = mimic::profiles::SCHEMA_VERSION + 1;
    assert!(matches!(import(Some(newer), &[]), Err(ActionError::InvalidImport(_))));
    assert_eq!(
        import(Some(stored("Main", SettingsMap::default())), &[]),
        Err(ActionError::InvalidImport("it holds no settings".to_owned()))
    );
}

#[test]
fn an_import_without_a_name_is_called_imported() {
    let profile = import(Some(stored("   ", cast1())), &["Imported".to_owned()]).unwrap();
    assert_eq!(profile.name, "Imported 2");
}

#[test]
fn an_import_naming_an_unknown_empty_file_is_refused() {
    let listed = ["Aaa.ini".to_owned(), "Input.ini".to_owned()];
    match imported(Some(stored("Main", cast1())), &listed, &[]) {
        Err(ActionError::InvalidImport(why)) => {
            assert_eq!(why, "it has settings for \"Aaa.ini\", which mimic does not know")
        }
        other => panic!("{other:?}"),
    }
    let mut odd = cast1();
    odd.set("Other.cfg", "S", "k", "v");
    let listed = ["Zed.ini".to_owned(), "Other.cfg".to_owned()];
    match imported(Some(stored("Main", odd)), &listed, &[]) {
        Err(ActionError::InvalidImport(why)) => {
            assert_eq!(why, "it has settings for \"Other.cfg\", which mimic does not know")
        }
        other => panic!("{other:?}"),
    }
    assert!(imported(Some(stored("Main", cast1())), &["Input.ini".to_owned()], &[]).is_ok());
}

#[test]
fn a_copy_gets_a_free_name() {
    assert_eq!(copy_name("Main", &[]), "Main copy");
    assert_eq!(copy_name("Main", &["Main copy".to_owned(), "Main copy 2".to_owned()]), "Main copy 3");
    let long = "x".repeat(50);
    assert_eq!(copy_name(&long, &[]), format!("{} copy", "x".repeat(35)));
}

#[test]
fn counts_things_in_words() {
    assert_eq!(count(1, "change"), "1 change");
    assert_eq!(count(0, "change"), "0 changes");
    assert_eq!(count(12, "change"), "12 changes");
}

#[test]
fn settling_says_what_was_done() {
    assert_eq!(settle_message(DriftChoice::SaveToProfile, 2, "main", "Azir"), "Saved 2 changes to 'main'");
    assert_eq!(settle_message(DriftChoice::SaveToChampion, 1, "main", "Azir"), "Saved 1 change for Azir only");
    assert_eq!(settle_message(DriftChoice::KeepHere, 3, "main", "Azir"), "Kept 3 changes on this account only");
    assert_eq!(settle_message(DriftChoice::Revert, 1, "main", "Azir"), "Reverted 1 change");
    assert!(discards(DriftChoice::Revert) && discards(DriftChoice::SaveToChampion));
    assert!(!discards(DriftChoice::KeepHere) && !discards(DriftChoice::SaveToProfile));
    assert_eq!(champion_to_keep(None, Some(157), Some(18)), Some(157));
    assert_eq!(champion_to_keep(Some(1), Some(157), Some(18)), Some(1));
    assert_eq!(champion_to_keep(None, None, Some(18)), Some(18));
}

#[test]
fn a_write_counts_what_the_client_refused() {
    let mut remaining = SettingsMap::default();
    remaining.set("Input.ini", "GameEvents", "evtSelectAlly4", "[F4]");
    remaining.set("Game.cfg", "HUD", "DeathRecapNativeOffsetX", "0.1");
    let applied = applied_after(5, &remaining);
    assert_eq!(applied, Applied { changed: 4, stuck: vec!["evtSelectAlly4".to_owned()] });
    // More can be stuck than was asked for.
    assert_eq!(applied_after(0, &remaining).changed, 0);
}

#[test]
fn the_login_notice_tells_what_was_applied() {
    assert_eq!(login_notice("Main", "Player#NA1", &Applied::default()), None);
    assert_eq!(
        login_notice("Main", "Player#NA1", &Applied { changed: 3, stuck: vec![] }).unwrap(),
        "Applied 'Main' to Player#NA1: 3 settings changed"
    );
    assert_eq!(
        login_notice("Main", "Player#NA1", &Applied { changed: 3, stuck: vec!["a".into()] }).unwrap(),
        "Applied 'Main' to Player#NA1: 3 settings changed, League refused 1"
    );
}

#[test]
fn snapshots_are_named_by_when_they_were_taken() {
    let mine = Snapshot::at("applied 'Main'", Some("me"), SettingsMap::default(), 1_700_000_000_000_000_001);
    let theirs = Snapshot::at("applied 'Alt'", Some("them"), SettingsMap::default(), 1_700_000_000_000_000_002);
    assert_eq!(snapshot_id(&mine), "1700000000000000001");
    let list = [theirs, mine];
    assert_eq!(last_snapshot_of(&list, "me"), Some(1));
    assert_eq!(last_snapshot_of(&list, "nobody"), None);
    assert_eq!(snapshot_to_restore(&list, "1700000000000000001", "me"), Ok(1));
    assert_eq!(snapshot_to_restore(&list, "1700000000000000002", "me"), Err(ActionError::OtherAccount));
    assert_eq!(snapshot_to_restore(&list, "42", "me"), Err(ActionError::NoSnapshot));
}

fn event(uri: &str, kind: &str, data: Json) -> LcuEvent {
    LcuEvent { uri: uri.to_owned(), event_type: kind.to_owned(), data }
}

#[test]
fn a_finished_game_is_checked_once() {
    let mut follow = Follow::start(Summoner::default(), "Lobby".to_owned());
    let phase = "/lol-gameflow/v1/gameflow-phase";
    assert_eq!(follow.on_event(&event(phase, "Update", text("Matchmaking"))), (vec![FollowAction::OnMatchmaking], true));
    assert_eq!(follow.on_event(&event(phase, "Update", text("InProgress"))), (vec![], true));
    assert!(follow.played);
    assert_eq!(follow.on_event(&event(phase, "Update", text("EndOfGame"))), (vec![FollowAction::CheckDriftAfterGame], true));
    assert_eq!(follow.on_event(&event(phase, "Update", text("Lobby"))), (vec![], true));
}

#[test]
fn a_dodge_takes_the_overlay_off() {
    let mut follow = Follow::start(Summoner::default(), "ChampSelect".to_owned());
    let phase = "/lol-gameflow/v1/gameflow-phase";
    assert_eq!(follow.on_event(&event(phase, "Update", text("Lobby"))), (vec![FollowAction::OnNoGame], true));
}

#[test]
fn picks_are_acted_on_when_they_change() {
    let mut follow = Follow::start(Summoner::default(), "ChampSelect".to_owned());
    let uri = "/lol-champ-select/v1/session";
    let session = |champion| object(vec![("localPlayerCellId", Json::Int(1)), ("myTeam", Json::Array(vec![player(1, champion)]))]);
    assert_eq!(follow.on_event(&event(uri, "Update", session(157))), (vec![FollowAction::OnChampion(157)], false));
    assert_eq!(follow.on_event(&event(uri, "Update", session(157))), (vec![], false));
    assert_eq!(follow.on_event(&event(uri, "Delete", Json::Null)), (vec![], false));
    assert_eq!(follow.pick, None);
}

#[test]
fn another_account_logging_in_is_followed() {
    let mut follow = Follow::start(Summoner { puuid: "a".into(), ..Summoner::default() }, "Lobby".to_owned());
    let uri = "/lol-summoner/v1/current-summoner";
    let data = object(vec![
        ("puuid", text("b")),
        ("gameName", text("B")),
        ("tagLine", text("EUW")),
        ("profileIconId", Json::Int(7)),
        ("summonerLevel", Json::Int(30)),
    ]);
    let (actions, shown) = follow.on_event(&event(uri, "Update", data));
    assert!(shown);
    assert_eq!(actions.len(), 3);
    assert_eq!(actions[0], FollowAction::Connect("b".to_owned()));
    assert_eq!(actions[2], FollowAction::RefreshAssets(7));
    assert_eq!(follow.account.puuid, "b");
    let queue = object(vec![("gameData", object(vec![("queue", object(vec![("name", text("ARAM"))]))]))]);
    follow.on_event(&event("/lol-gameflow/v1/session", "Update", queue));
    assert_eq!(follow.queue.as_deref(), Some("ARAM"));
    assert_eq!(follow.on_event(&event("/other", "Update", Json::Null)), (vec![], false));
}

#[test]
fn the_change_kept_for_a_champion_is_the_new_value() {
    let change = Change::new("Input.ini", "GameEvents", "evtCastSpell1", Some("[q]"), Some("[a]"));
    let mut settings = SettingsMap::default();
    mimic::engine::apply_changes(&mut settings, &vec![change, Change::new("Game.cfg", "HUD", "Gone", Some("1"), None)]);
    assert_eq!(settings.get("Input.ini", "GameEvents", "evtCastSpell1"), Some("[a]"));
    assert_eq!(settings.len(), 1);
}
