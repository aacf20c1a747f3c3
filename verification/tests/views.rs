use mimic::champions::{Champion, Champions};
use mimic::commands::{account_rows, overlay_views, profile_details, snapshot_view, snapshot_views, view};
use mimic::engine::{
    clear_leftover_overlay, overlay_notice, queue_for_login, remember_on, settle_account, write_after_read, write_begin,
    Outcome, WriteAction, WRITE_PASSES, after_game, at_login, may_put_on, records_settle, settle_target, usable_overlay, uses_queue, AfterGame,
    DriftChoice, SettleTarget, forget_account, may_update, overlays_in_use, set_account_auto_apply, update_from_account, update_reason,
    ActionError, Status,
};
use mimic::lcu::{LcuError, Summoner};
use mimic::profiles::{Account, Accounts, Overlay, Profile, ProfileError, Snapshot, State};
use mimic::settings::{Change, SettingsMap};

fn binds(pairs: &[(&str, &str)]) -> SettingsMap {
    let mut settings = SettingsMap::default();
    for (key, value) in pairs {
        settings.set("Input.ini", "GameEvents", key, value);
    }
    settings
}

fn overlay(champion: u32, settings: SettingsMap) -> Overlay {
    Overlay { schema: 1, champion_id: champion, updated: 0, settings }
}

fn connected() -> Status {
    let account = Summoner {
        puuid: "me".into(),
        game_name: "P".into(),
        tag_line: "1".into(),
        profile_icon_id: 7,
        summoner_level: 30,
    };
    Status::Connected { account, phase: "ChampSelect".into(), queue: Some("Swiftplay".into()) }
}

#[test]
fn overlays_list_their_champion_and_what_they_replace() {
    let champions = Champions::new("/data");
    let list = [Champion { id: 268, name: "Azir".into() }];
    let base = binds(&[("evtCastSpell1", "[q]")]);
    let overlays = [overlay(268, binds(&[("evtCastSpell1", "[a]")])), overlay(18, binds(&[("evtCastSpell2", "[w]")]))];
    let views = overlay_views(&overlays, Some(&base), &champions, &list);
    assert_eq!(views.len(), 2);
    assert_eq!(views[0].champion.name, "Azir");
    assert_eq!(views[0].settings[0].from.as_deref(), Some("[q]"));
    assert_eq!(views[1].champion.name, "Champion 18");
    assert_eq!(views[1].settings[0].from, None);
}

#[test]
fn only_overlays_that_override_something_are_listed() {
    let kept = overlays_in_use(vec![overlay(1, SettingsMap::default()), overlay(2, binds(&[("evtCastSpell1", "[a]")])), overlay(3, SettingsMap::default())]);
    assert_eq!(kept.iter().map(|o| o.champion_id).collect::<Vec<_>>(), [2]);
    assert!(overlays_in_use(Vec::new()).is_empty());
}

#[test]
fn details_preview_only_with_somebody_logged_in() {
    let profile = Profile::new("Main", binds(&[("evtCastSpell1", "[q]"), ("evtCastSpell2", "[w]")]));
    let current = binds(&[("evtCastSpell1", "[x]"), ("evtCastSpell2", "[w]")]);
    let details = profile_details(&profile, Some(&current));
    assert_eq!(details.settings.len(), 2);
    assert_eq!(details.settings[0].key, "evtCastSpell1");
    let preview = details.preview.unwrap();
    assert_eq!(preview.len(), 1);
    assert_eq!((preview[0].from.as_deref(), preview[0].to.as_deref()), (Some("[x]"), Some("[q]")));
    assert_eq!(profile_details(&profile, None).preview, None);
}

fn snapshot(taken: i128, puuid: Option<&str>) -> Snapshot {
    let mut s = Snapshot::new("applied 'Main'", puuid, binds(&[("evtCastSpell1", "[q]")]));
    s.taken = taken;
    s.changes = vec![Change::new("Input.ini", "GameEvents", "evtCastSpell1", Some("[a]"), Some("[q]"))];
    s
}

#[test]
fn snapshots_show_when_and_whose_they_are() {
    let accounts = vec![("me".to_owned(), Account::new("P#1".into()))];
    let views = snapshot_views(
        vec![snapshot(1_546_300_800_000_000_000, Some("me")), snapshot(0, Some("other")), snapshot(5, None)],
        &accounts,
        Some("me"),
    );
    assert_eq!(views[0].taken, "2019-01-01T00:00:00Z");
    assert_eq!(views[0].id, "1546300800000000000");
    assert_eq!(views[0].account.as_deref(), Some("P#1"));
    assert!(views[0].restorable);
    assert_eq!((views[0].settings, views[0].changes.len()), (1, 1));
    assert_eq!(views[0].reason, "applied 'Main'");
    assert_eq!(views[1].taken, "1970-01-01T00:00:00Z");
    assert_eq!(views[1].account, None);
    assert!(!views[1].restorable);
    assert!(!views[2].restorable);
    let one = snapshot_view(snapshot(-1, Some("me")), "then".into(), &accounts, None);
    assert_eq!((one.id.as_str(), one.taken.as_str(), one.restorable), ("-1", "then", false));
}

#[test]
fn the_panel_view_puts_it_all_together() {
    let champions = Champions::new("/data");
    let list = [Champion { id: 268, name: "Azir".into() }];
    let main = Profile { id: "m".into(), ..Profile::new("Main", binds(&[("evtCastSpell1", "[q]")])) };
    let aram = Profile { id: "a".into(), ..Profile::new("Aram", binds(&[("evtCastSpell1", "[x]")])) };
    let profiles = [main, aram];
    let mine = Account {
        profile_id: Some("m".into()),
        auto_apply: true,
        overlay: Some(268),
        ..Account::new("P#1".into())
    };
    let current = binds(&[("evtCastSpell1", "[q]")]);
    let overlays = [overlay(268, binds(&[("evtCastSpell1", "[a]")]))];
    let status = connected();
    let v = view(&status, Some(&mine), None, &profiles, Some("a"), Some(&current), 2, &overlays, Some(&current), &champions, &list);
    assert_eq!(v.status, "P#1");
    assert!(v.connected);
    assert_eq!(v.account.as_ref().map(|a| a.level), Some(30));
    assert_eq!(v.phase.as_deref(), Some("ChampSelect"));
    assert_eq!(v.activity.as_deref(), Some("Swiftplay \u{b7} Champ select"));
    assert!(v.auto_apply);
    assert_eq!(v.pending.as_deref(), Some("Aram"));
    assert_eq!(v.profiles.len(), 2);
    assert!(v.profiles[0].active && !v.profiles[1].active);
    assert_eq!((v.profiles[0].differs, v.profiles[1].differs), (Some(0), Some(1)));
    assert_eq!(v.changed, 2);
    assert_eq!(v.active_overlay.as_ref().map(|c| c.name.as_str()), Some("Azir"));
    assert_eq!(v.overlays[0].settings[0].from.as_deref(), Some("[q]"));

    let idle = view(&Status::ClientDown, None, None, &profiles, None, None, 0, &[], None, &champions, &list);
    assert_eq!(idle.status, "League client is not running");
    assert!(!idle.connected && !idle.auto_apply);
    assert_eq!((idle.account, idle.phase, idle.activity, idle.pending), (None, None, None, None));
    assert_eq!(idle.profiles[0].differs, None);
    assert_eq!(idle.active_overlay, None);
}

#[test]
fn only_known_accounts_can_be_changed_or_forgotten() {
    let mut accounts = Accounts::new();
    accounts.insert("p1".into(), Account::new("A#1".into()));
    assert_eq!(set_account_auto_apply(&mut accounts, "p1", true), Ok(()));
    assert!(accounts.get("p1").unwrap().auto_apply);
    assert_eq!(set_account_auto_apply(&mut accounts, "p2", true), Err(ActionError::NoSuchAccount));
    assert!(!accounts.set_auto_apply("p2", true));
    assert_eq!(forget_account(&mut accounts, "p2"), Err(ActionError::NoSuchAccount));
    assert_eq!(forget_account(&mut accounts, "p1"), Ok(()));
    assert!(accounts.get("p1").is_none());
    assert!(accounts.into_entries().is_empty());
}

#[test]
fn a_profile_is_updated_from_the_account_unless_a_champion_is_on() {
    let mut account = Account::new("A#1".into());
    assert_eq!(may_update(Some(&account)), Ok(()));
    assert_eq!(may_update(None), Ok(()));
    account.overlay = Some(268);
    assert_eq!(may_update(Some(&account)), Err(ActionError::OverlayActive));

    let profile = Profile::at("Main", binds(&[("evtCastSpell1", "[q]")]), 10);
    let current = binds(&[("evtCastSpell1", "[x]")]);
    let (updated, changes) = update_from_account(profile, &current, 99);
    assert_eq!(updated.settings, current);
    assert_eq!((updated.updated, updated.created, updated.name.as_str()), (99, 10, "Main"));
    assert_eq!(changes.len(), 1);
    assert_eq!(update_reason("Main"), "updated 'Main'");
}

#[test]
fn action_and_client_errors_say_what_went_wrong() {
    assert_eq!(ActionError::NoSuchProfile("x".into()).message(), "there is no profile \"x\"");
    assert_eq!(ActionError::NoSuchAccount.message(), "mimic has not seen that account");
    assert_eq!(ActionError::ReadSettings("gone".into()).message(), "could not read League's settings file: gone");
    let status = LcuError::Status { path: "/x".into(), status: 404, body: "no".into() };
    assert_eq!(status.message(), "League client answered 404 for /x: no");
    assert_eq!(ActionError::Lcu(status).message(), "League client answered 404 for /x: no");
    assert_eq!(LcuError::UnknownSettingsFile("a.ini".into()).message(), "settings file \"a.ini\" has no LCU endpoint");
    assert_eq!(
        ActionError::Store(ProfileError::InvalidId("../x".into())).message(),
        "\"../x\" is not a valid profile id"
    );
}

#[test]
fn each_account_is_listed_once_with_its_profile() {
    let entries = vec![
        ("p1".to_owned(), Account { profile_id: Some("m".into()), ..Account::new("b#1".into()) }),
        ("p2".to_owned(), Account { profile_id: Some("gone".into()), ..Account::new("a#2".into()) }),
        ("p3".to_owned(), Account { auto_apply: true, ..Account::new("c#3".into()) }),
    ];
    let profiles = [Profile { id: "m".into(), ..Profile::new("Main", SettingsMap::default()) }];
    let rows = account_rows(&entries, &profiles, None);
    let mut puuids: Vec<&str> = rows.iter().map(|r| r.puuid.as_str()).collect();
    assert_eq!(puuids, ["p2", "p1", "p3"]);
    puuids.sort();
    assert_eq!(puuids, ["p1", "p2", "p3"]);
    assert_eq!(rows[1].profile.as_deref(), Some("Main"));
    assert_eq!(rows[0].profile, None);
    assert_eq!(rows[2].profile, None);
    assert!(rows[2].auto_apply && !rows[0].auto_apply);
}

#[test]
fn the_steps_around_a_game_are_decided_here() {
    let queued = at_login(Some("q"), None, false, false, "Lobby");
    assert!(uses_queue(&queued, Some("q")));
    let waiting = at_login(Some("q"), None, false, false, "InProgress");
    assert!(!uses_queue(&waiting, Some("q")));
    let mapped = at_login(None, Some("m"), true, false, "Lobby");
    assert!(!uses_queue(&mapped, None));

    assert!(usable_overlay(Some(overlay(1, SettingsMap::default()))).is_none());
    assert_eq!(usable_overlay(Some(overlay(2, binds(&[("evtCastSpell1", "[a]")])))).map(|o| o.champion_id), Some(2));
    assert!(usable_overlay(None).is_none());

    let expected = binds(&[("evtCastSpell1", "[q]")]);
    let mut moved = expected.clone();
    moved.set("Game.cfg", "Chat", "ChatX", "10");
    assert!(may_put_on(&expected, &moved));
    assert!(!may_put_on(&expected, &binds(&[("evtCastSpell1", "[a]")])));

    assert_eq!(after_game(true), AfterGame::AskAboutChanges);
    assert_eq!(after_game(false), AfterGame::TakeOverlayOff);

    assert_eq!(settle_target(DriftChoice::SaveToProfile, 1, Some("m"), None, None, None), Ok(SettleTarget::Profile("m".into())));
    assert_eq!(settle_target(DriftChoice::SaveToProfile, 1, None, None, None, None), Err(ActionError::NoProfile));
    assert_eq!(settle_target(DriftChoice::SaveToChampion, 0, None, Some(1), None, None), Err(ActionError::NothingChanged));
    assert_eq!(settle_target(DriftChoice::SaveToChampion, 2, None, None, Some(5), Some(6)), Ok(SettleTarget::Champion(5)));
    assert_eq!(settle_target(DriftChoice::SaveToChampion, 2, None, None, None, None), Err(ActionError::NoChampion));
    assert_eq!(settle_target(DriftChoice::Revert, 0, None, None, None, None), Ok(SettleTarget::Account));
    assert!(records_settle(DriftChoice::KeepHere, 1));
    assert!(!records_settle(DriftChoice::KeepHere, 0));
    assert!(!records_settle(DriftChoice::Revert, 3));
}

#[test]
fn accounts_with_the_same_name_are_listed_by_puuid() {
    let entries = vec![
        ("p9".to_owned(), Account::new("Same#1".into())),
        ("p1".to_owned(), Account::new("same#1".into())),
        ("p5".to_owned(), Account::new("Other#2".into())),
    ];
    let rows = account_rows(&entries, &[], Some("p9"));
    let puuids: Vec<&str> = rows.iter().map(|r| r.puuid.as_str()).collect();
    assert_eq!(puuids, ["p9", "p5", "p1"]);
    let rows = account_rows(&entries, &[], None);
    let puuids: Vec<&str> = rows.iter().map(|r| r.puuid.as_str()).collect();
    assert_eq!(puuids, ["p5", "p1", "p9"]);
}

#[test]
fn different_settings_have_different_mute_names() {
    let a = Change::new("Game.cfg", "HUD", "ShowFPS", None, Some("1"));
    let b = Change::new("Game.cfg", "HUDShow", "FPS", None, Some("1"));
    assert_ne!(mimic::engine::mute_id(&a), mimic::engine::mute_id(&b));
    assert_eq!(mimic::engine::mute_id(&a), "Game.cfg/HUD/ShowFPS");
}

#[test]
fn a_write_snapshots_first_and_tries_at_most_twice() {
    let before = binds(&[("evtCastSpell1", "[q]")]);
    let target = binds(&[("evtCastSpell1", "[a]"), ("evtCastSpell2", "[w]")]);

    // Only layout differs: nothing is written.
    let mut layout = before.clone();
    layout.set("Game.cfg", "Chat", "ChatX", "10");
    let (_, done) = write_begin(&before, layout, true);
    assert!(matches!(done, WriteAction::Done(ref a, _, None) if a.changed == 0 && a.stuck.is_empty()));

    // With a reason, a snapshot comes first; the client takes one key, then the other.
    let (mut write, first) = write_begin(&before, target.clone(), true);
    assert_eq!(write.asked, 2);
    match first {
        WriteAction::SnapshotThenApply(c) => assert_eq!(c.len(), 2),
        _ => panic!("a snapshot should come first"),
    }
    let half = binds(&[("evtCastSpell1", "[a]")]);
    match write_after_read(&mut write, &half) {
        WriteAction::Apply(c) => assert_eq!(c.get("Input.ini", "GameEvents", "evtCastSpell2"), Some("[w]")),
        _ => panic!("the missing key should be applied again"),
    }
    assert_eq!(write.passes, 1);
    match write_after_read(&mut write, &half) {
        WriteAction::Done(applied, remaining, log) => {
            assert_eq!(write.passes, WRITE_PASSES);
            assert_eq!((applied.changed, applied.stuck), (1, vec!["evtCastSpell2".to_owned()]));
            assert_eq!(remaining.len(), 1);
            let log = log.unwrap();
            assert_eq!(log.len(), 1);
            assert_eq!(log[0].to.as_deref(), Some("[a]"));
        }
        _ => panic!("two passes are the most"),
    }

    // Without a reason, no snapshot and no change log; done as soon as all is taken.
    let (mut write, first) = write_begin(&before, target.clone(), false);
    assert!(matches!(first, WriteAction::Apply(_)));
    match write_after_read(&mut write, &target) {
        WriteAction::Done(applied, _, log) => {
            assert_eq!((applied.changed, applied.stuck.len()), (2, 0));
            assert!(log.is_none());
        }
        _ => panic!("nothing is left to write"),
    }
}

#[test]
fn the_account_record_follows_what_happened() {
    let base = binds(&[("evtCastSpell1", "[q]")]);
    let mut account = Account { overlay: Some(268), baseline: Some(base.clone()), ..Account::new("A#1".into()) };
    assert_eq!(clear_leftover_overlay(&mut account, "InProgress"), None);
    assert_eq!(account.overlay, Some(268));
    assert_eq!(clear_leftover_overlay(&mut account, "Lobby"), Some(base.clone()));
    assert_eq!(account.overlay, None);
    assert_eq!(clear_leftover_overlay(&mut account, "Lobby"), None);

    account.overlay = Some(1);
    settle_account(&mut account, binds(&[("evtCastSpell1", "[x]")]));
    assert_eq!((account.overlay, account.baseline.as_ref().map(|b| b.len())), (None, Some(1)));
    remember_on(&mut account, Some("m"), base.clone());
    assert_eq!((account.profile_id.as_deref(), account.baseline.as_ref()), (Some("m"), Some(&base)));
    remember_on(&mut account, None, SettingsMap::default());
    assert_eq!(account.profile_id.as_deref(), Some("m"));

    let mut state = State::new();
    let profile = Profile { id: "m".into(), ..Profile::new("Main", base) };
    assert_eq!(queue_for_login(&mut state, &profile), Outcome::Queued("Main".into()));
    assert_eq!(state.pending_apply.as_deref(), Some("m"));
    assert_eq!(overlay_notice("Azir"), "Azir's settings are on for this game");
}
