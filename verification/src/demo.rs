//! A made-up account and made-up data, for screenshots that show what mimic does
//! without showing anybody's real account. It lives in a data folder of its own, next to
//! the real one.

use vstd::prelude::*;

use crate::engine::{ChampionRef, Drift};
use crate::lcu::Summoner;
use crate::profiles::{Account, Accounts, Overlay, Profile, Snapshot, State, SCHEMA_VERSION};
use crate::settings::{opt_str_view, opt_view, Change, SettingKey, SettingsMap, SettingsView};

verus! {

pub const PUUID: &'static str = "demo-account";
pub const AZIR: u32 = 268;
pub const LEE_SIN: u32 = 64;
pub const ORIANNA: u32 = 61;
pub const VIKTOR: u32 = 112;

/// The phase and queue the demo account is shown in.
pub const PHASE: &'static str = "ChampSelect";
pub const QUEUE: &'static str = "Ranked Solo/Duo";

pub open spec fn is_separator(c: char) -> bool {
    c == '/' || c == '\\'
}

/// `s` without the separators at its end.
pub open spec fn without_trailing(s: Seq<char>) -> Seq<char>
    decreases s.len(),
{
    if s.len() > 0 && is_separator(s.last()) {
        without_trailing(s.drop_last())
    } else {
        s
    }
}

/// Where the last separator of `s` is, or -1.
pub open spec fn last_separator(s: Seq<char>) -> int
    decreases s.len(),
{
    if s.len() == 0 {
        -1
    } else if is_separator(s.last()) {
        s.len() - 1
    } else {
        last_separator(s.drop_last())
    }
}

/// `path` with its last component replaced by `name` (`Path::with_file_name`).
pub open spec fn beside(path: Seq<char>, name: Seq<char>) -> Seq<char> {
    let t = without_trailing(path);
    if t.len() == 0 {
        crate::text::joined(path, name)
    } else {
        t.take(last_separator(t) + 1) + name
    }
}

/// Where the demo keeps its data: next to the real folder.
pub fn dir_beside(real_data_dir: &str) -> (r: String)
    ensures
        r@ == beside(real_data_dir@, "mimic-demo"@),
{
    let chars = crate::text::chars_of(real_data_dir);
    let mut end: usize = chars.len();
    assert(chars@.take(chars@.len() as int) =~= chars@);
    while end > 0 && (chars[end - 1] == '/' || chars[end - 1] == '\\')
        invariant
            end <= chars@.len(),
            without_trailing(chars@) == without_trailing(chars@.take(end as int)),
        decreases end,
    {
        assert(chars@.take(end as int).drop_last() =~= chars@.take(end - 1));
        end -= 1;
    }
    assert(chars@.take(chars@.len() as int) =~= chars@);
    let ghost t = chars@.take(end as int);
    assert(without_trailing(t) == t);
    if end == 0 {
        return crate::text::join_path(real_data_dir, "mimic-demo");
    }
    let mut cut: usize = end;
    assert(t.take(end as int) =~= t);
    while cut > 0 && chars[cut - 1] != '/' && chars[cut - 1] != '\\'
        invariant
            cut <= end <= chars@.len(),
            t == chars@.take(end as int),
            last_separator(t) == last_separator(t.take(cut as int)),
        decreases cut,
    {
        assert(t.take(cut as int).drop_last() =~= t.take(cut - 1));
        cut -= 1;
    }
    assert(t.take(end as int) =~= t);
    let mut out: Vec<char> = Vec::new();
    let mut i: usize = 0;
    while i < cut
        invariant
            cut <= chars@.len(),
            i <= cut,
            out@ == chars@.take(i as int),
        decreases cut - i,
    {
        out.push(chars[i]);
        i += 1;
        assert(out@ =~= chars@.take(i as int));
    }
    proof {
        if cut > 0 {
            assert(t.take(cut as int).last() == chars@[cut - 1]);
        }
        assert(t.take(last_separator(t) + 1) =~= chars@.take(cut as int));
    }
    let prefix = crate::text::string_of(&out);
    crate::text::concat(prefix.as_str(), "mimic-demo")
}

/// The account the demo pretends is logged in, with a profile icon that the real cache
/// happens to hold.
pub fn account(profile_icon_id: u32) -> (r: Summoner)
    ensures
        r.puuid@ == "demo-account"@,
        r.game_name@ == "Hide on bush"@,
        r.tag_line@ == "KR1"@,
        r.profile_icon_id == profile_icon_id,
        r.summoner_level == 712,
{
    Summoner {
        puuid: "demo-account".to_owned(),
        game_name: "Hide on bush".to_owned(),
        tag_line: "KR1".to_owned(),
        profile_icon_id,
        summoner_level: 712,
    }
}

/// A change from `from` to `to`.
pub fn change(file: &str, section: &str, key: &str, from: Option<&str>, to: &str) -> (r: Change)
    ensures
        r.key_view() == (file@, section@, key@),
        opt_view(r.from) == opt_str_view(from),
        r.to matches Some(t) && t@ == to@,
{
    Change::new(file, section, key, from, Some(to))
}

/// A change to a key binding.
pub fn bind(key: &str, from: Option<&str>, to: &str) -> (r: Change)
    ensures
        r.key_view() == ("Input.ini"@, "GameEvents"@, key@),
        opt_view(r.from) == opt_str_view(from),
        r.to matches Some(t) && t@ == to@,
{
    change("Input.ini", "GameEvents", key, from, to)
}

/// What the prompt about changed settings shows.
pub fn drift() -> (r: Drift)
    ensures
        r.profile matches Some(p) && p@ == "main"@,
        r.champion matches Some(c) && c.id == AZIR && c.name@ == "Azir"@,
        r.changes@.len() == 3,
        r.changes@[0].key_view() == ("Input.ini"@, "GameEvents"@, "evtPlayerAttackMove"@),
        r.changes@[1].key_view() == ("Input.ini"@, "GameEvents"@, "evtUseVisionItem"@),
        r.changes@[2].key_view() == ("Game.cfg"@, "Performance"@, "ShowFPSAndLatency"@),
        !r.reset,
{
    Drift {
        profile: Some("main".to_owned()),
        champion: Some(ChampionRef { id: AZIR, name: "Azir".to_owned() }),
        changes: vec![
            bind("evtPlayerAttackMove", Some("[a]"), "[x]"),
            bind("evtUseVisionItem", Some("[4]"), "[c]"),
            change("Game.cfg", "Performance", "ShowFPSAndLatency", Some("0"), "1"),
        ],
        reset: false,
    }
}

/// `m` with each `key = value` of `binds` set in `Input.ini/GameEvents`, in order.
pub open spec fn with_binds(m: SettingsView, binds: Seq<(&str, &str)>) -> SettingsView
    decreases binds.len(),
{
    if binds.len() == 0 {
        m
    } else {
        with_binds(m, binds.drop_last()).insert(
            ("Input.ini"@, "GameEvents"@, binds.last().0@),
            binds.last().1@,
        )
    }
}

/// Sets each `key = value` of `binds` in `Input.ini/GameEvents`.
pub fn set_binds(settings: &mut SettingsMap, binds: &Vec<(&str, &str)>)
    ensures
        final(settings)@ == with_binds(old(settings)@, binds@),
{
    let mut i: usize = 0;
    while i < binds.len()
        invariant
            i <= binds@.len(),
            settings@ == with_binds(old(settings)@, binds@.take(i as int)),
        decreases binds.len() - i,
    {
        assert(binds@.take(i + 1).drop_last() =~= binds@.take(i as int));
        settings.set("Input.ini", "GameEvents", binds[i].0, binds[i].1);
        i += 1;
    }
    assert(binds@.take(i as int) =~= binds@);
}

/// The demo's own keys on top of a real set of settings: quick cast on the spell keys,
/// normal cast on Shift and self cast on Alt, as many players have it.
pub open spec fn demo_binds() -> Seq<(&'static str, &'static str)> {
    seq![
        ("evtSmartCastSpell1", "[q]"),
        ("evtSmartCastSpell2", "[w]"),
        ("evtSmartCastSpell3", "[e]"),
        ("evtSmartCastSpell4", "[r]"),
        ("evtCastSpell1", "[Shift][q]"),
        ("evtCastSpell2", "[Shift][w]"),
        ("evtCastSpell3", "[Shift][e]"),
        ("evtCastSpell4", "[Shift][r]"),
        ("evtSelfCastSpell1", "[Alt][q]"),
        ("evtSelfCastSpell2", "[Alt][w]"),
        ("evtSelfCastSpell3", "[Alt][e]"),
        ("evtSelfCastSpell4", "[Alt][r]"),
        ("evtSmartCastWithIndicatorSpell2", "[<Unbound>]"),
        ("evtSmartPlusSelfCastSpell2", "[<Unbound>]"),
        ("evtCastAvatarSpell1", "[d]"),
        ("evtCastAvatarSpell2", "[f]"),
        ("evtUseVisionItem", "[4]"),
        ("evtPlayerAttackMove", "[a]"),
        ("evtPlayerAttackMoveClick", "[<Unbound>]"),
        ("evtCameraLockToggle", "[Space]"),
        ("evtChampionOnly", "[<Unbound>]"),
    ]
}

pub fn base_binds() -> (r: Vec<(&'static str, &'static str)>)
    ensures
        r@ == demo_binds(),
{
    let r = vec![
        ("evtSmartCastSpell1", "[q]"),
        ("evtSmartCastSpell2", "[w]"),
        ("evtSmartCastSpell3", "[e]"),
        ("evtSmartCastSpell4", "[r]"),
        ("evtCastSpell1", "[Shift][q]"),
        ("evtCastSpell2", "[Shift][w]"),
        ("evtCastSpell3", "[Shift][e]"),
        ("evtCastSpell4", "[Shift][r]"),
        ("evtSelfCastSpell1", "[Alt][q]"),
        ("evtSelfCastSpell2", "[Alt][w]"),
        ("evtSelfCastSpell3", "[Alt][e]"),
        ("evtSelfCastSpell4", "[Alt][r]"),
        ("evtSmartCastWithIndicatorSpell2", "[<Unbound>]"),
        ("evtSmartPlusSelfCastSpell2", "[<Unbound>]"),
        ("evtCastAvatarSpell1", "[d]"),
        ("evtCastAvatarSpell2", "[f]"),
        ("evtUseVisionItem", "[4]"),
        ("evtPlayerAttackMove", "[a]"),
        ("evtPlayerAttackMoveClick", "[<Unbound>]"),
        ("evtCameraLockToggle", "[Space]"),
        ("evtChampionOnly", "[<Unbound>]"),
    ];
    assert(r@ =~= demo_binds());
    r
}

/// The demo's base settings: `real` with the demo's binds, minimap scale and FPS display
/// on top. `sample` is the sample settings file, or nothing when it cannot be read.
pub fn base_settings(sample: SettingsMap) -> (r: SettingsMap)
    ensures
        r@ == with_binds(sample@, demo_binds()).insert(("Game.cfg"@, "HUD"@, "MinimapScale"@), "1.2"@).insert(
            ("Game.cfg"@, "Performance"@, "ShowFPSAndLatency"@),
            "0"@,
        ),
{
    let mut settings = sample;
    let binds = base_binds();
    set_binds(&mut settings, &binds);
    settings.set("Game.cfg", "HUD", "MinimapScale", "1.2");
    settings.set("Game.cfg", "Performance", "ShowFPSAndLatency", "0");
    settings
}

/// The demo's three profiles, made from its base settings.
pub fn profiles(main: &SettingsMap, now: i128) -> (r: Vec<Profile>)
    ensures
        r@.len() == 3,
        r@[0].id@ == "demo-main"@ && r@[0].name@ == "main"@ && r@[0].settings@ == main@,
        r@[1].id@ == "demo-aram"@ && r@[1].name@ == "aram"@ && r@[1].settings@ == main@.insert(
            ("Game.cfg"@, "HUD"@, "MinimapScale"@),
            "1.6"@,
        ).insert(("Input.ini"@, "GameEvents"@, "evtCastAvatarSpell1"@), "[f]"@),
        r@[2].id@ == "demo-jungle"@ && r@[2].name@ == "jungle"@ && r@[2].settings@ == main@.insert(
            ("Input.ini"@, "GameEvents"@, "evtCastAvatarSpell1"@),
            "[f]"@,
        ).insert(("Input.ini"@, "GameEvents"@, "evtCameraLockToggle"@), "[y]"@),
        forall|i: int| 0 <= i < 3 ==> (#[trigger] r@[i]).created == now && r@[i].updated == now,
{
    let mut aram = main.copy();
    aram.set("Game.cfg", "HUD", "MinimapScale", "1.6");
    aram.set("Input.ini", "GameEvents", "evtCastAvatarSpell1", "[f]");
    let mut jungle = main.copy();
    jungle.set("Input.ini", "GameEvents", "evtCastAvatarSpell1", "[f]");
    jungle.set("Input.ini", "GameEvents", "evtCameraLockToggle", "[y]");
    let mut first = Profile::at("main", main.copy(), now);
    first.id = "demo-main".to_owned();
    let mut second = Profile::at("aram", aram, now);
    second.id = "demo-aram".to_owned();
    let mut third = Profile::at("jungle", jungle, now);
    third.id = "demo-jungle".to_owned();
    vec![first, second, third]
}

/// Overrides players really make: a kiting champion attack-moves on a mouse button,
/// drag-aimed abilities go back to normal cast, shields get an easier self-cast, and
/// the ward-hop gets a key of its own.
pub open spec fn demo_overlay_binds() -> Seq<(u32, Seq<(&'static str, &'static str)>)> {
    seq![
        (
            AZIR,
            seq![
                ("evtPlayerAttackMoveClick", "[Button 4]"),
                ("evtSmartCastWithIndicatorSpell2", "[w]"),
                ("evtSmartCastSpell2", "[<Unbound>]"),
                ("evtCameraLockToggle", "[y]"),
                ("evtChampionOnly", "[`]"),
                ("evtUseVisionItem", "[t]"),
            ],
        ),
        (VIKTOR, seq![("evtCastSpell3", "[e]"), ("evtSmartCastSpell3", "[<Unbound>]")]),
        (ORIANNA, seq![("evtSelfCastSpell3", "[Button 5]"), ("evtChampionOnly", "[`]")]),
        (LEE_SIN, seq![("evtUseVisionItem", "[c]"), ("evtSmartPlusSelfCastSpell2", "[Button 4]")]),
    ]
}

pub fn overlay_binds() -> (r: Vec<(u32, Vec<(&'static str, &'static str)>)>)
    ensures
        r@.len() == demo_overlay_binds().len(),
        forall|i: int| 0 <= i < r@.len() ==> (#[trigger] r@[i]).0 == demo_overlay_binds()[i].0
            && r@[i].1@ == demo_overlay_binds()[i].1,
{
    let r = vec![
        (
            AZIR,
            vec![
                ("evtPlayerAttackMoveClick", "[Button 4]"),
                ("evtSmartCastWithIndicatorSpell2", "[w]"),
                ("evtSmartCastSpell2", "[<Unbound>]"),
                ("evtCameraLockToggle", "[y]"),
                ("evtChampionOnly", "[`]"),
                ("evtUseVisionItem", "[t]"),
            ],
        ),
        (VIKTOR, vec![("evtCastSpell3", "[e]"), ("evtSmartCastSpell3", "[<Unbound>]")]),
        (ORIANNA, vec![("evtSelfCastSpell3", "[Button 5]"), ("evtChampionOnly", "[`]")]),
        (LEE_SIN, vec![("evtUseVisionItem", "[c]"), ("evtSmartPlusSelfCastSpell2", "[Button 4]")]),
    ];
    proof {
        assert forall|i: int| 0 <= i < r@.len() implies (#[trigger] r@[i]).0 == demo_overlay_binds()[i].0
            && r@[i].1@ == demo_overlay_binds()[i].1 by {
            if i == 0 {
                assert(r@[0].1@ =~= demo_overlay_binds()[0].1);
            } else if i == 1 {
                assert(r@[1].1@ =~= demo_overlay_binds()[1].1);
            } else if i == 2 {
                assert(r@[2].1@ =~= demo_overlay_binds()[2].1);
            } else {
                assert(r@[3].1@ =~= demo_overlay_binds()[3].1);
            }
        }
    }
    r
}

/// The demo's champion overlays, one for each entry of [`overlay_binds`].
pub fn overlays(now: i128) -> (r: Vec<Overlay>)
    ensures
        r@.len() == 4,
        forall|i: int| 0 <= i < 4 ==> (#[trigger] r@[i]).champion_id == demo_overlay_binds()[i].0
            && r@[i].settings@ == with_binds(Map::empty(), demo_overlay_binds()[i].1) && r@[i].updated == now,
{
    let all = overlay_binds();
    let mut out: Vec<Overlay> = Vec::new();
    let mut i: usize = 0;
    while i < all.len()
        invariant
            all@.len() == 4,
            forall|j: int| 0 <= j < all@.len() ==> (#[trigger] all@[j]).0 == demo_overlay_binds()[j].0
                && all@[j].1@ == demo_overlay_binds()[j].1,
            i <= all@.len(),
            out@.len() == i,
            forall|j: int| 0 <= j < i ==> (#[trigger] out@[j]).champion_id == demo_overlay_binds()[j].0
                && out@[j].settings@ == with_binds(Map::empty(), demo_overlay_binds()[j].1) && out@[j].updated == now,
        decreases all.len() - i,
    {
        let mut settings = SettingsMap::new();
        set_binds(&mut settings, &all[i].1);
        out.push(Overlay::at(all[i].0, settings, now));
        i += 1;
    }
    out
}

/// The demo's accounts: the one logged in, on `main` with Azir's overlay on, and a
/// second one on `aram`.
pub fn accounts(main: &SettingsMap, icon: Option<u32>) -> (r: Accounts)
    ensures
        r.schema_spec() == SCHEMA_VERSION,
        r@.len() == 2,
        r@.contains_key("demo-account"@),
        r@["demo-account"@].display_name@ == "Hide on bush#KR1"@,
        r@["demo-account"@].profile_id matches Some(p) && p@ == "demo-main"@,
        r@["demo-account"@].auto_apply,
        r@["demo-account"@].baseline matches Some(b) && b@ == main@,
        r@["demo-account"@].overlay == Some(AZIR),
        r@["demo-account"@].icon == icon,
        r@["demo-account"@].level == Some(712u32),
        r@.contains_key("demo-second"@),
        r@["demo-second"@].display_name@ == "Unkillable Demon#KR1"@,
        r@["demo-second"@].profile_id matches Some(p) && p@ == "demo-aram"@,
        !r@["demo-second"@].auto_apply,
{
    let mut accounts = Accounts::new();
    let mut faker = Account::new("Hide on bush#KR1".to_owned());
    faker.profile_id = Some("demo-main".to_owned());
    faker.auto_apply = true;
    faker.baseline = Some(main.copy());
    faker.overlay = Some(AZIR);
    faker.icon = icon;
    faker.level = Some(712);
    accounts.insert("demo-account".to_owned(), faker);
    let mut second = Account::new("Unkillable Demon#KR1".to_owned());
    second.profile_id = Some("demo-aram".to_owned());
    accounts.insert("demo-second".to_owned(), second);
    proof {
        reveal_strlit("demo-account");
        reveal_strlit("demo-second");
        assert("demo-account"@.len() == 12 && "demo-second"@.len() == 11);
        assert(accounts@.dom() =~= Set::empty().insert("demo-account"@).insert("demo-second"@));
    }
    accounts
}

/// The demo's state: on `main`, the demo account last seen, and FPS display muted.
pub fn state() -> (r: State)
    ensures
        r.schema == SCHEMA_VERSION,
        r.active_profile matches Some(p) && p@ == "demo-main"@,
        r.last_account matches Some(a) && a@ == "demo-account"@,
        r.muted@.len() == 1 && r.muted@[0]@ == "Game.cfg/Performance/ShowFPSAndLatency"@,
        r.pending_apply is None,
        r.install_path is None,
        !r.hide_notices,
{
    let mut state = State::new();
    state.active_profile = Some("demo-main".to_owned());
    state.last_account = Some("demo-account".to_owned());
    state.muted = vec!["Game.cfg/Performance/ShowFPSAndLatency".to_owned()];
    state
}

/// The demo's change log: three snapshots of `main`, taken 50, 26 and 2 hours before
/// `now`, each with what its change altered.
pub fn history(main: &SettingsMap, now: i128) -> (r: Vec<Snapshot>)
    requires
        now >= i128::MIN + 50 * 3_600_000_000_000,
    ensures
        r@.len() == 3,
        r@[0].taken == now - 50 * 3_600_000_000_000 && r@[0].reason@ == "applied 'main'"@,
        r@[1].taken == now - 26 * 3_600_000_000_000 && r@[1].reason@ == "Saved 1 change to 'main'"@,
        r@[2].taken == now - 2 * 3_600_000_000_000 && r@[2].reason@ == "Saved 2 changes for Azir only"@,
        forall|i: int| 0 <= i < 3 ==> (#[trigger] r@[i]).settings@ == main@ && (r@[i].puuid matches Some(p)
            && p@ == "demo-account"@),
        r@[0].changes@.len() == 2 && r@[1].changes@.len() == 1 && r@[2].changes@.len() == 2,
{
    let hour: i128 = 3_600_000_000_000;
    let mut first = Snapshot::at("applied 'main'", Some("demo-account"), main.copy(), now - 50 * hour);
    first.changes = vec![
        bind("evtSmartCastSpell1", Some("[a]"), "[q]"),
        bind("evtCastAvatarSpell1", Some("[f]"), "[d]"),
    ];
    let mut second = Snapshot::at("Saved 1 change to 'main'", Some("demo-account"), main.copy(), now - 26 * hour);
    second.changes = vec![bind("evtCameraLockToggle", Some("[y]"), "[Space]")];
    let mut third = Snapshot::at("Saved 2 changes for Azir only", Some("demo-account"), main.copy(), now - 2 * hour);
    third.changes = vec![
        bind("evtPlayerAttackMoveClick", None, "[Button 4]"),
        bind("evtSmartCastWithIndicatorSpell2", None, "[w]"),
    ];
    vec![first, second, third]
}

} // verus!
