//! What the UI shows and is told: the rows and views it displays, the names it may
//! create, and the sentences that answer its actions.

use vstd::prelude::*;
use vstd::view::View as _;

use crate::champions::{mastery_in, name_in, Champion, Champions};
use crate::engine::{
    activity_of, find_profile, label_of, riot_id_of, riot_id_string, snapshot_id, would_change, Status,
};
use crate::order::{items_of, lemma_map_keeps_multiset, lemma_same_elements, pair_key, pair_le, sort_by_text_pair};
use crate::profiles::{format_rfc3339, lookup, rfc3339_text, Account, Overlay, Profile, Snapshot};
use crate::settings::{
    is_diff, merged, opt_view, quad_pair, Change, SettingKey, SettingsMap, SettingsView,
};
use crate::text::{
    concat, decimal, lemma_chars_lt_irreflexive, decimal_string, lowercase, signed_decimal, str_eq, text_le, to_lowercase, trim, trim_str,
};

verus! {

broadcast use vstd::seq_lib::group_to_multiset_ensures;

/// Longest profile name the UI may create.
pub const MAX_NAME: usize = 40;

/// The name a profile may be given: `name` trimmed, with 1 to 40 characters.
pub fn valid_name(name: &str) -> (r: Result<String, String>)
    ensures
        (0 < trim(name@).len() <= 40) ==> (r matches Ok(n) && n@ == trim(name@)),
        !(0 < trim(name@).len() <= 40) ==> (r matches Err(m) && m@ == "A profile name needs 1 to 40 characters"@),
{
    let trimmed = trim_str(name);
    let n = trimmed.unicode_len();
    if n == 0 || n > MAX_NAME {
        return Err("A profile name needs 1 to 40 characters".to_owned());
    }
    Ok(trimmed)
}

/// One setting of a profile, as the details list shows it.
#[derive(Debug, Clone, PartialEq, Eq)]
pub struct SettingRow {
    pub file: String,
    pub section: String,
    pub key: String,
    pub value: String,
}

impl SettingRow {
    pub fn of(row: (&str, &str, &str, &str)) -> (r: SettingRow)
        ensures
            r.file@ == row.0@ && r.section@ == row.1@ && r.key@ == row.2@ && r.value@ == row.3@,
    {
        SettingRow {
            file: row.0.to_owned(),
            section: row.1.to_owned(),
            key: row.2.to_owned(),
            value: row.3.to_owned(),
        }
    }
}

/// Every setting of a profile, in order of where it lives.
pub fn setting_rows(settings: &SettingsMap) -> (r: Vec<SettingRow>)
    ensures
        r@.map_values(|row: SettingRow| ((row.file@, row.section@, row.key@), row.value@)) == settings.listing(),
{
    let all = settings.iter();
    let ghost listing = settings.listing();
    let mut out: Vec<SettingRow> = Vec::new();
    let mut i: usize = 0;
    while i < all.len()
        invariant
            all@.map_values(|q: (String, String, String, String)| quad_pair(q)) == listing,
            i <= all@.len(),
            out@.map_values(|row: SettingRow| ((row.file@, row.section@, row.key@), row.value@)) == listing.take(i as int),
        decreases all.len() - i,
    {
        let q = &all[i];
        let ghost before = out@;
        let row = SettingRow::of((q.0.as_str(), q.1.as_str(), q.2.as_str(), q.3.as_str()));
        out.push(row);
        assert(listing[i as int] == quad_pair(all@[i as int]));
        assert(out@.map_values(|row: SettingRow| ((row.file@, row.section@, row.key@), row.value@))
            =~= before.map_values(|row: SettingRow| ((row.file@, row.section@, row.key@), row.value@)).push(listing[i as int]));
        assert(listing.take(i + 1) =~= listing.take(i as int).push(listing[i as int]));
        i += 1;
    }
    assert(listing.take(i as int) =~= listing);
    out
}

/// One setting a champion overrides, with what it replaces: the value in the
/// account's base, if that is known and differs.
#[derive(Debug, Clone, PartialEq, Eq)]
pub struct OverrideRow {
    pub file: String,
    pub section: String,
    pub key: String,
    pub value: String,
    pub from: Option<String>,
}

/// What an override replaces in `base`: the base's value when it has one that differs.
pub open spec fn replaced(base: Option<SettingsView>, k: SettingKey, value: Seq<char>) -> Option<Seq<char>> {
    match base {
        Some(b) => if b.contains_key(k) && b[k] != value {
            Some(b[k])
        } else {
            None
        },
        None => None,
    }
}

pub open spec fn opt_map_view(o: Option<&SettingsMap>) -> Option<SettingsView> {
    match o {
        Some(m) => Some(m@),
        None => None,
    }
}

/// The rows of a champion's overlay, in order of where they live.
/// `rows` list the settings of `overlay` in order of where they live, each with what
/// it replaces in `base`.
pub open spec fn shows_overrides(rows: Seq<OverrideRow>, overlay: SettingsMap, base: Option<SettingsView>) -> bool {
    &&& rows.len() == overlay.listing().len()
    &&& forall|i: int| 0 <= i < rows.len() ==> {
        let row = #[trigger] rows[i];
        let (k, v) = overlay.listing()[i];
        &&& (row.file@, row.section@, row.key@) == k
        &&& row.value@ == v
        &&& opt_view(row.from) == replaced(base, k, v)
    }
}

pub fn override_rows(overlay: &SettingsMap, base: Option<&SettingsMap>) -> (r: Vec<OverrideRow>)
    ensures
        shows_overrides(r@, *overlay, opt_map_view(base)),
{
    let all = overlay.iter();
    let ghost listing = overlay.listing();
    let mut out: Vec<OverrideRow> = Vec::new();
    let mut i: usize = 0;
    while i < all.len()
        invariant
            all@.map_values(|q: (String, String, String, String)| quad_pair(q)) == listing,
            i <= all@.len(),
            out@.len() == i,
            forall|j: int| 0 <= j < i ==> {
                let row = #[trigger] out@[j];
                let (k, v) = listing[j];
                &&& (row.file@, row.section@, row.key@) == k
                &&& row.value@ == v
                &&& opt_view(row.from) == replaced(opt_map_view(base), k, v)
            },
        decreases all.len() - i,
    {
        let q = &all[i];
        assert(listing[i as int] == quad_pair(all@[i as int]));
        let from = match base {
            Some(b) => match b.get(q.0.as_str(), q.1.as_str(), q.2.as_str()) {
                Some(v) => if !str_eq(v, q.3.as_str()) {
                    Some(v.to_owned())
                } else {
                    None
                },
                None => None,
            },
            None => None,
        };
        out.push(
            OverrideRow {
                file: q.0.clone(),
                section: q.1.clone(),
                key: q.2.clone(),
                value: q.3.clone(),
                from,
            },
        );
        i += 1;
    }
    out
}

/// A profile as the panel lists it.
#[derive(Debug, Clone, PartialEq, Eq)]
pub struct ProfileView {
    pub id: String,
    pub name: String,
    pub active: bool,
    pub settings: usize,
    /// How many settings applying it would change on the logged-in account; absent with
    /// nobody logged in.
    pub differs: Option<usize>,
}

/// `n` settings would change if `target` were written onto `current`.
pub open spec fn counts_changes(current: SettingsView, target: SettingsView, n: nat) -> bool {
    exists|changes: Seq<crate::settings::Change>|
        #[trigger] is_diff(changes, crate::engine::steady(current), crate::engine::steady(merged(current, target)))
            && changes.len() == n
}

/// What applying each profile would change on `current`, by count.
pub fn differences(current: &SettingsMap, profiles: &[Profile]) -> (r: Vec<usize>)
    ensures
        r@.len() == profiles@.len(),
        forall|i: int| 0 <= i < r@.len() ==> counts_changes(current@, profiles@[i].settings@, #[trigger] r@[i] as nat),
{
    let mut out: Vec<usize> = Vec::new();
    let mut i: usize = 0;
    while i < profiles.len()
        invariant
            i <= profiles@.len(),
            out@.len() == i,
            forall|j: int| 0 <= j < i ==> counts_changes(current@, profiles@[j].settings@, #[trigger] out@[j] as nat),
        decreases profiles.len() - i,
    {
        let changes = would_change(current, &profiles[i].settings);
        out.push(changes.len());
        assert(counts_changes(current@, profiles@[i as int].settings@, out@[i as int] as nat));
        i += 1;
    }
    out
}

/// The panel's list of profiles: which is active, how many settings each has, and how
/// many applying it would change.
pub fn profile_views(profiles: &[Profile], active: Option<&str>, differs: Option<&Vec<usize>>) -> (r: Vec<ProfileView>)
    requires
        differs matches Some(d) ==> d@.len() == profiles@.len(),
    ensures
        r@.len() == profiles@.len(),
        forall|i: int| 0 <= i < r@.len() ==> {
            let v = #[trigger] r@[i];
            let p = profiles@[i];
            &&& v.id@ == p.id@
            &&& v.name@ == p.name@
            &&& v.active == (active matches Some(a) && a@ == p.id@)
            &&& v.settings == p.settings@.len()
            &&& v.differs == match differs {
                Some(d) => Some(d@[i]),
                None => None,
            }
        },
{
    let mut out: Vec<ProfileView> = Vec::new();
    let mut i: usize = 0;
    while i < profiles.len()
        invariant
            i <= profiles@.len(),
            differs matches Some(d) ==> d@.len() == profiles@.len(),
            out@.len() == i,
            forall|j: int| 0 <= j < i ==> {
                let v = #[trigger] out@[j];
                let p = profiles@[j];
                &&& v.id@ == p.id@
                &&& v.name@ == p.name@
                &&& v.active == (active matches Some(a) && a@ == p.id@)
                &&& v.settings == p.settings@.len()
                &&& v.differs == match differs {
                    Some(d) => Some(d@[j]),
                    None => None,
                }
            },
        decreases profiles.len() - i,
    {
        let p = &profiles[i];
        let is_active = match active {
            Some(a) => str_eq(a, p.id.as_str()),
            None => false,
        };
        let count = match differs {
            Some(d) => Some(d[i]),
            None => None,
        };
        out.push(
            ProfileView {
                id: p.id.clone(),
                name: p.name.clone(),
                active: is_active,
                settings: p.settings.len(),
                differs: count,
            },
        );
        i += 1;
    }
    out
}

/// A champion as the UI shows it.
#[derive(Debug, Clone, PartialEq, Eq)]
pub struct ChampionView {
    pub id: u32,
    pub name: String,
    /// Path of the cached icon.
    pub icon: String,
    /// The logged-in account's mastery points on it; 0 if never played.
    pub mastery: u64,
}

/// `v` shows champion `id`: named from `list`, or `Champion <id>` when it is not there,
/// with its cached icon and the account's mastery points on it.
pub open spec fn shows_champion(v: ChampionView, champions: Champions, list: Seq<Champion>, id: u32) -> bool {
    &&& v.id == id
    &&& v.mastery == mastery_in(champions.mastery@, id)
    &&& v.icon@ == crate::text::joined(crate::text::joined(champions.dir@, "champion-icons"@), decimal(id as nat) + ".png"@)
    &&& (exists|i: int| 0 <= i < list.len() && list[i].id == id) ==> exists|i: int|
        0 <= i < list.len() && list[i].id == id && list[i].name@ == v.name@
    &&& (forall|i: int| 0 <= i < list.len() ==> #[trigger] list[i].id != id) ==> v.name@ == "Champion "@ + decimal(id as nat)
}

impl ChampionView {
    /// Champion `id`, named from `list`, or `Champion <id>` when it is not there.
    pub fn of(champions: &Champions, list: &[Champion], id: u32) -> (r: ChampionView)
        ensures
            shows_champion(r, *champions, list@, id),
    {
        let name = match name_in(list, id) {
            Some(n) => n,
            None => {
                let d = decimal_string(id as u128);
                concat("Champion ", d.as_str())
            },
        };
        ChampionView { id, name, icon: champions.icon_path(id), mastery: champions.mastery(id) }
    }
}

/// The account shown in the panel's header.
#[derive(Debug, Clone, PartialEq, Eq)]
pub struct AccountView {
    /// `gameName#tagLine`.
    pub name: String,
    /// Path of the cached profile icon.
    pub icon: String,
    pub level: u32,
}

/// `r` is the account the header shows for `status`: the connected one, else `last`,
/// the one last seen, if its icon is known.
pub open spec fn shows_account(r: Option<AccountView>, status: Status, last: Option<Account>, champions: Champions) -> bool {
    &&& status matches Status::Connected { account, .. } ==> (r matches Some(v) && v.name@ == riot_id_of(account)
        && v.level == account.summoner_level
        && v.icon@ == crate::text::joined(crate::text::joined(champions.dir@, "profile-icons"@), decimal(account.profile_icon_id as nat) + ".jpg"@))
    &&& !(status is Connected) ==> match last {
        Some(a) => match a.icon {
            Some(icon) => r matches Some(v) && v.name@ == a.display_name@
                && v.level == (match a.level { Some(l) => l, None => 0 })
                && v.icon@ == crate::text::joined(crate::text::joined(champions.dir@, "profile-icons"@), decimal(icon as nat) + ".jpg"@),
            None => r is None,
        },
        None => r is None,
    }
}

pub open spec fn opt_account(o: Option<&Account>) -> Option<Account> {
    match o {
        Some(a) => Some(*a),
        None => None,
    }
}

/// The connected account, or else the one last seen, so the header keeps its face
/// while League is closed. A last-seen account without a known icon is not shown.
pub fn account_view(status: &Status, last: Option<&Account>, champions: &Champions) -> (r: Option<AccountView>)
    ensures
        shows_account(r, *status, opt_account(last), *champions),
{
    if let Status::Connected { account, .. } = status {
        return Some(
            AccountView {
                name: riot_id_string(account),
                icon: champions.profile_icon_path(account.profile_icon_id),
                level: account.summoner_level,
            },
        );
    }
    let a = match last {
        Some(a) => a,
        None => return None,
    };
    let icon = match a.icon {
        Some(icon) => icon,
        None => return None,
    };
    Some(
        AccountView {
            name: a.display_name.clone(),
            icon: champions.profile_icon_path(icon),
            level: match a.level {
                Some(l) => l,
                None => 0,
            },
        },
    )
}

/// One account in the list of accounts mimic has seen.
#[derive(Debug, Clone, PartialEq, Eq)]
pub struct AccountRow {
    pub puuid: String,
    pub name: String,
    /// The profile it is on, by name.
    pub profile: Option<String>,
    pub auto_apply: bool,
    /// Whether this is the account logged in right now.
    pub connected: bool,
}

/// How the list of accounts is ordered: the connected account first, then by name
/// ignoring case.
pub open spec fn row_key(row: AccountRow) -> Seq<char> {
    (if row.connected { "0"@ } else { "1"@ }) + lowercase(row.name@)
}

/// `a` may stand before `b`: by `row_key`, and by puuid where the keys are the same.
pub open spec fn rows_in_order(a: AccountRow, b: AccountRow) -> bool {
    &&& text_le(row_key(a), row_key(b))
    &&& row_key(a) == row_key(b) ==> text_le(a.puuid@, b.puuid@)
}

pub open spec fn opt_str(o: Option<&str>) -> Option<Seq<char>> {
    match o {
        Some(s) => Some(s@),
        None => None,
    }
}

/// The name of the profile an account with `profile_id` is on: that of the first
/// of `profiles` with that id, if there is one.
pub open spec fn profile_named(profiles: Seq<Profile>, profile_id: Option<String>) -> Option<String> {
    match profile_id {
        Some(id) => match crate::engine::profile_with_id(profiles, id@) {
            Some(p) => Some(p.name),
            None => None,
        },
        None => None,
    }
}

/// The row that shows the account `entry`, with `connected` the puuid logged in.
pub open spec fn row_for(entry: (String, Account), profiles: Seq<Profile>, connected: Option<Seq<char>>) -> AccountRow {
    AccountRow {
        puuid: entry.0,
        name: entry.1.display_name,
        profile: profile_named(profiles, entry.1.profile_id),
        auto_apply: entry.1.auto_apply,
        connected: connected == Some(entry.0@),
    }
}

/// Every account mimic has seen, the connected one first, then by name, and by puuid
/// among the same names: each of `accounts` shown by one row, and no other row.
pub fn account_rows(accounts: &Vec<(String, Account)>, profiles: &[Profile], connected: Option<&str>) -> (r: Vec<AccountRow>)
    ensures
        r@.to_multiset() == accounts@.map_values(
            |e: (String, Account)| row_for(e, profiles@, opt_str(connected)),
        ).to_multiset(),
        r@.map_values(|row: AccountRow| row.puuid).to_multiset() == accounts@.map_values(
            |e: (String, Account)| e.0,
        ).to_multiset(),
        forall|i: int, j: int| 0 <= i < j < r@.len() ==> rows_in_order(#[trigger] r@[i], #[trigger] r@[j]),
{
    let ghost c = opt_str(connected);
    let ghost ps = profiles@;
    let mut keyed: Vec<((String, String), AccountRow)> = Vec::new();
    let mut i: usize = 0;
    while i < accounts.len()
        invariant
            i <= accounts@.len(),
            c == opt_str(connected),
            ps == profiles@,
            keyed@.len() == i,
            forall|q: int| 0 <= q < i ==> (#[trigger] keyed@[q]).0.0@ == row_key(keyed@[q].1) && keyed@[q].0.1@ == keyed@[q].1.puuid@,
            forall|q: int| 0 <= q < i ==> (#[trigger] keyed@[q]).1 == row_for(accounts@[q], ps, c),
        decreases accounts.len() - i,
    {
        let (puuid, account) = (&accounts[i].0, &accounts[i].1);
        let is_connected = match connected {
            Some(cn) => str_eq(cn, puuid.as_str()),
            None => false,
        };
        let profile = match &account.profile_id {
            Some(id) => match find_profile(profiles, id.as_str()) {
                Some(p) => Some(p.name.clone()),
                None => None,
            },
            None => None,
        };
        let row = AccountRow {
            puuid: puuid.clone(),
            name: account.display_name.clone(),
            profile,
            auto_apply: account.auto_apply,
            connected: is_connected,
        };
        assert(row == row_for(accounts@[i as int], ps, c));
        let lower = to_lowercase(row.name.as_str());
        let key = concat(if is_connected { "0" } else { "1" }, lower.as_str());
        let id = row.puuid.clone();
        keyed.push(((key, id), row));
        i += 1;
    }
    let ghost ks = keyed@;
    assert(ks.map_values(|p: ((String, String), AccountRow)| p.1) =~= accounts@.map_values(
        |e: (String, Account)| row_for(e, ps, c),
    ));
    let sorted = sort_by_text_pair(keyed);
    let ghost ss = sorted@;
    let r = items_of(sorted);
    proof {
        lemma_map_keeps_multiset(ss, ks, |p: ((String, String), AccountRow)| p.1);
        assert forall|q: int| 0 <= q < ss.len() implies (#[trigger] ss[q]).0.0@ == row_key(ss[q].1)
            && ss[q].0.1@ == ss[q].1.puuid@ by {
            lemma_same_elements(ks, ss, q);
        }
        assert forall|a: int, b: int| 0 <= a < b < r@.len() implies rows_in_order(#[trigger] r@[a], #[trigger] r@[b]) by {
            assert(r@[a] == ss[a].1 && r@[b] == ss[b].1);
            assert(pair_le(pair_key(ss[a]), pair_key(ss[b])));
            lemma_chars_lt_irreflexive(row_key(r@[a]));
        }
        let ghost rows = accounts@.map_values(|e: (String, Account)| row_for(e, ps, c));
        lemma_map_keeps_multiset(r@, rows, |row: AccountRow| row.puuid);
        assert(rows.map_values(|row: AccountRow| row.puuid) =~= accounts@.map_values(|e: (String, Account)| e.0));
    }
    r
}

/// What updating a profile from the account says.
pub fn update_message(changed: usize) -> (r: String)
    ensures
        changed == 0 ==> r@ == "Already matches this account"@,
        changed == 1 ==> r@ == "Updated with 1 changed setting"@,
        changed > 1 ==> r@ == "Updated with "@ + decimal(changed as nat) + " changed settings"@,
{
    if changed == 0 {
        "Already matches this account".to_owned()
    } else if changed == 1 {
        "Updated with 1 changed setting".to_owned()
    } else {
        let n = decimal_string(changed as u128);
        let a = concat("Updated with ", n.as_str());
        concat(a.as_str(), " changed settings")
    }
}

/// The running version and a newer one, if one was found.
#[derive(Debug, Clone, PartialEq, Eq)]
pub struct UpdateStatus {
    pub current: String,
    pub available: Option<String>,
}

/// What looking for an update says.
pub fn update_found_message(found: Option<&str>) -> (r: String)
    ensures
        found matches Some(v) ==> r@ == "mimic "@ + v@ + " is available"@,
        found is None ==> r@ == "mimic is up to date"@,
{
    match found {
        Some(v) => {
            let a = concat("mimic ", v);
            concat(a.as_str(), " is available")
        },
        None => "mimic is up to date".to_owned(),
    }
}

/// A champion's own settings, as the panel lists them.
#[derive(Debug, Clone, PartialEq, Eq)]
pub struct OverlayView {
    pub champion: ChampionView,
    /// What it overrides.
    pub settings: Vec<OverrideRow>,
}

/// `v` shows the overlay `o`, with what each of its settings replaces in `base`.
pub open spec fn shows_overlay(v: OverlayView, o: Overlay, base: Option<SettingsView>, champions: Champions, list: Seq<Champion>) -> bool {
    &&& shows_champion(v.champion, champions, list, o.champion_id)
    &&& shows_overrides(v.settings@, o.settings, base)
}

/// The champions' own settings as the panel lists them, in the order given.
pub fn overlay_views(overlays: &[Overlay], base: Option<&SettingsMap>, champions: &Champions, list: &[Champion]) -> (r: Vec<OverlayView>)
    ensures
        r@.len() == overlays@.len(),
        forall|i: int| 0 <= i < r@.len() ==> shows_overlay(#[trigger] r@[i], overlays@[i], opt_map_view(base), *champions, list@),
{
    let mut out: Vec<OverlayView> = Vec::new();
    let mut i: usize = 0;
    while i < overlays.len()
        invariant
            i <= overlays@.len(),
            out@.len() == i,
            forall|j: int| 0 <= j < i ==> shows_overlay(#[trigger] out@[j], overlays@[j], opt_map_view(base), *champions, list@),
        decreases overlays.len() - i,
    {
        let o = &overlays[i];
        let champion = ChampionView::of(champions, list, o.champion_id);
        let settings = override_rows(&o.settings, base);
        out.push(OverlayView { champion, settings });
        i += 1;
    }
    out
}

/// A profile's settings, and what applying it to the logged-in account would alter.
#[derive(Debug, Clone, PartialEq, Eq)]
pub struct ProfileDetails {
    /// Every setting in the profile.
    pub settings: Vec<SettingRow>,
    /// What applying it to the logged-in account would alter; absent with nobody logged in.
    pub preview: Option<Vec<Change>>,
}

/// The details of `profile`, previewed against `current`, the settings on the
/// logged-in account, if anybody is logged in.
pub fn profile_details(profile: &Profile, current: Option<&SettingsMap>) -> (r: ProfileDetails)
    ensures
        r.settings@.map_values(|row: SettingRow| ((row.file@, row.section@, row.key@), row.value@)) == profile.settings.listing(),
        current is None ==> r.preview is None,
        current matches Some(c) ==> (r.preview matches Some(p) && is_diff(
            p@,
            crate::engine::steady(c@),
            crate::engine::steady(merged(c@, profile.settings@)),
        )),
{
    let settings = setting_rows(&profile.settings);
    let preview = match current {
        Some(c) => Some(would_change(c, &profile.settings)),
        None => None,
    };
    ProfileDetails { settings, preview }
}

/// A snapshot as the list of earlier states shows it.
#[derive(Debug, Clone, PartialEq, Eq)]
pub struct SnapshotView {
    /// Opaque id for restoring it.
    pub id: String,
    /// When it was taken, RFC 3339.
    pub taken: String,
    pub reason: String,
    /// The account it was taken on, as `gameName#tagLine` if known.
    pub account: Option<String>,
    /// Whether it belongs to the logged-in account and can be restored right now.
    pub restorable: bool,
    pub settings: usize,
    /// What the change it was taken for altered, setting by setting.
    pub changes: Vec<Change>,
}

/// The name mimic knows the account `puuid` by among `accounts`.
pub open spec fn name_of_account(accounts: Seq<(String, Account)>, puuid: Option<String>) -> Option<Seq<char>> {
    match puuid {
        Some(p) => match lookup(accounts, p@) {
            Some(a) => Some(a.display_name@),
            None => None,
        },
        None => None,
    }
}

fn display_name_of(accounts: &Vec<(String, Account)>, puuid: &str) -> (r: Option<String>)
    ensures
        opt_view(r) == match lookup(accounts@, puuid@) {
            Some(a) => Some(a.display_name@),
            None => None,
        },
{
    let mut i: usize = 0;
    assert(accounts@.skip(0) =~= accounts@);
    while i < accounts.len()
        invariant
            i <= accounts@.len(),
            lookup(accounts@, puuid@) == lookup(accounts@.skip(i as int), puuid@),
        decreases accounts.len() - i,
    {
        assert(accounts@.skip(i as int)[0] == accounts@[i as int]);
        if str_eq(accounts[i].0.as_str(), puuid) {
            return Some(accounts[i].1.display_name.clone());
        }
        assert(accounts@.skip(i as int).drop_first() =~= accounts@.skip(i + 1));
        i += 1;
    }
    None
}

/// `v` shows `snapshot`, taken at the time written `taken`, with `connected` the
/// puuid logged in.
pub open spec fn shows_snapshot(
    v: SnapshotView,
    snapshot: Snapshot,
    taken: Seq<char>,
    accounts: Seq<(String, Account)>,
    connected: Option<Seq<char>>,
) -> bool {
    &&& v.id@ == signed_decimal(snapshot.taken as int)
    &&& v.taken@ == taken
    &&& v.reason@ == snapshot.reason@
    &&& opt_view(v.account) == name_of_account(accounts, snapshot.puuid)
    &&& v.restorable == (snapshot.puuid matches Some(p) && connected == Some(p@))
    &&& v.settings == snapshot.settings@.len()
    &&& v.changes@ == snapshot.changes@
}

/// How `snapshot` is listed, given the text of when it was taken.
pub fn snapshot_view(snapshot: Snapshot, taken: String, accounts: &Vec<(String, Account)>, connected: Option<&str>) -> (r: SnapshotView)
    ensures
        shows_snapshot(r, snapshot, taken@, accounts@, opt_str(connected)),
{
    let id = snapshot_id(&snapshot);
    let account = match &snapshot.puuid {
        Some(p) => display_name_of(accounts, p.as_str()),
        None => None,
    };
    let restorable = match (&snapshot.puuid, connected) {
        (Some(p), Some(c)) => str_eq(p.as_str(), c),
        _ => false,
    };
    let settings = snapshot.settings.len();
    SnapshotView { id, taken, reason: snapshot.reason, account, restorable, settings, changes: snapshot.changes }
}

/// Every snapshot as the list of earlier states shows it, in the order given, with the
/// time each was taken written as RFC 3339.
pub fn snapshot_views(snapshots: Vec<Snapshot>, accounts: &Vec<(String, Account)>, connected: Option<&str>) -> (r: Vec<SnapshotView>)
    ensures
        r@.len() == snapshots@.len(),
        forall|i: int| 0 <= i < r@.len() ==> shows_snapshot(
            #[trigger] r@[i],
            snapshots@[i],
            rfc3339_text(snapshots@[i].taken),
            accounts@,
            opt_str(connected),
        ),
{
    let ghost all = snapshots@;
    let mut rest = snapshots;
    let mut out: Vec<SnapshotView> = Vec::new();
    assert(all.skip(0) =~= all);
    while rest.len() > 0
        invariant
            out@.len() <= all.len(),
            rest@ == all.skip(out@.len() as int),
            forall|j: int| 0 <= j < out@.len() ==> shows_snapshot(
                #[trigger] out@[j],
                all[j],
                rfc3339_text(all[j].taken),
                accounts@,
                opt_str(connected),
            ),
        decreases rest.len(),
    {
        let ghost n = out@.len() as int;
        assert(all.skip(n)[0] == all[n]);
        let snapshot = rest.remove(0);
        let taken = format_rfc3339(snapshot.taken);
        let v = snapshot_view(snapshot, taken, accounts, connected);
        out.push(v);
        assert(rest@ =~= all.skip(n + 1));
    }
    out
}

/// Everything the tray panel displays.
#[derive(Debug, Clone, PartialEq, Eq)]
pub struct View {
    /// The account's Riot ID, or why there is none.
    pub status: String,
    pub connected: bool,
    /// The connected account's profile icon and level, or the last seen.
    pub account: Option<AccountView>,
    pub phase: Option<String>,
    /// What the account is up to, for a badge, e.g. "Swiftplay · In game".
    pub activity: Option<String>,
    /// Whether this account applies its profile by itself at login.
    pub auto_apply: bool,
    /// The profile waiting for the next login, by name.
    pub pending: Option<String>,
    pub profiles: Vec<ProfileView>,
    /// How many settings the user changed and has not decided about yet.
    pub changed: usize,
    /// The champion whose settings are on top of this account's base right now.
    pub active_overlay: Option<ChampionView>,
    pub overlays: Vec<OverlayView>,
}

/// The name of the profile `id` among `profiles`, the first with that id.
pub open spec fn profile_name_of(profiles: Seq<Profile>, id: Option<&str>) -> Option<Seq<char>> {
    match id {
        Some(i) => match crate::engine::profile_with_id(profiles, i@) {
            Some(p) => Some(p.name@),
            None => None,
        },
        None => None,
    }
}

fn pending_name(profiles: &[Profile], id: Option<&str>) -> (r: Option<String>)
    ensures
        opt_view(r) == profile_name_of(profiles@, id),
{
    match id {
        Some(i) => match find_profile(profiles, i) {
            Some(p) => Some(p.name.clone()),
            None => None,
        },
        None => None,
    }
}

/// `v` lists `profiles` in their order, marks the one `active`, and says what
/// applying each would change on `current`, when somebody is logged in.
pub open spec fn lists_profiles(v: Seq<ProfileView>, profiles: Seq<Profile>, active: Option<Seq<char>>, current: Option<SettingsView>) -> bool {
    &&& v.len() == profiles.len()
    &&& forall|i: int| 0 <= i < v.len() ==> {
        let pv = #[trigger] v[i];
        let p = profiles[i];
        &&& pv.id@ == p.id@
        &&& pv.name@ == p.name@
        &&& pv.active == (active == Some(p.id@))
        &&& pv.settings == p.settings@.len()
        &&& match current {
            Some(c) => pv.differs matches Some(n) && counts_changes(c, p.settings@, n as nat),
            None => pv.differs is None,
        }
    }
}

/// What the panel shows, from what the engine knows: its `status`; `mine`, the
/// record of the connected account, and `last`, that of the account last seen; the
/// profiles and the one `pending` for the next login; `current`, the settings on the
/// connected account; how many changes await a decision; the overlays that override
/// something, and `base`, the account's settings under them.
pub fn view(
    status: &Status,
    mine: Option<&Account>,
    last: Option<&Account>,
    profiles: &[Profile],
    pending: Option<&str>,
    current: Option<&SettingsMap>,
    changed: usize,
    overlays: &[Overlay],
    base: Option<&SettingsMap>,
    champions: &Champions,
    list: &[Champion],
) -> (r: View)
    ensures
        r.status@ == label_of(*status),
        r.connected == status is Connected,
        shows_account(r.account, *status, opt_account(last), *champions),
        opt_view(r.phase) == (match *status {
            Status::Connected { phase, .. } => Some(phase@),
            _ => None,
        }),
        opt_view(r.activity) == activity_of(*status),
        r.auto_apply == (mine matches Some(a) && a.auto_apply),
        opt_view(r.pending) == profile_name_of(profiles@, pending),
        lists_profiles(
            r.profiles@,
            profiles@,
            match mine {
                Some(a) => opt_view(a.profile_id),
                None => None,
            },
            opt_map_view(current),
        ),
        r.changed == changed,
        match mine {
            Some(a) => match a.overlay {
                Some(id) => r.active_overlay matches Some(c) && shows_champion(c, *champions, list@, id),
                None => r.active_overlay is None,
            },
            None => r.active_overlay is None,
        },
        r.overlays@.len() == overlays@.len(),
        forall|i: int| 0 <= i < r.overlays@.len() ==> shows_overlay(
            #[trigger] r.overlays@[i],
            overlays@[i],
            opt_map_view(base),
            *champions,
            list@,
        ),
{
    let active: Option<&str> = match mine {
        Some(a) => match &a.profile_id {
            Some(id) => Some(id.as_str()),
            None => None,
        },
        None => None,
    };
    let differs = match current {
        Some(c) => Some(differences(c, profiles)),
        None => None,
    };
    let listed = match &differs {
        Some(d) => profile_views(profiles, active, Some(d)),
        None => profile_views(profiles, active, None),
    };
    let phase = match status.phase() {
        Some(p) => Some(p.to_owned()),
        None => None,
    };
    let active_overlay = match mine {
        Some(a) => match a.overlay {
            Some(id) => Some(ChampionView::of(champions, list, id)),
            None => None,
        },
        None => None,
    };
    View {
        status: status.label(),
        connected: status.riot_id().is_some(),
        account: account_view(status, last, champions),
        phase,
        activity: status.activity(),
        auto_apply: match mine {
            Some(a) => a.auto_apply,
            None => false,
        },
        pending: pending_name(profiles, pending),
        profiles: listed,
        changed,
        active_overlay,
        overlays: overlay_views(overlays, base, champions, list),
    }
}

} // verus!
