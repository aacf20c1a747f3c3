//! The engine's decisions: what counts as a change the user made, what happens when an
//! account logs in, how the outcome of a write is described, and how the account's
//! game phase moves from one event of the client to the next.

use vstd::prelude::*;

use crate::settings::{
    diff, is_diff, key_lt, lemma_key_lt_irreflexive, lemma_key_lt_transitive, merge, merged,
    opt_view, volatile, Change, SettingKey, SettingsMap, SettingsView,
};
use crate::json::{element, field, int_of, str_of, Json};
use crate::lcu::{as_u32, u32_of, LcuError, LcuEvent, Summoner};
use crate::naming::{first_chars, first_free, free_name, take_chars};
use crate::profiles::{Account, Accounts, Overlay, Profile, ProfileError, Snapshot, State, SCHEMA_VERSION};
use crate::settings::{has_file, overlay_between, overlay_of, quad_pair};
use crate::text::{
    compare_str, lemma_chars_lt_total, lemma_chars_lt_transitive, Order, chars_lt, concat, debug_quoted, decimal, decimal_string, list_has, quote, signed_decimal,
    signed_decimal_string, str_eq, text_le, trim, trim_str,
};

verus! {

/// What of a settings map the user can have an opinion on: everything but the layout
/// the game moves by itself.
pub open spec fn steady(m: SettingsView) -> SettingsView {
    Map::new(|k: SettingKey| m.contains_key(k) && !volatile(k.0, k.1, k.2), |k: SettingKey| m[k])
}

/// Two changes that say the same: same key, same values on either side.
pub open spec fn same_change(x: Change, y: Change) -> bool {
    x.key_view() == y.key_view() && opt_view(x.from) == opt_view(y.from) && opt_view(x.to)
        == opt_view(y.to)
}

/// What differs between the baseline and what is on the account now, leaving out the
/// window layout the game rewrites on its own.
pub fn user_changes(baseline: &SettingsMap, current: &SettingsMap) -> (r: Vec<Change>)
    ensures
        is_diff(r@, steady(baseline@), steady(current@)),
{
    let all = diff(baseline, current);
    let mut out: Vec<Change> = Vec::new();
    let ghost mut idx: Seq<int> = Seq::empty();
    let mut i: usize = 0;
    while i < all.len()
        invariant
            is_diff(all@, baseline@, current@),
            i <= all@.len(),
            idx.len() == out@.len(),
            forall|a: int, b: int| 0 <= a < b < idx.len() ==> #[trigger] idx[a] < #[trigger] idx[b],
            forall|a: int|
                0 <= a < idx.len() ==> 0 <= #[trigger] idx[a] < i && same_change(out@[a], all@[idx[a]])
                    && !volatile(all@[idx[a]].key_view().0, all@[idx[a]].key_view().1, all@[idx[a]].key_view().2),
            forall|q: int|
                0 <= q < i && !volatile(#[trigger] all@[q].key_view().0, all@[q].key_view().1, all@[q].key_view().2)
                    ==> exists|a: int| 0 <= a < idx.len() && idx[a] == q,
        decreases all.len() - i,
    {
        let c = &all[i];
        if !crate::settings::is_volatile(c.file.as_str(), c.section.as_str(), c.key.as_str()) {
            let ghost before = idx;
            out.push(c.copy());
            proof {
                idx = idx.push(i as int);
                assert forall|q: int|
                    0 <= q < i + 1 && !volatile(#[trigger] all@[q].key_view().0, all@[q].key_view().1, all@[q].key_view().2)
                        implies exists|a: int| 0 <= a < idx.len() && idx[a] == q by {
                    if q < i {
                        let a = choose|a: int| 0 <= a < before.len() && before[a] == q;
                        assert(idx[a] == q);
                    } else {
                        assert(idx[before.len() as int] == q);
                    }
                }
            }
        }
        i += 1;
    }
    proof {
        let s = out@;
        let b = steady(baseline@);
        let c = steady(current@);
        assert forall|x: int, y: int| 0 <= x < y < s.len() implies key_lt(
            #[trigger] s[x].key_view(),
            #[trigger] s[y].key_view(),
        ) by {
            assert(idx[x] < idx[y]);
        }
        assert forall|x: int| 0 <= x < s.len() implies {
            let k = #[trigger] s[x].key_view();
            &&& opt_view(s[x].from) == b.get(k)
            &&& opt_view(s[x].to) == c.get(k)
            &&& b.get(k) != c.get(k)
        } by {
            let q = idx[x];
            let k = all@[q].key_view();
            assert(opt_view(all@[q].from) == baseline@.get(k));
        }
        assert forall|k: SettingKey| b.get(k) != c.get(k) implies exists|x: int|
            0 <= x < s.len() && #[trigger] s[x].key_view() == k by {
            assert(!volatile(k.0, k.1, k.2));
            assert(baseline@.get(k) != current@.get(k));
            let q = choose|q: int| 0 <= q < all@.len() && #[trigger] all@[q].key_view() == k;
            let a = choose|a: int| 0 <= a < idx.len() && idx[a] == q;
            assert(s[a].key_view() == k);
        }
    }
    out
}

/// What writing `target` onto `current` would alter: only keys the target has, as a
/// missing key is not a request to delete, and not the layout that moves on its own.
pub fn would_change(current: &SettingsMap, target: &SettingsMap) -> (r: Vec<Change>)
    ensures
        is_diff(r@, steady(current@), steady(merged(current@, target@))),
{
    let after = merge(current, target);
    user_changes(current, &after)
}

/// How a setting is named in the list of muted ones: `file/section/key`.
pub open spec fn mute_name(k: SettingKey) -> Seq<char> {
    k.0 + "/"@ + k.1 + "/"@ + k.2
}

/// How a setting is named in the list of muted ones.
pub fn mute_id(change: &Change) -> (r: String)
    ensures
        r@ == mute_name(change.key_view()),
{
    let a = concat(change.file.as_str(), "/");
    let b = concat(a.as_str(), change.section.as_str());
    let c = concat(b.as_str(), "/");
    concat(c.as_str(), change.key.as_str())
}

/// `s` has no `/` in it.
pub open spec fn no_slash(s: Seq<char>) -> bool {
    forall|i: int| 0 <= i < s.len() ==> s[i] != '/'
}

proof fn lemma_slash_split(a0: Seq<char>, a1: Seq<char>, b0: Seq<char>, b1: Seq<char>)
    requires
        no_slash(a0),
        no_slash(b0),
        a0 + "/"@ + a1 == b0 + "/"@ + b1,
    ensures
        a0 == b0,
        a1 == b1,
{
    let x = a0 + "/"@ + a1;
    let y = b0 + "/"@ + b1;
    reveal_strlit("/");
    assert("/"@ =~= seq!['/']);
    if a0.len() < b0.len() {
        assert(x[a0.len() as int] == '/');
        assert(y[a0.len() as int] == b0[a0.len() as int]);
    } else if b0.len() < a0.len() {
        assert(y[b0.len() as int] == '/');
        assert(x[b0.len() as int] == a0[b0.len() as int]);
    }
    assert(a0.len() == b0.len());
    assert(a0 =~= x.subrange(0, a0.len() as int));
    assert(b0 =~= y.subrange(0, b0.len() as int));
    assert(a1 =~= x.subrange(a0.len() as int + 1, x.len() as int));
    assert(b1 =~= y.subrange(b0.len() as int + 1, y.len() as int));
}

/// Settings whose file and section have no `/` in them have different names in the
/// list of muted ones: muting one never mutes another.
pub proof fn law_mute_names_distinct(a: SettingKey, b: SettingKey)
    requires
        no_slash(a.0) && no_slash(a.1),
        no_slash(b.0) && no_slash(b.1),
        a != b,
    ensures
        mute_name(a) != mute_name(b),
{
    if mute_name(a) == mute_name(b) {
        assert(mute_name(a) =~= a.0 + "/"@ + (a.1 + "/"@ + a.2));
        assert(mute_name(b) =~= b.0 + "/"@ + (b.1 + "/"@ + b.2));
        lemma_slash_split(a.0, a.1 + "/"@ + a.2, b.0, b.1 + "/"@ + b.2);
        lemma_slash_split(a.1, a.2, b.1, b.2);
    }
}

/// Whether `muted` names the setting `k`.
pub open spec fn is_muted(muted: Seq<String>, k: SettingKey) -> bool {
    exists|i: int| 0 <= i < muted.len() && #[trigger] muted[i]@ == mute_name(k)
}

/// The changes to muted settings between `expected` and `current` that can be kept:
/// those whose key is still on the account, with its value there.
pub open spec fn muted_keep(expected: SettingsView, current: SettingsView, muted: Seq<String>) -> SettingsView {
    Map::new(
        |k: SettingKey|
            steady(current).contains_key(k) && steady(expected).get(k) != steady(current).get(k)
                && is_muted(muted, k),
        |k: SettingKey| current[k],
    )
}

/// The part of `muted_keep` whose keys are among the first `n` of `changes`.
spec fn kept_among(changes: Seq<Change>, n: int, keep: SettingsView) -> SettingsView {
    Map::new(
        |k: SettingKey| keep.contains_key(k) && exists|q: int| 0 <= q < n && #[trigger] changes[q].key_view() == k,
        |k: SettingKey| keep[k],
    )
}

/// Takes the changes to muted settings into `baseline`. Returns how many there were.
pub fn keep_muted(
    baseline: &mut SettingsMap,
    expected: &SettingsMap,
    current: &SettingsMap,
    muted: &[String],
) -> (r: usize)
    ensures
        final(baseline)@ == merged(old(baseline)@, muted_keep(expected@, current@, muted@)),
        r == muted_keep(expected@, current@, muted@).len(),
{
    let changes = user_changes(expected, current);
    let ghost keep = muted_keep(expected@, current@, muted@);
    let ghost b0 = baseline@;
    let ghost mut m: SettingsView = Map::empty();
    let mut kept: usize = 0;
    let mut i: usize = 0;
    assert(m =~= kept_among(changes@, 0, keep));
    while i < changes.len()
        invariant
            is_diff(changes@, steady(expected@), steady(current@)),
            keep == muted_keep(expected@, current@, muted@),
            i <= changes@.len(),
            m == kept_among(changes@, i as int, keep),
            m.dom().finite(),
            m.len() == kept,
            kept <= i,
            baseline@ == merged(b0, m),
        decreases changes.len() - i,
    {
        let change = &changes[i];
        let ghost k = change.key_view();
        let id = mute_id(change);
        let named = list_has(muted, id.as_str());
        proof {
            assert(!m.contains_key(k)) by {
                if m.contains_key(k) {
                    let q = choose|q: int| 0 <= q < i && #[trigger] changes@[q].key_view() == k;
                    assert(key_lt(changes@[q].key_view(), changes@[i as int].key_view()));
                    lemma_key_lt_irreflexive(k);
                }
            }
            assert(named == is_muted(muted@, k));
            assert(opt_view(change.to) == steady(current@).get(k));
        }
        match &change.to {
            Some(value) => {
                if named {
                    baseline.set(change.file.as_str(), change.section.as_str(), change.key.as_str(), value.as_str());
                    proof {
                        assert(keep.contains_key(k));
                        assert(keep[k] == value@);
                        let m1 = m.insert(k, value@);
                        assert(m1 =~= kept_among(changes@, i + 1, keep));
                        assert(merged(b0, m1) =~= merged(b0, m).insert(k, value@));
                        m = m1;
                    }
                    kept = kept + 1;
                } else {
                    proof {
                        assert(!keep.contains_key(k));
                        assert(m =~= kept_among(changes@, i + 1, keep));
                    }
                }
            },
            None => {
                proof {
                    assert(!keep.contains_key(k));
                    assert(m =~= kept_among(changes@, i + 1, keep));
                }
            },
        }
        i += 1;
    }
    proof {
        assert forall|k: SettingKey| keep.contains_key(k) implies #[trigger] m.contains_key(k) by {
            assert(steady(expected@).get(k) != steady(current@).get(k));
            let q = choose|q: int| 0 <= q < changes@.len() && #[trigger] changes@[q].key_view() == k;
        }
        assert(m =~= keep);
    }
    kept
}

/// `n` things: "1 change", "3 changes".
pub open spec fn counted(n: nat, noun: Seq<char>) -> Seq<char> {
    if n == 1 {
        "1 "@ + noun
    } else {
        decimal(n) + " "@ + noun + "s"@
    }
}

pub fn count(n: usize, noun: &str) -> (r: String)
    ensures
        r@ == counted(n as nat, noun@),
{
    if n == 1 {
        concat("1 ", noun)
    } else {
        let d = decimal_string(n as u128);
        let a = concat(d.as_str(), " ");
        let b = concat(a.as_str(), noun);
        concat(b.as_str(), "s")
    }
}

/// Phases in which the game is starting or running.
pub open spec fn in_game_phase(phase: Seq<char>) -> bool {
    phase == "ChampSelect"@ || phase == "GameStart"@ || phase == "InProgress"@ || phase
        == "Reconnect"@
}

pub fn in_game(phase: &str) -> (r: bool)
    ensures
        r == in_game_phase(phase@),
{
    str_eq(phase, "ChampSelect") || str_eq(phase, "GameStart") || str_eq(phase, "InProgress")
        || str_eq(phase, "Reconnect")
}

/// What to do when an account becomes ready.
#[derive(Debug, PartialEq, Eq)]
pub enum AtLogin<'a> {
    Apply(&'a str),
    /// The account changed while mimic was not looking. Ask; do not overwrite.
    AskAboutChanges,
    Nothing,
    /// There is something to do, but it has to wait for a later login.
    GameUnderWay,
}

/// What would be done at login if no game were under way.
pub open spec fn wanted_at_login<'a>(
    queued: Option<&'a str>,
    mapped: Option<&'a str>,
    auto_apply: bool,
    drifted: bool,
) -> AtLogin<'a> {
    match queued {
        Some(id) => AtLogin::Apply(id),
        None => if drifted {
            AtLogin::AskAboutChanges
        } else if auto_apply && mapped is Some {
            AtLogin::Apply(mapped->0)
        } else {
            AtLogin::Nothing
        },
    }
}

pub open spec fn at_login_spec<'a>(
    queued: Option<&'a str>,
    mapped: Option<&'a str>,
    auto_apply: bool,
    drifted: bool,
    phase: Seq<char>,
) -> AtLogin<'a> {
    let wanted = wanted_at_login(queued, mapped, auto_apply, drifted);
    if wanted is Nothing {
        AtLogin::Nothing
    } else if in_game_phase(phase) {
        AtLogin::GameUnderWay
    } else {
        wanted
    }
}

/// What to do when an account becomes ready. A profile the user queued wins, as an
/// explicit request. Otherwise settings that changed behind mimic's back are asked
/// about before auto-apply could overwrite them. The account's own profile only counts
/// if the account opted into auto-apply. A game that is starting or running already
/// has its settings, so nothing happens then and a queued profile stays queued.
pub fn at_login<'a>(
    queued: Option<&'a str>,
    mapped: Option<&'a str>,
    auto_apply: bool,
    drifted: bool,
    phase: &str,
) -> (r: AtLogin<'a>)
    ensures
        r == at_login_spec(queued, mapped, auto_apply, drifted, phase@),
{
    let wanted = match queued {
        Some(id) => AtLogin::Apply(id),
        None => if drifted {
            AtLogin::AskAboutChanges
        } else {
            match mapped {
                Some(id) => if auto_apply {
                    AtLogin::Apply(id)
                } else {
                    return AtLogin::Nothing;
                },
                None => return AtLogin::Nothing,
            }
        },
    };
    if in_game(phase) {
        return AtLogin::GameUnderWay;
    }
    wanted
}

/// A request the user queued is carried out at the next login outside a game, whatever
/// else holds.
pub proof fn law_queued_profile_wins<'a>(
    id: &'a str,
    mapped: Option<&'a str>,
    auto_apply: bool,
    drifted: bool,
    phase: Seq<char>,
)
    requires
        !in_game_phase(phase),
    ensures
        at_login_spec(Some(id), mapped, auto_apply, drifted, phase) == AtLogin::Apply(id),
{
}

/// Settings changed behind mimic's back are never overwritten at login unasked: without
/// a queued request nothing is applied.
pub proof fn law_changes_are_asked_about<'a>(
    mapped: Option<&'a str>,
    auto_apply: bool,
    phase: Seq<char>,
)
    ensures
        !(at_login_spec(None, mapped, auto_apply, true, phase) is Apply),
{
}

/// Having a profile is not consent: without auto-apply or a queued request, a login
/// applies nothing.
pub proof fn law_no_apply_without_consent<'a>(mapped: Option<&'a str>, drifted: bool, phase: Seq<char>)
    ensures
        !(at_login_spec(None, mapped, false, drifted, phase) is Apply),
{
}

/// While a game is starting or running, nothing is applied at login.
pub proof fn law_nothing_applied_in_game<'a>(
    queued: Option<&'a str>,
    mapped: Option<&'a str>,
    auto_apply: bool,
    drifted: bool,
    phase: Seq<char>,
)
    requires
        in_game_phase(phase),
    ensures
        !(at_login_spec(queued, mapped, auto_apply, drifted, phase) is Apply),
{
}

/// `items` joined by `sep`.
pub open spec fn joined_list(items: Seq<Seq<char>>, sep: Seq<char>) -> Seq<char>
    decreases items.len(),
{
    if items.len() == 0 {
        Seq::empty()
    } else if items.len() == 1 {
        items[0]
    } else {
        joined_list(items.drop_last(), sep) + sep + items.last()
    }
}

pub fn join_strings(items: &Vec<String>, sep: &str) -> (r: String)
    ensures
        r@ == joined_list(items@.map_values(|s: String| s@), sep@),
{
    let mut out = String::new();
    let mut i: usize = 0;
    while i < items.len()
        invariant
            i <= items@.len(),
            out@ == joined_list(items@.take(i as int).map_values(|s: String| s@), sep@),
        decreases items.len() - i,
    {
        let ghost before = items@.take(i as int).map_values(|s: String| s@);
        let ghost after = items@.take(i + 1).map_values(|s: String| s@);
        assert(after.drop_last() =~= before);
        assert(after.last() == items@[i as int]@);
        if i > 0 {
            out.append(sep);
        }
        out.append(items[i].as_str());
        i += 1;
        proof {
            if i == 1 {
                assert(before =~= Seq::<Seq<char>>::empty());
                assert(out@ =~= after[0]);
            }
        }
    }
    assert(items@.take(i as int) =~= items@);
    out
}

/// The outcome of writing settings to the client.
#[derive(Debug, PartialEq, Eq)]
pub struct Applied {
    pub changed: usize,
    /// Settings the client refused to take, by key name.
    pub stuck: Vec<String>,
}

/// "1 setting", "3 settings".
pub open spec fn settings_phrase(n: nat) -> Seq<char> {
    counted(n, "setting"@)
}

pub open spec fn describe_applied(changed: nat, stuck: Seq<Seq<char>>, verb: Seq<char>) -> Seq<char> {
    if stuck.len() == 0 {
        if changed == 0 {
            "Already up to date"@
        } else {
            verb + " "@ + settings_phrase(changed) + ". They take effect next game."@
        }
    } else {
        verb + " "@ + settings_phrase(changed) + ". League refused "@ + decimal(stuck.len())
            + ": "@ + joined_list(stuck, ", "@)
    }
}

impl Applied {
    /// Nothing changed and nothing was refused.
    pub fn none() -> (r: Applied)
        ensures
            r.changed == 0,
            r.stuck@.len() == 0,
    {
        Applied { changed: 0, stuck: Vec::new() }
    }

    pub fn is_none(&self) -> (r: bool)
        ensures
            r == (self.changed == 0 && self.stuck@.len() == 0),
    {
        self.changed == 0 && self.stuck.len() == 0
    }

    /// A sentence for the notice popup. `verb` is "Applied" or "Restored".
    pub fn describe(&self, verb: &str) -> (r: String)
        ensures
            r@ == describe_applied(self.changed as nat, self.stuck@.map_values(|s: String| s@), verb@),
    {
        if self.stuck.len() == 0 && self.changed == 0 {
            return "Already up to date".to_owned();
        }
        let a = concat(verb, " ");
        let n = count(self.changed, "setting");
        let b = concat(a.as_str(), n.as_str());
        if self.stuck.len() == 0 {
            concat(b.as_str(), ". They take effect next game.")
        } else {
            let c = concat(b.as_str(), ". League refused ");
            let d = decimal_string(self.stuck.len() as u128);
            let e = concat(c.as_str(), d.as_str());
            let f = concat(e.as_str(), ": ");
            let list = join_strings(&self.stuck, ", ");
            concat(f.as_str(), list.as_str())
        }
    }
}

impl Default for Applied {
    fn default() -> (r: Applied)
        ensures
            r.changed == 0,
            r.stuck@.len() == 0,
    {
        Applied::none()
    }
}

/// What asking for a profile led to.
#[derive(Debug, PartialEq, Eq)]
pub enum Outcome {
    Applied(Applied),
    /// Nobody was logged in; the named profile waits for the next login.
    Queued(String),
}

impl Outcome {
    pub fn describe(&self) -> (r: String)
        ensures
            self matches Outcome::Applied(a) ==> r@ == describe_applied(
                a.changed as nat,
                a.stuck@.map_values(|s: String| s@),
                "Applied"@,
            ),
            self matches Outcome::Queued(name) ==> r@ == "'"@ + name@
                + "' will be applied the next time you log into League"@,
    {
        match self {
            Outcome::Applied(applied) => applied.describe("Applied"),
            Outcome::Queued(name) => {
                let a = concat("'", name.as_str());
                concat(a.as_str(), "' will be applied the next time you log into League")
            },
        }
    }
}

/// What the engine currently knows, for the tray and the UI.
#[derive(Debug, Clone, PartialEq, Eq)]
pub enum Status {
    Starting,
    /// No League install was found; the user has to point us at one.
    NoInstall,
    ClientDown,
    /// The client is up but no account is ready yet.
    LoggingIn,
    Connected {
        account: Summoner,
        phase: String,
        /// The queue the account is in or playing, e.g. "Swiftplay", once known.
        queue: Option<String>,
    },
}

impl Default for Status {
    fn default() -> (r: Status)
        ensures
            r == Status::Starting,
    {
        Status::Starting
    }
}

/// What the account is doing in `phase`, for a badge; nothing for idle phases.
pub open spec fn doing(phase: Seq<char>) -> Option<Seq<char>> {
    if phase == "Lobby"@ {
        Some("In lobby"@)
    } else if phase == "Matchmaking"@ {
        Some("In queue"@)
    } else if phase == "ReadyCheck"@ {
        Some("Match found"@)
    } else if phase == "ChampSelect"@ {
        Some("Champ select"@)
    } else if phase == "GameStart"@ || phase == "InProgress"@ {
        Some("In game"@)
    } else if phase == "Reconnect"@ {
        Some("Reconnecting"@)
    } else if phase == "WaitingForStats"@ || phase == "PreEndOfGame"@ || phase == "EndOfGame"@ {
        Some("Game over"@)
    } else {
        None
    }
}

fn doing_of(phase: &str) -> (r: Option<&'static str>)
    ensures
        r matches Some(d) ==> doing(phase@) == Some(d@),
        r is None ==> doing(phase@) is None,
{
    if str_eq(phase, "Lobby") {
        Some("In lobby")
    } else if str_eq(phase, "Matchmaking") {
        Some("In queue")
    } else if str_eq(phase, "ReadyCheck") {
        Some("Match found")
    } else if str_eq(phase, "ChampSelect") {
        Some("Champ select")
    } else if str_eq(phase, "GameStart") || str_eq(phase, "InProgress") {
        Some("In game")
    } else if str_eq(phase, "Reconnect") {
        Some("Reconnecting")
    } else if str_eq(phase, "WaitingForStats") || str_eq(phase, "PreEndOfGame") || str_eq(
        phase,
        "EndOfGame",
    ) {
        Some("Game over")
    } else {
        None
    }
}

/// `gameName#tagLine`.
pub open spec fn riot_id_of(account: Summoner) -> Seq<char> {
    account.game_name@ + "#"@ + account.tag_line@
}

pub fn riot_id_string(account: &Summoner) -> (r: String)
    ensures
        r@ == riot_id_of(*account),
{
    let a = concat(account.game_name.as_str(), "#");
    concat(a.as_str(), account.tag_line.as_str())
}

pub open spec fn activity_of(status: Status) -> Option<Seq<char>> {
    match status {
        Status::Connected { phase, queue, .. } => match doing(phase@) {
            Some(d) => match queue {
                Some(q) => if phase@ != "Lobby"@ {
                    Some(q@ + " \u{b7} "@ + d)
                } else {
                    Some(d)
                },
                None => Some(d),
            },
            None => None,
        },
        _ => None,
    }
}

pub open spec fn label_of(status: Status) -> Seq<char> {
    match status {
        Status::Starting => "Starting\u{2026}"@,
        Status::NoInstall => "League of Legends not found"@,
        Status::ClientDown => "League client is not running"@,
        Status::LoggingIn => "Waiting for login\u{2026}"@,
        Status::Connected { account, .. } => riot_id_of(account),
    }
}

impl Status {
    /// `gameName#tagLine` of the connected account.
    pub fn riot_id(&self) -> (r: Option<String>)
        ensures
            self matches Status::Connected { account, .. } ==> (r matches Some(id) && id@
                == riot_id_of(*account)),
            !(self is Connected) ==> r is None,
    {
        match self {
            Status::Connected { account, .. } => Some(riot_id_string(account)),
            _ => None,
        }
    }

    pub fn account(&self) -> (r: Option<&Summoner>)
        ensures
            self matches Status::Connected { account, .. } ==> (r matches Some(a) && *a == account),
            !(self is Connected) ==> r is None,
    {
        match self {
            Status::Connected { account, .. } => Some(account),
            _ => None,
        }
    }

    /// The gameflow phase, e.g. `Lobby` or `InProgress`.
    pub fn phase(&self) -> (r: Option<&str>)
        ensures
            self matches Status::Connected { phase, .. } ==> (r matches Some(p) && p@ == phase@),
            !(self is Connected) ==> r is None,
    {
        match self {
            Status::Connected { phase, .. } => Some(phase.as_str()),
            _ => None,
        }
    }

    /// What the account is up to, for a badge: "Swiftplay · In game", "Champ select", or
    /// nothing while idle in the client.
    pub fn activity(&self) -> (r: Option<String>)
        ensures
            r matches Some(a) ==> activity_of(*self) == Some(a@),
            r is None ==> activity_of(*self) is None,
    {
        match self {
            Status::Connected { phase, queue, .. } => {
                let d = match doing_of(phase.as_str()) {
                    Some(d) => d,
                    None => return None,
                };
                match queue {
                    Some(q) => if !str_eq(phase.as_str(), "Lobby") {
                        let a = concat(q.as_str(), " \u{b7} ");
                        Some(concat(a.as_str(), d))
                    } else {
                        Some(d.to_owned())
                    },
                    None => Some(d.to_owned()),
                }
            },
            _ => None,
        }
    }

    /// What the tray shows for this status.
    pub fn label(&self) -> (r: String)
        ensures
            r@ == label_of(*self),
    {
        match self {
            Status::Starting => "Starting\u{2026}".to_owned(),
            Status::NoInstall => "League of Legends not found".to_owned(),
            Status::ClientDown => "League client is not running".to_owned(),
            Status::LoggingIn => "Waiting for login\u{2026}".to_owned(),
            Status::Connected { account, .. } => riot_id_string(account),
        }
    }
}

/// What a champion becoming the local player's pick calls for.
#[derive(Debug, PartialEq, Eq)]
pub enum Step {
    /// Put this champion's overlay on.
    Apply,
    /// Another champion's overlay is on and this one has none: back to the base.
    Restore,
    Nothing,
}

pub open spec fn pick_step(active: Option<u32>, champion: u32, has_overlay: bool) -> Step {
    if has_overlay {
        if active == Some(champion) {
            Step::Nothing
        } else {
            Step::Apply
        }
    } else if active is Some {
        Step::Restore
    } else {
        Step::Nothing
    }
}

pub fn on_pick(active: Option<u32>, champion: u32, has_overlay: bool) -> (r: Step)
    ensures
        r == pick_step(active, champion, has_overlay),
{
    match (has_overlay, active) {
        (true, Some(a)) => if a == champion {
            Step::Nothing
        } else {
            Step::Apply
        },
        (true, None) => Step::Apply,
        (false, Some(_)) => Step::Restore,
        (false, None) => Step::Nothing,
    }
}

/// The first player in `team` whose `cellId` is `cell`.
pub open spec fn player_in_cell(team: Seq<Json>, cell: i64) -> Option<Json>
    decreases team.len(),
{
    if team.len() == 0 {
        None
    } else if (match field(team[0], "cellId"@) {
        Some(c) => int_of(c) == Some(cell),
        None => false,
    }) {
        Some(team[0])
    } else {
        player_in_cell(team.drop_first(), cell)
    }
}

/// The champion of the player in `cell`, when it is a non-zero `u32`.
pub open spec fn picked_in(team: Seq<Json>, cell: i64) -> Option<u32> {
    match player_in_cell(team, cell) {
        Some(me) => match field(me, "championId"@) {
            Some(id) => match int_of(id) {
                Some(v) => if 0 < v <= u32::MAX {
                    Some(v as u32)
                } else {
                    None
                },
                None => None,
            },
            None => None,
        },
        None => None,
    }
}

/// The local player's champion in a champ-select session, once they have one: the
/// `championId` of the `myTeam` entry whose `cellId` is `localPlayerCellId`, when it is
/// a non-zero `u32`.
pub open spec fn picked(session: Json) -> Option<u32> {
    match field(session, "localPlayerCellId"@) {
        Some(c) => match int_of(c) {
            Some(cell) => match field(session, "myTeam"@) {
                Some(Json::Array(team)) => picked_in(team@, cell),
                _ => None,
            },
            None => None,
        },
        None => None,
    }
}

/// The local player's champion in a champ-select session. Draft and blind pick set it
/// at lock-in; ARAM sets it from the start and on every swap.
pub fn picked_champion(session: &Json) -> (r: Option<u32>)
    ensures
        r == picked(*session),
{
    let cell = match session.get("localPlayerCellId") {
        Some(c) => match c.as_i64() {
            Some(cell) => cell,
            None => return None,
        },
        None => return None,
    };
    let team = match session.get("myTeam") {
        Some(Json::Array(team)) => team,
        _ => return None,
    };
    let mut i: usize = 0;
    assert(team@.skip(0) =~= team@);
    while i < team.len()
        invariant
            i <= team@.len(),
            player_in_cell(team@, cell) == player_in_cell(team@.skip(i as int), cell),
            picked(*session) == picked_in(team@, cell),
        decreases team.len() - i,
    {
        assert(team@.skip(i as int)[0] == team@[i as int]);
        let matches_cell = match team[i].get("cellId") {
            Some(c) => match c.as_i64() {
                Some(v) => v == cell,
                None => false,
            },
            None => false,
        };
        if matches_cell {
            let id = match team[i].get("championId") {
                Some(id) => id.as_i64(),
                None => return None,
            };
            return match id {
                Some(v) => if 0 < v && v <= 4294967295i64 {
                    Some(v as u32)
                } else {
                    None
                },
                None => None,
            };
        }
        assert(team@.skip(i as int).drop_first() =~= team@.skip(i + 1));
        i += 1;
    }
    None
}

/// Swiftplay's queue. It has no real champ select: the champion is chosen in the lobby.
pub const SWIFTPLAY_QUEUE: i64 = 480;

/// One step of a JSON pointer with the token `0`: member `0` of an object, element 0
/// of an array.
pub open spec fn slot0(j: Json) -> Option<Json> {
    match j {
        Json::Object(_) => field(j, "0"@),
        Json::Array(_) => element(j, 0),
        _ => None,
    }
}

pub open spec fn opt_field(j: Option<Json>, key: Seq<char>) -> Option<Json> {
    match j {
        Some(v) => field(v, key),
        None => None,
    }
}

/// The first champion slot of a Swiftplay lobby: `/localMember/playerSlots/0/championId`
/// when `/gameConfig/queueId` is Swiftplay's, as a non-zero `u32`.
pub open spec fn swiftplay_pick(lobby: Json) -> Option<u32> {
    match opt_field(field(lobby, "gameConfig"@), "queueId"@) {
        Some(q) => if int_of(q) == Some(480i64) {
            match opt_field(
                match opt_field(field(lobby, "localMember"@), "playerSlots"@) {
                    Some(slots) => slot0(slots),
                    None => None,
                },
                "championId"@,
            ) {
                Some(id) => match int_of(id) {
                    Some(v) => if 0 < v <= u32::MAX {
                        Some(v as u32)
                    } else {
                        None
                    },
                    None => None,
                },
                None => None,
            }
        } else {
            None
        },
        None => None,
    }
}

/// The first champion slot of a Swiftplay lobby. Which of the two slots the player gets
/// is only known a second before launch; the first is the likelier one.
pub fn swiftplay_champion(lobby: &Json) -> (r: Option<u32>)
    ensures
        r == swiftplay_pick(*lobby),
{
    let queue = match lobby.get("gameConfig") {
        Some(config) => match config.get("queueId") {
            Some(q) => q.as_i64(),
            None => return None,
        },
        None => return None,
    };
    if queue != Some(SWIFTPLAY_QUEUE) {
        return None;
    }
    let slots = match lobby.get("localMember") {
        Some(member) => match member.get("playerSlots") {
            Some(slots) => slots,
            None => return None,
        },
        None => return None,
    };
    let first = match slots {
        Json::Object(_) => slots.get("0"),
        Json::Array(_) => slots.at(0),
        _ => None,
    };
    let id = match first {
        Some(slot) => match slot.get("championId") {
            Some(id) => id.as_i64(),
            None => return None,
        },
        None => return None,
    };
    match id {
        Some(v) => if 0 < v && v <= 4294967295i64 {
            Some(v as u32)
        } else {
            None
        },
        None => None,
    }
}

/// Phases that follow a game. `TerminatedInError` is how Practice Tool games end.
pub open spec fn game_over_phase(p: Seq<char>) -> bool {
    p == "PreEndOfGame"@ || p == "EndOfGame"@ || p == "TerminatedInError"@ || p == "Lobby"@ || p
        == "None"@
}

/// Phases that lead up to a game.
pub open spec fn before_game_phase(p: Seq<char>) -> bool {
    p == "Matchmaking"@ || p == "ReadyCheck"@ || p == "ChampSelect"@
}

/// Phases the client idles in. Going from one before a game to one of these means the
/// game did not happen.
pub open spec fn idle_phase(p: Seq<char>) -> bool {
    p == "Lobby"@ || p == "None"@
}

fn is_game_over(p: &str) -> (r: bool)
    ensures
        r == game_over_phase(p@),
{
    str_eq(p, "PreEndOfGame") || str_eq(p, "EndOfGame") || str_eq(p, "TerminatedInError")
        || str_eq(p, "Lobby") || str_eq(p, "None")
}

fn is_before_game(p: &str) -> (r: bool)
    ensures
        r == before_game_phase(p@),
{
    str_eq(p, "Matchmaking") || str_eq(p, "ReadyCheck") || str_eq(p, "ChampSelect")
}

fn is_idle(p: &str) -> (r: bool)
    ensures
        r == idle_phase(p@),
{
    str_eq(p, "Lobby") || str_eq(p, "None")
}

/// What the engine does in the background in answer to the client.
#[derive(Debug, PartialEq, Eq)]
pub enum FollowAction {
    /// A game ended: look for settings the user changed in it.
    CheckDriftAfterGame,
    /// Queueing started: Swiftplay's champion is known now.
    OnMatchmaking,
    /// Champ select or the queue ended without a game.
    OnNoGame,
    /// The local player's pick became this champion.
    OnChampion(u32),
    /// Another account is logged in now; it is this one, in this phase.
    Login { account: Summoner, phase: String },
    /// The connection now belongs to this puuid.
    Connect(String),
    /// Fetch what is missing for this profile icon.
    RefreshAssets(u32),
}

/// What a new phase does to "a game has run" and which action it calls for.
pub open spec fn phase_step(played: bool, before: Seq<char>, new: Seq<char>) -> (bool, Option<FollowAction>) {
    if new == "InProgress"@ {
        (true, None)
    } else if played && game_over_phase(new) {
        (false, Some(FollowAction::CheckDriftAfterGame))
    } else if new == "Matchmaking"@ {
        (played, Some(FollowAction::OnMatchmaking))
    } else if before_game_phase(before) && idle_phase(new) {
        (played, Some(FollowAction::OnNoGame))
    } else {
        (played, None)
    }
}

/// The queue's name in a gameflow session, `/gameData/queue/name`, unless it is empty.
pub open spec fn queue_name(session: Json) -> Option<Seq<char>> {
    match opt_field(opt_field(field(session, "gameData"@), "queue"@), "name"@) {
        Some(n) => match str_of(n) {
            Some(name) => if name.len() > 0 {
                Some(name)
            } else {
                None
            },
            None => None,
        },
        None => None,
    }
}

pub open spec fn opt_string(o: Option<String>) -> Option<Seq<char>> {
    match o {
        Some(s) => Some(s@),
        None => None,
    }
}


/// What is followed of one logged-in account while its client is up.
#[derive(Debug, PartialEq, Eq)]
pub struct Follow {
    pub account: Summoner,
    pub phase: String,
    pub queue: Option<String>,
    /// Whether a game has been running since the last check for changed settings.
    pub played: bool,
    /// The local player's pick as last seen, so that only changes are acted on.
    pub pick: Option<u32>,
}

impl Follow {
    /// Following starts once the account is ready, in the phase read then.
    pub fn start(account: Summoner, phase: String) -> (r: Follow)
        ensures
            r.account == account,
            r.phase == phase,
            r.queue is None,
            r.played == (phase@ == "InProgress"@),
            r.pick is None,
    {
        let played = str_eq(phase.as_str(), "InProgress");
        Follow { account, phase, queue: None, played, pick: None }
    }

    /// The status this shows.
    pub fn status(&self) -> (r: Status)
        ensures
            r == (Status::Connected { account: self.account, phase: self.phase, queue: self.queue }),
    {
        Status::Connected {
            account: self.account.copy(),
            phase: self.phase.clone(),
            queue: match &self.queue {
                Some(q) => Some(q.clone()),
                None => None,
            },
        }
    }

    /// Takes one event of the client into account. Returns what to do in the
    /// background, in order, and whether the status may have changed and is to be shown
    /// again.
    pub fn on_event(&mut self, event: &LcuEvent) -> (r: (Vec<FollowAction>, bool))
        ensures
            event.uri@ == "/lol-gameflow/v1/gameflow-phase"@ ==> match str_of(event.data) {
                Some(new) => {
                    let (played, action) = phase_step(old(self).played, old(self).phase@, new);
                    &&& final(self).phase@ == new
                    &&& final(self).played == played
                    &&& r.0@ == match action {
                        Some(a) => seq![a],
                        None => Seq::<FollowAction>::empty(),
                    }
                    &&& final(self).account == old(self).account
                    &&& final(self).queue == old(self).queue
                    &&& final(self).pick == old(self).pick
                },
                None => *final(self) == *old(self) && r.0@.len() == 0,
            } && r.1,
            event.uri@ == "/lol-gameflow/v1/session"@ ==> {
                &&& opt_string(final(self).queue) == queue_name(event.data)
                &&& final(self).account == old(self).account
                &&& final(self).phase == old(self).phase
                &&& final(self).played == old(self).played
                &&& final(self).pick == old(self).pick
                &&& r.0@.len() == 0
                &&& r.1
            },
            event.uri@ == "/lol-champ-select/v1/session"@ ==> {
                let now = if event.event_type@ == "Delete"@ {
                    None
                } else {
                    picked(event.data)
                };
                &&& final(self).pick == now
                &&& r.0@ == (if now is Some && now != old(self).pick {
                    seq![FollowAction::OnChampion(now->0)]
                } else {
                    Seq::<FollowAction>::empty()
                })
                &&& final(self).account == old(self).account
                &&& final(self).phase == old(self).phase
                &&& final(self).queue == old(self).queue
                &&& final(self).played == old(self).played
                &&& !r.1
            },
            event.uri@ == "/lol-summoner/v1/current-summoner"@ ==> match crate::lcu::summoner_fields(event.data) {
                Some((p, g, t, i, l)) => {
                    let new = final(self).account;
                    let other = p != old(self).account.puuid@;
                    let icon = i != old(self).account.profile_icon_id;
                    &&& (new.puuid@, new.game_name@, new.tag_line@, new.profile_icon_id, new.summoner_level) == (p, g, t, i, l)
                    &&& r.0@ == (if other {
                        seq![
                            FollowAction::Connect(new.puuid),
                            FollowAction::Login { account: new, phase: old(self).phase },
                        ]
                    } else {
                        Seq::<FollowAction>::empty()
                    }) + (if other || icon {
                        seq![FollowAction::RefreshAssets(i)]
                    } else {
                        Seq::<FollowAction>::empty()
                    })
                    &&& final(self).phase == old(self).phase
                    &&& final(self).queue == old(self).queue
                    &&& final(self).played == old(self).played
                    &&& final(self).pick == old(self).pick
                },
                None => *final(self) == *old(self) && r.0@.len() == 0,
            } && r.1,
            event.uri@ != "/lol-gameflow/v1/gameflow-phase"@ && event.uri@ != "/lol-gameflow/v1/session"@ && event.uri@
                != "/lol-champ-select/v1/session"@ && event.uri@ != "/lol-summoner/v1/current-summoner"@ ==> *final(self) == *old(
                self,
            ) && r.0@.len() == 0 && !r.1,
    {
        proof {
            reveal_strlit("/lol-gameflow/v1/gameflow-phase");
            reveal_strlit("/lol-gameflow/v1/session");
            reveal_strlit("/lol-champ-select/v1/session");
            reveal_strlit("/lol-summoner/v1/current-summoner");
            assert("/lol-gameflow/v1/gameflow-phase"@.len() == 31);
            assert("/lol-gameflow/v1/session"@.len() == 24);
            assert("/lol-champ-select/v1/session"@.len() == 28);
            assert("/lol-summoner/v1/current-summoner"@.len() == 33);
        }
        let mut actions: Vec<FollowAction> = Vec::new();
        let uri = event.uri.as_str();
        if str_eq(uri, "/lol-gameflow/v1/gameflow-phase") {
            if let Some(new) = event.data.as_str() {
                let mut before = new.to_owned();
                std::mem::swap(&mut before, &mut self.phase);
                if str_eq(new, "InProgress") {
                    self.played = true;
                } else if self.played && is_game_over(new) {
                    self.played = false;
                    actions.push(FollowAction::CheckDriftAfterGame);
                } else if str_eq(new, "Matchmaking") {
                    actions.push(FollowAction::OnMatchmaking);
                } else if is_before_game(before.as_str()) && is_idle(new) {
                    actions.push(FollowAction::OnNoGame);
                }
            }
            (actions, true)
        } else if str_eq(uri, "/lol-gameflow/v1/session") {
            self.queue = queue_of(&event.data);
            (actions, true)
        } else if str_eq(uri, "/lol-champ-select/v1/session") {
            let now = if str_eq(event.event_type.as_str(), "Delete") {
                None
            } else {
                picked_champion(&event.data)
            };
            if let Some(champion) = now {
                if now != self.pick {
                    actions.push(FollowAction::OnChampion(champion));
                }
            }
            self.pick = now;
            (actions, false)
        } else if str_eq(uri, "/lol-summoner/v1/current-summoner") {
            if let Some(new) = Summoner::from_json(&event.data) {
                let other = !str_eq(new.puuid.as_str(), self.account.puuid.as_str());
                let icon = new.profile_icon_id != self.account.profile_icon_id;
                if other {
                    actions.push(FollowAction::Connect(new.puuid.clone()));
                    actions.push(FollowAction::Login { account: new.copy(), phase: self.phase.clone() });
                }
                if other || icon {
                    actions.push(FollowAction::RefreshAssets(new.profile_icon_id));
                }
                self.account = new;
            }
            (actions, true)
        } else {
            (actions, false)
        }
    }
}

fn queue_of(session: &Json) -> (r: Option<String>)
    ensures
        opt_string(r) == queue_name(*session),
{
    let name = match session.get("gameData") {
        Some(g) => match g.get("queue") {
            Some(q) => match q.get("name") {
                Some(n) => n.as_str(),
                None => return None,
            },
            None => return None,
        },
        None => return None,
    };
    match name {
        Some(n) => if n.unicode_len() > 0 {
            Some(n.to_owned())
        } else {
            None
        },
        None => None,
    }
}

/// Why an action could not be carried out.
#[derive(Debug, Clone, PartialEq, Eq)]
pub enum ActionError {
    NotConnected,
    NoSuchProfile(String),
    NoSnapshot,
    OtherAccount,
    NoSuchAccount,
    NoProfile,
    NoChampion,
    NoBaseline,
    OverlayActive,
    NothingChanged,
    InvalidImport(String),
    ReadSettings(String),
    Lcu(LcuError),
    Store(ProfileError),
}

pub open spec fn action_error_text(e: ActionError) -> Seq<char> {
    match e {
        ActionError::NotConnected => "League is not running with an account logged in"@,
        ActionError::NoSuchProfile(id) => "there is no profile "@ + debug_quoted(id@),
        ActionError::NoSnapshot => "there is no snapshot to restore"@,
        ActionError::OtherAccount => "that snapshot belongs to another account"@,
        ActionError::NoSuchAccount => "mimic has not seen that account"@,
        ActionError::NoProfile => "this account is not on a profile"@,
        ActionError::NoChampion => "there is no champion to save this for"@,
        ActionError::NoBaseline => "mimic does not know this account's settings yet; apply or save a profile first"@,
        ActionError::OverlayActive => "a champion's settings are on right now; try again after the game"@,
        ActionError::NothingChanged => "nothing on this account differs from its base, so there is nothing to keep"@,
        ActionError::InvalidImport(why) => "that file cannot be imported: "@ + why@,
        ActionError::ReadSettings(why) => "could not read League's settings file: "@ + why@,
        ActionError::Lcu(e) => crate::lcu::lcu_error_text(e),
        ActionError::Store(e) => crate::profiles::profile_error_text(e),
    }
}

impl ActionError {
    /// The sentence that describes the error; a client's or a file's error speaks for
    /// itself.
    pub fn message(&self) -> (r: String)
        ensures
            r@ == action_error_text(*self),
    {
        match self {
            ActionError::NotConnected => "League is not running with an account logged in".to_owned(),
            ActionError::NoSuchProfile(id) => {
                let q = quote(id.as_str());
                concat("there is no profile ", q.as_str())
            },
            ActionError::NoSnapshot => "there is no snapshot to restore".to_owned(),
            ActionError::OtherAccount => "that snapshot belongs to another account".to_owned(),
            ActionError::NoSuchAccount => "mimic has not seen that account".to_owned(),
            ActionError::NoProfile => "this account is not on a profile".to_owned(),
            ActionError::NoChampion => "there is no champion to save this for".to_owned(),
            ActionError::NoBaseline => "mimic does not know this account's settings yet; apply or save a profile first".to_owned(),
            ActionError::OverlayActive => "a champion's settings are on right now; try again after the game".to_owned(),
            ActionError::NothingChanged => "nothing on this account differs from its base, so there is nothing to keep".to_owned(),
            ActionError::InvalidImport(why) => concat("that file cannot be imported: ", why.as_str()),
            ActionError::ReadSettings(why) => concat("could not read League's settings file: ", why.as_str()),
            ActionError::Lcu(e) => e.message(),
            ActionError::Store(e) => e.message(),
        }
    }
}

/// Settings the user changed, and where they could be saved: the account's profile, or
/// the champion they were made on.
#[derive(Debug, PartialEq, Eq)]
pub struct Drift {
    pub profile: Option<String>,
    pub champion: Option<ChampionRef>,
    pub changes: Vec<Change>,
    /// The changes are Riot's doing: the account's settings were reset, as after a patch.
    pub reset: bool,
}

#[derive(Debug, Clone, PartialEq, Eq)]
pub struct ChampionRef {
    pub id: u32,
    pub name: String,
}

/// Something the engine wants the user to see without having been asked.
#[derive(Debug, Clone, PartialEq, Eq)]
pub enum Announcement {
    Notice(String),
    /// Settings changed; the drift has the details.
    Drift,
}

/// Where the changes the user made go.
#[derive(Debug, Clone, Copy, PartialEq, Eq)]
pub enum DriftChoice {
    /// Make the changes part of the account's profile, so other accounts get them.
    SaveToProfile,
    /// Keep the changes for the champion they were made on, as its overlay, and take
    /// them off the account again.
    SaveToChampion,
    /// Put the account back the way it was.
    Revert,
    /// Accept the changes on this account and leave the profile as it is.
    KeepHere,
}

/// Snapshots kept before the oldest are deleted.
pub const KEEP_SNAPSHOTS: usize = 20;

/// `m` with each change's new value written in, in order. A removed key is not a change
/// anyone made, so a change without a new value leaves its key alone.
pub open spec fn with_changes(m: SettingsView, changes: Seq<Change>) -> SettingsView
    decreases changes.len(),
{
    if changes.len() == 0 {
        m
    } else {
        let before = with_changes(m, changes.drop_last());
        let c = changes.last();
        match c.to {
            Some(v) => before.insert(c.key_view(), v@),
            None => before,
        }
    }
}

/// Writes each change's new value into `settings`.
pub fn apply_changes(settings: &mut SettingsMap, changes: &Vec<Change>)
    ensures
        final(settings)@ == with_changes(old(settings)@, changes@),
{
    let mut i: usize = 0;
    while i < changes.len()
        invariant
            i <= changes@.len(),
            settings@ == with_changes(old(settings)@, changes@.take(i as int)),
        decreases changes.len() - i,
    {
        let c = &changes[i];
        assert(changes@.take(i + 1).drop_last() =~= changes@.take(i as int));
        if let Some(value) = &c.to {
            settings.set(c.file.as_str(), c.section.as_str(), c.key.as_str(), value.as_str());
        }
        i += 1;
    }
    assert(changes@.take(i as int) =~= changes@);
}

/// `m` without the settings `muted` names.
pub open spec fn unmuted(m: SettingsView, muted: Seq<String>) -> SettingsView {
    Map::new(|k: SettingKey| m.contains_key(k) && !is_muted(muted, k), |k: SettingKey| m[k])
}

/// What the user changed that they want to be asked about: the changes of
/// [`user_changes`] to settings that are not muted.
pub fn asked_about(expected: &SettingsMap, current: &SettingsMap, muted: &[String]) -> (r: Vec<Change>)
    ensures
        is_diff(r@, unmuted(steady(expected@), muted@), unmuted(steady(current@), muted@)),
{
    let all = user_changes(expected, current);
    let ghost e = steady(expected@);
    let ghost c = steady(current@);
    let mut out: Vec<Change> = Vec::new();
    let ghost mut idx: Seq<int> = Seq::empty();
    let mut i: usize = 0;
    while i < all.len()
        invariant
            is_diff(all@, e, c),
            e == steady(expected@),
            c == steady(current@),
            i <= all@.len(),
            idx.len() == out@.len(),
            forall|a: int, b: int| 0 <= a < b < idx.len() ==> #[trigger] idx[a] < #[trigger] idx[b],
            forall|a: int|
                0 <= a < idx.len() ==> 0 <= #[trigger] idx[a] < i && same_change(out@[a], all@[idx[a]])
                    && !is_muted(muted@, all@[idx[a]].key_view()),
            forall|q: int|
                0 <= q < i && !is_muted(muted@, #[trigger] all@[q].key_view())
                    ==> exists|a: int| 0 <= a < idx.len() && idx[a] == q,
        decreases all.len() - i,
    {
        let ch = &all[i];
        let id = mute_id(ch);
        if !list_has(muted, id.as_str()) {
            let ghost before = idx;
            out.push(ch.copy());
            proof {
                idx = idx.push(i as int);
                assert forall|q: int|
                    0 <= q < i + 1 && !is_muted(muted@, #[trigger] all@[q].key_view())
                        implies exists|a: int| 0 <= a < idx.len() && idx[a] == q by {
                    if q < i {
                        let a = choose|a: int| 0 <= a < before.len() && before[a] == q;
                        assert(idx[a] == q);
                    } else {
                        assert(idx[before.len() as int] == q);
                    }
                }
            }
        }
        i += 1;
    }
    proof {
        let s = out@;
        let b = unmuted(e, muted@);
        let d = unmuted(c, muted@);
        assert forall|x: int, y: int| 0 <= x < y < s.len() implies key_lt(
            #[trigger] s[x].key_view(),
            #[trigger] s[y].key_view(),
        ) by {
            assert(idx[x] < idx[y]);
        }
        assert forall|x: int| 0 <= x < s.len() implies {
            let k = #[trigger] s[x].key_view();
            &&& opt_view(s[x].from) == b.get(k)
            &&& opt_view(s[x].to) == d.get(k)
            &&& b.get(k) != d.get(k)
        } by {
            let q = idx[x];
            let k = all@[q].key_view();
            assert(opt_view(all@[q].from) == e.get(k));
        }
        assert forall|k: SettingKey| b.get(k) != d.get(k) implies exists|x: int|
            0 <= x < s.len() && #[trigger] s[x].key_view() == k by {
            assert(!is_muted(muted@, k));
            assert(e.get(k) != c.get(k));
            let q = choose|q: int| 0 <= q < all@.len() && #[trigger] all@[q].key_view() == k;
            let a = choose|a: int| 0 <= a < idx.len() && idx[a] == q;
            assert(s[a].key_view() == k);
        }
    }
    out
}

/// The key names of the settings in `listing` that are not layout, in order.
pub open spec fn stuck_keys(listing: Seq<(SettingKey, Seq<char>)>) -> Seq<Seq<char>>
    decreases listing.len(),
{
    if listing.len() == 0 {
        Seq::empty()
    } else {
        let before = stuck_keys(listing.drop_last());
        let k = listing.last().0;
        if volatile(k.0, k.1, k.2) {
            before
        } else {
            before.push(k.2)
        }
    }
}

/// The outcome of a write that asked for `asked` changes, when `remaining` is what the
/// client still did not take. Saturating: resolving a key conflict can make the client
/// unbind a key that was not asked for, so more can be stuck than was asked for.
pub fn applied_after(asked: usize, remaining: &SettingsMap) -> (r: Applied)
    ensures
        r.stuck@.map_values(|s: String| s@) == stuck_keys(remaining.listing()),
        r.changed == if asked > r.stuck@.len() { asked - r.stuck@.len() } else { 0 },
{
    let all = remaining.iter();
    let ghost listing = remaining.listing();
    let mut stuck: Vec<String> = Vec::new();
    let mut i: usize = 0;
    while i < all.len()
        invariant
            all@.map_values(|q: (String, String, String, String)| quad_pair(q)) == listing,
            i <= all@.len(),
            stuck@.map_values(|s: String| s@) == stuck_keys(listing.take(i as int)),
        decreases all.len() - i,
    {
        let q = &all[i];
        assert(listing.take(i + 1).drop_last() =~= listing.take(i as int));
        assert(listing[i as int] == quad_pair(all@[i as int]));
        let ghost before = stuck@;
        if !crate::settings::is_volatile(q.0.as_str(), q.1.as_str(), q.2.as_str()) {
            stuck.push(q.2.clone());
            assert(stuck@.map_values(|s: String| s@) =~= before.map_values(|s: String| s@).push(q.2@));
        }
        i += 1;
    }
    assert(listing.take(i as int) =~= listing);
    let n = stuck.len();
    let changed = if asked > n { asked - n } else { 0 };
    Applied { changed, stuck }
}

/// What should be on the account if the user changed nothing: its baseline, with the
/// active champion's overlay on top.
pub fn expected_settings(baseline: &SettingsMap, overlay: Option<&SettingsMap>) -> (r: SettingsMap)
    ensures
        r@ == match overlay {
            Some(o) => merged(baseline@, o@),
            None => baseline@,
        },
{
    match overlay {
        Some(o) => merge(baseline, o),
        None => baseline.copy(),
    }
}

pub open spec fn login_notice_text(profile: Seq<char>, riot_id: Seq<char>, changed: nat, refused: nat) -> Seq<char> {
    "Applied '"@ + profile + "' to "@ + riot_id + ": "@ + decimal(changed) + " settings changed"@
        + if refused == 0 {
        Seq::<char>::empty()
    } else {
        ", League refused "@ + decimal(refused)
    }
}

/// What to say after applying a profile at login; nothing when the account was already
/// up to date.
pub fn login_notice(profile: &str, riot_id: &str, applied: &Applied) -> (r: Option<String>)
    ensures
        applied.changed == 0 && applied.stuck@.len() == 0 ==> r is None,
        !(applied.changed == 0 && applied.stuck@.len() == 0) ==> (r matches Some(t) && t@
            == login_notice_text(profile@, riot_id@, applied.changed as nat, applied.stuck@.len())),
{
    if applied.is_none() {
        return None;
    }
    let a = concat("Applied '", profile);
    let b = concat(a.as_str(), "' to ");
    let c = concat(b.as_str(), riot_id);
    let d = concat(c.as_str(), ": ");
    let n = decimal_string(applied.changed as u128);
    let e = concat(d.as_str(), n.as_str());
    let f = concat(e.as_str(), " settings changed");
    if applied.stuck.len() == 0 {
        assert(f@ =~= login_notice_text(profile@, riot_id@, applied.changed as nat, 0));
        Some(f)
    } else {
        let g = concat(f.as_str(), ", League refused ");
        let m = decimal_string(applied.stuck.len() as u128);
        Some(concat(g.as_str(), m.as_str()))
    }
}

/// A profile that `current` already matches: it has settings, and applying it would
/// change nothing but window layout.
pub open spec fn fits(current: SettingsView, p: Profile) -> bool {
    p.settings@ != Map::<SettingKey, Seq<char>>::empty() && forall|k: SettingKey|
        #[trigger] overlay_of(current, p.settings@).contains_key(k) ==> volatile(k.0, k.1, k.2)
}

/// How a matching profile ranks: the one used last first, then the most recently
/// updated.
pub open spec fn rank(p: Profile, last_used: Option<Seq<char>>) -> (bool, i128) {
    (last_used == Some(p.id@), p.updated)
}

pub open spec fn rank_le(a: (bool, i128), b: (bool, i128)) -> bool {
    (!a.0 && b.0) || (a.0 == b.0 && a.1 <= b.1)
}

/// Profile `j` is the one `current` matches best: it fits, no fitting profile ranks
/// higher, and none after it ranks as high.
pub open spec fn best_match(current: SettingsView, profiles: Seq<Profile>, last_used: Option<Seq<char>>, j: int) -> bool {
    let best = rank(profiles[j], last_used);
    &&& 0 <= j < profiles.len()
    &&& fits(current, profiles[j])
    &&& forall|i: int| 0 <= i < profiles.len() && fits(current, #[trigger] profiles[i])
        ==> rank_le(rank(profiles[i], last_used), best)
    &&& forall|i: int| j < i < profiles.len() && fits(current, #[trigger] profiles[i])
        ==> !rank_le(best, rank(profiles[i], last_used))
}

/// The profile `current` already matches, if any. Duplicates happen, so with several
/// matches the one used last wins, then the most recently updated, then the later one
/// in the list.
pub fn matching_profile(current: &SettingsMap, profiles: &[Profile], last_used: Option<&str>) -> (r: Option<String>)
    ensures
        r is None <==> forall|i: int| 0 <= i < profiles@.len() ==> !fits(current@, #[trigger] profiles@[i]),
        r matches Some(id) ==> exists|j: int| #[trigger] best_match(current@, profiles@, opt_str_view_local(last_used), j)
            && id@ == profiles@[j].id@,
{
    let ghost lu = opt_str_view_local(last_used);
    let mut best: Option<usize> = None;
    let mut i: usize = 0;
    while i < profiles.len()
        invariant
            i <= profiles@.len(),
            lu == opt_str_view_local(last_used),
            best is None <==> forall|q: int| 0 <= q < i ==> !fits(current@, #[trigger] profiles@[q]),
            best matches Some(j) ==> j < i && fits(current@, profiles@[j as int])
                && (forall|q: int| 0 <= q < i && fits(current@, #[trigger] profiles@[q])
                    ==> rank_le(rank(profiles@[q], lu), rank(profiles@[j as int], lu)))
                && (forall|q: int| j < q < i && fits(current@, #[trigger] profiles@[q])
                    ==> !rank_le(rank(profiles@[j as int], lu), rank(profiles@[q], lu))),
        decreases profiles.len() - i,
    {
        let p = &profiles[i];
        let fit = if p.settings.is_empty() {
            false
        } else {
            let over = overlay_between(current, &p.settings);
            over.is_only_volatile()
        };
        if fit {
            let last = match last_used {
                Some(l) => str_eq(l, p.id.as_str()),
                None => false,
            };
            let replace = match best {
                None => true,
                Some(j) => {
                    let b = &profiles[j];
                    let b_last = match last_used {
                        Some(l) => str_eq(l, b.id.as_str()),
                        None => false,
                    };
                    (!b_last && last) || (b_last == last && b.updated <= p.updated)
                },
            };
            if replace {
                best = Some(i);
            }
        }
        i += 1;
    }
    match best {
        Some(j) => {
            assert(best_match(current@, profiles@, lu, j as int));
            Some(profiles[j].id.clone())
        },
        None => None,
    }
}

pub open spec fn opt_str_view_local(o: Option<&str>) -> Option<Seq<char>> {
    match o {
        Some(s) => Some(s@),
        None => None,
    }
}

/// Writing `target` onto `current` would change nothing but layout.
pub open spec fn layout_only(current: SettingsView, target: SettingsView) -> bool {
    forall|k: SettingKey| #[trigger] overlay_of(current, target).contains_key(k) ==> volatile(k.0, k.1, k.2)
}

/// Whether applying a profile would change nothing on `current` but layout, so that
/// `current` can be taken as the account's baseline.
pub fn on_profile(current: &SettingsMap, profile: &SettingsMap) -> (r: bool)
    ensures
        r == layout_only(current@, profile@),
{
    let over = overlay_between(current, profile);
    over.is_only_volatile()
}

/// What settling the changes tells the user.
pub open spec fn settle_said(choice: DriftChoice, n: nat, profile: Seq<char>, champion: Seq<char>) -> Seq<char> {
    match choice {
        DriftChoice::SaveToProfile => "Saved "@ + counted(n, "change"@) + " to '"@ + profile + "'"@,
        DriftChoice::SaveToChampion => "Saved "@ + counted(n, "change"@) + " for "@ + champion + " only"@,
        DriftChoice::KeepHere => "Kept "@ + counted(n, "change"@) + " on this account only"@,
        DriftChoice::Revert => "Reverted "@ + counted(n, "change"@),
    }
}

pub fn settle_message(choice: DriftChoice, n: usize, profile: &str, champion: &str) -> (r: String)
    ensures
        r@ == settle_said(choice, n as nat, profile@, champion@),
{
    let c = count(n, "change");
    match choice {
        DriftChoice::SaveToProfile => {
            let a = concat("Saved ", c.as_str());
            let b = concat(a.as_str(), " to '");
            let d = concat(b.as_str(), profile);
            concat(d.as_str(), "'")
        },
        DriftChoice::SaveToChampion => {
            let a = concat("Saved ", c.as_str());
            let b = concat(a.as_str(), " for ");
            let d = concat(b.as_str(), champion);
            concat(d.as_str(), " only")
        },
        DriftChoice::KeepHere => {
            let a = concat("Kept ", c.as_str());
            concat(a.as_str(), " on this account only")
        },
        DriftChoice::Revert => concat("Reverted ", c.as_str()),
    }
}

/// Whether settling this way takes the changes off the account again.
pub fn discards(choice: DriftChoice) -> (r: bool)
    ensures
        r == (choice == DriftChoice::SaveToChampion || choice == DriftChoice::Revert),
{
    match choice {
        DriftChoice::SaveToChampion | DriftChoice::Revert => true,
        _ => false,
    }
}

/// The champion changes are saved for: the one named, else the one whose overlay is
/// on, else the one just played.
pub fn champion_to_keep(named: Option<u32>, overlay: Option<u32>, last: Option<u32>) -> (r: Option<u32>)
    ensures
        r == if named is Some {
            named
        } else if overlay is Some {
            overlay
        } else {
            last
        },
{
    match named {
        Some(c) => Some(c),
        None => match overlay {
            Some(c) => Some(c),
            None => last,
        },
    }
}

/// How a champion is called when its name is not known: `champion <id>`.
pub fn champion_label(name: Option<String>, id: u32) -> (r: String)
    ensures
        name matches Some(n) ==> r@ == n@,
        name is None ==> r@ == "champion "@ + decimal(id as nat),
{
    match name {
        Some(n) => n,
        None => {
            let d = decimal_string(id as u128);
            concat("champion ", d.as_str())
        },
    }
}

/// The name of a copy of the profile `copied`: `<copied> copy`, then
/// `<copied> copy 2`, ..., the first that is free, with that name cut to 35
/// characters.
pub fn copy_name(copied: &str, taken: &[String]) -> (r: String)
    requires
        taken@.len() < usize::MAX,
    ensures
        first_free(first_chars(copied@, 35) + " copy"@, taken@, r@),
{
    let base = take_chars(copied, 35);
    let stem = concat(base.as_str(), " copy");
    free_name(stem.as_str(), taken)
}

/// How the UI refers to a snapshot: when it was taken, in unix nanoseconds.
pub fn snapshot_id(snapshot: &Snapshot) -> (r: String)
    ensures
        r@ == signed_decimal(snapshot.taken as int),
{
    signed_decimal_string(snapshot.taken)
}

pub open spec fn belongs_to(snapshot: Snapshot, puuid: Seq<char>) -> bool {
    snapshot.puuid matches Some(p) && p@ == puuid
}

/// The newest snapshot of the account `puuid`, in a list that is newest first.
pub fn last_snapshot_of(snapshots: &[Snapshot], puuid: &str) -> (r: Option<usize>)
    ensures
        r matches Some(i) ==> i < snapshots@.len() && belongs_to(snapshots@[i as int], puuid@)
            && forall|q: int| 0 <= q < i ==> !belongs_to(#[trigger] snapshots@[q], puuid@),
        r is None ==> forall|q: int| 0 <= q < snapshots@.len() ==> !belongs_to(#[trigger] snapshots@[q], puuid@),
{
    let mut i: usize = 0;
    while i < snapshots.len()
        invariant
            i <= snapshots@.len(),
            forall|q: int| 0 <= q < i ==> !belongs_to(#[trigger] snapshots@[q], puuid@),
        decreases snapshots.len() - i,
    {
        let mine = match &snapshots[i].puuid {
            Some(p) => str_eq(p.as_str(), puuid),
            None => false,
        };
        if mine {
            return Some(i);
        }
        i += 1;
    }
    None
}

/// The snapshot the UI names `id`, which has to belong to the account `puuid`.
pub fn snapshot_to_restore(snapshots: &[Snapshot], id: &str, puuid: &str) -> (r: Result<usize, ActionError>)
    ensures
        r matches Ok(i) ==> i < snapshots@.len() && signed_decimal(snapshots@[i as int].taken as int) == id@
            && belongs_to(snapshots@[i as int], puuid@)
            && forall|q: int| 0 <= q < i ==> signed_decimal(#[trigger] snapshots@[q].taken as int) != id@,
        r matches Err(e) ==> (e == ActionError::NoSnapshot && forall|q: int| 0 <= q < snapshots@.len()
            ==> signed_decimal(#[trigger] snapshots@[q].taken as int) != id@) || (e == ActionError::OtherAccount
            && exists|i: int| 0 <= i < snapshots@.len() && signed_decimal(snapshots@[i].taken as int) == id@
            && !belongs_to(snapshots@[i], puuid@)
            && forall|q: int| 0 <= q < i ==> signed_decimal(#[trigger] snapshots@[q].taken as int) != id@),
{
    let mut i: usize = 0;
    while i < snapshots.len()
        invariant
            i <= snapshots@.len(),
            forall|q: int| 0 <= q < i ==> signed_decimal(#[trigger] snapshots@[q].taken as int) != id@,
        decreases snapshots.len() - i,
    {
        let name = snapshot_id(&snapshots[i]);
        if str_eq(name.as_str(), id) {
            let mine = match &snapshots[i].puuid {
                Some(p) => str_eq(p.as_str(), puuid),
                None => false,
            };
            if mine {
                return Ok(i);
            } else {
                return Err(ActionError::OtherAccount);
            }
        }
        i += 1;
    }
    Err(ActionError::NoSnapshot)
}

/// The settings files a profile may carry.
pub open spec fn known_file(f: Seq<char>) -> bool {
    f == "Game.cfg"@ || f == "Input.ini"@
}

pub open spec fn import_refused(e: ActionError, why: Seq<char>) -> bool {
    e matches ActionError::InvalidImport(m) && m@ == why
}

/// The name an imported profile is kept under: its own, trimmed, or "Imported" when that
/// is empty, cut to 40 characters and made free among `taken`.
pub open spec fn import_name_ok(name: Seq<char>, taken: Seq<String>, r: Seq<char>) -> bool {
    let trimmed = trim(name);
    let wanted = if trimmed.len() == 0 { "Imported"@ } else { trimmed };
    first_free(first_chars(wanted, 40), taken, r)
}

/// Whether `g` is a settings file the imported file names: one it holds settings for,
/// or one of `files`, the files it lists whether or not they hold any.
pub open spec fn named_file(settings: SettingsView, files: Seq<String>, g: Seq<char>) -> bool {
    has_file(settings, g) || exists|i: int| 0 <= i < files.len() && #[trigger] files[i]@ == g
}

/// The first in text order of the unknown settings files among `cands` and `best`,
/// an unknown file found before.
fn least_unknown(cands: &[String], best: Option<String>) -> (r: Option<String>)
    requires
        best matches Some(b) ==> !known_file(b@),
    ensures
        r matches Some(x) ==> !known_file(x@) && ((best matches Some(b) && x@ == b@) || exists|i: int|
            0 <= i < cands@.len() && #[trigger] cands@[i]@ == x@),
        r matches Some(x) ==> (best matches Some(b) ==> text_le(x@, b@)),
        r matches Some(x) ==> forall|i: int| 0 <= i < cands@.len() && !known_file(#[trigger] cands@[i]@) ==> text_le(x@, cands@[i]@),
        r is None <==> (best is None && forall|i: int| 0 <= i < cands@.len() ==> known_file(#[trigger] cands@[i]@)),
{
    let mut cur = best;
    let mut i: usize = 0;
    while i < cands.len()
        invariant
            i <= cands@.len(),
            cur matches Some(x) ==> !known_file(x@) && ((best matches Some(b) && x@ == b@) || exists|q: int|
                0 <= q < i && #[trigger] cands@[q]@ == x@),
            cur matches Some(x) ==> (best matches Some(b) ==> text_le(x@, b@)),
            cur matches Some(x) ==> forall|q: int| 0 <= q < i && !known_file(#[trigger] cands@[q]@) ==> text_le(x@, cands@[q]@),
            cur is None ==> (best is None && forall|q: int| 0 <= q < i ==> known_file(#[trigger] cands@[q]@)),
        decreases cands.len() - i,
    {
        let c = cands[i].as_str();
        if !str_eq(c, "Game.cfg") && !str_eq(c, "Input.ini") {
            let replace = match &cur {
                None => true,
                Some(x) => match compare_str(c, x.as_str()) {
                    Order::Less => true,
                    _ => false,
                },
            };
            if replace {
                proof {
                    if cur is Some {
                        let x = cur->0;
                        assert(chars_lt(c@, x@));
                        if best is Some {
                            let b = best->0;
                            if chars_lt(x@, b@) {
                                lemma_chars_lt_transitive(c@, x@, b@);
                            }
                        }
                        assert forall|q: int| 0 <= q < i && !known_file(#[trigger] cands@[q]@) implies text_le(c@, cands@[q]@) by {
                            if chars_lt(x@, cands@[q]@) {
                                lemma_chars_lt_transitive(c@, x@, cands@[q]@);
                            }
                        }
                    }
                }
                cur = Some(cands[i].clone());
            } else {
                proof {
                    let x = cur->0;
                    lemma_chars_lt_total(c@, x@);
                }
            }
        }
        i += 1;
    }
    cur
}

/// Reads an exported profile and makes it safe to keep: only known settings files, a
/// fresh id (the one in the file would end up in a file name), and a free name. `file`
/// is `None` when the bytes did not read as a profile at all; `files` are the settings
/// files it lists, including any that hold no setting.
pub fn imported(file: Option<Profile>, files: &[String], taken: &[String]) -> (r: Result<Profile, ActionError>)
    requires
        taken@.len() < usize::MAX,
    ensures
        file is None ==> (r matches Err(e) && import_refused(e, "it is not a mimic profile"@)),
        file matches Some(f) ==> {
            &&& f.schema > SCHEMA_VERSION ==> (r matches Err(e) && import_refused(e, "it was made by a newer mimic"@))
            &&& f.schema <= SCHEMA_VERSION && f.settings@ == Map::<SettingKey, Seq<char>>::empty()
                ==> (r matches Err(e) && import_refused(e, "it holds no settings"@))
            &&& f.schema <= SCHEMA_VERSION && f.settings@ != Map::<SettingKey, Seq<char>>::empty()
                && (exists|g: Seq<char>| named_file(f.settings@, files@, g) && !known_file(g)) ==> (r matches Err(e)
                && exists|g: Seq<char>| #[trigger] named_file(f.settings@, files@, g) && !known_file(g)
                && import_refused(e, "it has settings for "@ + debug_quoted(g) + ", which mimic does not know"@)
                && forall|h: Seq<char>| #[trigger] named_file(f.settings@, files@, h) && !known_file(h) ==> text_le(g, h))
            &&& f.schema <= SCHEMA_VERSION && f.settings@ != Map::<SettingKey, Seq<char>>::empty()
                && !(exists|g: Seq<char>| named_file(f.settings@, files@, g) && !known_file(g)) ==> (r matches Ok(p) && {
                &&& p.schema == SCHEMA_VERSION
                &&& p.id@ == crate::profiles::hex_id(p.updated)
                &&& p.created == f.created
                &&& p.settings@ == f.settings@
                &&& p.client == f.client
                &&& import_name_ok(f.name@, taken@, p.name@)
            })
        },
{
    let f = match file {
        Some(f) => f,
        None => return Err(ActionError::InvalidImport("it is not a mimic profile".to_owned())),
    };
    if f.schema > SCHEMA_VERSION {
        return Err(ActionError::InvalidImport("it was made by a newer mimic".to_owned()));
    }
    if f.settings.is_empty() {
        return Err(ActionError::InvalidImport("it holds no settings".to_owned()));
    }
    let names = f.settings.file_names();
    let in_settings = least_unknown(names.as_slice(), None);
    let least = least_unknown(files, in_settings);
    proof {
        assert forall|h: Seq<char>| has_file(f.settings@, h) implies exists|b: int|
            0 <= b < names@.len() && #[trigger] names@[b]@ == h by {
            let k = choose|k: SettingKey| #[trigger] f.settings@.contains_key(k) && k.0 == h;
        }
    }
    if let Some(g) = least {
        let q = quote(g.as_str());
        let a = concat("it has settings for ", q.as_str());
        let msg = concat(a.as_str(), ", which mimic does not know");
        proof {
            assert(named_file(f.settings@, files@, g@)) by {
                if exists|i: int| 0 <= i < files@.len() && #[trigger] files@[i]@ == g@ {
                } else {
                    let x = in_settings->0;
                    assert(x@ == g@);
                    let b = choose|b: int| 0 <= b < names@.len() && #[trigger] names@[b]@ == x@;
                }
            }
            assert forall|h: Seq<char>| #[trigger] named_file(f.settings@, files@, h) && !known_file(h) implies text_le(g@, h) by {
                if exists|i: int| 0 <= i < files@.len() && #[trigger] files@[i]@ == h {
                    let i = choose|i: int| 0 <= i < files@.len() && #[trigger] files@[i]@ == h;
                    assert(!known_file(files@[i]@));
                } else {
                    let b = choose|b: int| 0 <= b < names@.len() && #[trigger] names@[b]@ == h;
                    assert(!known_file(names@[b]@));
                    let x = in_settings->0;
                    assert(text_le(x@, h));
                    if chars_lt(g@, x@) && chars_lt(x@, h) {
                        lemma_chars_lt_transitive(g@, x@, h);
                    }
                }
            }
        }
        return Err(ActionError::InvalidImport(msg));
    }
    proof {
        assert forall|g: Seq<char>| named_file(f.settings@, files@, g) implies known_file(g) by {
            if exists|i: int| 0 <= i < files@.len() && #[trigger] files@[i]@ == g {
                let i = choose|i: int| 0 <= i < files@.len() && #[trigger] files@[i]@ == g;
                assert(known_file(files@[i]@));
            } else {
                let b = choose|b: int| 0 <= b < names@.len() && #[trigger] names@[b]@ == g;
                assert(known_file(names@[b]@));
            }
        }
    }
    let trimmed = trim_str(f.name.as_str());
    let wanted = if trimmed.unicode_len() == 0 {
        "Imported".to_owned()
    } else {
        trimmed
    };
    let cut = take_chars(wanted.as_str(), 40);
    let name = free_name(cut.as_str(), taken);
    let mut profile = Profile::new(name.as_str(), f.settings);
    profile.created = f.created;
    profile.client = f.client;
    Ok(profile)
}

/// Changes to muted settings are kept without asking: once they are taken into the
/// baseline they no longer differ from what is on the account, while every other
/// setting of the baseline stays as it was.
pub proof fn law_muted_changes_are_kept(baseline: SettingsView, current: SettingsView, muted: Seq<String>)
    ensures
        ({
            let kept = merged(baseline, muted_keep(baseline, current, muted));
            &&& forall|k: SettingKey|
                is_muted(muted, k) && #[trigger] steady(current).contains_key(k) ==> steady(kept).get(k)
                    == steady(current).get(k)
            &&& forall|k: SettingKey| !is_muted(muted, k) ==> #[trigger] kept.get(k) == baseline.get(k)
        }),
{
    let keep = muted_keep(baseline, current, muted);
    let kept = merged(baseline, keep);
    assert forall|k: SettingKey| is_muted(muted, k) && #[trigger] steady(current).contains_key(k)
        implies steady(kept).get(k) == steady(current).get(k) by {
        if keep.contains_key(k) {
            assert(kept[k] == current[k]);
        } else {
            assert(steady(baseline).get(k) == steady(current).get(k));
        }
    }
}

/// With no champion's settings on, what the user changed after the changes to muted
/// settings were kept is exactly the rest: `after`, the changes from the kept baseline,
/// lists the changes of `before`, the ones from the old baseline, whose key was not
/// kept, each with the same values, and none whose key was kept.
pub proof fn law_kept_changes_leave_the_rest(
    before: Seq<Change>,
    after: Seq<Change>,
    baseline: SettingsView,
    current: SettingsView,
    muted: Seq<String>,
)
    requires
        is_diff(before, steady(baseline), steady(current)),
        is_diff(after, steady(merged(baseline, muted_keep(baseline, current, muted))), steady(current)),
    ensures
        forall|i: int| 0 <= i < after.len() ==> !muted_keep(baseline, current, muted).contains_key(
            #[trigger] after[i].key_view(),
        ) && exists|j: int| 0 <= j < before.len() && same_change(after[i], #[trigger] before[j]),
        forall|j: int|
            0 <= j < before.len() && !muted_keep(baseline, current, muted).contains_key(#[trigger] before[j].key_view())
                ==> exists|i: int| 0 <= i < after.len() && same_change(#[trigger] after[i], before[j]),
        forall|j: int|
            0 <= j < before.len() && muted_keep(baseline, current, muted).contains_key(#[trigger] before[j].key_view())
                ==> forall|i: int| 0 <= i < after.len() ==> #[trigger] after[i].key_view() != before[j].key_view(),
{
    let keep = muted_keep(baseline, current, muted);
    let kept = merged(baseline, keep);
    assert forall|k: SettingKey| keep.contains_key(k) implies #[trigger] steady(kept).get(k) == steady(current).get(k) by {
        assert(kept[k] == current[k]);
    }
    assert forall|k: SettingKey| !keep.contains_key(k) implies #[trigger] steady(kept).get(k) == steady(baseline).get(k) by {
        assert(kept.get(k) == baseline.get(k));
    }
    assert forall|i: int| 0 <= i < after.len() implies !keep.contains_key(#[trigger] after[i].key_view())
        && exists|j: int| 0 <= j < before.len() && same_change(after[i], #[trigger] before[j]) by {
        let k = after[i].key_view();
        assert(steady(kept).get(k) != steady(current).get(k));
        if keep.contains_key(k) {
            assert(steady(kept).get(k) == steady(current).get(k));
        }
        assert(steady(baseline).get(k) != steady(current).get(k));
        let j = choose|j: int| 0 <= j < before.len() && #[trigger] before[j].key_view() == k;
        assert(same_change(after[i], before[j]));
    }
    assert forall|j: int|
        0 <= j < before.len() && !keep.contains_key(#[trigger] before[j].key_view())
            implies exists|i: int| 0 <= i < after.len() && same_change(#[trigger] after[i], before[j]) by {
        let k = before[j].key_view();
        assert(steady(kept).get(k) == steady(baseline).get(k));
        assert(steady(kept).get(k) != steady(current).get(k));
        let i = choose|i: int| 0 <= i < after.len() && #[trigger] after[i].key_view() == k;
        assert(same_change(after[i], before[j]));
    }
    assert forall|j: int|
        0 <= j < before.len() && keep.contains_key(#[trigger] before[j].key_view())
            implies forall|i: int| 0 <= i < after.len() ==> #[trigger] after[i].key_view() != before[j].key_view() by {
        let k = before[j].key_view();
        assert(steady(kept).get(k) == steady(current).get(k));
        assert forall|i: int| 0 <= i < after.len() implies #[trigger] after[i].key_view() != k by {
            if after[i].key_view() == k {
                assert(steady(kept).get(k) != steady(current).get(k));
            }
        }
    }
}

/// Each change of `changes` about a key strictly after the one before.
pub open spec fn key_sorted(changes: Seq<Change>) -> bool {
    forall|i: int, j: int|
        0 <= i < j < changes.len() ==> key_lt(#[trigger] changes[i].key_view(), #[trigger] changes[j].key_view())
}

/// The changes of `changes`, in order, whose key `keys` holds (`inside`) or does not
/// hold (not `inside`).
#[verifier::opaque]
pub open spec fn changes_where(changes: Seq<Change>, keys: SettingsView, inside: bool) -> Seq<Change>
    decreases changes.len(),
{
    if changes.len() == 0 {
        Seq::empty()
    } else {
        let rest = changes_where(changes.drop_last(), keys, inside);
        if keys.contains_key(changes.last().key_view()) == inside {
            rest.push(changes.last())
        } else {
            rest
        }
    }
}

/// `c` is one of `t`.
pub open spec fn one_of(c: Change, t: Seq<Change>) -> bool {
    exists|j: int| 0 <= j < t.len() && t[j] == c
}

/// `c` says the same as one of `t`.
pub open spec fn matched_in(c: Change, t: Seq<Change>) -> bool {
    exists|j: int| 0 <= j < t.len() && same_change(c, t[j])
}

proof fn lemma_sorted_init(changes: Seq<Change>)
    requires
        key_sorted(changes),
        changes.len() > 0,
    ensures
        key_sorted(changes.drop_last()),
        forall|i: int| 0 <= i < changes.len() - 1 ==> key_lt(#[trigger] changes[i].key_view(), changes.last().key_view()),
{
    let init = changes.drop_last();
    assert forall|i: int, j: int| 0 <= i < j < init.len() implies key_lt(
        #[trigger] init[i].key_view(),
        #[trigger] init[j].key_view(),
    ) by {
        assert(init[i] == changes[i] && init[j] == changes[j]);
    }
}

#[verifier::rlimit(30)]
proof fn lemma_changes_where(changes: Seq<Change>, keys: SettingsView, inside: bool)
    requires
        key_sorted(changes),
    ensures
        key_sorted(changes_where(changes, keys, inside)),
        forall|i: int| 0 <= i < changes_where(changes, keys, inside).len() ==> #[trigger] one_of(
            changes_where(changes, keys, inside)[i],
            changes,
        ),
        forall|i: int| 0 <= i < changes_where(changes, keys, inside).len() ==> keys.contains_key(
            #[trigger] changes_where(changes, keys, inside)[i].key_view(),
        ) == inside,
        forall|j: int| 0 <= j < changes.len() && keys.contains_key(changes[j].key_view()) == inside
            ==> #[trigger] one_of(changes[j], changes_where(changes, keys, inside)),
    decreases changes.len(),
{
    reveal_with_fuel(changes_where, 1);
    if changes.len() > 0 {
        let init = changes.drop_last();
        let last = changes.last();
        let n = changes.len() - 1;
        lemma_sorted_init(changes);
        lemma_changes_where(init, keys, inside);
        let rest = changes_where(init, keys, inside);
        let r = changes_where(changes, keys, inside);
        let takes = keys.contains_key(last.key_view()) == inside;
        assert(r == if takes { rest.push(last) } else { rest });
        assert forall|i: int| 0 <= i < rest.len() implies key_lt(#[trigger] rest[i].key_view(), last.key_view()) by {
            assert(one_of(rest[i], init));
            let j = choose|j: int| 0 <= j < init.len() && init[j] == rest[i];
            assert(init[j] == changes[j]);
        }
        assert forall|i: int, j: int| 0 <= i < j < r.len() implies key_lt(
            #[trigger] r[i].key_view(),
            #[trigger] r[j].key_view(),
        ) by {
            assert(r[i] == rest[i]);
            if !(takes && j == rest.len()) {
                assert(r[j] == rest[j]);
            }
        }
        assert forall|i: int| 0 <= i < r.len() implies #[trigger] one_of(r[i], changes) by {
            if takes && i == rest.len() {
                assert(changes[n] == r[i]);
            } else {
                assert(r[i] == rest[i]);
                assert(one_of(rest[i], init));
                let j = choose|j: int| 0 <= j < init.len() && init[j] == rest[i];
                assert(changes[j] == init[j]);
            }
        }
        assert forall|i: int| 0 <= i < r.len() implies keys.contains_key(#[trigger] r[i].key_view()) == inside by {
            if takes && i == rest.len() {
                assert(r[i] == last);
            } else {
                assert(r[i] == rest[i]);
                assert(keys.contains_key(rest[i].key_view()) == inside);
            }
        }
        assert forall|j: int| 0 <= j < changes.len() && keys.contains_key(changes[j].key_view()) == inside
            implies #[trigger] one_of(changes[j], r) by {
            if j == n {
                assert(r[rest.len() as int] == changes[j]);
            } else {
                assert(init[j] == changes[j]);
                assert(one_of(init[j], rest));
                let i = choose|i: int| 0 <= i < rest.len() && rest[i] == init[j];
                assert(r[i] == rest[i]);
            }
        }
    } else {
        assert(changes_where(changes, keys, inside) =~= Seq::<Change>::empty());
    }
}

/// Two lists of changes, each in order of where they live, that hold the same changes
/// are the same list.
#[verifier::rlimit(30)]
proof fn lemma_same_sorted(s: Seq<Change>, t: Seq<Change>)
    requires
        key_sorted(s),
        key_sorted(t),
        forall|i: int| 0 <= i < s.len() ==> #[trigger] matched_in(s[i], t),
        forall|j: int| 0 <= j < t.len() ==> #[trigger] matched_in(t[j], s),
    ensures
        s.len() == t.len(),
        forall|i: int| 0 <= i < s.len() ==> same_change(#[trigger] s[i], t[i]),
    decreases s.len(),
{
    if s.len() == 0 {
        if t.len() > 0 {
            assert(matched_in(t[0], s));
        }
    } else if t.len() == 0 {
        assert(matched_in(s[0], t));
    } else {
        let ls = s.len() - 1;
        let lt = t.len() - 1;
        lemma_sorted_init(s);
        lemma_sorted_init(t);
        assert(matched_in(s[ls], t));
        let ja = choose|j: int| 0 <= j < t.len() && same_change(s[ls], t[j]);
        assert(matched_in(t[lt], s));
        let ib = choose|i: int| 0 <= i < s.len() && same_change(t[lt], s[i]);
        if ja != lt {
            assert(key_lt(t[ja].key_view(), t[lt].key_view()));
            if ib != ls {
                assert(key_lt(s[ib].key_view(), s[ls].key_view()));
                lemma_key_lt_transitive(s[ls].key_view(), t[lt].key_view(), s[ls].key_view());
            }
            lemma_key_lt_irreflexive(s[ls].key_view());
        }
        assert(same_change(s[ls], t[lt]));
        let s0 = s.drop_last();
        let t0 = t.drop_last();
        assert forall|i: int| 0 <= i < s0.len() implies #[trigger] matched_in(s0[i], t0) by {
            assert(s0[i] == s[i]);
            assert(matched_in(s[i], t));
            let j = choose|j: int| 0 <= j < t.len() && same_change(s[i], t[j]);
            if j == lt {
                lemma_key_lt_irreflexive(s[ls].key_view());
            }
            assert(t0[j] == t[j]);
        }
        assert forall|j: int| 0 <= j < t0.len() implies #[trigger] matched_in(t0[j], s0) by {
            assert(t0[j] == t[j]);
            assert(matched_in(t[j], s));
            let i = choose|i: int| 0 <= i < s.len() && same_change(t[j], s[i]);
            if i == ls {
                lemma_key_lt_irreflexive(t[lt].key_view());
            }
            assert(s0[i] == s[i]);
        }
        lemma_same_sorted(s0, t0);
        assert forall|i: int| 0 <= i < s.len() implies same_change(#[trigger] s[i], t[i]) by {
            if i < ls {
                assert(s0[i] == s[i] && t0[i] == t[i]);
            }
        }
    }
}

/// With no champion's settings on, keeping the changes to muted settings keeps as many
/// settings as `before`, the changes from the old baseline, has changes to muted
/// settings still on the account (those to a muted setting with a value on the
/// account); and what the user changed afterwards, `after`, is the list of the other
/// changes of `before`, change for change.
#[verifier::rlimit(30)]
pub proof fn law_kept_changes_count(
    before: Seq<Change>,
    after: Seq<Change>,
    baseline: SettingsView,
    current: SettingsView,
    muted: Seq<String>,
)
    requires
        is_diff(before, steady(baseline), steady(current)),
        is_diff(after, steady(merged(baseline, muted_keep(baseline, current, muted))), steady(current)),
    ensures
        changes_where(before, muted_keep(baseline, current, muted), true).len() == muted_keep(
            baseline,
            current,
            muted,
        ).len(),
        after.len() == changes_where(before, muted_keep(baseline, current, muted), false).len(),
        forall|i: int| 0 <= i < after.len() ==> same_change(
            #[trigger] after[i],
            changes_where(before, muted_keep(baseline, current, muted), false)[i],
        ),
        forall|j: int| 0 <= j < before.len() ==> (muted_keep(baseline, current, muted).contains_key(
            #[trigger] before[j].key_view(),
        ) <==> (is_muted(muted, before[j].key_view()) && before[j].to is Some)),
{
    let keep = muted_keep(baseline, current, muted);
    assert forall|j: int| 0 <= j < before.len() implies (keep.contains_key(#[trigger] before[j].key_view()) <==> (
    is_muted(muted, before[j].key_view()) && before[j].to is Some)) by {
        let k = before[j].key_view();
        assert(opt_view(before[j].to) == steady(current).get(k));
        assert(steady(baseline).get(k) != steady(current).get(k));
    }
    law_kept_changes_leave_the_rest(before, after, baseline, current, muted);
    lemma_changes_where(before, keep, false);
    lemma_changes_where(before, keep, true);
    let outside = changes_where(before, keep, false);
    assert forall|i: int| 0 <= i < after.len() implies #[trigger] matched_in(after[i], outside) by {
        let j = choose|j: int| 0 <= j < before.len() && same_change(after[i], #[trigger] before[j]);
        assert(!keep.contains_key(before[j].key_view()));
        assert(keep.contains_key(before[j].key_view()) == false);
        assert(one_of(before[j], outside));
        let q = choose|q: int| 0 <= q < outside.len() && outside[q] == before[j];
        assert(same_change(after[i], outside[q]));
    }
    assert forall|q: int| 0 <= q < outside.len() implies #[trigger] matched_in(outside[q], after) by {
        assert(one_of(outside[q], before));
        let j = choose|j: int| 0 <= j < before.len() && before[j] == outside[q];
        assert(!keep.contains_key(before[j].key_view()));
        let i = choose|i: int| 0 <= i < after.len() && same_change(#[trigger] after[i], before[j]);
        assert(same_change(outside[q], after[i]));
    }
    lemma_same_sorted(after, outside);
    lemma_kept_keys_counted(before, keep, baseline, current, muted);
}

proof fn lemma_kept_keys_counted(
    before: Seq<Change>,
    keep: SettingsView,
    baseline: SettingsView,
    current: SettingsView,
    muted: Seq<String>,
)
    requires
        is_diff(before, steady(baseline), steady(current)),
        keep == muted_keep(baseline, current, muted),
    ensures
        changes_where(before, keep, true).len() == keep.len(),
{
    lemma_changes_where(before, keep, true);
    let inside = changes_where(before, keep, true);
    let ks = inside.map_values(|c: Change| c.key_view());
    assert forall|a: int, b: int| 0 <= a < ks.len() && 0 <= b < ks.len() && a != b implies ks[a] != ks[b] by {
        if a < b {
            assert(key_lt(inside[a].key_view(), inside[b].key_view()));
        } else {
            assert(key_lt(inside[b].key_view(), inside[a].key_view()));
        }
        lemma_key_lt_irreflexive(ks[a]);
    }
    assert(ks.no_duplicates());
    assert forall|k: SettingKey| #[trigger] ks.to_set().contains(k) == keep.dom().contains(k) by {
        if ks.to_set().contains(k) {
            let i = choose|i: int| 0 <= i < ks.len() && ks[i] == k;
            assert(ks[i] == inside[i].key_view());
            assert(keep.contains_key(inside[i].key_view()) == true);
        }
        if keep.dom().contains(k) {
            assert(steady(baseline).get(k) != steady(current).get(k));
            let j = choose|j: int| 0 <= j < before.len() && #[trigger] before[j].key_view() == k;
            assert(one_of(before[j], inside));
            let i = choose|i: int| 0 <= i < inside.len() && inside[i] == before[j];
            assert(ks[i] == k);
            assert(ks.contains(k));
        }
    }
    assert(ks.to_set() =~= keep.dom());
    ks.unique_seq_to_set();
}

/// What a profile would change on an account that already has exactly its settings is
/// nothing.
pub proof fn law_preview_of_same(changes: Seq<Change>, current: SettingsView)
    requires
        is_diff(changes, steady(current), steady(merged(current, current))),
    ensures
        changes.len() == 0,
{
    assert(merged(current, current) =~= current);
    if changes.len() > 0 {
        let k = changes[0].key_view();
    }
}

/// Applying a profile leaves nothing for it to change: a second preview of the same
/// profile is empty.
pub proof fn law_apply_is_idempotent(changes: Seq<Change>, current: SettingsView, target: SettingsView)
    requires
        is_diff(changes, steady(merged(current, target)), steady(merged(merged(current, target), target))),
    ensures
        changes.len() == 0,
{
    assert(merged(merged(current, target), target) =~= merged(current, target));
    if changes.len() > 0 {
        let k = changes[0].key_view();
    }
}

/// The layout the game moves by itself never counts as a change the user made.
pub proof fn law_layout_is_not_a_change(changes: Seq<Change>, baseline: SettingsView, current: SettingsView, i: int)
    requires
        is_diff(changes, steady(baseline), steady(current)),
        0 <= i < changes.len(),
    ensures
        !volatile(changes[i].key_view().0, changes[i].key_view().1, changes[i].key_view().2),
{
    let k = changes[i].key_view();
    assert(steady(baseline).get(k) != steady(current).get(k));
}

/// Settings are only checked for changes after a game has run, and a game that ends is
/// checked exactly once: the check clears "a game has run".
pub proof fn law_one_check_per_game(played: bool, before: Seq<char>, new: Seq<char>)
    ensures
        !played ==> phase_step(played, before, new).1 != Some(FollowAction::CheckDriftAfterGame),
        played && new != "InProgress"@ && game_over_phase(new) ==> phase_step(played, before, new)
            == (false, Some(FollowAction::CheckDriftAfterGame)),
        new == "InProgress"@ ==> phase_step(played, before, new).0,
{
}

/// Only a game's start and its end touch whether a game has run: any other phase the
/// client moves to leaves it as it was, so the phases a game ends through before the
/// game-over screen (`WaitingForStats`, say) do not lose the check after it.
pub proof fn law_played_outlasts_other_phases(played: bool, before: Seq<char>, new: Seq<char>)
    ensures
        new != "InProgress"@ && !game_over_phase(new) ==> phase_step(played, before, new).0 == played,
        new != "InProgress"@ && !game_over_phase(new) ==> phase_step(played, before, new).1
            != Some(FollowAction::CheckDriftAfterGame),
{
}

/// A game that runs and ends through `WaitingForStats` and `PreEndOfGame` is checked
/// once: at `PreEndOfGame`, and not before.
pub proof fn law_a_game_ends_in_one_check(played: bool, before: Seq<char>)
    ensures
        ({
            let (p1, a1) = phase_step(played, before, "InProgress"@);
            let (p2, a2) = phase_step(p1, "InProgress"@, "WaitingForStats"@);
            let (p3, a3) = phase_step(p2, "WaitingForStats"@, "PreEndOfGame"@);
            &&& a1 is None
            &&& a2 is None
            &&& a3 == Some(FollowAction::CheckDriftAfterGame)
            &&& !p3
        }),
{
    reveal_strlit("InProgress");
    reveal_strlit("WaitingForStats");
    reveal_strlit("PreEndOfGame");
    reveal_strlit("EndOfGame");
    reveal_strlit("TerminatedInError");
    reveal_strlit("Lobby");
    reveal_strlit("None");
    reveal_strlit("Matchmaking");
    reveal_strlit("ReadyCheck");
    reveal_strlit("ChampSelect");
    assert("WaitingForStats"@.len() == 15);
    assert("InProgress"@.len() == 10);
    assert("PreEndOfGame"@.len() == 12);
    assert("EndOfGame"@.len() == 9);
    assert("TerminatedInError"@.len() == 17);
    assert("Lobby"@.len() == 5);
    assert("None"@.len() == 4);
    assert("WaitingForStats"@ != "InProgress"@);
    assert(!game_over_phase("WaitingForStats"@));
    assert("Matchmaking"@.len() == 11 && "ChampSelect"@.len() == 11);
    assert("ReadyCheck"@[0] == 'R' && "InProgress"@[0] == 'I');
    assert(!before_game_phase("InProgress"@));
    assert("PreEndOfGame"@ != "InProgress"@);
}

/// The `cellId` of a player entry, as an integer.
pub open spec fn cell_of(player: Json) -> Option<i64> {
    match field(player, "cellId"@) {
        Some(c) => int_of(c),
        None => None,
    }
}

proof fn lemma_player_in_cell(team: Seq<Json>, cell: i64)
    ensures
        player_in_cell(team, cell) matches Some(p) ==> exists|i: int|
            0 <= i < team.len() && team[i] == p && cell_of(team[i]) == Some(cell) && forall|j: int|
                0 <= j < i ==> cell_of(#[trigger] team[j]) != Some(cell),
    decreases team.len(),
{
    if team.len() > 0 && cell_of(team[0]) != Some(cell) {
        let rest = team.drop_first();
        lemma_player_in_cell(rest, cell);
        if player_in_cell(team, cell) is Some {
            let p = player_in_cell(team, cell)->0;
            let i = choose|i: int|
                0 <= i < rest.len() && rest[i] == p && cell_of(rest[i]) == Some(cell) && forall|j: int|
                    0 <= j < i ==> cell_of(#[trigger] rest[j]) != Some(cell);
            assert(team[i + 1] == rest[i]);
            assert forall|j: int| 0 <= j < i + 1 implies cell_of(#[trigger] team[j]) != Some(cell) by {
                if j > 0 {
                    assert(team[j] == rest[j - 1]);
                }
            }
        }
    }
}

/// The pick read from a champ-select session is the local player's: the champion of
/// the first `myTeam` entry whose `cellId` is `localPlayerCellId`.
pub proof fn law_pick_is_the_local_players(session: Json, c: u32)
    requires
        picked(session) == Some(c),
    ensures
        match (field(session, "localPlayerCellId"@), field(session, "myTeam"@)) {
            (Some(l), Some(Json::Array(team))) => int_of(l) is Some && exists|i: int|
                #![trigger team@[i]]
                0 <= i < team@.len() && cell_of(team@[i]) == int_of(l) && (field(team@[i], "championId"@) matches Some(
                    id,
                ) && int_of(id) == Some(c as i64)) && forall|j: int|
                    0 <= j < i ==> cell_of(#[trigger] team@[j]) != int_of(l),
            _ => false,
        },
{
    let l = field(session, "localPlayerCellId"@)->0;
    let cell = int_of(l)->0;
    let team = match field(session, "myTeam"@) {
        Some(Json::Array(t)) => t,
        _ => arbitrary(),
    };
    lemma_player_in_cell(team@, cell);
    let p = player_in_cell(team@, cell)->0;
    let i = choose|i: int|
        0 <= i < team@.len() && team@[i] == p && cell_of(team@[i]) == Some(cell) && forall|j: int|
            0 <= j < i ==> cell_of(#[trigger] team@[j]) != Some(cell);
    assert(int_of(field(p, "championId"@)->0) == Some(c as i64));
}

/// An account that opted into auto-apply gets its own profile at login outside a game,
/// whatever phase the client is idle in, when nothing is queued and nothing changed
/// behind mimic's back.
pub proof fn law_auto_apply_outside_a_game<'a>(mapped: Option<&'a str>, drifted: bool, phase: Seq<char>)
    ensures
        mapped is Some && !drifted && !(phase == "ChampSelect"@ || phase == "GameStart"@ || phase == "InProgress"@
            || phase == "Reconnect"@) ==> at_login_spec(None, mapped, true, drifted, phase) == AtLogin::Apply(mapped->0),
{
}

/// A pick that is already in effect changes nothing; a pick of a champion with its own
/// settings always puts them on otherwise.
pub proof fn law_pick_is_settled_once(active: Option<u32>, champion: u32, has_overlay: bool)
    ensures
        pick_step(Some(champion), champion, true) == Step::Nothing,
        has_overlay && active != Some(champion) ==> pick_step(active, champion, has_overlay) == Step::Apply,
        !has_overlay && active is None ==> pick_step(active, champion, has_overlay) == Step::Nothing,
{
}

/// The account's record when it logs in: the one stored, or a new one, with its name,
/// icon and level as seen now.
pub fn login_record(stored: Option<Account>, riot_id: &str, icon: u32, level: u32) -> (r: Account)
    ensures
        r.display_name@ == riot_id@,
        r.icon == Some(icon),
        r.level == Some(level),
        stored matches Some(a) ==> r.profile_id == a.profile_id && r.auto_apply == a.auto_apply
            && r.baseline == a.baseline && r.overlay == a.overlay,
        stored is None ==> r.profile_id is None && !r.auto_apply && r.baseline is None && r.overlay is None,
{
    let mut account = match stored {
        Some(a) => a,
        None => Account::new(riot_id.to_owned()),
    };
    account.display_name = riot_id.to_owned();
    account.icon = Some(icon);
    account.level = Some(level);
    account
}

/// Whether a champion's settings left on from last time come off at login: one is on
/// and no game is under way. Otherwise they would look like changes the user made.
pub fn leftover_overlay(account: &Account, phase: &str) -> (r: bool)
    ensures
        r == (account.overlay is Some && !in_game_phase(phase@)),
{
    account.overlay.is_some() && !in_game(phase)
}

/// The first profile of `profiles` with the id `id`.
pub open spec fn profile_with_id(profiles: Seq<Profile>, id: Seq<char>) -> Option<Profile>
    decreases profiles.len(),
{
    if profiles.len() == 0 {
        None
    } else if profiles[0].id@ == id {
        Some(profiles[0])
    } else {
        profile_with_id(profiles.drop_first(), id)
    }
}

pub(crate) fn find_profile<'a>(profiles: &'a [Profile], id: &str) -> (r: Option<&'a Profile>)
    ensures
        r matches Some(p) ==> profile_with_id(profiles@, id@) == Some(*p),
        r is None ==> profile_with_id(profiles@, id@) is None,
{
    let mut i: usize = 0;
    assert(profiles@.skip(0) =~= profiles@);
    while i < profiles.len()
        invariant
            i <= profiles@.len(),
            profile_with_id(profiles@, id@) == profile_with_id(profiles@.skip(i as int), id@),
        decreases profiles.len() - i,
    {
        assert(profiles@.skip(i as int)[0] == profiles@[i as int]);
        if str_eq(profiles[i].id.as_str(), id) {
            return Some(&profiles[i]);
        }
        assert(profiles@.skip(i as int).drop_first() =~= profiles@.skip(i + 1));
        i += 1;
    }
    None
}

/// What should be on an account with `baseline` if the user changed nothing, with the
/// overlay `overlay` on top, if one is on.
pub open spec fn expected_of(baseline: SettingsView, overlay: Option<SettingsView>) -> SettingsView {
    match overlay {
        Some(o) => merged(baseline, o),
        None => baseline,
    }
}

/// Whether `current` differs from `expected` in a setting the user wants to be asked
/// about.
pub open spec fn drifted_from(expected: SettingsView, current: SettingsView, muted: Seq<String>) -> bool {
    exists|k: SettingKey| #[trigger] unmuted(steady(expected), muted).get(k) != unmuted(steady(current), muted).get(k)
}

/// The baseline assumed for an account that has none: what is on it, but only when it is
/// exactly on its profile; otherwise there is no telling what the user changed.
pub open spec fn assumed_baseline(profile: Option<Profile>, current: SettingsView) -> bool {
    profile matches Some(p) && layout_only(current, p.settings@)
}

/// What logging in does to the account's record once `current` is what is on it: the
/// profile it is already on is recognised, a baseline is assumed when it is exactly on
/// its profile, and changes to muted settings are kept. Returns whether anything the
/// user wants to be asked about differs from what is expected. `overlay` is the
/// settings of the champion whose overlay is on, if one is.
pub fn settle_login(
    account: &mut Account,
    current: &SettingsMap,
    profiles: &[Profile],
    last_used: Option<&str>,
    overlay: Option<&SettingsMap>,
    muted: &[String],
) -> (drifted: bool)
    ensures
        old(account).profile_id is Some ==> final(account).profile_id == old(account).profile_id,
        old(account).profile_id is None ==> ((final(account).profile_id is None <==> forall|i: int|
            0 <= i < profiles@.len() ==> !fits(current@, #[trigger] profiles@[i]))
            && (final(account).profile_id matches Some(id) ==> exists|j: int|
                #[trigger] best_match(current@, profiles@, opt_str_view_local(last_used), j) && id@ == profiles@[j].id@)),
        ({
            let assumed = old(account).baseline is None && (final(account).profile_id matches Some(id)
                && assumed_baseline(profile_with_id(profiles@, id@), current@));
            let b1: Option<SettingsView> = match old(account).baseline {
                Some(b) => Some(b@),
                None => if assumed { Some(current@) } else { None },
            };
            match b1 {
                Some(b) => {
                    let expected = expected_of(b, opt_map(overlay));
                    let kept = merged(b, muted_keep(expected, current@, muted@));
                    &&& final(account).baseline matches Some(nb) && nb@ == kept
                    &&& drifted == drifted_from(expected_of(kept, opt_map(overlay)), current@, muted@)
                },
                None => final(account).baseline is None && !drifted,
            }
        }),
        final(account).display_name == old(account).display_name,
        final(account).auto_apply == old(account).auto_apply,
        final(account).overlay == old(account).overlay,
        final(account).icon == old(account).icon,
        final(account).level == old(account).level,
{
    if account.profile_id.is_none() {
        account.profile_id = matching_profile(current, profiles, last_used);
    }
    if account.baseline.is_none() {
        let on = match &account.profile_id {
            Some(id) => match find_profile(profiles, id.as_str()) {
                Some(p) => on_profile(current, &p.settings),
                None => false,
            },
            None => false,
        };
        if on {
            account.baseline = Some(current.copy());
        }
    }
    let mut base = match &account.baseline {
        Some(b) => b.copy(),
        None => return false,
    };
    let expected = expected_settings(&base, overlay);
    keep_muted(&mut base, &expected, current, muted);
    let now_expected = expected_settings(&base, overlay);
    let asked = asked_about(&now_expected, current, muted);
    account.baseline = Some(base);
    proof {
        let e = unmuted(steady(now_expected@), muted@);
        let c = unmuted(steady(current@), muted@);
        if asked@.len() > 0 {
            let k = asked@[0].key_view();
            assert(e.get(k) != c.get(k));
        } else {
            assert forall|k: SettingKey| #[trigger] e.get(k) != c.get(k) implies false by {
                let i = choose|i: int| 0 <= i < asked@.len() && #[trigger] asked@[i].key_view() == k;
            }
        }
    }
    asked.len() > 0
}

pub open spec fn opt_map(o: Option<&SettingsMap>) -> Option<SettingsView> {
    match o {
        Some(m) => Some(m@),
        None => None,
    }
}

/// What the base becomes when the user settles their changes: saving them to the
/// profile or keeping them here makes them part of it; keeping them for a champion or
/// reverting leaves it as it was.
pub fn settle_base(choice: DriftChoice, base: &mut SettingsMap, changes: &Vec<Change>)
    ensures
        (choice == DriftChoice::SaveToProfile || choice == DriftChoice::KeepHere) ==> final(base)@
            == with_changes(old(base)@, changes@),
        (choice == DriftChoice::SaveToChampion || choice == DriftChoice::Revert) ==> final(base)@
            == old(base)@,
{
    if !discards(choice) {
        apply_changes(base, changes);
    }
}

/// Sets whether the account `puuid` applies its profile by itself at login. Refused for
/// an account mimic has not seen.
pub fn set_account_auto_apply(accounts: &mut Accounts, puuid: &str, enabled: bool) -> (r: Result<(), ActionError>)
    ensures
        old(accounts)@.contains_key(puuid@) ==> r is Ok && final(accounts)@ == old(accounts)@.insert(
            puuid@,
            Account { auto_apply: enabled, ..old(accounts)@[puuid@] },
        ),
        !old(accounts)@.contains_key(puuid@) ==> r == Err::<(), ActionError>(ActionError::NoSuchAccount)
            && final(accounts)@ == old(accounts)@,
        final(accounts).schema_spec() == old(accounts).schema_spec(),
{
    if accounts.set_auto_apply(puuid, enabled) {
        Ok(())
    } else {
        Err(ActionError::NoSuchAccount)
    }
}

/// Forgets the account `puuid`: its profile link, auto-apply and baseline. Its settings
/// on Riot's side are not touched; if it logs in again it starts fresh. Refused for an
/// account mimic has not seen.
pub fn forget_account(accounts: &mut Accounts, puuid: &str) -> (r: Result<(), ActionError>)
    ensures
        r is Ok <==> old(accounts)@.contains_key(puuid@),
        r is Err ==> r == Err::<(), ActionError>(ActionError::NoSuchAccount),
        final(accounts)@ == old(accounts)@.remove(puuid@),
        final(accounts).schema_spec() == old(accounts).schema_spec(),
{
    match accounts.remove(puuid) {
        Some(_) => Ok(()),
        None => Err(ActionError::NoSuchAccount),
    }
}

/// Whether an overlay overrides anything.
pub open spec fn overrides_any(o: Overlay) -> bool {
    o.settings@ != Map::<SettingKey, Seq<char>>::empty()
}

/// The overlays that override something, in their order.
pub open spec fn in_use_of(overlays: Seq<Overlay>) -> Seq<Overlay>
    decreases overlays.len(),
{
    if overlays.len() == 0 {
        Seq::empty()
    } else {
        let before = in_use_of(overlays.drop_last());
        if overrides_any(overlays.last()) {
            before.push(overlays.last())
        } else {
            before
        }
    }
}

/// Every champion overlay that overrides something: one whose settings have all been
/// taken out is left out.
pub fn overlays_in_use(overlays: Vec<Overlay>) -> (r: Vec<Overlay>)
    ensures
        r@ == in_use_of(overlays@),
{
    let ghost all = overlays@;
    let mut rest = overlays;
    let mut out: Vec<Overlay> = Vec::new();
    let ghost mut done: int = 0;
    assert(all.skip(0) =~= all);
    assert(all.take(0) =~= Seq::<Overlay>::empty());
    while rest.len() > 0
        invariant
            0 <= done <= all.len(),
            rest@ == all.skip(done),
            out@ == in_use_of(all.take(done)),
        decreases rest.len(),
    {
        assert(all.skip(done)[0] == all[done]);
        let o = rest.remove(0);
        assert(all.take(done + 1).drop_last() =~= all.take(done));
        assert(all.take(done + 1).last() == all[done]);
        if !o.settings.is_empty() {
            out.push(o);
        }
        proof {
            done = done + 1;
        }
        assert(rest@ =~= all.skip(done));
    }
    assert(all.take(done) =~= all);
    out
}

/// Whether a profile may be updated from the account: not while a champion's settings
/// are on, as those are not the account's own.
pub fn may_update(account: Option<&Account>) -> (r: Result<(), ActionError>)
    ensures
        r is Err <==> (account matches Some(a) && a.overlay is Some),
        r is Err ==> r == Err::<(), ActionError>(ActionError::OverlayActive),
{
    match account {
        Some(a) => match a.overlay {
            Some(_) => Err(ActionError::OverlayActive),
            None => Ok(()),
        },
        None => Ok(()),
    }
}

/// What updating `profile` from the account does: from `now` on it holds `current`,
/// and what the user changed since it was saved is what the update records.
pub fn update_from_account(profile: Profile, current: &SettingsMap, now: i128) -> (r: (Profile, Vec<Change>))
    ensures
        r.0.settings@ == current@,
        r.0.updated == now,
        r.0.schema == profile.schema && r.0.id == profile.id && r.0.name == profile.name,
        r.0.created == profile.created && r.0.client == profile.client,
        is_diff(r.1@, steady(profile.settings@), steady(current@)),
{
    let changes = user_changes(&profile.settings, current);
    let mut updated = profile;
    updated.settings = current.copy();
    updated.updated = now;
    (updated, changes)
}

/// Why the snapshot an update takes was taken: `updated '<name>'`.
pub fn update_reason(name: &str) -> (r: String)
    ensures
        r@ == "updated '"@ + name@ + "'"@,
{
    let a = concat("updated '", name);
    concat(a.as_str(), "'")
}

/// Whether a login uses up the queued profile: only when the queued profile is the one
/// applied now. A queued profile that has to wait for a later login stays queued.
pub fn uses_queue(decision: &AtLogin, queued: Option<&str>) -> (r: bool)
    ensures
        r == (queued is Some && decision is Apply),
{
    queued.is_some() && matches!(decision, AtLogin::Apply(_))
}

/// The champion overlay a pick can put on: none when the champion has none, or when
/// all its settings have been taken out.
pub fn usable_overlay(overlay: Option<Overlay>) -> (r: Option<Overlay>)
    ensures
        r == match overlay {
            Some(o) => if overrides_any(o) {
                Some(o)
            } else {
                None
            },
            None => None,
        },
{
    match overlay {
        Some(o) => if o.settings.is_empty() {
            None
        } else {
            Some(o)
        },
        None => None,
    }
}

/// Whether a champion's overlay may go on: only when the account holds what mimic
/// expects, leaving out layout. Changes the user made first are asked about after the
/// game rather than buried under the champion's settings.
pub fn may_put_on(expected: &SettingsMap, current: &SettingsMap) -> (r: bool)
    ensures
        r == (steady(expected@) == steady(current@)),
{
    let changes = user_changes(expected, current);
    proof {
        if changes@.len() == 0 {
            assert forall|k: SettingKey| true implies #[trigger] steady(expected@).get(k) == steady(current@).get(k) by {
                if steady(expected@).get(k) != steady(current@).get(k) {
                    let i = choose|i: int| 0 <= i < changes@.len() && #[trigger] changes@[i].key_view() == k;
                }
            }
            assert(steady(expected@) =~= steady(current@)) by {
                assert forall|k: SettingKey| #[trigger] steady(expected@).contains_key(k) == steady(current@).contains_key(k) by {
                    assert(steady(expected@).get(k) == steady(current@).get(k));
                }
                assert forall|k: SettingKey| #[trigger] steady(expected@).contains_key(k) implies steady(expected@)[k] == steady(current@)[k] by {
                    assert(steady(expected@).get(k) == steady(current@).get(k));
                }
            }
        } else {
            let k = changes@[0].key_view();
            assert(steady(expected@).get(k) != steady(current@).get(k));
        }
    }
    changes.len() == 0
}

/// What to do once a game is over and the muted changes are kept: ask about the rest of
/// what changed, or, when nothing did, take a champion's settings off again.
#[derive(Debug, Clone, Copy, PartialEq, Eq)]
pub enum AfterGame {
    AskAboutChanges,
    TakeOverlayOff,
}

pub fn after_game(changed: bool) -> (r: AfterGame)
    ensures
        changed ==> r == AfterGame::AskAboutChanges,
        !changed ==> r == AfterGame::TakeOverlayOff,
{
    if changed {
        AfterGame::AskAboutChanges
    } else {
        AfterGame::TakeOverlayOff
    }
}

/// Where settled changes go.
#[derive(Debug, Clone, PartialEq, Eq)]
pub enum SettleTarget {
    /// Into the account's profile, by id.
    Profile(String),
    /// Into this champion's overlay.
    Champion(u32),
    /// Nowhere but the account itself.
    Account,
}

/// Where the changes settled with `choice` go, with `asked` changes to settle, the
/// account's profile `profile_id`, and the champion `named`, the one whose overlay is on
/// and the one last played. Keeping changes for a champion needs changes and a
/// champion; saving them to the profile needs a profile.
pub fn settle_target(
    choice: DriftChoice,
    asked: usize,
    profile_id: Option<&str>,
    named: Option<u32>,
    overlay: Option<u32>,
    last: Option<u32>,
) -> (r: Result<SettleTarget, ActionError>)
    ensures
        choice == DriftChoice::SaveToProfile ==> match profile_id {
            Some(id) => r matches Ok(SettleTarget::Profile(p)) && p@ == id@,
            None => r == Err::<SettleTarget, ActionError>(ActionError::NoProfile),
        },
        choice == DriftChoice::SaveToChampion && asked == 0 ==> r == Err::<SettleTarget, ActionError>(
            ActionError::NothingChanged,
        ),
        choice == DriftChoice::SaveToChampion && asked > 0 ==> match (if named is Some {
            named
        } else if overlay is Some {
            overlay
        } else {
            last
        }) {
            Some(c) => r == Ok::<SettleTarget, ActionError>(SettleTarget::Champion(c)),
            None => r == Err::<SettleTarget, ActionError>(ActionError::NoChampion),
        },
        (choice == DriftChoice::KeepHere || choice == DriftChoice::Revert) ==> r == Ok::<SettleTarget, ActionError>(
            SettleTarget::Account,
        ),
{
    match choice {
        DriftChoice::SaveToProfile => match profile_id {
            Some(id) => Ok(SettleTarget::Profile(id.to_owned())),
            None => Err(ActionError::NoProfile),
        },
        DriftChoice::SaveToChampion => {
            if asked == 0 {
                return Err(ActionError::NothingChanged);
            }
            match champion_to_keep(named, overlay, last) {
                Some(c) => Ok(SettleTarget::Champion(c)),
                None => Err(ActionError::NoChampion),
            }
        },
        DriftChoice::KeepHere | DriftChoice::Revert => Ok(SettleTarget::Account),
    }
}

/// Whether settling keeps a record of what changed: when the changes stay, on the
/// account or in its profile, and there are any. Changes that are discarded from the
/// account are recorded by the snapshot taken before they are written over.
pub fn records_settle(choice: DriftChoice, asked: usize) -> (r: bool)
    ensures
        r == (!(choice == DriftChoice::SaveToChampion || choice == DriftChoice::Revert) && asked > 0),
{
    !discards(choice) && asked > 0
}

/// How many times a write is tried before what the client still refuses is reported.
pub const WRITE_PASSES: usize = 2;

/// `applied` reports a write that asked for `asked` changes of which the client still
/// did not take `remaining`: the keys it refused, leaving out layout, in order of where
/// they live, and the rest as changed.
pub open spec fn reports(applied: Applied, asked: nat, remaining: SettingsMap) -> bool {
    &&& applied.stuck@.map_values(|s: String| s@) == stuck_keys(remaining.listing())
    &&& applied.changed == if asked > applied.stuck@.len() { asked - applied.stuck@.len() } else { 0 }
}

/// Whether a map holds nothing but layout the game moves by itself.
pub open spec fn only_layout(m: SettingsView) -> bool {
    forall|k: SettingKey| #[trigger] m.contains_key(k) ==> volatile(k.0, k.1, k.2)
}

/// A write of settings onto the account, as it goes: what it is to reach, how many
/// changes that asked for, how many times they have been applied, and what was on the
/// account before when a snapshot records the write.
pub struct Write {
    pub target: SettingsMap,
    pub asked: usize,
    pub passes: usize,
    pub snapshot_of: Option<SettingsMap>,
}

/// What a write asks for next.
pub enum WriteAction {
    /// Save a snapshot of what is on the account now, then apply these settings.
    SnapshotThenApply(SettingsMap),
    /// Apply these settings, wait for the client and read the account back.
    Apply(SettingsMap),
    /// The write is over: its outcome, what the client did not take, and what the
    /// write changed on the account, for the snapshot taken first, if one was.
    Done(Applied, SettingsMap, Option<Vec<Change>>),
}

/// The change log a finished write gives its snapshot: what changed between the
/// settings it was taken of and `after`, when one was taken.
pub open spec fn logs(log: Option<Vec<Change>>, snapshot_of: Option<SettingsMap>, after: SettingsView) -> bool {
    match snapshot_of {
        Some(b) => log matches Some(l) && is_diff(l@, steady(b@), steady(after)),
        None => log is None,
    }
}

/// Starts writing `target` onto an account that holds `before`. Only what differs is
/// written. When nothing but layout differs, nothing is written and nothing is
/// changed. Otherwise, with `snapshot`, what is on the account is saved first, so that
/// the write can be undone.
pub fn write_begin(before: &SettingsMap, target: SettingsMap, snapshot: bool) -> (r: (Write, WriteAction))
    ensures
        r.0.target@ == target@,
        r.0.passes == 0,
        r.0.asked == overlay_of(before@, target@).len(),
        only_layout(overlay_of(before@, target@)) ==> (r.1 matches WriteAction::Done(a, m, log) && a.changed == 0
            && a.stuck@.len() == 0 && m@ == overlay_of(before@, target@) && log is None),
        !only_layout(overlay_of(before@, target@)) ==> {
            &&& snapshot ==> (r.1 matches WriteAction::SnapshotThenApply(c) && c@ == overlay_of(before@, target@))
            &&& !snapshot ==> (r.1 matches WriteAction::Apply(c) && c@ == overlay_of(before@, target@))
            &&& snapshot ==> (r.0.snapshot_of matches Some(b) && b@ == before@)
            &&& !snapshot ==> r.0.snapshot_of is None
        },
{
    let changes = overlay_between(before, &target);
    let asked = changes.len();
    if changes.is_only_volatile() {
        return (Write { target, asked, passes: 0, snapshot_of: None }, WriteAction::Done(Applied::none(), changes, None));
    }
    if snapshot {
        (Write { target, asked, passes: 0, snapshot_of: Some(before.copy()) }, WriteAction::SnapshotThenApply(changes))
    } else {
        (Write { target, asked, passes: 0, snapshot_of: None }, WriteAction::Apply(changes))
    }
}

/// The next step of a write once the account has been read back as `after`: done when
/// only layout is left to take, or when it has been applied `WRITE_PASSES` times;
/// otherwise what is still missing is applied again.
pub fn write_after_read(w: &mut Write, after: &SettingsMap) -> (r: WriteAction)
    requires
        old(w).passes < WRITE_PASSES,
    ensures
        final(w).target == old(w).target,
        final(w).asked == old(w).asked,
        final(w).snapshot_of == old(w).snapshot_of,
        final(w).passes == old(w).passes + 1,
        (only_layout(overlay_of(after@, old(w).target@)) || final(w).passes == WRITE_PASSES) ==> (r matches WriteAction::Done(
            a,
            m,
            log,
        ) && m@ == overlay_of(after@, old(w).target@) && reports(a, old(w).asked as nat, m) && logs(
            log,
            old(w).snapshot_of,
            after@,
        )),
        !(only_layout(overlay_of(after@, old(w).target@)) || final(w).passes == WRITE_PASSES) ==> (r matches WriteAction::Apply(
            c,
        ) && c@ == overlay_of(after@, old(w).target@)),
{
    w.passes = w.passes + 1;
    let remaining = overlay_between(after, &w.target);
    if remaining.is_only_volatile() || w.passes == WRITE_PASSES {
        let applied = applied_after(w.asked, &remaining);
        let log = match &w.snapshot_of {
            Some(b) => Some(user_changes(b, after)),
            None => None,
        };
        WriteAction::Done(applied, remaining, log)
    } else {
        WriteAction::Apply(remaining)
    }
}

/// Takes a champion's settings left on from last time off the account at login, when
/// no game is under way: the account is no longer on the overlay, and its baseline, if
/// it has one, is what to write back onto it. Otherwise the account stays as it is and
/// nothing is written.
pub fn clear_leftover_overlay(account: &mut Account, phase: &str) -> (r: Option<SettingsMap>)
    ensures
        (old(account).overlay is Some && !in_game_phase(phase@)) ==> {
            &&& final(account).overlay is None
            &&& final(account).display_name == old(account).display_name
            &&& final(account).profile_id == old(account).profile_id
            &&& final(account).auto_apply == old(account).auto_apply
            &&& final(account).baseline == old(account).baseline
            &&& final(account).icon == old(account).icon
            &&& final(account).level == old(account).level
            &&& match old(account).baseline {
                Some(b) => r matches Some(w) && w@ == b@,
                None => r is None,
            }
        },
        !(old(account).overlay is Some && !in_game_phase(phase@)) ==> *final(account) == *old(account) && r is None,
{
    if !leftover_overlay(account, phase) {
        return None;
    }
    account.overlay = None;
    match &account.baseline {
        Some(b) => Some(b.copy()),
        None => None,
    }
}

/// The account once its changes are settled: its base is `after`, what the write left
/// on it, and no champion's settings are on.
pub fn settle_account(account: &mut Account, after: SettingsMap)
    ensures
        final(account).baseline == Some(after),
        final(account).overlay is None,
        final(account).display_name == old(account).display_name,
        final(account).profile_id == old(account).profile_id,
        final(account).auto_apply == old(account).auto_apply,
        final(account).icon == old(account).icon,
        final(account).level == old(account).level,
{
    account.baseline = Some(after);
    account.overlay = None;
}

/// The account once mimic knows what is on it: `on_account` is its baseline, and it is
/// on the profile `profile_id` when one was applied or saved from it.
pub fn remember_on(account: &mut Account, profile_id: Option<&str>, on_account: SettingsMap)
    ensures
        final(account).baseline == Some(on_account),
        match profile_id {
            Some(id) => final(account).profile_id matches Some(p) && p@ == id@,
            None => final(account).profile_id == old(account).profile_id,
        },
        final(account).overlay == old(account).overlay,
        final(account).display_name == old(account).display_name,
        final(account).auto_apply == old(account).auto_apply,
        final(account).icon == old(account).icon,
        final(account).level == old(account).level,
{
    if let Some(id) = profile_id {
        account.profile_id = Some(id.to_owned());
    }
    account.baseline = Some(on_account);
}

/// A profile asked for while nobody is logged in waits for the next login: it becomes
/// the queued one, in place of any queued before.
pub fn queue_for_login(state: &mut State, profile: &Profile) -> (r: Outcome)
    ensures
        final(state).pending_apply matches Some(p) && p@ == profile.id@,
        final(state).schema == old(state).schema,
        final(state).active_profile == old(state).active_profile,
        final(state).last_account == old(state).last_account,
        final(state).install_path == old(state).install_path,
        final(state).muted == old(state).muted,
        final(state).hide_notices == old(state).hide_notices,
        r matches Outcome::Queued(name) && name@ == profile.name@,
{
    state.pending_apply = Some(profile.id.clone());
    Outcome::Queued(profile.name.clone())
}

/// What the notice says when a champion's settings go on for a game.
pub fn overlay_notice(champion: &str) -> (r: String)
    ensures
        r@ == champion@ + "'s settings are on for this game"@,
{
    concat(champion, "'s settings are on for this game")
}

} // verus!
