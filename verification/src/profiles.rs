//! What mimic keeps on disk: profiles, per-champion overlays, the account map, the
//! state file and pre-apply snapshots, with the rules for naming their files.
//!
//! Times are kept as nanoseconds since the Unix epoch.

use vstd::prelude::*;

use crate::json::Json;
use crate::settings::{Change, SettingsMap};
use crate::order::{
    items_of, lemma_map_keeps_multiset, lemma_same_elements, number_sorted, sort_by_number,
    sort_by_text, text_sorted,
};
use crate::text::{
    str_eq, concat, debug_quoted, decimal, decimal_string, ends_with, hex, hex_string, join_path, joined,
    lowercase, padded20, padded20_string, quote, str_ends_with, text_le, to_lowercase,
};

verus! {

broadcast use vstd::seq_lib::group_to_multiset_ensures;

/// Bumped when a file's shape changes in a way older builds cannot read.
pub const SCHEMA_VERSION: u32 = 1;

/// The current time in nanoseconds since the Unix epoch, as
/// `time::OffsetDateTime::now_utc().unix_timestamp_nanos()` gives it. Nothing is claimed
/// of the value: it is whatever the clock says.
#[verifier::external_body]
fn now_unix_nanos() -> i128 {
    time::OffsetDateTime::now_utc().unix_timestamp_nanos()
}

/// The instant `nanos` nanoseconds after the Unix epoch, in UTC, written as RFC 3339,
/// or the empty text where that instant cannot be written so.
pub uninterp spec fn rfc3339_text(nanos: i128) -> Seq<char>;

/// `nanos` as RFC 3339 text: `time::OffsetDateTime::from_unix_timestamp_nanos`, then
/// `format(&Rfc3339)`, and the empty string where either refuses (an instant outside
/// the years the time crate covers, or one RFC 3339 cannot write). The text itself is
/// named, not stated: it depends on `nanos` alone.
#[verifier::external_body]
pub(crate) fn format_rfc3339(nanos: i128) -> (r: String)
    ensures
        r@ == rfc3339_text(nanos),
{
    match time::OffsetDateTime::from_unix_timestamp_nanos(nanos) {
        Ok(at) => at.format(&time::format_description::well_known::Rfc3339).unwrap_or_default(),
        Err(_) => String::new(),
    }
}

/// `n` in lower-case hexadecimal as `format!("{n:x}")` writes an `i128`: a negative
/// value shows its two's complement.
pub open spec fn hex_id(n: i128) -> Seq<char> {
    hex((n as u128) as nat)
}

/// A full set of portable settings. The file is also the export format.
#[derive(Debug, PartialEq)]
pub struct Profile {
    pub schema: u32,
    pub id: String,
    pub name: String,
    pub created: i128,
    pub updated: i128,
    pub settings: SettingsMap,
    /// Whitelisted client preference categories, `category -> data`.
    pub client: Vec<(String, Json)>,
}

impl Profile {
    /// A profile made at `now`: its id is the time in hexadecimal.
    pub fn at(name: &str, settings: SettingsMap, now: i128) -> (r: Profile)
        ensures
            r.schema == SCHEMA_VERSION,
            r.id@ == hex_id(now),
            r.name@ == name@,
            r.created == now,
            r.updated == now,
            r.settings@ == settings@,
            r.client@.len() == 0,
    {
        Profile {
            schema: SCHEMA_VERSION,
            id: hex_string(now as u128),
            name: name.to_owned(),
            created: now,
            updated: now,
            settings,
            client: Vec::new(),
        }
    }

    /// A profile made now.
    pub fn new(name: &str, settings: SettingsMap) -> (r: Profile)
        ensures
            r.schema == SCHEMA_VERSION,
            r.id@ == hex_id(r.created),
            r.name@ == name@,
            r.updated == r.created,
            r.settings@ == settings@,
            r.client@.len() == 0,
    {
        Profile::at(name, settings, now_unix_nanos())
    }
}

/// Per-champion overrides, applied on top of whichever profile is active.
#[derive(Debug, PartialEq)]
pub struct Overlay {
    pub schema: u32,
    pub champion_id: u32,
    pub updated: i128,
    /// Only the keys this champion overrides.
    pub settings: SettingsMap,
}

impl Overlay {
    pub fn at(champion_id: u32, settings: SettingsMap, now: i128) -> (r: Overlay)
        ensures
            r.schema == SCHEMA_VERSION,
            r.champion_id == champion_id,
            r.updated == now,
            r.settings@ == settings@,
    {
        Overlay { schema: SCHEMA_VERSION, champion_id, updated: now, settings }
    }

    pub fn new(champion_id: u32, settings: SettingsMap) -> (r: Overlay)
        ensures
            r.schema == SCHEMA_VERSION,
            r.champion_id == champion_id,
            r.settings@ == settings@,
    {
        Overlay::at(champion_id, settings, now_unix_nanos())
    }
}

/// What mimic knows of one Riot account.
#[derive(Debug, PartialEq)]
pub struct Account {
    /// `gameName#tagLine` as last seen, for display only.
    pub display_name: String,
    pub profile_id: Option<String>,
    /// Apply the profile automatically when this account logs in.
    pub auto_apply: bool,
    /// What was on the account when mimic last saved, applied or accepted its settings.
    pub baseline: Option<SettingsMap>,
    /// The champion whose overlay is on top of the baseline right now.
    pub overlay: Option<u32>,
    /// Profile icon and level as last seen.
    pub icon: Option<u32>,
    pub level: Option<u32>,
}

impl Account {
    pub fn new(display_name: String) -> (r: Account)
        ensures
            r.display_name == display_name,
            r.profile_id is None,
            !r.auto_apply,
            r.baseline is None,
            r.overlay is None,
            r.icon is None,
            r.level is None,
    {
        Account {
            display_name,
            profile_id: None,
            auto_apply: false,
            baseline: None,
            overlay: None,
            icon: None,
            level: None,
        }
    }
}

/// The account stored under `puuid` in `entries`: the first one, and with distinct keys
/// the only one.
pub open spec fn lookup(entries: Seq<(String, Account)>, puuid: Seq<char>) -> Option<Account>
    decreases entries.len(),
{
    if entries.len() == 0 {
        None
    } else if entries[0].0@ == puuid {
        Some(entries[0].1)
    } else {
        lookup(entries.drop_first(), puuid)
    }
}

pub open spec fn keys_distinct(entries: Seq<(String, Account)>) -> bool {
    forall|i: int, j: int|
        0 <= i < j < entries.len() ==> #[trigger] entries[i].0@ != #[trigger] entries[j].0@
}

proof fn lemma_lookup_at(entries: Seq<(String, Account)>, i: int)
    requires
        keys_distinct(entries),
        0 <= i < entries.len(),
    ensures
        lookup(entries, entries[i].0@) == Some(entries[i].1),
    decreases entries.len(),
{
    if i > 0 {
        let rest = entries.drop_first();
        assert(rest[i - 1] == entries[i]);
        assert(entries[0].0@ != entries[i].0@);
        assert forall|a: int, b: int| 0 <= a < b < rest.len() implies #[trigger] rest[a].0@
            != #[trigger] rest[b].0@ by {
            assert(rest[a] == entries[a + 1] && rest[b] == entries[b + 1]);
        }
        lemma_lookup_at(rest, i - 1);
    }
}

proof fn lemma_lookup_absent(entries: Seq<(String, Account)>, puuid: Seq<char>)
    requires
        forall|i: int| 0 <= i < entries.len() ==> #[trigger] entries[i].0@ != puuid,
    ensures
        lookup(entries, puuid) is None,
    decreases entries.len(),
{
    if entries.len() > 0 {
        let rest = entries.drop_first();
        assert forall|i: int| 0 <= i < rest.len() implies #[trigger] rest[i].0@ != puuid by {
            assert(rest[i] == entries[i + 1]);
        }
        lemma_lookup_absent(rest, puuid);
    }
}

/// `accounts.json`: which profile each Riot account uses, by puuid.
#[derive(Debug, PartialEq)]
pub struct Accounts {
    schema: u32,
    entries: Vec<(String, Account)>,
}

impl View for Accounts {
    type V = Map<Seq<char>, Account>;

    closed spec fn view(&self) -> Map<Seq<char>, Account> {
        Map::new(
            |k: Seq<char>| lookup(self.entries@, k) is Some,
            |k: Seq<char>| lookup(self.entries@, k)->0,
        )
    }
}

impl Accounts {
    #[verifier::type_invariant]
    spec fn well_formed(self) -> bool {
        keys_distinct(self.entries@)
    }

    /// The accounts as stored, each puuid once.
    pub closed spec fn listing(self) -> Seq<(String, Account)> {
        self.entries@
    }

    pub closed spec fn schema_spec(self) -> u32 {
        self.schema
    }

    /// No account yet, at the current schema.
    pub fn new() -> (r: Accounts)
        ensures
            r@ == Map::<Seq<char>, Account>::empty(),
            r.schema_spec() == SCHEMA_VERSION,
    {
        let r = Accounts { schema: SCHEMA_VERSION, entries: Vec::new() };
        assert(r@ =~= Map::<Seq<char>, Account>::empty());
        r
    }

    pub fn schema(&self) -> (r: u32)
        ensures
            r == self.schema_spec(),
    {
        self.schema
    }

    pub fn set_schema(&mut self, schema: u32)
        ensures
            final(self)@ == old(self)@,
            final(self).schema_spec() == schema,
            final(self).listing() == old(self).listing(),
    {
        proof {
            use_type_invariant(&*self);
        }
        self.schema = schema;
    }

    /// Every `(puuid, account)`, each puuid once.
    pub fn entries(&self) -> (r: &Vec<(String, Account)>)
        ensures
            r@ == self.listing(),
            keys_distinct(r@),
            forall|i: int| 0 <= i < r@.len() ==> #[trigger] self@.contains_key(r@[i].0@)
                && self@[r@[i].0@] == r@[i].1,
            forall|k: Seq<char>| #[trigger] self@.contains_key(k) ==> exists|i: int|
                0 <= i < r@.len() && r@[i].0@ == k,
    {
        proof {
            use_type_invariant(self);
            assert forall|i: int| 0 <= i < self.entries@.len() implies #[trigger] self@.contains_key(
                self.entries@[i].0@,
            ) && self@[self.entries@[i].0@] == self.entries@[i].1 by {
                lemma_lookup_at(self.entries@, i);
            }
            assert forall|k: Seq<char>| #[trigger] self@.contains_key(k) implies exists|i: int|
                0 <= i < self.entries@.len() && self.entries@[i].0@ == k by {
                if forall|i: int| 0 <= i < self.entries@.len() ==> #[trigger] self.entries@[i].0@
                    != k {
                    lemma_lookup_absent(self.entries@, k);
                }
            }
        }
        &self.entries
    }

    /// Every `(puuid, account)`, each puuid once, taken out of the map.
    pub fn into_entries(self) -> (r: Vec<(String, Account)>)
        ensures
            r@ == self.listing(),
            keys_distinct(r@),
    {
        proof {
            use_type_invariant(&self);
        }
        self.entries
    }

    /// Where `puuid` is stored, if it is.
    fn position(&self, puuid: &str) -> (r: Option<usize>)
        ensures
            r matches Some(i) ==> i < self.entries@.len() && self.entries@[i as int].0@ == puuid@,
            r is None ==> forall|i: int|
                0 <= i < self.entries@.len() ==> #[trigger] self.entries@[i].0@ != puuid@,
    {
        let mut i: usize = 0;
        while i < self.entries.len()
            invariant
                i <= self.entries@.len(),
                forall|j: int| 0 <= j < i ==> #[trigger] self.entries@[j].0@ != puuid@,
            decreases self.entries.len() - i,
        {
            if str_eq(self.entries[i].0.as_str(), puuid) {
                return Some(i);
            }
            i += 1;
        }
        None
    }

    /// The account stored under `puuid`.
    pub fn get(&self, puuid: &str) -> (r: Option<&Account>)
        ensures
            r matches Some(a) ==> self@.contains_key(puuid@) && self@[puuid@] == *a,
            r is None ==> !self@.contains_key(puuid@),
    {
        proof {
            use_type_invariant(self);
        }
        match self.position(puuid) {
            Some(i) => {
                proof {
                    lemma_lookup_at(self.entries@, i as int);
                }
                Some(&self.entries[i].1)
            },
            None => {
                proof {
                    lemma_lookup_absent(self.entries@, puuid@);
                }
                None
            },
        }
    }

    /// Takes the account stored under `puuid` out of the map.
    pub fn remove(&mut self, puuid: &str) -> (r: Option<Account>)
        ensures
            r matches Some(a) ==> old(self)@.contains_key(puuid@) && old(self)@[puuid@] == a,
            r is None ==> !old(self)@.contains_key(puuid@),
            final(self)@ == old(self)@.remove(puuid@),
            final(self).schema_spec() == old(self).schema_spec(),
    {
        proof {
            use_type_invariant(&*self);
        }
        match self.position(puuid) {
            Some(i) => {
                let ghost before = self.entries@;
                proof {
                    lemma_lookup_at(before, i as int);
                }
                let mut entries: Vec<(String, Account)> = Vec::new();
                std::mem::swap(&mut entries, &mut self.entries);
                let (_, account) = entries.remove(i);
                let ghost after = entries@;
                assert(after =~= before.remove(i as int));
                assert forall|a: int, b: int| 0 <= a < b < after.len() implies #[trigger] after[a].0@
                    != #[trigger] after[b].0@ by {
                    let a0 = if a < i { a } else { a + 1 };
                    let b0 = if b < i { b } else { b + 1 };
                    assert(after[a] == before[a0] && after[b] == before[b0]);
                }
                proof {
                    assert forall|q: int| 0 <= q < after.len() implies #[trigger] after[q].0@ != puuid@ by {
                        let q0 = if q < i { q } else { q + 1 };
                        assert(after[q] == before[q0]);
                    }
                    lemma_lookup_absent(after, puuid@);
                    assert forall|k: Seq<char>| k != puuid@ implies #[trigger] lookup(after, k) == lookup(
                        before,
                        k,
                    ) by {
                        if exists|q: int| 0 <= q < before.len() && before[q].0@ == k {
                            let q = choose|q: int| 0 <= q < before.len() && before[q].0@ == k;
                            lemma_lookup_at(before, q);
                            let q1 = if q < i { q } else { q - 1 };
                            assert(after[q1] == before[q]);
                            lemma_lookup_at(after, q1);
                        } else {
                            lemma_lookup_absent(before, k);
                            assert forall|q: int| 0 <= q < after.len() implies #[trigger] after[q].0@ != k by {
                                let q0 = if q < i { q } else { q + 1 };
                                assert(after[q] == before[q0]);
                            }
                            lemma_lookup_absent(after, k);
                        }
                    }
                }
                self.entries = entries;
                assert(self@ =~= old(self)@.remove(puuid@));
                Some(account)
            },
            None => {
                proof {
                    lemma_lookup_absent(self.entries@, puuid@);
                }
                assert(self@ =~= old(self)@.remove(puuid@));
                None
            },
        }
    }

    /// Stores `account` under `puuid`, in place of any account there.
    pub fn insert(&mut self, puuid: String, account: Account)
        ensures
            final(self)@ == old(self)@.insert(puuid@, account),
            final(self).schema_spec() == old(self).schema_spec(),
    {
        let _ = self.remove(puuid.as_str());
        proof {
            use_type_invariant(&*self);
        }
        let ghost mid = self@;
        assert(mid == old(self)@.remove(puuid@));
        let ghost acc = account;
        let ghost before = self.entries@;
        let ghost k = puuid@;
        assert(!self@.contains_key(k));
        proof {
            if exists|q: int| 0 <= q < before.len() && before[q].0@ == k {
                let q = choose|q: int| 0 <= q < before.len() && before[q].0@ == k;
                lemma_lookup_at(before, q);
            }
        }
        let mut entries: Vec<(String, Account)> = Vec::new();
        std::mem::swap(&mut entries, &mut self.entries);
        entries.push((puuid, account));
        let ghost after = entries@;
        assert forall|a: int, b: int| 0 <= a < b < after.len() implies #[trigger] after[a].0@
            != #[trigger] after[b].0@ by {
            if b == before.len() {
                assert(after[a] == before[a]);
            } else {
                assert(after[a] == before[a] && after[b] == before[b]);
            }
        }
        proof {
            lemma_lookup_at(after, before.len() as int);
            assert forall|j: Seq<char>| j != k implies #[trigger] lookup(after, j) == lookup(before, j) by {
                if exists|q: int| 0 <= q < before.len() && before[q].0@ == j {
                    let q = choose|q: int| 0 <= q < before.len() && before[q].0@ == j;
                    lemma_lookup_at(before, q);
                    assert(after[q] == before[q]);
                    lemma_lookup_at(after, q);
                } else {
                    lemma_lookup_absent(before, j);
                    assert forall|q: int| 0 <= q < after.len() implies #[trigger] after[q].0@ != j by {
                        if q < before.len() {
                            assert(after[q] == before[q]);
                        }
                    }
                    lemma_lookup_absent(after, j);
                }
            }
        }
        self.entries = entries;
        assert(self@ =~= mid.insert(k, acc));
        assert(mid.insert(k, acc) =~= old(self)@.insert(k, acc));
    }
}

impl Accounts {
    /// Sets whether the account `puuid` applies its profile by itself at login. Returns
    /// whether there is such an account; without one nothing changes.
    pub fn set_auto_apply(&mut self, puuid: &str, enabled: bool) -> (r: bool)
        ensures
            r == old(self)@.contains_key(puuid@),
            r ==> final(self)@ == old(self)@.insert(puuid@, Account { auto_apply: enabled, ..old(self)@[puuid@] }),
            !r ==> final(self)@ == old(self)@,
            final(self).schema_spec() == old(self).schema_spec(),
    {
        match self.remove(puuid) {
            Some(mut account) => {
                account.auto_apply = enabled;
                let ghost changed = account;
                self.insert(puuid.to_owned(), account);
                assert(old(self)@.remove(puuid@).insert(puuid@, changed) =~= old(self)@.insert(puuid@, changed));
                true
            },
            None => {
                assert(old(self)@.remove(puuid@) =~= old(self)@);
                false
            },
        }
    }
}

/// `a` with the profile `id` taken off it: no profile and no auto-apply.
pub open spec fn unlinked(a: Account, id: Seq<char>) -> Account {
    if a.profile_id matches Some(p) && p@ == id {
        Account { profile_id: None, auto_apply: false, ..a }
    } else {
        a
    }
}

pub open spec fn unlink_entries(entries: Seq<(String, Account)>, id: Seq<char>) -> Seq<(String, Account)> {
    entries.map_values(|e: (String, Account)| (e.0, unlinked(e.1, id)))
}

proof fn lemma_lookup_unlinked(entries: Seq<(String, Account)>, id: Seq<char>, k: Seq<char>)
    ensures
        lookup(unlink_entries(entries, id), k) == match lookup(entries, k) {
            Some(a) => Some(unlinked(a, id)),
            None => None,
        },
    decreases entries.len(),
{
    if entries.len() > 0 {
        assert(unlink_entries(entries, id).drop_first() =~= unlink_entries(entries.drop_first(), id));
        lemma_lookup_unlinked(entries.drop_first(), id, k);
    }
}

impl Accounts {
    /// Takes the profile `id` off every account that was on it: a deleted profile is
    /// forgotten wherever it was referenced. The accounts keep their settings.
    pub fn unlink_profile(&mut self, id: &str)
        ensures
            final(self)@ == old(self)@.map_values(|a: Account| unlinked(a, id@)),
            final(self).schema_spec() == old(self).schema_spec(),
    {
        proof {
            use_type_invariant(&*self);
        }
        let ghost before = self.entries@;
        let mut rest: Vec<(String, Account)> = Vec::new();
        std::mem::swap(&mut rest, &mut self.entries);
        let mut out: Vec<(String, Account)> = Vec::new();
        while rest.len() > 0
            invariant
                out@ + rest@ == before.take(out@.len() as int).map_values(|e: (String, Account)| (e.0, unlinked(e.1, id@))) + before.skip(out@.len() as int),
                out@.len() + rest@.len() == before.len(),
            decreases rest.len(),
        {
            let ghost n: int = out@.len() as int;
            let ghost t = before.take(n).map_values(|e: (String, Account)| (e.0, unlinked(e.1, id@)));
            assert(t.len() == n);
            assert(rest@ =~= (out@ + rest@).subrange(n, (out@ + rest@).len() as int));
            assert(before.skip(n) =~= (t + before.skip(n)).subrange(n, (t + before.skip(n)).len() as int));
            assert(rest@ =~= before.skip(n));
            assert(out@ =~= (out@ + rest@).subrange(0, n));
            assert(t =~= (t + before.skip(n)).subrange(0, n));
            assert(out@ =~= t);
            let ghost e0 = rest@[0];
            assert((out@ + rest@)[n] == e0);
            assert(before.skip(n)[0] == before[n]);
            assert(e0 == before[n]);
            let (key, mut account) = rest.remove(0);
            let linked = match &account.profile_id {
                Some(p) => str_eq(p.as_str(), id),
                None => false,
            };
            if linked {
                account.profile_id = None;
                account.auto_apply = false;
            }
            assert(account == unlinked(e0.1, id@));
            out.push((key, account));
            assert(before.take(n + 1).map_values(|e: (String, Account)| (e.0, unlinked(e.1, id@)))
                =~= before.take(n).map_values(|e: (String, Account)| (e.0, unlinked(e.1, id@))).push(out@.last()));
            assert(before.skip(n) =~= seq![before[n]] + before.skip(n + 1));
            assert(out@ + rest@ =~= before.take(n + 1).map_values(|e: (String, Account)| (e.0, unlinked(e.1, id@))) + before.skip(n + 1));
        }
        let ghost after = out@;
        assert(after =~= unlink_entries(before, id@)) by {
            assert(before.take(before.len() as int) =~= before);
            assert(before.skip(before.len() as int) =~= Seq::<(String, Account)>::empty());
            assert(after + rest@ =~= after);
        }
        assert forall|a: int, b: int| 0 <= a < b < after.len() implies #[trigger] after[a].0@ != #[trigger] after[b].0@ by {
            assert(after[a].0 == before[a].0 && after[b].0 == before[b].0);
        }
        self.entries = out;
        proof {
            assert forall|k: Seq<char>| true implies #[trigger] lookup(after, k) == match lookup(before, k) {
                Some(a) => Some(unlinked(a, id@)),
                None => None,
            } by {
                lemma_lookup_unlinked(before, id@, k);
            }
        }
        assert(self@ =~= old(self)@.map_values(|a: Account| unlinked(a, id@)));
    }
}

/// `state.json`: what mimic last did, so it can pick up where it left off.
#[derive(Debug, PartialEq)]
pub struct State {
    pub schema: u32,
    /// The profile most recently applied or captured.
    pub active_profile: Option<String>,
    /// A profile chosen while no account was logged in; applied at the next login.
    pub pending_apply: Option<String>,
    /// The account last logged in, to show while League is closed.
    pub last_account: Option<String>,
    /// The League folder the user chose, for installs that detection does not find.
    pub install_path: Option<String>,
    /// Settings the user does not want to be asked about, as `file/section/key`.
    pub muted: Vec<String>,
    /// Do not pop up notices about what mimic did unasked.
    pub hide_notices: bool,
}

impl State {
    /// The state of a fresh install.
    pub fn new() -> (r: State)
        ensures
            r.schema == SCHEMA_VERSION,
            r.active_profile is None,
            r.pending_apply is None,
            r.last_account is None,
            r.install_path is None,
            r.muted@.len() == 0,
            !r.hide_notices,
    {
        State {
            schema: SCHEMA_VERSION,
            active_profile: None,
            pending_apply: None,
            last_account: None,
            install_path: None,
            muted: Vec::new(),
            hide_notices: false,
        }
    }
}

/// `list` without the strings equal to `id`, in order.
pub open spec fn without(list: Seq<String>, id: Seq<char>) -> Seq<String>
    decreases list.len(),
{
    if list.len() == 0 {
        Seq::empty()
    } else {
        let before = without(list.drop_last(), id);
        if list.last()@ == id {
            before
        } else {
            before.push(list.last())
        }
    }
}

/// Unmuting forgets a setting entirely: no entry for it is left, whatever the list held.
pub proof fn law_unmute_forgets(list: Seq<String>, id: Seq<char>)
    ensures
        forall|i: int| 0 <= i < without(list, id).len() ==> #[trigger] without(list, id)[i]@ != id,
    decreases list.len(),
{
    if list.len() > 0 {
        law_unmute_forgets(list.drop_last(), id);
        let before = without(list.drop_last(), id);
        if list.last()@ != id {
            assert forall|i: int| 0 <= i < before.push(list.last()).len() implies #[trigger] before.push(list.last())[i]@ != id by {
                if i < before.len() {
                    assert(before.push(list.last())[i] == before[i]);
                }
            }
        }
    }
}

/// The strings of `v`, sorted.
pub fn sort_strings(v: Vec<String>) -> (r: Vec<String>)
    ensures
        r@.to_multiset() == v@.to_multiset(),
        forall|i: int, j: int| 0 <= i < j < r@.len() ==> text_le(#[trigger] r@[i]@, #[trigger] r@[j]@),
{
    let ghost v0 = v@;
    let mut keyed: Vec<(String, String)> = Vec::new();
    let mut rest = v;
    while rest.len() > 0
        invariant
            keyed@.map_values(|p: (String, String)| p.1) + rest@ == v0,
            forall|q: int| 0 <= q < keyed@.len() ==> (#[trigger] keyed@[q]).0 == keyed@[q].1,
        decreases rest.len(),
    {
        let ghost k0 = keyed@;
        let item = rest.remove(0);
        let key = item.clone();
        keyed.push((key, item));
        assert(keyed@.map_values(|p: (String, String)| p.1) =~= k0.map_values(|p: (String, String)| p.1).push(item));
    }
    assert(keyed@.map_values(|p: (String, String)| p.1) =~= v0);
    let ghost ks = keyed@;
    let sorted = sort_by_text(keyed);
    let ghost ss = sorted@;
    let r = items_of(sorted);
    proof {
        lemma_map_keeps_multiset(ss, ks, |p: (String, String)| p.1);
        assert forall|q: int| 0 <= q < ss.len() implies (#[trigger] ss[q]).0 == ss[q].1 by {
            lemma_same_elements(ks, ss, q);
        }
        assert forall|a: int, b: int| 0 <= a < b < r@.len() implies text_le(#[trigger] r@[a]@, #[trigger] r@[b]@) by {
            assert(r@[a] == ss[a].1 && r@[b] == ss[b].1);
        }
    }
    r
}

impl State {
    /// Stops asking about the setting `id`: it joins the muted ones, which stay sorted.
    /// Returns whether it was not muted before.
    pub fn mute(&mut self, id: &str) -> (r: bool)
        ensures
            r == !(exists|i: int| 0 <= i < old(self).muted@.len() && #[trigger] old(self).muted@[i]@ == id@),
            !r ==> *final(self) == *old(self),
            r ==> final(self).muted@.map_values(|s: String| s@).to_multiset()
                == old(self).muted@.map_values(|s: String| s@).push(id@).to_multiset(),
            r ==> forall|i: int, j: int| 0 <= i < j < final(self).muted@.len() ==> text_le(
                #[trigger] final(self).muted@[i]@,
                #[trigger] final(self).muted@[j]@,
            ),
            final(self).schema == old(self).schema,
            final(self).active_profile == old(self).active_profile,
            final(self).pending_apply == old(self).pending_apply,
            final(self).last_account == old(self).last_account,
            final(self).install_path == old(self).install_path,
            final(self).hide_notices == old(self).hide_notices,
    {
        if crate::text::list_has(&self.muted, id) {
            return false;
        }
        let mut list: Vec<String> = Vec::new();
        std::mem::swap(&mut list, &mut self.muted);
        list.push(id.to_owned());
        let ghost pushed = list@;
        let sorted = sort_strings(list);
        proof {
            lemma_map_keeps_multiset(sorted@, pushed, |s: String| s@);
            assert(pushed.map_values(|s: String| s@) =~= old(self).muted@.map_values(|s: String| s@).push(id@));
        }
        self.muted = sorted;
        true
    }

    /// Asks about the setting `id` again.
    pub fn unmute(&mut self, id: &str)
        ensures
            final(self).muted@ == without(old(self).muted@, id@),
            final(self).schema == old(self).schema,
            final(self).active_profile == old(self).active_profile,
            final(self).pending_apply == old(self).pending_apply,
            final(self).last_account == old(self).last_account,
            final(self).install_path == old(self).install_path,
            final(self).hide_notices == old(self).hide_notices,
    {
        let mut kept: Vec<String> = Vec::new();
        let mut i: usize = 0;
        while i < self.muted.len()
            invariant
                i <= self.muted@.len(),
                self.muted@ == old(self).muted@,
                kept@ == without(self.muted@.take(i as int), id@),
            decreases self.muted.len() - i,
        {
            assert(self.muted@.take(i + 1).drop_last() =~= self.muted@.take(i as int));
            if !str_eq(self.muted[i].as_str(), id) {
                kept.push(self.muted[i].clone());
            }
            i += 1;
        }
        assert(self.muted@.take(i as int) =~= self.muted@);
        self.muted = kept;
    }

    /// Forgets the profile `id` wherever the state refers to it.
    pub fn forget_profile(&mut self, id: &str)
        ensures
            final(self).active_profile == (if old(self).active_profile matches Some(p) && p@ == id@ {
                None
            } else {
                old(self).active_profile
            }),
            final(self).pending_apply == (if old(self).pending_apply matches Some(p) && p@ == id@ {
                None
            } else {
                old(self).pending_apply
            }),
            final(self).schema == old(self).schema,
            final(self).last_account == old(self).last_account,
            final(self).install_path == old(self).install_path,
            final(self).muted == old(self).muted,
            final(self).hide_notices == old(self).hide_notices,
    {
        let active = match &self.active_profile {
            Some(p) => str_eq(p.as_str(), id),
            None => false,
        };
        if active {
            self.active_profile = None;
        }
        let pending = match &self.pending_apply {
            Some(p) => str_eq(p.as_str(), id),
            None => false,
        };
        if pending {
            self.pending_apply = None;
        }
    }
}

/// The settings as they were right before mimic changed them.
#[derive(Debug, PartialEq)]
pub struct Snapshot {
    pub schema: u32,
    pub taken: i128,
    /// Why it was taken, e.g. "applied 'Main'".
    pub reason: String,
    pub puuid: Option<String>,
    pub settings: SettingsMap,
    /// What the change this snapshot was taken for ended up altering.
    pub changes: Vec<Change>,
}

impl Snapshot {
    pub fn at(reason: &str, puuid: Option<&str>, settings: SettingsMap, now: i128) -> (r: Snapshot)
        ensures
            r.schema == SCHEMA_VERSION,
            r.taken == now,
            r.reason@ == reason@,
            crate::settings::opt_view(r.puuid) == crate::settings::opt_str_view(puuid),
            r.settings@ == settings@,
            r.changes@.len() == 0,
    {
        Snapshot {
            schema: SCHEMA_VERSION,
            taken: now,
            reason: reason.to_owned(),
            puuid: match puuid {
                Some(p) => Some(p.to_owned()),
                None => None,
            },
            settings,
            changes: Vec::new(),
        }
    }

    pub fn new(reason: &str, puuid: Option<&str>, settings: SettingsMap) -> (r: Snapshot)
        ensures
            r.schema == SCHEMA_VERSION,
            r.reason@ == reason@,
            crate::settings::opt_view(r.puuid) == crate::settings::opt_str_view(puuid),
            r.settings@ == settings@,
            r.changes@.len() == 0,
    {
        Snapshot::at(reason, puuid, settings, now_unix_nanos())
    }
}

/// What can go wrong reading or writing mimic's files.
#[derive(Debug, Clone, PartialEq, Eq)]
pub enum ProfileError {
    /// The file system refused, with its own message.
    Io { path: String, message: String },
    /// The file is not what it should be, with the parser's message.
    Json { path: String, message: String },
    UnsupportedSchema { path: String, found: u32 },
    InvalidId(String),
}

pub open spec fn profile_error_text(e: ProfileError) -> Seq<char> {
    match e {
        ProfileError::Io { path, message } => path@ + ": "@ + message@,
        ProfileError::Json { path, message } => path@ + " is not valid: "@ + message@,
        ProfileError::UnsupportedSchema { path, found } => path@
            + " was written by a newer mimic (schema "@ + decimal(found as nat)
            + ", this build reads up to 1)"@,
        ProfileError::InvalidId(id) => debug_quoted(id@) + " is not a valid profile id"@,
    }
}

impl ProfileError {
    /// The sentence that describes the error.
    pub fn message(&self) -> (r: String)
        ensures
            r@ == profile_error_text(*self),
    {
        match self {
            ProfileError::Io { path, message } => {
                let a = concat(path.as_str(), ": ");
                concat(a.as_str(), message.as_str())
            },
            ProfileError::Json { path, message } => {
                let a = concat(path.as_str(), " is not valid: ");
                concat(a.as_str(), message.as_str())
            },
            ProfileError::UnsupportedSchema { path, found } => {
                let a = concat(path.as_str(), " was written by a newer mimic (schema ");
                let n = decimal_string(*found as u128);
                let b = concat(a.as_str(), n.as_str());
                concat(b.as_str(), ", this build reads up to 1)")
            },
            ProfileError::InvalidId(id) => {
                let q = quote(id.as_str());
                concat(q.as_str(), " is not a valid profile id")
            },
        }
    }
}

/// The characters a profile id may hold: they end up in a file name.
pub open spec fn id_char(c: char) -> bool {
    ('0' <= c && c <= '9') || ('a' <= c && c <= 'z') || ('A' <= c && c <= 'Z') || c == '-' || c
        == '_'
}

pub open spec fn valid_id(id: Seq<char>) -> bool {
    id.len() > 0 && forall|i: int| 0 <= i < id.len() ==> id_char(#[trigger] id[i])
}

/// Whether `id` can name a profile's file.
pub fn is_valid_id(id: &str) -> (r: bool)
    ensures
        r == valid_id(id@),
{
    let n = id.unicode_len();
    if n == 0 {
        return false;
    }
    let mut i: usize = 0;
    while i < n
        invariant
            n == id@.len(),
            i <= n,
            forall|j: int| 0 <= j < i ==> id_char(#[trigger] id@[j]),
        decreases n - i,
    {
        let c = id.get_char(i);
        let ok = ('0' <= c && c <= '9') || ('a' <= c && c <= 'z') || ('A' <= c && c <= 'Z')
            || c == '-' || c == '_';
        if !ok {
            return false;
        }
        i += 1;
    }
    true
}

/// The data directory:
///
/// ```text
/// profiles/<id>.json
/// overlays/<championId>.json
/// snapshots/<unix nanos>.json
/// accounts.json
/// state.json
/// ```
#[derive(Debug, Clone, PartialEq, Eq)]
pub struct Store {
    pub root: String,
}

impl Store {
    pub fn new(root: &str) -> (r: Store)
        ensures
            r.root@ == root@,
    {
        Store { root: root.to_owned() }
    }

    /// The file of the profile `id`. Ids end up in file names, and imported profiles
    /// bring their own, so only letters, digits, `-` and `_` are accepted.
    pub fn profile_path(&self, id: &str) -> (r: Result<String, ProfileError>)
        ensures
            valid_id(id@) ==> (r matches Ok(p) && p@ == joined(
                joined(self.root@, "profiles"@),
                id@ + ".json"@,
            )),
            !valid_id(id@) ==> (r matches Err(ProfileError::InvalidId(s)) && s@ == id@),
    {
        if !is_valid_id(id) {
            return Err(ProfileError::InvalidId(id.to_owned()));
        }
        let dir = join_path(self.root.as_str(), "profiles");
        let file = concat(id, ".json");
        Ok(join_path(dir.as_str(), file.as_str()))
    }

    /// The file of a champion's overlay.
    pub fn overlay_path(&self, champion_id: u32) -> (r: String)
        ensures
            r@ == joined(joined(self.root@, "overlays"@), decimal(champion_id as nat) + ".json"@),
    {
        let dir = join_path(self.root.as_str(), "overlays");
        let n = decimal_string(champion_id as u128);
        let file = concat(n.as_str(), ".json");
        join_path(dir.as_str(), file.as_str())
    }

    /// The file of a snapshot, named by when it was taken, zero-padded so that file
    /// names sort by time.
    pub fn snapshot_path(&self, taken: i128) -> (r: String)
        ensures
            r@ == joined(joined(self.root@, "snapshots"@), padded20(taken as int) + ".json"@),
    {
        let dir = join_path(self.root.as_str(), "snapshots");
        let n = padded20_string(taken);
        let file = concat(n.as_str(), ".json");
        join_path(dir.as_str(), file.as_str())
    }

    pub fn profiles_dir(&self) -> (r: String)
        ensures
            r@ == joined(self.root@, "profiles"@),
    {
        join_path(self.root.as_str(), "profiles")
    }

    pub fn overlays_dir(&self) -> (r: String)
        ensures
            r@ == joined(self.root@, "overlays"@),
    {
        join_path(self.root.as_str(), "overlays")
    }

    pub fn snapshots_dir(&self) -> (r: String)
        ensures
            r@ == joined(self.root@, "snapshots"@),
    {
        join_path(self.root.as_str(), "snapshots")
    }

    pub fn accounts_path(&self) -> (r: String)
        ensures
            r@ == joined(self.root@, "accounts.json"@),
    {
        join_path(self.root.as_str(), "accounts.json")
    }

    pub fn state_path(&self) -> (r: String)
        ensures
            r@ == joined(self.root@, "state.json"@),
    {
        join_path(self.root.as_str(), "state.json")
    }
}

/// The check made on every file read: a `schema` newer than this build's is refused.
/// `found` is the file's `schema` when it is a non-negative integer.
pub fn check_schema(path: &str, found: Option<u64>) -> (r: Result<(), ProfileError>)
    ensures
        r is Ok <==> !(found matches Some(f) && f > SCHEMA_VERSION),
        r matches Err(e) ==> (found matches Some(f) && (e matches ProfileError::UnsupportedSchema {
            path: p,
            found: n,
        } && p@ == path@ && n == f as u32)),
{
    match found {
        Some(f) => if f > SCHEMA_VERSION as u64 {
            Err(ProfileError::UnsupportedSchema { path: path.to_owned(), found: f as u32 })
        } else {
            Ok(())
        },
        None => Ok(()),
    }
}

/// Whether a file name has the extension `json`, as `Path::extension` reads it: after
/// the last dot, with something before that dot.
pub open spec fn json_name(name: Seq<char>) -> bool {
    ends_with(name, ".json"@) && name.len() > 5
}

pub fn is_json_name(name: &str) -> (r: bool)
    ensures
        r == json_name(name@),
{
    proof {
        reveal_strlit(".json");
    }
    str_ends_with(name, ".json") && name.unicode_len() > 5
}

/// Which snapshot files to delete so that `keep` remain: the oldest, which are the
/// first by name. `names` are the file names in the snapshot folder.
pub fn snapshots_to_remove(names: Vec<String>, keep: usize) -> (r: Vec<String>)
    ensures
        r@.len() == if names@.len() > keep { names@.len() - keep } else { 0 },
        forall|i: int, j: int| 0 <= i < j < r@.len() ==> text_le(#[trigger] r@[i]@, #[trigger] r@[j]@),
        forall|i: int| 0 <= i < r@.len() ==> names@.contains(#[trigger] r@[i]),
        forall|i: int, j: int| 0 <= i < r@.len() && 0 <= j < names@.len() && !r@.contains(names@[j])
            ==> text_le(#[trigger] r@[i]@, #[trigger] names@[j]@),
{
    let ghost names0 = names@;
    let n = names.len();
    let excess: usize = if n > keep { n - keep } else { 0 };
    let mut keyed: Vec<(String, String)> = Vec::new();
    let mut rest = names;
    while rest.len() > 0
        invariant
            keyed@.map_values(|p: (String, String)| p.1) + rest@ == names0,
            forall|q: int| 0 <= q < keyed@.len() ==> (#[trigger] keyed@[q]).0 == keyed@[q].1,
        decreases rest.len(),
    {
        let ghost k0 = keyed@;
        let name = rest.remove(0);
        let key = name.clone();
        keyed.push((key, name));
        assert(keyed@.map_values(|p: (String, String)| p.1) =~= k0.map_values(|p: (String, String)| p.1).push(name));
    }
    assert(keyed@.map_values(|p: (String, String)| p.1) =~= names0);
    let sorted = sort_by_text(keyed);
    let ghost ks = keyed@;
    let ghost ss = sorted@;
    let all = items_of(sorted);
    proof {
        assert(ss.to_multiset().len() == ks.to_multiset().len());
        lemma_map_keeps_multiset(ss, ks, |p: (String, String)| p.1);
        assert forall|q: int| 0 <= q < ss.len() implies (#[trigger] ss[q]).0 == ss[q].1 by {
            lemma_same_elements(ks, ss, q);
        }
    }
    let mut r: Vec<String> = Vec::new();
    let mut i: usize = 0;
    while i < excess
        invariant
            excess <= all@.len(),
            all@.len() == names0.len(),
            i <= excess,
            r@ == all@.take(i as int),
        decreases excess - i,
    {
        r.push(all[i].clone());
        i += 1;
        assert(r@ =~= all@.take(i as int));
    }
    proof {
        assert(all@.to_multiset() == names0.to_multiset());
        assert forall|a: int, b: int| 0 <= a < b < all@.len() implies text_le(#[trigger] all@[a]@, #[trigger] all@[b]@) by {
            assert(all@[a] == ss[a].1 && all@[b] == ss[b].1);
            assert(ss[a].0 == ss[a].1 && ss[b].0 == ss[b].1);
        }
        assert forall|x: int| 0 <= x < r@.len() implies names0.contains(#[trigger] r@[x]) by {
            lemma_same_elements(names0, all@, x);
            assert(r@[x] == all@[x]);
            let j = choose|j: int| 0 <= j < names0.len() && names0[j] == all@[x];
            assert(names0[j] == r@[x]);
        }
        assert forall|x: int, j: int| 0 <= x < r@.len() && 0 <= j < names0.len() && !r@.contains(names0[j])
            implies text_le(#[trigger] r@[x]@, #[trigger] names0[j]@) by {
            lemma_same_elements(all@, names0, j);
            let y = choose|y: int| 0 <= y < all@.len() && all@[y] == names0[j];
            if y < excess {
                assert(r@[y] == names0[j]);
            }
        }
    }
    r
}

/// Profiles in the order they are listed: by name, ignoring case.
pub fn order_profiles(profiles: Vec<Profile>) -> (r: Vec<Profile>)
    ensures
        r@.to_multiset() == profiles@.to_multiset(),
        forall|i: int, j: int|
            0 <= i < j < r@.len() ==> text_le(
                lowercase(#[trigger] r@[i].name@),
                lowercase(#[trigger] r@[j].name@),
            ),
{
    let mut keyed: Vec<(String, Profile)> = Vec::new();
    let mut rest = profiles;
    while rest.len() > 0
        invariant
            keyed@.map_values(|p: (String, Profile)| p.1) + rest@ == profiles@,
            forall|q: int| 0 <= q < keyed@.len() ==> (#[trigger] keyed@[q]).0@ == lowercase(keyed@[q].1.name@),
        decreases rest.len(),
    {
        let ghost k0 = keyed@;
        let p = rest.remove(0);
        let key = to_lowercase(p.name.as_str());
        keyed.push((key, p));
        assert(keyed@.map_values(|p: (String, Profile)| p.1) =~= k0.map_values(|p: (String, Profile)| p.1).push(p));
    }
    assert(keyed@.map_values(|p: (String, Profile)| p.1) =~= profiles@);
    let sorted = sort_by_text(keyed);
    let ghost ks = keyed@;
    let ghost ss = sorted@;
    let r = items_of(sorted);
    proof {
        lemma_map_keeps_multiset(ss, ks, |p: (String, Profile)| p.1);
        assert forall|q: int| 0 <= q < ss.len() implies (#[trigger] ss[q]).0@ == lowercase(ss[q].1.name@) by {
            lemma_same_elements(ks, ss, q);
        }
        assert forall|a: int, b: int| 0 <= a < b < r@.len() implies text_le(
            lowercase(#[trigger] r@[a].name@),
            lowercase(#[trigger] r@[b].name@),
        ) by {
            assert(r@[a] == ss[a].1 && r@[b] == ss[b].1);
            assert(text_le(ss[a].0@, ss[b].0@));
        }
    }
    r
}

/// Overlays in the order they are listed: by champion id.
pub fn order_overlays(overlays: Vec<Overlay>) -> (r: Vec<Overlay>)
    ensures
        r@.to_multiset() == overlays@.to_multiset(),
        forall|i: int, j: int| 0 <= i < j < r@.len() ==> #[trigger] r@[i].champion_id <= #[trigger] r@[j].champion_id,
{
    let mut keyed: Vec<(i128, Overlay)> = Vec::new();
    let mut rest = overlays;
    while rest.len() > 0
        invariant
            keyed@.map_values(|p: (i128, Overlay)| p.1) + rest@ == overlays@,
            forall|q: int| 0 <= q < keyed@.len() ==> (#[trigger] keyed@[q]).0 == keyed@[q].1.champion_id,
        decreases rest.len(),
    {
        let ghost k0 = keyed@;
        let o = rest.remove(0);
        let key = o.champion_id as i128;
        keyed.push((key, o));
        assert(keyed@.map_values(|p: (i128, Overlay)| p.1) =~= k0.map_values(|p: (i128, Overlay)| p.1).push(o));
    }
    assert(keyed@.map_values(|p: (i128, Overlay)| p.1) =~= overlays@);
    let sorted = sort_by_number(keyed, false);
    let ghost ks = keyed@;
    let ghost ss = sorted@;
    let r = items_of(sorted);
    proof {
        lemma_map_keeps_multiset(ss, ks, |p: (i128, Overlay)| p.1);
        assert forall|q: int| 0 <= q < ss.len() implies (#[trigger] ss[q]).0 == ss[q].1.champion_id by {
            lemma_same_elements(ks, ss, q);
        }
        assert forall|a: int, b: int| 0 <= a < b < r@.len() implies #[trigger] r@[a].champion_id <= #[trigger] r@[b].champion_id by {
            assert(r@[a] == ss[a].1 && r@[b] == ss[b].1);
        }
    }
    r
}

/// Snapshots in the order they are listed: newest first.
pub fn order_snapshots(snapshots: Vec<Snapshot>) -> (r: Vec<Snapshot>)
    ensures
        r@.to_multiset() == snapshots@.to_multiset(),
        forall|i: int, j: int| 0 <= i < j < r@.len() ==> #[trigger] r@[i].taken >= #[trigger] r@[j].taken,
{
    let mut keyed: Vec<(i128, Snapshot)> = Vec::new();
    let mut rest = snapshots;
    while rest.len() > 0
        invariant
            keyed@.map_values(|p: (i128, Snapshot)| p.1) + rest@ == snapshots@,
            forall|q: int| 0 <= q < keyed@.len() ==> (#[trigger] keyed@[q]).0 == keyed@[q].1.taken,
        decreases rest.len(),
    {
        let ghost k0 = keyed@;
        let o = rest.remove(0);
        let key = o.taken;
        keyed.push((key, o));
        assert(keyed@.map_values(|p: (i128, Snapshot)| p.1) =~= k0.map_values(|p: (i128, Snapshot)| p.1).push(o));
    }
    assert(keyed@.map_values(|p: (i128, Snapshot)| p.1) =~= snapshots@);
    let sorted = sort_by_number(keyed, true);
    let ghost ks = keyed@;
    let ghost ss = sorted@;
    let r = items_of(sorted);
    proof {
        lemma_map_keeps_multiset(ss, ks, |p: (i128, Snapshot)| p.1);
        assert forall|q: int| 0 <= q < ss.len() implies (#[trigger] ss[q]).0 == ss[q].1.taken by {
            lemma_same_elements(ks, ss, q);
        }
        assert forall|a: int, b: int| 0 <= a < b < r@.len() implies #[trigger] r@[a].taken >= #[trigger] r@[b].taken by {
            assert(r@[a] == ss[a].1 && r@[b] == ss[b].1);
        }
    }
    r
}

} // verus!
