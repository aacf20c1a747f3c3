//! League's settings: the `PersistedSettings.json` shape, the portable map that profiles
//! are made of, and the operations profiles are built on (diff, merge, overlays).

use vstd::prelude::*;

use crate::text::{
    chars_lt, compare_str, contains, lemma_chars_lt_irreflexive, lemma_chars_lt_total,
    lemma_chars_lt_transitive, order_of, starts_with, str_contains, str_eq, str_starts_with,
    Order,
};

verus! {

/// `PersistedSettings.json` exactly as League writes it.
#[derive(Debug, Clone, PartialEq, Eq)]
pub struct PersistedSettings {
    pub description: Option<String>,
    pub files: Vec<PersistedFile>,
}

#[derive(Debug, Clone, PartialEq, Eq)]
pub struct PersistedFile {
    pub name: String,
    pub sections: Vec<PersistedSection>,
}

#[derive(Debug, Clone, PartialEq, Eq)]
pub struct PersistedSection {
    pub name: String,
    pub settings: Vec<PersistedSetting>,
}

#[derive(Debug, Clone, PartialEq, Eq)]
pub struct PersistedSetting {
    pub name: String,
    pub value: String,
}

/// Where a setting lives: `(file, section, key)`.
pub type SettingKey = (Seq<char>, Seq<char>, Seq<char>);

/// The abstract contents of a settings map.
pub type SettingsView = Map<SettingKey, Seq<char>>;

/// Strict order of setting keys: by file, then section, then key.
pub open spec fn key_lt(a: SettingKey, b: SettingKey) -> bool {
    chars_lt(a.0, b.0) || (a.0 == b.0 && (chars_lt(a.1, b.1) || (a.1 == b.1 && chars_lt(
        a.2,
        b.2,
    ))))
}

pub proof fn lemma_key_lt_irreflexive(a: SettingKey)
    ensures
        !key_lt(a, a),
{
    lemma_chars_lt_irreflexive(a.0);
    lemma_chars_lt_irreflexive(a.1);
    lemma_chars_lt_irreflexive(a.2);
}

pub proof fn lemma_key_lt_transitive(a: SettingKey, b: SettingKey, c: SettingKey)
    requires
        key_lt(a, b),
        key_lt(b, c),
    ensures
        key_lt(a, c),
{
    lemma_chars_lt_irreflexive(a.0);
    lemma_chars_lt_irreflexive(b.0);
    if chars_lt(a.0, b.0) && chars_lt(b.0, c.0) {
        lemma_chars_lt_transitive(a.0, b.0, c.0);
    }
    if a.0 == b.0 && b.0 == c.0 {
        if chars_lt(a.1, b.1) && chars_lt(b.1, c.1) {
            lemma_chars_lt_transitive(a.1, b.1, c.1);
        }
        lemma_chars_lt_irreflexive(a.1);
        lemma_chars_lt_irreflexive(b.1);
        if a.1 == b.1 && b.1 == c.1 {
            lemma_chars_lt_transitive(a.2, b.2, c.2);
        }
    }
    lemma_chars_lt_irreflexive(a.0);
    lemma_chars_lt_irreflexive(b.0);
}

pub proof fn lemma_key_lt_total(a: SettingKey, b: SettingKey)
    ensures
        a == b || key_lt(a, b) || key_lt(b, a),
{
    lemma_chars_lt_total(a.0, b.0);
    lemma_chars_lt_total(a.1, b.1);
    lemma_chars_lt_total(a.2, b.2);
}

/// A listing of settings is strictly increasing by key.
pub open spec fn sorted(s: Seq<(SettingKey, Seq<char>)>) -> bool {
    forall|i: int, j: int| 0 <= i < j < s.len() ==> key_lt(#[trigger] s[i].0, #[trigger] s[j].0)
}

/// The map a listing describes; a later entry for a key wins over an earlier one.
pub open spec fn to_map(s: Seq<(SettingKey, Seq<char>)>) -> SettingsView
    decreases s.len(),
{
    if s.len() == 0 {
        Map::empty()
    } else {
        to_map(s.drop_last()).insert(s.last().0, s.last().1)
    }
}

/// Whether some entry of the listing has key `k`.
pub open spec fn listed(s: Seq<(SettingKey, Seq<char>)>, k: SettingKey) -> bool {
    exists|i: int| 0 <= i < s.len() && s[i].0 == k
}

pub proof fn lemma_to_map_dom(s: Seq<(SettingKey, Seq<char>)>)
    ensures
        forall|k: SettingKey| #[trigger] to_map(s).contains_key(k) <==> listed(s, k),
        to_map(s).dom().finite(),
    decreases s.len(),
{
    if s.len() > 0 {
        let t = s.drop_last();
        lemma_to_map_dom(t);
        assert forall|k: SettingKey| #[trigger] to_map(s).contains_key(k) <==> listed(s, k) by {
            if listed(t, k) {
                let i = choose|i: int| 0 <= i < t.len() && t[i].0 == k;
                assert(s[i] == t[i]);
            }
            if listed(s, k) && k != s.last().0 {
                let i = choose|i: int| 0 <= i < s.len() && s[i].0 == k;
                assert(i < s.len() - 1);
                assert(t[i] == s[i]);
            }
        }
    }
}

pub proof fn lemma_sorted_distinct(s: Seq<(SettingKey, Seq<char>)>, i: int, j: int)
    requires
        sorted(s),
        0 <= i < s.len(),
        0 <= j < s.len(),
        i != j,
    ensures
        s[i].0 != s[j].0,
{
    if i < j {
        lemma_key_lt_irreflexive(s[i].0);
        assert(key_lt(s[i].0, s[j].0));
    } else {
        lemma_key_lt_irreflexive(s[j].0);
        assert(key_lt(s[j].0, s[i].0));
    }
}

pub proof fn lemma_to_map_value(s: Seq<(SettingKey, Seq<char>)>, i: int)
    requires
        sorted(s),
        0 <= i < s.len(),
    ensures
        to_map(s).contains_key(s[i].0),
        to_map(s)[s[i].0] == s[i].1,
    decreases s.len(),
{
    lemma_to_map_dom(s);
    assert(listed(s, s[i].0));
    if i < s.len() - 1 {
        let t = s.drop_last();
        assert(sorted(t));
        assert(t[i] == s[i]);
        lemma_to_map_value(t, i);
        lemma_sorted_distinct(s, i, s.len() - 1);
    }
}

pub proof fn lemma_to_map_len(s: Seq<(SettingKey, Seq<char>)>)
    requires
        sorted(s),
    ensures
        to_map(s).len() == s.len(),
    decreases s.len(),
{
    if s.len() > 0 {
        let t = s.drop_last();
        assert(sorted(t));
        lemma_to_map_len(t);
        lemma_to_map_dom(t);
        if listed(t, s.last().0) {
            let i = choose|i: int| 0 <= i < t.len() && t[i].0 == s.last().0;
            lemma_sorted_distinct(s, i, s.len() - 1);
        }
        assert(to_map(s).dom() == to_map(t).dom().insert(s.last().0));
    }
}

pub proof fn lemma_to_map_values(s: Seq<(SettingKey, Seq<char>)>)
    requires
        sorted(s),
    ensures
        forall|q: int|
            #![trigger s[q]]
            0 <= q < s.len() ==> to_map(s).contains_key(s[q].0) && to_map(s)[s[q].0] == s[q].1,
{
    assert forall|q: int| #![trigger s[q]] 0 <= q < s.len() implies to_map(s).contains_key(s[q].0)
        && to_map(s)[s[q].0] == s[q].1 by {
        lemma_to_map_value(s, q);
    }
}

/// A sorted listing with one more entry at the end, whose key is above all others.
pub proof fn lemma_to_map_push(s: Seq<(SettingKey, Seq<char>)>, e: (SettingKey, Seq<char>))
    requires
        sorted(s),
        forall|i: int| 0 <= i < s.len() ==> key_lt(#[trigger] s[i].0, e.0),
    ensures
        sorted(s.push(e)),
        to_map(s.push(e)) == to_map(s).insert(e.0, e.1),
{
    assert(s.push(e).drop_last() =~= s);
}

/// One setting of a settings map.
#[derive(Debug)]
struct Entry {
    file: String,
    section: String,
    key: String,
    value: String,
}

impl Entry {
    spec fn key_view(self) -> SettingKey {
        (self.file@, self.section@, self.key@)
    }

    spec fn pair(self) -> (SettingKey, Seq<char>) {
        (self.key_view(), self.value@)
    }

    fn copy(&self) -> (r: Entry)
        ensures
            r.pair() == self.pair(),
    {
        Entry {
            file: self.file.clone(),
            section: self.section.clone(),
            key: self.key.clone(),
            value: self.value.clone(),
        }
    }
}

spec fn pairs_of(entries: Seq<Entry>) -> Seq<(SettingKey, Seq<char>)> {
    entries.map_values(|e: Entry| e.pair())
}

/// Compares where two settings live.
fn compare_key(file: &str, section: &str, key: &str, e: &Entry) -> (r: Order)
    ensures
        r == Order::Equal <==> (file@, section@, key@) == e.key_view(),
        r == Order::Less <==> key_lt((file@, section@, key@), e.key_view()),
        r == Order::Greater <==> key_lt(e.key_view(), (file@, section@, key@)),
{
    proof {
        lemma_key_lt_total((file@, section@, key@), e.key_view());
        lemma_key_lt_irreflexive(e.key_view());
        lemma_chars_lt_irreflexive(file@);
        lemma_chars_lt_irreflexive(section@);
        lemma_chars_lt_irreflexive(key@);
        lemma_chars_lt_total(file@, e.file@);
        lemma_chars_lt_total(section@, e.section@);
        lemma_chars_lt_total(key@, e.key@);
        if chars_lt(file@, e.file@) && chars_lt(e.file@, file@) {
            lemma_chars_lt_transitive(file@, e.file@, file@);
        }
        if chars_lt(section@, e.section@) && chars_lt(e.section@, section@) {
            lemma_chars_lt_transitive(section@, e.section@, section@);
        }
        if chars_lt(key@, e.key@) && chars_lt(e.key@, key@) {
            lemma_chars_lt_transitive(key@, e.key@, key@);
        }
    }
    match compare_str(file, e.file.as_str()) {
        Order::Less => Order::Less,
        Order::Greater => Order::Greater,
        Order::Equal => match compare_str(section, e.section.as_str()) {
            Order::Less => Order::Less,
            Order::Greater => Order::Greater,
            Order::Equal => compare_str(key, e.key.as_str()),
        },
    }
}

/// Whether `file/section/key` comes after where `e` lives.
fn is_after(file: &str, section: &str, key: &str, e: &Entry) -> (r: bool)
    ensures
        r == key_lt(e.key_view(), (file@, section@, key@)),
{
    match compare_key(file, section, key, e) {
        Order::Greater => true,
        _ => false,
    }
}

/// Portable settings as `file -> section -> key -> value`. This is the shape stored in
/// profiles; an overlay is the same shape holding only the keys it overrides.
#[derive(Debug)]
pub struct SettingsMap {
    entries: Vec<Entry>,
}

impl View for SettingsMap {
    type V = SettingsView;

    closed spec fn view(&self) -> SettingsView {
        to_map(pairs_of(self.entries@))
    }
}

impl SettingsMap {
    #[verifier::type_invariant]
    spec fn well_formed(self) -> bool {
        sorted(pairs_of(self.entries@))
    }

    /// The settings in order of where they live.
    pub closed spec fn listing(self) -> Seq<(SettingKey, Seq<char>)> {
        pairs_of(self.entries@)
    }

    proof fn lemma_facts(&self)
        requires
            sorted(pairs_of(self.entries@)),
        ensures
            forall|k: SettingKey| #[trigger]
                self@.contains_key(k) <==> listed(pairs_of(self.entries@), k),
            forall|i: int|
                0 <= i < self.entries@.len() ==> #[trigger] self@.contains_key(
                    self.entries@[i].key_view(),
                ) && self@[self.entries@[i].key_view()] == self.entries@[i].value@,
            forall|i: int|
                0 <= i < self.entries@.len() ==> #[trigger] self@.contains_key(
                    pairs_of(self.entries@)[i].0,
                ) && self@[pairs_of(self.entries@)[i].0] == pairs_of(self.entries@)[i].1,
            self@.len() == self.entries@.len(),
            self@.dom().finite(),
    {
        let s = pairs_of(self.entries@);
        assert forall|i: int| 0 <= i < self.entries@.len() implies #[trigger] self@.contains_key(
            pairs_of(self.entries@)[i].0,
        ) && self@[pairs_of(self.entries@)[i].0] == pairs_of(self.entries@)[i].1 by {
            lemma_to_map_value(s, i);
        }
        lemma_to_map_dom(s);
        lemma_to_map_len(s);
        assert forall|i: int| 0 <= i < self.entries@.len() implies #[trigger] self@.contains_key(
            self.entries@[i].key_view(),
        ) && self@[self.entries@[i].key_view()] == self.entries@[i].value@ by {
            lemma_to_map_value(s, i);
        }
    }

    /// An empty map.
    pub fn new() -> (r: SettingsMap)
        ensures
            r@ == Map::<SettingKey, Seq<char>>::empty(),
    {
        let r = SettingsMap { entries: Vec::new() };
        assert(pairs_of(r.entries@) =~= Seq::empty());
        r
    }

    /// The first position whose key is not below `(file, section, key)`.
    fn position(&self, file: &str, section: &str, key: &str) -> (r: (usize, bool))
        ensures
            r.0 <= self.entries@.len(),
            forall|j: int|
                0 <= j < r.0 ==> key_lt(
                    #[trigger] self.entries@[j].key_view(),
                    (file@, section@, key@),
                ),
            forall|j: int|
                r.0 <= j < self.entries@.len() ==> !key_lt(
                    #[trigger] self.entries@[j].key_view(),
                    (file@, section@, key@),
                ),
            r.1 <==> (r.0 < self.entries@.len() && self.entries@[r.0 as int].key_view() == (
            file@,
            section@,
            key@,
            )),
            r.1 <==> self@.contains_key((file@, section@, key@)),
    {
        proof {
            use_type_invariant(self);
        }
        let ghost k = (file@, section@, key@);
        let ghost s = pairs_of(self.entries@);
        let mut i: usize = 0;
        while i < self.entries.len() && is_after(file, section, key, &self.entries[i])
            invariant
                i <= self.entries@.len(),
                sorted(s),
                s == pairs_of(self.entries@),
                k == (file@, section@, key@),
                forall|j: int| 0 <= j < i ==> key_lt(#[trigger] self.entries@[j].key_view(), k),
            decreases self.entries.len() - i,
        {
            i += 1;
        }
        proof {
            assert forall|j: int| i <= j < self.entries@.len() implies !key_lt(
                #[trigger] self.entries@[j].key_view(),
                k,
            ) by {
                if j > i {
                    assert(s[i as int].0 == self.entries@[i as int].key_view());
                    assert(s[j].0 == self.entries@[j].key_view());
                    assert(key_lt(s[i as int].0, s[j].0));
                    if key_lt(self.entries@[j].key_view(), k) {
                        lemma_key_lt_transitive(s[i as int].0, s[j].0, k);
                    }
                }
            }
            self.lemma_facts();
        }
        let found = i < self.entries.len() && match compare_key(
            file,
            section,
            key,
            &self.entries[i],
        ) {
            Order::Equal => true,
            _ => false,
        };
        proof {
            if self@.contains_key(k) {
                let j = choose|j: int| 0 <= j < s.len() && s[j].0 == k;
                assert(s[j].0 == self.entries@[j].key_view());
                lemma_key_lt_irreflexive(k);
                if j >= i {
                    if j > i {
                        assert(key_lt(s[i as int].0, s[j].0));
                        lemma_key_lt_total(self.entries@[i as int].key_view(), k);
                        assert(s[i as int].0 == self.entries@[i as int].key_view());
                    }
                }
            }
            if found {
                assert(s[i as int].0 == k);
                assert(listed(s, k));
            }
        }
        (i, found)
    }

    /// The value at `file/section/key`, if there is one.
    pub fn get(&self, file: &str, section: &str, key: &str) -> (r: Option<&str>)
        ensures
            r matches Some(v) ==> self@.contains_key((file@, section@, key@)) && self@[(
                file@,
                section@,
                key@,
            )] == v@,
            r is None ==> !self@.contains_key((file@, section@, key@)),
    {
        proof {
            use_type_invariant(self);
            self.lemma_facts();
        }
        let (i, found) = self.position(file, section, key);
        if found {
            Some(self.entries[i].value.as_str())
        } else {
            None
        }
    }

    /// Sets `file/section/key` to `value`, adding it if it is not there yet.
    pub fn set(&mut self, file: &str, section: &str, key: &str, value: &str)
        ensures
            final(self)@ == old(self)@.insert((file@, section@, key@), value@),
    {
        proof {
            use_type_invariant(&*self);
            self.lemma_facts();
        }
        let ghost k = (file@, section@, key@);
        let ghost old_s = pairs_of(self.entries@);
        let (i, found) = self.position(file, section, key);
        let mut entries: Vec<Entry> = Vec::new();
        std::mem::swap(&mut entries, &mut self.entries);
        let e = Entry {
            file: file.to_owned(),
            section: section.to_owned(),
            key: key.to_owned(),
            value: value.to_owned(),
        };
        assert(e.pair() == (k, value@));
        if found {
            entries.set(i, e);
            let ghost s = pairs_of(entries@);
            assert(s =~= old_s.update(i as int, (k, value@)));
            proof {
                assert forall|a: int, b: int| 0 <= a < b < s.len() implies key_lt(
                    #[trigger] s[a].0,
                    #[trigger] s[b].0,
                ) by {
                    assert(old_s[i as int].0 == k);
                    if a != i && b != i {
                        assert(s[a] == old_s[a] && s[b] == old_s[b]);
                    } else if a == i {
                        assert(s[b] == old_s[b]);
                    } else {
                        assert(s[a] == old_s[a]);
                    }
                }
                lemma_to_map_dom(s);
                lemma_to_map_dom(old_s);
                assert forall|kk: SettingKey| #[trigger]
                    to_map(s).contains_key(kk) <==> to_map(old_s).insert(
                        k,
                        value@,
                    ).contains_key(kk) by {
                    assert(s[i as int].0 == k);
                    if listed(s, kk) {
                        let j = choose|j: int| 0 <= j < s.len() && s[j].0 == kk;
                        if j != i {
                            assert(old_s[j] == s[j]);
                        }
                    }
                    if listed(old_s, kk) {
                        let j = choose|j: int| 0 <= j < old_s.len() && old_s[j].0 == kk;
                        if j != i {
                            assert(old_s[j] == s[j]);
                        }
                    }
                }
                assert forall|kk: SettingKey| #[trigger]
                    to_map(s).contains_key(kk) implies to_map(s)[kk] == to_map(old_s).insert(
                    k,
                    value@,
                )[kk] by {
                    let j = choose|j: int| 0 <= j < s.len() && s[j].0 == kk;
                    lemma_to_map_value(s, j);
                    if j != i {
                        assert(old_s[j] == s[j]);
                        lemma_to_map_value(old_s, j);
                        lemma_sorted_distinct(s, j, i as int);
                    }
                }
                assert(to_map(s) =~= to_map(old_s).insert(k, value@));
            }
        } else {
            entries.insert(i, e);
            let ghost s = pairs_of(entries@);
            assert(s =~= old_s.insert(i as int, (k, value@)));
            proof {
                assert forall|a: int, b: int| 0 <= a < b < s.len() implies key_lt(
                    #[trigger] s[a].0,
                    #[trigger] s[b].0,
                ) by {
                    if b < i {
                        assert(s[a] == old_s[a] && s[b] == old_s[b]);
                    } else if a > i {
                        assert(s[a] == old_s[a - 1] && s[b] == old_s[b - 1]);
                    } else if a == i {
                        assert(s[b] == old_s[b - 1]);
                        assert(!key_lt(old_s[b - 1].0, k));
                        lemma_key_lt_total(old_s[b - 1].0, k);
                        if b - 1 == i {
                            assert(old_s[i as int].0 != k);
                        } else {
                            assert(key_lt(old_s[i as int].0, old_s[b - 1].0));
                            lemma_key_lt_total(old_s[i as int].0, k);
                            if key_lt(old_s[i as int].0, k) {
                                assert(false);
                            }
                            if old_s[b - 1].0 == k {
                                lemma_key_lt_irreflexive(k);
                            }
                        }
                    } else if b == i {
                        assert(s[a] == old_s[a]);
                    } else {
                        assert(a < i && i < b);
                        assert(s[a] == old_s[a] && s[b] == old_s[b - 1]);
                        assert(key_lt(old_s[a].0, k));
                        lemma_key_lt_total(old_s[b - 1].0, k);
                        if old_s[b - 1].0 != k {
                            if b - 1 == i as int {
                                assert(!key_lt(old_s[b - 1].0, k));
                            }
                            lemma_key_lt_transitive(old_s[a].0, k, old_s[b - 1].0);
                        } else {
                            assert(b - 1 == i as int ==> old_s[i as int].0 != k);
                        }
                    }
                }
                lemma_to_map_dom(s);
                lemma_to_map_dom(old_s);
                assert forall|kk: SettingKey| #[trigger]
                    to_map(s).contains_key(kk) <==> to_map(old_s).insert(
                        k,
                        value@,
                    ).contains_key(kk) by {
                    assert(s[i as int].0 == k);
                    if listed(s, kk) {
                        let j = choose|j: int| 0 <= j < s.len() && s[j].0 == kk;
                        if j < i {
                            assert(old_s[j] == s[j]);
                        } else if j > i {
                            assert(old_s[j - 1] == s[j]);
                        }
                    }
                    if listed(old_s, kk) {
                        let j = choose|j: int| 0 <= j < old_s.len() && old_s[j].0 == kk;
                        if j < i {
                            assert(old_s[j] == s[j]);
                        } else {
                            assert(old_s[j] == s[j + 1]);
                        }
                    }
                }
                assert forall|kk: SettingKey| #[trigger]
                    to_map(s).contains_key(kk) implies to_map(s)[kk] == to_map(old_s).insert(
                    k,
                    value@,
                )[kk] by {
                    let j = choose|j: int| 0 <= j < s.len() && s[j].0 == kk;
                    lemma_to_map_value(s, j);
                    if j < i {
                        assert(old_s[j] == s[j]);
                        lemma_to_map_value(old_s, j);
                        lemma_sorted_distinct(s, j, i as int);
                    } else if j > i {
                        assert(old_s[j - 1] == s[j]);
                        lemma_to_map_value(old_s, j - 1);
                        lemma_sorted_distinct(s, j, i as int);
                    }
                }
                assert(to_map(s) =~= to_map(old_s).insert(k, value@));
            }
        }
        self.entries = entries;
    }

    /// Whether the map holds no setting at all.
    pub fn is_empty(&self) -> (r: bool)
        ensures
            r == (self@ == Map::<SettingKey, Seq<char>>::empty()),
    {
        proof {
            use_type_invariant(self);
            self.lemma_facts();
        }
        if self.entries.len() == 0 {
            assert(self@ =~= Map::<SettingKey, Seq<char>>::empty());
            true
        } else {
            assert(self@.contains_key(self.entries@[0].key_view()));
            false
        }
    }

    /// How many settings the map holds.
    pub fn len(&self) -> (r: usize)
        ensures
            r == self@.len(),
    {
        proof {
            use_type_invariant(self);
            self.lemma_facts();
        }
        self.entries.len()
    }
}


/// Whether a key changes without the user changing it, so that a difference in it alone
/// is not something to apply, report or ask about: window layout the game rewrites on its
/// own (where the chat, shop and death recap sit and how big the shop is), and the
/// push-to-talk key, which the client's voice settings own. The item shop's own state
/// (which tab is open) is the shop's, too.
pub open spec fn volatile(file: Seq<char>, section: Seq<char>, key: Seq<char>) -> bool {
    if file == "Game.cfg"@ {
        section == "ItemShop"@ || contains(key, "NativeOffset"@) || starts_with(key, "ItemShopPrev"@)
            || starts_with(key, "ItemShopResize"@) || key == "ChatX"@ || key == "ChatY"@
    } else if file == "Input.ini"@ {
        key == "evtPushToTalk"@
    } else {
        false
    }
}

/// Where the chat window sits is layout the game moves by itself, both of its
/// coordinates and in whatever section the game keeps them; so are the push-to-talk
/// key and the item shop's own state. None of it is a change the user made.
pub proof fn law_window_layout_is_volatile(section: Seq<char>, key: Seq<char>)
    ensures
        volatile("Game.cfg"@, section, "ChatX"@),
        volatile("Game.cfg"@, section, "ChatY"@),
        volatile("Game.cfg"@, "ItemShop"@, key),
        volatile("Input.ini"@, section, "evtPushToTalk"@),
{
    reveal_strlit("Game.cfg");
    reveal_strlit("Input.ini");
    assert("Game.cfg"@.len() == 8 && "Input.ini"@.len() == 9);
}

/// Keys that describe the machine or the game build rather than a preference.
pub open spec fn local(file: Seq<char>, section: Seq<char>, key: Seq<char>) -> bool {
    file == "Game.cfg"@ && section == "General"@ && key == "CfgVersion"@
}

/// Whether `file/section/key` is layout the game moves by itself (see [`volatile`]).
pub fn is_volatile(file: &str, section: &str, key: &str) -> (r: bool)
    ensures
        r == volatile(file@, section@, key@),
{
    if str_eq(file, "Game.cfg") {
        str_eq(section, "ItemShop") || str_contains(key, "NativeOffset") || str_starts_with(key, "ItemShopPrev")
            || str_starts_with(key, "ItemShopResize") || str_eq(key, "ChatX") || str_eq(
            key,
            "ChatY",
        )
    } else if str_eq(file, "Input.ini") {
        str_eq(key, "evtPushToTalk")
    } else {
        false
    }
}

/// Whether `file/section/key` describes the machine rather than a preference.
pub fn is_local(file: &str, section: &str, key: &str) -> (r: bool)
    ensures
        r == local(file@, section@, key@),
{
    str_eq(file, "Game.cfg") && str_eq(section, "General") && str_eq(key, "CfgVersion")
}

pub open spec fn opt_view(o: Option<String>) -> Option<Seq<char>> {
    match o {
        Some(s) => Some(s@),
        None => None,
    }
}

pub open spec fn opt_str_view(o: Option<&str>) -> Option<Seq<char>> {
    match o {
        Some(s) => Some(s@),
        None => None,
    }
}

fn opt_to_owned(o: Option<&str>) -> (r: Option<String>)
    ensures
        opt_view(r) == opt_str_view(o),
{
    match o {
        Some(s) => Some(s.to_owned()),
        None => None,
    }
}

/// One key that differs between two settings maps.
#[derive(Debug, Clone, PartialEq, Eq)]
pub struct Change {
    pub file: String,
    pub section: String,
    pub key: String,
    /// `None` when the key only exists in `to`.
    pub from: Option<String>,
    /// `None` when the key only exists in `from`.
    pub to: Option<String>,
}

impl Change {
    pub open spec fn key_view(&self) -> SettingKey {
        (self.file@, self.section@, self.key@)
    }

    pub fn new(file: &str, section: &str, key: &str, from: Option<&str>, to: Option<&str>) -> (r:
        Change)
        ensures
            r.key_view() == (file@, section@, key@),
            opt_view(r.from) == opt_str_view(from),
            opt_view(r.to) == opt_str_view(to),
    {
        Change {
            file: file.to_owned(),
            section: section.to_owned(),
            key: key.to_owned(),
            from: opt_to_owned(from),
            to: opt_to_owned(to),
        }
    }

    /// A copy of this change.
    pub fn copy(&self) -> (r: Change)
        ensures
            r.key_view() == self.key_view(),
            opt_view(r.from) == opt_view(self.from),
            opt_view(r.to) == opt_view(self.to),
    {
        Change {
            file: self.file.clone(),
            section: self.section.clone(),
            key: self.key.clone(),
            from: match &self.from {
                Some(v) => Some(v.clone()),
                None => None,
            },
            to: match &self.to {
                Some(v) => Some(v.clone()),
                None => None,
            },
        }
    }
}

/// `changes` lists, in order of where they live, exactly the keys whose value differs
/// between `from` and `to`, with the value on each side.
pub open spec fn is_diff(changes: Seq<Change>, from: SettingsView, to: SettingsView) -> bool {
    &&& forall|i: int, j: int|
        0 <= i < j < changes.len() ==> key_lt(
            #[trigger] changes[i].key_view(),
            #[trigger] changes[j].key_view(),
        )
    &&& forall|i: int|
        0 <= i < changes.len() ==> {
            let k = #[trigger] changes[i].key_view();
            &&& opt_view(changes[i].from) == from.get(k)
            &&& opt_view(changes[i].to) == to.get(k)
            &&& from.get(k) != to.get(k)
        }
    &&& forall|k: SettingKey|
        from.get(k) != to.get(k) ==> exists|i: int|
            0 <= i < changes.len() && #[trigger] changes[i].key_view() == k
}

/// `base ⊕ overlay`: the overlay's keys win, everything else comes from the base.
pub open spec fn merged(base: SettingsView, overlay: SettingsView) -> SettingsView {
    base.union_prefer_right(overlay)
}

/// The overlay that turns `base` into `target`: the keys of `target` whose value in `base`
/// is different or missing. Keys missing from `target` are left out: an overlay can only
/// override, never delete.
pub open spec fn overlay_of(base: SettingsView, target: SettingsView) -> SettingsView {
    Map::new(
        |k: SettingKey| target.contains_key(k) && base.get(k) != Some(target[k]),
        |k: SettingKey| target[k],
    )
}

/// A listing is sorted by key and every key in it is below `k`.
proof fn lemma_absent(s: Seq<(SettingKey, Seq<char>)>, k: SettingKey, j: int)
    requires
        sorted(s),
        0 <= j <= s.len(),
        forall|q: int| 0 <= q < j ==> key_lt(#[trigger] s[q].0, k),
        j < s.len() ==> key_lt(k, s[j].0),
    ensures
        !listed(s, k),
{
    if listed(s, k) {
        let q = choose|q: int| 0 <= q < s.len() && s[q].0 == k;
        lemma_key_lt_irreflexive(k);
        if q > j {
            assert(key_lt(s[j].0, s[q].0));
            lemma_key_lt_transitive(k, s[j].0, s[q].0);
        }
    }
}

/// Compares where two entries live.
fn compare_entries(x: &Entry, y: &Entry) -> (r: Order)
    ensures
        r == Order::Equal <==> x.key_view() == y.key_view(),
        r == Order::Less <==> key_lt(x.key_view(), y.key_view()),
        r == Order::Greater <==> key_lt(y.key_view(), x.key_view()),
{
    compare_key(x.file.as_str(), x.section.as_str(), x.key.as_str(), y)
}

pub open spec fn quad_pair(q: (String, String, String, String)) -> (SettingKey, Seq<char>) {
    ((q.0@, q.1@, q.2@), q.3@)
}

impl SettingsMap {
    /// A copy of this map.
    pub fn copy(&self) -> (r: SettingsMap)
        ensures
            r@ == self@,
    {
        proof {
            use_type_invariant(self);
        }
        let mut entries: Vec<Entry> = Vec::new();
        let mut i: usize = 0;
        while i < self.entries.len()
            invariant
                i <= self.entries@.len(),
                pairs_of(entries@) == pairs_of(self.entries@).take(i as int),
            decreases self.entries.len() - i,
        {
            let ghost before = entries@;
            let c = self.entries[i].copy();
            entries.push(c);
            assert(pairs_of(entries@) =~= pairs_of(before).push(c.pair()));
            i += 1;
            assert(pairs_of(entries@) =~= pairs_of(self.entries@).take(i as int));
        }
        assert(pairs_of(self.entries@).take(i as int) =~= pairs_of(self.entries@));
        SettingsMap { entries }
    }

    /// Every `(file, section, key, value)`, in order of where they live.
    pub fn iter(&self) -> (r: Vec<(String, String, String, String)>)
        ensures
            r@.map_values(|q: (String, String, String, String)| quad_pair(q)) == self.listing(),
            sorted(self.listing()),
            to_map(self.listing()) == self@,
    {
        proof {
            use_type_invariant(self);
        }
        let mut out: Vec<(String, String, String, String)> = Vec::new();
        let mut i: usize = 0;
        while i < self.entries.len()
            invariant
                i <= self.entries@.len(),
                out@.map_values(|q: (String, String, String, String)| quad_pair(q)) == pairs_of(
                    self.entries@,
                ).take(i as int),
            decreases self.entries.len() - i,
        {
            let e = &self.entries[i];
            let ghost before = out@;
            let q = (e.file.clone(), e.section.clone(), e.key.clone(), e.value.clone());
            out.push(q);
            assert(quad_pair(q) == pairs_of(self.entries@)[i as int]);
            assert(out@.map_values(|q: (String, String, String, String)| quad_pair(q)) =~= before.map_values(|q: (String, String, String, String)| quad_pair(q)).push(quad_pair(q)));
            i += 1;
            assert(out@.map_values(|q: (String, String, String, String)| quad_pair(q))
                =~= pairs_of(self.entries@).take(i as int));
        }
        assert(pairs_of(self.entries@).take(i as int) =~= pairs_of(self.entries@));
        out
    }

    /// True when every key in here is volatile layout, which includes being empty.
    pub fn is_only_volatile(&self) -> (r: bool)
        ensures
            r == forall|k: SettingKey| #[trigger] self@.contains_key(k) ==> volatile(k.0, k.1, k.2),
    {
        proof {
            use_type_invariant(self);
            self.lemma_facts();
        }
        let mut i: usize = 0;
        while i < self.entries.len()
            invariant
                i <= self.entries@.len(),
                forall|j: int|
                    0 <= j < i ==> volatile(
                        #[trigger] self.entries@[j].file@,
                        self.entries@[j].section@,
                        self.entries@[j].key@,
                    ),
            decreases self.entries.len() - i,
        {
            proof {
                use_type_invariant(self);
                self.lemma_facts();
            }
            let e = &self.entries[i];
            if !is_volatile(e.file.as_str(), e.section.as_str(), e.key.as_str()) {
                assert(self@.contains_key(self.entries@[i as int].key_view()));
                assert(!volatile(self.entries@[i as int].key_view().0, self.entries@[i as int].key_view().1, self.entries@[i as int].key_view().2));
                return false;
            }
            i += 1;
        }
        assert forall|k: SettingKey| #[trigger] self@.contains_key(k) implies volatile(
            k.0,
            k.1,
            k.2,
        ) by {
            let s = pairs_of(self.entries@);
            let j = choose|j: int| 0 <= j < s.len() && s[j].0 == k;
            assert(s[j].0 == self.entries@[j].key_view());
        }
        true
    }
}

/// Everything that has to change to get from `from` to `to`, in order of where it lives.
pub fn diff(from: &SettingsMap, to: &SettingsMap) -> (r: Vec<Change>)
    ensures
        is_diff(r@, from@, to@),
{
    proof {
        use_type_invariant(from);
        use_type_invariant(to);
        from.lemma_facts();
        to.lemma_facts();
    }
    let ghost fa = pairs_of(from.entries@);
    let ghost tb = pairs_of(to.entries@);
    let a = &from.entries;
    let b = &to.entries;
    proof {
        lemma_to_map_values(fa);
        lemma_to_map_values(tb);
        lemma_to_map_dom(fa);
        lemma_to_map_dom(tb);
    }
    let mut out: Vec<Change> = Vec::new();
    let mut i: usize = 0;
    let mut j: usize = 0;
    while i < a.len() || j < b.len()
        invariant
            a == &from.entries,
            b == &to.entries,
            fa == pairs_of(a@),
            tb == pairs_of(b@),
            sorted(fa),
            sorted(tb),
            forall|k: SettingKey| #[trigger] from@.contains_key(k) <==> listed(fa, k),
            forall|k: SettingKey| #[trigger] to@.contains_key(k) <==> listed(tb, k),
            forall|p: int|
                0 <= p < fa.len() ==> #[trigger] from@.contains_key(fa[p].0) && from@[fa[p].0]
                    == fa[p].1,
            forall|q: int|
                0 <= q < tb.len() ==> #[trigger] to@.contains_key(tb[q].0) && to@[tb[q].0]
                    == tb[q].1,
            i <= a.len(),
            j <= b.len(),
            forall|p: int, q: int|
                0 <= p < i && j <= q < tb.len() ==> key_lt(#[trigger] fa[p].0, #[trigger] tb[q].0),
            forall|p: int, q: int|
                0 <= q < j && i <= p < fa.len() ==> key_lt(#[trigger] tb[q].0, #[trigger] fa[p].0),
            forall|o: int, o2: int|
                0 <= o < o2 < out.len() ==> key_lt(
                    #[trigger] out@[o].key_view(),
                    #[trigger] out@[o2].key_view(),
                ),
            forall|o: int|
                0 <= o < out.len() ==> {
                    let k = #[trigger] out@[o].key_view();
                    &&& opt_view(out@[o].from) == from@.get(k)
                    &&& opt_view(out@[o].to) == to@.get(k)
                    &&& from@.get(k) != to@.get(k)
                    &&& (exists|p: int| 0 <= p < i && fa[p].0 == k) || (exists|q: int|
                        0 <= q < j && tb[q].0 == k)
                },
            forall|k: SettingKey|
                from@.get(k) != to@.get(k) && ((exists|p: int| 0 <= p < i && fa[p].0 == k)
                    || (exists|q: int| 0 <= q < j && tb[q].0 == k)) ==> exists|o: int|
                    0 <= o < out.len() && #[trigger] out@[o].key_view() == k,
        decreases a.len() - i + b.len() - j,
    {
        let ghost old_out = out@;
        let step: Order = if i < a.len() && j < b.len() {
            compare_entries(&a[i], &b[j])
        } else if i < a.len() {
            Order::Less
        } else {
            Order::Greater
        };
        match step {
            Order::Less => {
                let ghost k = fa[i as int].0;
                assert(fa[i as int].0 == a@[i as int].key_view());
                proof {
                    if j < b.len() {
                        assert(tb[j as int].0 == b@[j as int].key_view());
                    }
                    lemma_absent(tb, k, j as int);
                }
                let e = &a[i];
                let c = Change {
                    file: e.file.clone(),
                    section: e.section.clone(),
                    key: e.key.clone(),
                    from: Some(e.value.clone()),
                    to: None,
                };
                out.push(c);
                proof {
                    assert forall|o: int, o2: int| 0 <= o < o2 < out.len() implies key_lt(
                        #[trigger] out@[o].key_view(),
                        #[trigger] out@[o2].key_view(),
                    ) by {
                        if o2 == out.len() - 1 {
                            assert(out@[o] == old_out[o]);
                            let kk = out@[o].key_view();
                            if exists|p: int| 0 <= p < i && fa[p].0 == kk {
                                let p = choose|p: int| 0 <= p < i && fa[p].0 == kk;
                                assert(key_lt(fa[p].0, fa[i as int].0));
                            } else {
                                let q = choose|q: int| 0 <= q < j && tb[q].0 == kk;
                                assert(key_lt(tb[q].0, fa[i as int].0));
                            }
                        } else {
                            assert(out@[o] == old_out[o] && out@[o2] == old_out[o2]);
                        }
                    }
                    assert forall|p: int, q: int|
                        0 <= p < i + 1 && j <= q < tb.len() implies key_lt(
                        #[trigger] fa[p].0,
                        #[trigger] tb[q].0,
                    ) by {
                        if p == i {
                            if q > j {
                                lemma_key_lt_transitive(fa[p].0, tb[j as int].0, tb[q].0);
                            } else {
                                assert(tb[j as int].0 == b@[j as int].key_view());
                            }
                        }
                    }
                    assert forall|o: int| 0 <= o < out.len() implies {
                        let kk = #[trigger] out@[o].key_view();
                        &&& opt_view(out@[o].from) == from@.get(kk)
                        &&& opt_view(out@[o].to) == to@.get(kk)
                        &&& from@.get(kk) != to@.get(kk)
                        &&& (exists|p: int| 0 <= p < i + 1 && fa[p].0 == kk) || (exists|q: int|
                            0 <= q < j && tb[q].0 == kk)
                    } by {
                        if o < out.len() - 1 {
                            assert(out@[o] == old_out[o]);
                        } else {
                            assert(fa[i as int].0 == k);
                        }
                    }
                    assert forall|kk: SettingKey|
                        from@.get(kk) != to@.get(kk) && ((exists|p: int|
                            0 <= p < i + 1 && fa[p].0 == kk) || (exists|q: int|
                            0 <= q < j && tb[q].0 == kk)) implies exists|o: int|
                        0 <= o < out.len() && #[trigger] out@[o].key_view() == kk by {
                        if kk == k {
                            assert(out@[out.len() - 1].key_view() == kk);
                        } else {
                            if exists|p: int| 0 <= p < i + 1 && fa[p].0 == kk {
                                let p = choose|p: int| 0 <= p < i + 1 && fa[p].0 == kk;
                                assert(p < i);
                            }
                            let o = choose|o: int|
                                0 <= o < old_out.len() && #[trigger] old_out[o].key_view() == kk;
                            assert(out@[o] == old_out[o]);
                        }
                    }
                }
                i += 1;
            },
            Order::Greater => {
                let ghost k = tb[j as int].0;
                assert(tb[j as int].0 == b@[j as int].key_view());
                proof {
                    if i < a.len() {
                        assert(fa[i as int].0 == a@[i as int].key_view());
                    }
                    lemma_absent(fa, k, i as int);
                }
                let e = &b[j];
                let c = Change {
                    file: e.file.clone(),
                    section: e.section.clone(),
                    key: e.key.clone(),
                    from: None,
                    to: Some(e.value.clone()),
                };
                out.push(c);
                proof {
                    assert forall|o: int, o2: int| 0 <= o < o2 < out.len() implies key_lt(
                        #[trigger] out@[o].key_view(),
                        #[trigger] out@[o2].key_view(),
                    ) by {
                        if o2 == out.len() - 1 {
                            assert(out@[o] == old_out[o]);
                            let kk = out@[o].key_view();
                            if exists|p: int| 0 <= p < i && fa[p].0 == kk {
                                let p = choose|p: int| 0 <= p < i && fa[p].0 == kk;
                                assert(key_lt(fa[p].0, tb[j as int].0));
                            } else {
                                let q = choose|q: int| 0 <= q < j && tb[q].0 == kk;
                                assert(key_lt(tb[q].0, tb[j as int].0));
                            }
                        } else {
                            assert(out@[o] == old_out[o] && out@[o2] == old_out[o2]);
                        }
                    }
                    assert forall|p: int, q: int|
                        0 <= q < j + 1 && i <= p < fa.len() implies key_lt(
                        #[trigger] tb[q].0,
                        #[trigger] fa[p].0,
                    ) by {
                        if q == j {
                            if p > i {
                                lemma_key_lt_transitive(tb[q].0, fa[i as int].0, fa[p].0);
                            } else {
                                assert(fa[i as int].0 == a@[i as int].key_view());
                            }
                        }
                    }
                    assert forall|o: int| 0 <= o < out.len() implies {
                        let kk = #[trigger] out@[o].key_view();
                        &&& opt_view(out@[o].from) == from@.get(kk)
                        &&& opt_view(out@[o].to) == to@.get(kk)
                        &&& from@.get(kk) != to@.get(kk)
                        &&& (exists|p: int| 0 <= p < i && fa[p].0 == kk) || (exists|q: int|
                            0 <= q < j + 1 && tb[q].0 == kk)
                    } by {
                        if o < out.len() - 1 {
                            assert(out@[o] == old_out[o]);
                        } else {
                            assert(tb[j as int].0 == k);
                        }
                    }
                    assert forall|kk: SettingKey|
                        from@.get(kk) != to@.get(kk) && ((exists|p: int|
                            0 <= p < i && fa[p].0 == kk) || (exists|q: int|
                            0 <= q < j + 1 && tb[q].0 == kk)) implies exists|o: int|
                        0 <= o < out.len() && #[trigger] out@[o].key_view() == kk by {
                        if kk == k {
                            assert(out@[out.len() - 1].key_view() == kk);
                        } else {
                            if exists|q: int| 0 <= q < j + 1 && tb[q].0 == kk {
                                let q = choose|q: int| 0 <= q < j + 1 && tb[q].0 == kk;
                                assert(q < j);
                            }
                            let o = choose|o: int|
                                0 <= o < old_out.len() && #[trigger] old_out[o].key_view() == kk;
                            assert(out@[o] == old_out[o]);
                        }
                    }
                }
                j += 1;
            },
            Order::Equal => {
                let ghost k = fa[i as int].0;
                assert(fa[i as int].0 == a@[i as int].key_view());
                assert(tb[j as int].0 == b@[j as int].key_view());
                let same = a[i].value == b[j].value;
                if !same {
                    let e = &a[i];
                    let c = Change {
                        file: e.file.clone(),
                        section: e.section.clone(),
                        key: e.key.clone(),
                        from: Some(e.value.clone()),
                        to: Some(b[j].value.clone()),
                    };
                    out.push(c);
                }
                proof {
                    assert forall|o: int, o2: int| 0 <= o < o2 < out.len() implies key_lt(
                        #[trigger] out@[o].key_view(),
                        #[trigger] out@[o2].key_view(),
                    ) by {
                        if o2 == old_out.len() {
                            assert(out@[o] == old_out[o]);
                            let kk = out@[o].key_view();
                            if exists|p: int| 0 <= p < i && fa[p].0 == kk {
                                let p = choose|p: int| 0 <= p < i && fa[p].0 == kk;
                                assert(key_lt(fa[p].0, fa[i as int].0));
                            } else {
                                let q = choose|q: int| 0 <= q < j && tb[q].0 == kk;
                                assert(key_lt(tb[q].0, tb[j as int].0));
                            }
                        } else {
                            assert(out@[o] == old_out[o] && out@[o2] == old_out[o2]);
                        }
                    }
                    assert forall|p: int, q: int|
                        0 <= p < i + 1 && j + 1 <= q < tb.len() implies key_lt(
                        #[trigger] fa[p].0,
                        #[trigger] tb[q].0,
                    ) by {
                        if p == i {
                            assert(key_lt(tb[j as int].0, tb[q].0));
                        }
                    }
                    assert forall|p: int, q: int|
                        0 <= q < j + 1 && i + 1 <= p < fa.len() implies key_lt(
                        #[trigger] tb[q].0,
                        #[trigger] fa[p].0,
                    ) by {
                        if q == j {
                            assert(key_lt(fa[i as int].0, fa[p].0));
                        }
                    }
                    assert forall|o: int| 0 <= o < out.len() implies {
                        let kk = #[trigger] out@[o].key_view();
                        &&& opt_view(out@[o].from) == from@.get(kk)
                        &&& opt_view(out@[o].to) == to@.get(kk)
                        &&& from@.get(kk) != to@.get(kk)
                        &&& (exists|p: int| 0 <= p < i + 1 && fa[p].0 == kk) || (exists|q: int|
                            0 <= q < j + 1 && tb[q].0 == kk)
                    } by {
                        if o < old_out.len() {
                            assert(out@[o] == old_out[o]);
                        } else {
                            assert(fa[i as int].0 == k);
                        }
                    }
                    assert forall|kk: SettingKey|
                        from@.get(kk) != to@.get(kk) && ((exists|p: int|
                            0 <= p < i + 1 && fa[p].0 == kk) || (exists|q: int|
                            0 <= q < j + 1 && tb[q].0 == kk)) implies exists|o: int|
                        0 <= o < out.len() && #[trigger] out@[o].key_view() == kk by {
                        if kk == k {
                            assert(out@[out.len() - 1].key_view() == kk);
                        } else {
                            if exists|p: int| 0 <= p < i + 1 && fa[p].0 == kk {
                                let p = choose|p: int| 0 <= p < i + 1 && fa[p].0 == kk;
                                assert(p < i);
                            }
                            if exists|q: int| 0 <= q < j + 1 && tb[q].0 == kk {
                                let q = choose|q: int| 0 <= q < j + 1 && tb[q].0 == kk;
                                assert(q < j);
                            }
                            let o = choose|o: int|
                                0 <= o < old_out.len() && #[trigger] old_out[o].key_view() == kk;
                            assert(out@[o] == old_out[o]);
                        }
                    }
                }
                i += 1;
                j += 1;
            },
        }
    }
    proof {
        assert forall|k: SettingKey| from@.get(k) != to@.get(k) implies exists|o: int|
            0 <= o < out.len() && #[trigger] out@[o].key_view() == k by {
            if from@.contains_key(k) {
                let p = choose|p: int| 0 <= p < fa.len() && fa[p].0 == k;
                assert(p < i);
            } else {
                assert(to@.contains_key(k));
                let q = choose|q: int| 0 <= q < tb.len() && tb[q].0 == k;
                assert(q < j);
            }
        }
    }
    out
}


/// `base ⊕ overlay`: the overlay's keys win, everything else comes from the base.
pub fn merge(base: &SettingsMap, overlay: &SettingsMap) -> (r: SettingsMap)
    ensures
        r@ == merged(base@, overlay@),
{
    proof {
        use_type_invariant(overlay);
    }
    let ghost ov = pairs_of(overlay.entries@);
    let mut r = base.copy();
    let mut i: usize = 0;
    while i < overlay.entries.len()
        invariant
            i <= overlay.entries@.len(),
            ov == pairs_of(overlay.entries@),
            r@ == base@.union_prefer_right(to_map(ov.take(i as int))),
        decreases overlay.entries.len() - i,
    {
        let e = &overlay.entries[i];
        let ghost m = to_map(ov.take(i as int));
        r.set(e.file.as_str(), e.section.as_str(), e.key.as_str(), e.value.as_str());
        proof {
            assert(ov.take(i + 1).drop_last() =~= ov.take(i as int));
            assert(ov.take(i + 1).last() == e.pair());
            assert(to_map(ov.take(i + 1)) == m.insert(e.key_view(), e.value@));
            assert(base@.union_prefer_right(m).insert(e.key_view(), e.value@) =~= base@.union_prefer_right(
                m.insert(e.key_view(), e.value@),
            ));
        }
        i += 1;
    }
    assert(ov.take(i as int) =~= ov);
    r
}

/// The overlay that turns `base` into `target` (see [`overlay_of`]).
pub fn overlay_between(base: &SettingsMap, target: &SettingsMap) -> (r: SettingsMap)
    ensures
        r@ == overlay_of(base@, target@),
{
    proof {
        use_type_invariant(target);
        target.lemma_facts();
    }
    let ghost tp = pairs_of(target.entries@);
    proof {
        lemma_to_map_values(tp);
    }
    let mut out: Vec<Entry> = Vec::new();
    let mut j: usize = 0;
    while j < target.entries.len()
        invariant
            j <= target.entries@.len(),
            tp == pairs_of(target.entries@),
            sorted(tp),
            forall|q: int|
                0 <= q < tp.len() ==> #[trigger] target@.contains_key(tp[q].0) && target@[tp[q].0]
                    == tp[q].1,
            sorted(pairs_of(out@)),
            forall|o: int|
                0 <= o < out@.len() ==> exists|q: int|
                    0 <= q < j && tp[q].0 == #[trigger] pairs_of(out@)[o].0,
            forall|k: SettingKey| #[trigger]
                to_map(pairs_of(out@)).contains_key(k) <==> (exists|q: int|
                    0 <= q < j && tp[q].0 == k) && overlay_of(base@, target@).contains_key(k),
            forall|k: SettingKey| #[trigger]
                to_map(pairs_of(out@)).contains_key(k) ==> to_map(pairs_of(out@))[k] == target@[k],
        decreases target.entries.len() - j,
    {
        let e = &target.entries[j];
        assert(tp[j as int] == e.pair());
        let ghost k = e.key_view();
        proof {
            lemma_to_map_value(tp, j as int);
        }
        assert(target@.contains_key(tp[j as int].0) && target@[tp[j as int].0] == tp[j as int].1);
        let same = match base.get(e.file.as_str(), e.section.as_str(), e.key.as_str()) {
            Some(v) => str_eq(v, e.value.as_str()),
            None => false,
        };
        let ghost before = pairs_of(out@);
        if !same {
            let c = e.copy();
            out.push(c);
            proof {
                assert(pairs_of(out@) =~= before.push(c.pair()));
                assert forall|o: int| 0 <= o < before.len() implies key_lt(
                    #[trigger] before[o].0,
                    k,
                ) by {
                    let q = choose|q: int| 0 <= q < j && tp[q].0 == before[o].0;
                    assert(key_lt(tp[q].0, tp[j as int].0));
                }
                lemma_to_map_push(before, c.pair());
                lemma_to_map_dom(before);
            }
        }
        proof {
            lemma_to_map_dom(pairs_of(out@));
            lemma_to_map_dom(before);
            if !same {
                assert(overlay_of(base@, target@).contains_key(k));
            } else {
                assert(!overlay_of(base@, target@).contains_key(k));
            }
            assert forall|kk: SettingKey| #[trigger]
                to_map(pairs_of(out@)).contains_key(kk) <==> (exists|q: int|
                    0 <= q < j + 1 && tp[q].0 == kk) && overlay_of(base@, target@).contains_key(
                    kk,
                ) by {
                if kk != k {
                    if exists|q: int| 0 <= q < j + 1 && tp[q].0 == kk {
                        let q = choose|q: int| 0 <= q < j + 1 && tp[q].0 == kk;
                        assert(q < j);
                    }
                } else {
                    assert(tp[j as int].0 == kk);
                }
            }
            assert forall|o: int| 0 <= o < out@.len() implies exists|q: int|
                0 <= q < j + 1 && tp[q].0 == #[trigger] pairs_of(out@)[o].0 by {
                if o < before.len() {
                    assert(pairs_of(out@)[o] == before[o]);
                    let q = choose|q: int| 0 <= q < j && tp[q].0 == before[o].0;
                } else {
                    assert(tp[j as int].0 == pairs_of(out@)[o].0);
                }
            }
        }
        j += 1;
    }
    let r = SettingsMap { entries: out };
    proof {
        assert forall|k: SettingKey| #[trigger] r@.contains_key(k) <==> overlay_of(
            base@,
            target@,
        ).contains_key(k) by {
            if overlay_of(base@, target@).contains_key(k) {
                let q = choose|q: int| 0 <= q < tp.len() && tp[q].0 == k;
                lemma_to_map_dom(tp);
            }
        }
        assert(r@ =~= overlay_of(base@, target@));
    }
    r
}


impl Clone for SettingsMap {
    fn clone(&self) -> (r: Self)
        ensures
            r@ == self@,
    {
        self.copy()
    }
}

impl Default for SettingsMap {
    fn default() -> (r: Self)
        ensures
            r@ == Map::<SettingKey, Seq<char>>::empty(),
    {
        SettingsMap::new()
    }
}

impl PartialEq for SettingsMap {
    fn eq(&self, other: &Self) -> (r: bool) {
        proof {
            use_type_invariant(self);
            use_type_invariant(other);
            self.lemma_facts();
            other.lemma_facts();
        }
        if self.entries.len() != other.entries.len() {
            return false;
        }
        let mut i: usize = 0;
        while i < self.entries.len()
            invariant
                i <= self.entries@.len(),
                self.entries@.len() == other.entries@.len(),
                forall|j: int|
                    0 <= j < i ==> #[trigger] other@.contains_key(self.entries@[j].key_view())
                        && other@[self.entries@[j].key_view()] == self.entries@[j].value@,
            decreases self.entries.len() - i,
        {
            proof {
                use_type_invariant(self);
                self.lemma_facts();
            }
            let e = &self.entries[i];
            let same = match other.get(e.file.as_str(), e.section.as_str(), e.key.as_str()) {
                Some(v) => str_eq(v, e.value.as_str()),
                None => false,
            };
            if !same {
                assert(self@.contains_key(self.entries@[i as int].key_view()));
                return false;
            }
            assert(other@.contains_key(e.key_view()) && other@[e.key_view()] == e.value@);
            assert(self.entries@[i as int] == *e);
            assert forall|j: int| 0 <= j < i + 1 implies #[trigger] other@.contains_key(
                self.entries@[j].key_view(),
            ) && other@[self.entries@[j].key_view()] == self.entries@[j].value@ by {
                if j == i {
                    assert(self.entries@[j] == *e);
                }
            }
            i += 1;
        }
        proof {
            let s = pairs_of(self.entries@);
            assert(self@.dom().subset_of(other@.dom())) by {
                assert forall|k: SettingKey| self@.contains_key(k) implies other@.contains_key(
                    k,
                ) by {
                    let j = choose|j: int| 0 <= j < s.len() && s[j].0 == k;
                    assert(s[j].0 == self.entries@[j].key_view());
                }
            }
            vstd::set_lib::lemma_subset_equality(self@.dom(), other@.dom());
            assert forall|k: SettingKey| self@.contains_key(k) implies self@[k] == other@[k] by {
                let j = choose|j: int| 0 <= j < s.len() && s[j].0 == k;
                assert(s[j].0 == self.entries@[j].key_view());
            }
            assert(self@ =~= other@);
        }
        true
    }
}

impl vstd::std_specs::cmp::PartialEqSpecImpl for SettingsMap {
    open spec fn obeys_eq_spec() -> bool {
        true
    }

    open spec fn eq_spec(&self, other: &SettingsMap) -> bool {
        self@ == other@
    }
}


/// The settings of one section of a settings file, in file order.
pub open spec fn section_pairs(file: Seq<char>, sec: PersistedSection) -> Seq<
    (SettingKey, Seq<char>),
> {
    sec.settings@.map_values(|st: PersistedSetting| ((file, sec.name@, st.name@), st.value@))
}

/// The settings of a file's sections, in file order.
pub open spec fn sections_pairs(file: Seq<char>, secs: Seq<PersistedSection>) -> Seq<
    (SettingKey, Seq<char>),
>
    decreases secs.len(),
{
    if secs.len() == 0 {
        Seq::empty()
    } else {
        sections_pairs(file, secs.drop_last()) + section_pairs(file, secs.last())
    }
}

/// Every setting of the persisted files, in file order.
pub open spec fn files_pairs(files: Seq<PersistedFile>) -> Seq<(SettingKey, Seq<char>)>
    decreases files.len(),
{
    if files.len() == 0 {
        Seq::empty()
    } else {
        files_pairs(files.drop_last()) + sections_pairs(files.last().name@, files.last().sections@)
    }
}

/// The map a listing describes once the machine-specific keys are left out; a later entry
/// for a key wins.
pub open spec fn portable_map(s: Seq<(SettingKey, Seq<char>)>) -> SettingsView
    decreases s.len(),
{
    if s.len() == 0 {
        Map::empty()
    } else if local(s.last().0.0, s.last().0.1, s.last().0.2) {
        portable_map(s.drop_last())
    } else {
        portable_map(s.drop_last()).insert(s.last().0, s.last().1)
    }
}

/// The persisted shape is grouped: one entry per file, one per section in it, in order of
/// their names, none of them empty.
pub open spec fn grouped(files: Seq<PersistedFile>) -> bool {
    &&& forall|i: int, j: int|
        0 <= i < j < files.len() ==> chars_lt(#[trigger] files[i].name@, #[trigger] files[j].name@)
    &&& forall|i: int| 0 <= i < files.len() ==> #[trigger] sections_grouped(files[i].sections@)
}

pub open spec fn sections_grouped(secs: Seq<PersistedSection>) -> bool {
    &&& secs.len() > 0
    &&& forall|i: int, j: int|
        0 <= i < j < secs.len() ==> chars_lt(#[trigger] secs[i].name@, #[trigger] secs[j].name@)
    &&& forall|i: int| 0 <= i < secs.len() ==> #[trigger] secs[i].settings@.len() > 0
}

impl SettingsMap {
    /// The portable settings of a `PersistedSettings.json`: everything but the keys that
    /// describe the machine. A key listed twice takes its last value.
    pub fn from_persisted(persisted: &PersistedSettings) -> (r: SettingsMap)
        ensures
            r@ == portable_map(files_pairs(persisted.files@)),
    {
        let files = &persisted.files;
        let mut map = SettingsMap::new();
        let ghost mut done: Seq<(SettingKey, Seq<char>)> = Seq::empty();
        let mut fi: usize = 0;
        while fi < files.len()
            invariant
                fi <= files@.len(),
                done == files_pairs(files@.take(fi as int)),
                map@ == portable_map(done),
            decreases files.len() - fi,
        {
            let file = &files[fi];
            let ghost base = done;
            let mut si: usize = 0;
            while si < file.sections.len()
                invariant
                    si <= file.sections@.len(),
                    base == files_pairs(files@.take(fi as int)),
                    done == base + sections_pairs(file.name@, file.sections@.take(si as int)),
                    map@ == portable_map(done),
                decreases file.sections.len() - si,
            {
                let section = &file.sections[si];
                let ghost base2 = done;
                let mut ti: usize = 0;
                while ti < section.settings.len()
                    invariant
                        ti <= section.settings@.len(),
                        base2 == base + sections_pairs(
                            file.name@,
                            file.sections@.take(si as int),
                        ),
                        done == base2 + section_pairs(file.name@, *section).take(ti as int),
                        map@ == portable_map(done),
                    decreases section.settings.len() - ti,
                {
                    let setting = &section.settings[ti];
                    let ghost pair = (
                        (file.name@, section.name@, setting.name@),
                        setting.value@,
                    );
                    assert(section_pairs(file.name@, *section)[ti as int] == pair);
                    if !is_local(file.name.as_str(), section.name.as_str(), setting.name.as_str()) {
                        map.set(
                            file.name.as_str(),
                            section.name.as_str(),
                            setting.name.as_str(),
                            setting.value.as_str(),
                        );
                    }
                    proof {
                        let next = done.push(pair);
                        assert(next.drop_last() =~= done);
                        assert(next =~= base2 + section_pairs(file.name@, *section).take(
                            ti + 1,
                        ));
                        done = next;
                    }
                    ti += 1;
                }
                proof {
                    let secs = file.sections@.take(si + 1);
                    assert(secs.drop_last() =~= file.sections@.take(si as int));
                    assert(section_pairs(file.name@, *section).take(ti as int) =~= section_pairs(
                        file.name@,
                        *section,
                    ));
                    assert(done =~= base + sections_pairs(file.name@, secs));
                }
                si += 1;
            }
            proof {
                let fs = files@.take(fi + 1);
                assert(fs.drop_last() =~= files@.take(fi as int));
                assert(file.sections@.take(si as int) =~= file.sections@);
                assert(done =~= files_pairs(fs));
            }
            fi += 1;
        }
        assert(files@.take(fi as int) =~= files@);
        map
    }
}


proof fn lemma_files_pairs_last(files: Seq<PersistedFile>, f: PersistedFile)
    ensures
        files_pairs(files.push(f)) == files_pairs(files) + sections_pairs(f.name@, f.sections@),
{
    assert(files.push(f).drop_last() =~= files);
}

proof fn lemma_sections_pairs_last(file: Seq<char>, secs: Seq<PersistedSection>, s: PersistedSection)
    ensures
        sections_pairs(file, secs.push(s)) == sections_pairs(file, secs) + section_pairs(file, s),
{
    assert(secs.push(s).drop_last() =~= secs);
}

impl PersistedSettings {
    /// The persisted shape of `map`: one file per file name, one section per section
    /// name, in order, with no description.
    pub fn from_map(map: &SettingsMap) -> (r: PersistedSettings)
        ensures
            r.description is None,
            files_pairs(r.files@) == map.listing(),
            grouped(r.files@),
            sorted(map.listing()),
            to_map(map.listing()) == map@,
    {
        proof {
            use_type_invariant(map);
        }
        let ghost all = pairs_of(map.entries@);
        let mut files: Vec<PersistedFile> = Vec::new();
        let mut i: usize = 0;
        while i < map.entries.len()
            invariant
                i <= map.entries@.len(),
                all == pairs_of(map.entries@),
                sorted(all),
                files_pairs(files@) == all.take(i as int),
                grouped(files@),
                i == 0 <==> files@.len() == 0,
                i > 0 ==> files@.last().name@ == all[i - 1].0.0,
                i > 0 ==> files@.last().sections@.last().name@ == all[i - 1].0.1,
            decreases map.entries.len() - i,
        {
            let e = &map.entries[i];
            let ghost pair = e.pair();
            assert(all[i as int] == pair);
            let setting = PersistedSetting { name: e.key.clone(), value: e.value.clone() };
            let ghost before = files@;
            let new_file = if files.len() == 0 {
                true
            } else {
                let last = files.len() - 1;
                !str_eq(files[last].name.as_str(), e.file.as_str())
            };
            if new_file {
                let mut settings: Vec<PersistedSetting> = Vec::new();
                settings.push(setting);
                let section = PersistedSection { name: e.section.clone(), settings };
                let mut sections: Vec<PersistedSection> = Vec::new();
                sections.push(section);
                let file = PersistedFile { name: e.file.clone(), sections };
                assert(file.sections@ =~= seq![section]);
                assert(section.settings@ =~= seq![setting]);
                proof {
                    assert(section_pairs(file.name@, section) =~= seq![pair]);
                    lemma_sections_pairs_last(file.name@, Seq::empty(), section);
                    assert(Seq::<PersistedSection>::empty().push(section) =~= file.sections@);
                    assert(sections_pairs(file.name@, Seq::<PersistedSection>::empty()) =~= Seq::empty());
                    assert(sections_pairs(file.name@, file.sections@) =~= seq![pair]);
                    lemma_files_pairs_last(before, file);
                    if i > 0 {
                        assert(key_lt(all[i - 1].0, all[i as int].0));
                    }
                    assert forall|a: int, b: int|
                        0 <= a < b < before.len() + 1 implies chars_lt(
                        #[trigger] before.push(file)[a].name@,
                        #[trigger] before.push(file)[b].name@,
                    ) by {
                        if b == before.len() {
                            assert(i > 0);
                            if a < before.len() - 1 {
                                lemma_chars_lt_transitive(
                                    before[a].name@,
                                    before.last().name@,
                                    file.name@,
                                );
                            }
                        }
                    }
                }
                files.push(file);
                proof {
                    assert(all.take(i + 1) =~= all.take(i as int).push(pair));
                    assert(files@ =~= before.push(file));
                }
            } else {
                let mut file = files.pop().unwrap();
                let ghost fbefore = file;
                let ghost rest = files@;
                assert(before =~= rest.push(fbefore));
                assert(sections_grouped(before[before.len() - 1].sections@));
                proof {
                    lemma_chars_lt_irreflexive(all[i - 1].0.0);
                    lemma_chars_lt_irreflexive(all[i - 1].0.1);
                    assert(key_lt(all[i - 1].0, all[i as int].0));
                }
                let new_section = {
                    let last = file.sections.len() - 1;
                    !str_eq(file.sections[last].name.as_str(), e.section.as_str())
                };
                let ghost secs_before = file.sections@;
                if new_section {
                    let mut settings: Vec<PersistedSetting> = Vec::new();
                    settings.push(setting);
                    let section = PersistedSection { name: e.section.clone(), settings };
                    assert(section.settings@ =~= seq![setting]);
                    proof {
                        assert(section_pairs(file.name@, section) =~= seq![pair]);
                        lemma_sections_pairs_last(file.name@, secs_before, section);
                        assert(key_lt(all[i - 1].0, all[i as int].0));
                        assert forall|a: int, b: int|
                            0 <= a < b < secs_before.len() + 1 implies chars_lt(
                            #[trigger] secs_before.push(section)[a].name@,
                            #[trigger] secs_before.push(section)[b].name@,
                        ) by {
                            assert(sections_grouped(before[before.len() - 1].sections@));
                            if b == secs_before.len() && a < secs_before.len() - 1 {
                                lemma_chars_lt_transitive(
                                    secs_before[a].name@,
                                    secs_before.last().name@,
                                    section.name@,
                                );
                            }
                        }
                    }
                    file.sections.push(section);
                } else {
                    let mut section = file.sections.pop().unwrap();
                    let ghost sbefore = section;
                    assert(secs_before =~= file.sections@.push(sbefore));
                    section.settings.push(setting);
                    proof {
                        assert(section_pairs(file.name@, section) =~= section_pairs(
                            file.name@,
                            sbefore,
                        ).push(pair));
                        lemma_sections_pairs_last(file.name@, file.sections@, sbefore);
                        lemma_sections_pairs_last(file.name@, file.sections@, section);
                        assert(sections_grouped(before[before.len() - 1].sections@));
                    }
                    file.sections.push(section);
                    proof {
                        assert(file.sections@ =~= secs_before.update(
                            secs_before.len() - 1,
                            section,
                        ));
                    }
                }
                proof {
                    lemma_files_pairs_last(rest, fbefore);
                    lemma_files_pairs_last(rest, file);
                    assert(all.take(i + 1) =~= all.take(i as int).push(pair));
                    assert(sections_grouped(fbefore.sections@));
                    assert(sections_grouped(file.sections@)) by {
                        assert forall|a: int| 0 <= a < file.sections@.len() implies #[trigger]
                            file.sections@[a].settings@.len() > 0 by {
                            if a < secs_before.len() - 1 {
                                assert(file.sections@[a] == secs_before[a]);
                            }
                        }
                        assert forall|a: int, b: int|
                            0 <= a < b < file.sections@.len() implies chars_lt(
                            #[trigger] file.sections@[a].name@,
                            #[trigger] file.sections@[b].name@,
                        ) by {
                            if b < secs_before.len() {
                                assert(file.sections@[a] == secs_before[a]);
                                assert(file.sections@[b].name@ == secs_before[b].name@);
                            }
                        }
                    }
                }
                files.push(file);
                proof {
                    assert(files@ =~= rest.push(file));
                    assert forall|a: int| 0 <= a < files@.len() implies #[trigger] sections_grouped(
                        files@[a].sections@,
                    ) by {
                        if a < rest.len() {
                            assert(files@[a] == before[a]);
                        }
                    }
                    assert forall|a: int, b: int|
                        0 <= a < b < files@.len() implies chars_lt(
                        #[trigger] files@[a].name@,
                        #[trigger] files@[b].name@,
                    ) by {
                        assert(files@[a].name@ == before[a].name@);
                        assert(files@[b].name@ == before[b].name@);
                    }
                }
            }
            i += 1;
        }
        assert(all.take(i as int) =~= all);
        PersistedSettings { description: None, files }
    }
}


impl SettingsMap {
    /// Removes every setting of `file/section`.
    pub fn remove_section(&mut self, file: &str, section: &str)
        ensures
            final(self)@ == old(self)@.restrict(
                old(self)@.dom().filter(|k: SettingKey| !(k.0 == file@ && k.1 == section@)),
            ),
    {
        proof {
            use_type_invariant(&*self);
            self.lemma_facts();
        }
        let ghost sp = pairs_of(self.entries@);
        let ghost keep = |k: SettingKey| !(k.0 == file@ && k.1 == section@);
        let ghost goal = self@.restrict(self@.dom().filter(keep));
        proof {
            lemma_to_map_values(sp);
            lemma_to_map_dom(sp);
        }
        let mut out: Vec<Entry> = Vec::new();
        let mut j: usize = 0;
        while j < self.entries.len()
            invariant
                j <= self.entries@.len(),
                sp == pairs_of(self.entries@),
                sorted(sp),
                goal == self@.restrict(self@.dom().filter(keep)),
                keep == (|k: SettingKey| !(k.0 == file@ && k.1 == section@)),
                forall|q: int|
                    0 <= q < sp.len() ==> #[trigger] self@.contains_key(sp[q].0) && self@[sp[q].0]
                        == sp[q].1,
                forall|k: SettingKey| #[trigger] self@.contains_key(k) <==> listed(sp, k),
                sorted(pairs_of(out@)),
                forall|o: int|
                    0 <= o < out@.len() ==> exists|q: int|
                        0 <= q < j && sp[q].0 == #[trigger] pairs_of(out@)[o].0,
                forall|k: SettingKey| #[trigger]
                    to_map(pairs_of(out@)).contains_key(k) <==> (exists|q: int|
                        0 <= q < j && sp[q].0 == k) && goal.contains_key(k),
                forall|k: SettingKey| #[trigger]
                    to_map(pairs_of(out@)).contains_key(k) ==> to_map(pairs_of(out@))[k]
                        == self@[k],
            decreases self.entries.len() - j,
        {
            let e = &self.entries[j];
            assert(sp[j as int] == e.pair());
            let ghost k = e.key_view();
            assert(self@.contains_key(sp[j as int].0) && self@[sp[j as int].0] == sp[j as int].1);
            let drop = str_eq(e.file.as_str(), file) && str_eq(e.section.as_str(), section);
            let ghost before = pairs_of(out@);
            if !drop {
                let c = e.copy();
                out.push(c);
                proof {
                    assert(pairs_of(out@) =~= before.push(c.pair()));
                    assert forall|o: int| 0 <= o < before.len() implies key_lt(
                        #[trigger] before[o].0,
                        k,
                    ) by {
                        let q = choose|q: int| 0 <= q < j && sp[q].0 == before[o].0;
                        assert(key_lt(sp[q].0, sp[j as int].0));
                    }
                    lemma_to_map_push(before, c.pair());
                }
            }
            proof {
                lemma_to_map_dom(pairs_of(out@));
                lemma_to_map_dom(before);
                if !drop {
                    assert(goal.contains_key(k));
                } else {
                    assert(!goal.contains_key(k));
                }
                assert forall|kk: SettingKey| #[trigger]
                    to_map(pairs_of(out@)).contains_key(kk) <==> (exists|q: int|
                        0 <= q < j + 1 && sp[q].0 == kk) && goal.contains_key(kk) by {
                    if kk != k {
                        if exists|q: int| 0 <= q < j + 1 && sp[q].0 == kk {
                            let q = choose|q: int| 0 <= q < j + 1 && sp[q].0 == kk;
                            assert(q < j);
                        }
                    } else {
                        assert(sp[j as int].0 == kk);
                    }
                }
                assert forall|o: int| 0 <= o < out@.len() implies exists|q: int|
                    0 <= q < j + 1 && sp[q].0 == #[trigger] pairs_of(out@)[o].0 by {
                    if o < before.len() {
                        assert(pairs_of(out@)[o] == before[o]);
                        let q = choose|q: int| 0 <= q < j && sp[q].0 == before[o].0;
                    } else {
                        assert(sp[j as int].0 == pairs_of(out@)[o].0);
                    }
                }
            }
            j += 1;
        }
        proof {
            lemma_to_map_dom(pairs_of(out@));
            assert forall|k: SettingKey| #[trigger]
                to_map(pairs_of(out@)).contains_key(k) <==> goal.contains_key(k) by {
                if goal.contains_key(k) {
                    let q = choose|q: int| 0 <= q < sp.len() && sp[q].0 == k;
                }
            }
            assert(to_map(pairs_of(out@)) =~= goal);
        }
        self.entries = out;
    }

    /// The names of the files the map has settings for, in order.
    pub fn file_names(&self) -> (r: Vec<String>)
        ensures
            forall|i: int, j: int|
                0 <= i < j < r@.len() ==> chars_lt(#[trigger] r@[i]@, #[trigger] r@[j]@),
            forall|i: int| 0 <= i < r@.len() ==> has_file(self@, #[trigger] r@[i]@),
            forall|k: SettingKey| #[trigger]
                self@.contains_key(k) ==> exists|i: int| 0 <= i < r@.len() && r@[i]@ == k.0,
    {
        proof {
            use_type_invariant(self);
        }
        let ghost sp = pairs_of(self.entries@);
        let mut out: Vec<String> = Vec::new();
        let mut j: usize = 0;
        while j < self.entries.len()
            invariant
                j <= self.entries@.len(),
                sp == pairs_of(self.entries@),
                out@.map_values(|f: String| f@) == file_runs(sp.take(j as int)),
            decreases self.entries.len() - j,
        {
            let e = &self.entries[j];
            assert(sp[j as int] == e.pair());
            let ghost prev = sp.take(j as int);
            assert(sp.take(j + 1).drop_last() =~= prev);
            let fresh = out.len() == 0 || !str_eq(out[out.len() - 1].as_str(), e.file.as_str());
            let ghost before = out@;
            if fresh {
                out.push(e.file.clone());
                assert(out@.map_values(|f: String| f@) =~= before.map_values(|f: String| f@).push(
                    e.file@,
                ));
            }
            j += 1;
        }
        proof {
            assert(sp.take(j as int) =~= sp);
            use_type_invariant(self);
            self.lemma_facts();
            lemma_file_runs_sorted(sp);
            lemma_file_runs_from(sp);
            lemma_file_runs_cover(sp);
            let names = out@.map_values(|f: String| f@);
            assert forall|i: int, j: int| 0 <= i < j < out@.len() implies chars_lt(
                #[trigger] out@[i]@,
                #[trigger] out@[j]@,
            ) by {
                assert(names[i] == out@[i]@ && names[j] == out@[j]@);
            }
            assert forall|i: int| 0 <= i < out@.len() implies has_file(self@, #[trigger] out@[i]@) by {
                assert(names[i] == out@[i]@);
                let q = choose|q: int| 0 <= q < sp.len() && sp[q].0.0 == names[i];
                lemma_to_map_value(sp, q);
            }
            assert forall|k: SettingKey| #[trigger] self@.contains_key(k) implies exists|i: int|
                0 <= i < out@.len() && out@[i]@ == k.0 by {
                let q = choose|q: int| 0 <= q < sp.len() && sp[q].0 == k;
                let i = choose|i: int| 0 <= i < names.len() && names[i] == sp[q].0.0;
                assert(names[i] == out@[i]@);
            }
        }
        out
    }
}

/// The file names of a listing, with repeats in a row collapsed.
pub open spec fn file_runs(s: Seq<(SettingKey, Seq<char>)>) -> Seq<Seq<char>>
    decreases s.len(),
{
    if s.len() == 0 {
        Seq::empty()
    } else {
        let r = file_runs(s.drop_last());
        if r.len() > 0 && r.last() == s.last().0.0 {
            r
        } else {
            r.push(s.last().0.0)
        }
    }
}

proof fn lemma_file_runs_last(s: Seq<(SettingKey, Seq<char>)>)
    ensures
        s.len() > 0 ==> file_runs(s).len() > 0 && file_runs(s).last() == s.last().0.0,
{
}

proof fn lemma_file_runs_sorted(s: Seq<(SettingKey, Seq<char>)>)
    requires
        sorted(s),
    ensures
        forall|i: int, j: int|
            0 <= i < j < file_runs(s).len() ==> chars_lt(
                #[trigger] file_runs(s)[i],
                #[trigger] file_runs(s)[j],
            ),
    decreases s.len(),
{
    if s.len() > 0 {
        let t = s.drop_last();
        assert(sorted(t));
        lemma_file_runs_sorted(t);
        lemma_file_runs_last(t);
        let r = file_runs(t);
        let x = s.last().0.0;
        let rs = file_runs(s);
        if !(r.len() > 0 && r.last() == x) {
            assert(rs == r.push(x));
            if r.len() > 0 {
                assert(t.last() == s[s.len() - 2]);
                assert(key_lt(t.last().0, s.last().0));
                lemma_chars_lt_irreflexive(t.last().0.0);
                assert(chars_lt(r.last(), x));
            }
            assert forall|i: int, j: int| 0 <= i < j < rs.len() implies chars_lt(
                #[trigger] rs[i],
                #[trigger] rs[j],
            ) by {
                if j == rs.len() - 1 && i < j - 1 {
                    lemma_chars_lt_transitive(r[i], r.last(), x);
                }
            }
        }
    }
}

proof fn lemma_file_runs_step(s: Seq<(SettingKey, Seq<char>)>)
    requires
        s.len() > 0,
    ensures
        file_runs(s) == file_runs(s.drop_last()) || file_runs(s) == file_runs(s.drop_last()).push(
            s.last().0.0,
        ),
        file_runs(s).len() > 0 && file_runs(s).last() == s.last().0.0,
{
}

proof fn lemma_file_runs_from(s: Seq<(SettingKey, Seq<char>)>)
    ensures
        forall|i: int|
            0 <= i < file_runs(s).len() ==> exists|q: int|
                0 <= q < s.len() && s[q].0.0 == #[trigger] file_runs(s)[i],
    decreases s.len(),
{
    if s.len() > 0 {
        let t = s.drop_last();
        lemma_file_runs_from(t);
        lemma_file_runs_step(s);
        let r = file_runs(t);
        let rs = file_runs(s);
        assert forall|i: int| 0 <= i < rs.len() implies exists|q: int|
            0 <= q < s.len() && s[q].0.0 == #[trigger] rs[i] by {
            if i < r.len() {
                assert(rs[i] == r[i]);
                let q = choose|q: int| 0 <= q < t.len() && t[q].0.0 == r[i];
                assert(s[q] == t[q]);
            } else {
                assert(s[s.len() - 1].0.0 == rs[i]);
            }
        }
    }
}

proof fn lemma_file_runs_cover(s: Seq<(SettingKey, Seq<char>)>)
    ensures
        forall|q: int|
            0 <= q < s.len() ==> exists|i: int|
                0 <= i < file_runs(s).len() && file_runs(s)[i] == #[trigger] s[q].0.0,
    decreases s.len(),
{
    if s.len() > 0 {
        let t = s.drop_last();
        lemma_file_runs_cover(t);
        lemma_file_runs_step(s);
        let r = file_runs(t);
        let rs = file_runs(s);
        assert forall|q: int| 0 <= q < s.len() implies exists|i: int|
            0 <= i < rs.len() && rs[i] == #[trigger] s[q].0.0 by {
            if q < t.len() {
                assert(s[q] == t[q]);
                let i = choose|i: int| 0 <= i < r.len() && r[i] == t[q].0.0;
                assert(rs[i] == r[i]);
            } else {
                assert(rs[rs.len() - 1] == s[q].0.0);
            }
        }
    }
}

/// Whether `m` has some setting in file `f`.
pub open spec fn has_file(m: SettingsView, f: Seq<char>) -> bool {
    exists|k: SettingKey| #[trigger] m.contains_key(k) && k.0 == f
}


/// Reading a setting back gives what was last written to it, and writing one setting
/// leaves every other setting as it was.
pub proof fn law_get_after_set(m: SettingsView, k: SettingKey, v: Seq<char>)
    ensures
        m.insert(k, v).get(k) == Some(v),
        forall|other: SettingKey| other != k ==> #[trigger] m.insert(k, v).get(other) == m.get(other),
{
}

/// Merging onto a base the overlay between that base and a target gives the target, plus
/// the keys of the base that the target does not mention; when the target mentions every
/// key of the base, it gives the target itself.
pub proof fn law_merge_overlay_restores_target(base: SettingsView, target: SettingsView)
    ensures
        merged(base, overlay_of(base, target)) == base.union_prefer_right(target),
        base.dom().subset_of(target.dom()) ==> merged(base, overlay_of(base, target)) == target,
{
    let o = overlay_of(base, target);
    assert(merged(base, o) =~= base.union_prefer_right(target));
    if base.dom().subset_of(target.dom()) {
        assert(base.union_prefer_right(target) =~= target);
    }
}

/// Merging an empty overlay changes nothing.
pub proof fn law_merge_empty(base: SettingsView)
    ensures
        merged(base, Map::empty()) == base,
{
    assert(merged(base, Map::empty()) =~= base);
}

/// Merging is associative: applying two overlays one after the other is applying their
/// merge.
pub proof fn law_merge_associative(a: SettingsView, b: SettingsView, c: SettingsView)
    ensures
        merged(merged(a, b), c) == merged(a, merged(b, c)),
{
    assert(merged(merged(a, b), c) =~= merged(a, merged(b, c)));
}

/// Nothing differs between a map and itself.
pub proof fn law_diff_of_same(changes: Seq<Change>, m: SettingsView)
    requires
        is_diff(changes, m, m),
    ensures
        changes.len() == 0,
{
    if changes.len() > 0 {
        let k = changes[0].key_view();
        assert(m.get(k) != m.get(k));
    }
}

/// A diff lists a key exactly when its value differs, so two diffs of the same maps
/// agree on every key, and swapping the maps swaps the sides of each change.
pub proof fn law_diff_swaps(ab: Seq<Change>, ba: Seq<Change>, a: SettingsView, b: SettingsView)
    requires
        is_diff(ab, a, b),
        is_diff(ba, b, a),
    ensures
        ab.len() == ba.len(),
        forall|i: int|
            0 <= i < ab.len() ==> #[trigger] ab[i].key_view() == ba[i].key_view() && opt_view(
                ab[i].from,
            ) == opt_view(ba[i].to) && opt_view(ab[i].to) == opt_view(ba[i].from),
    decreases ab.len() + ba.len(),
{
    lemma_diff_unique(ab, ba, a, b);
}

proof fn lemma_diff_unique(ab: Seq<Change>, ba: Seq<Change>, a: SettingsView, b: SettingsView)
    requires
        is_diff(ab, a, b),
        is_diff(ba, b, a),
    ensures
        ab.len() == ba.len(),
        forall|i: int|
            0 <= i < ab.len() ==> #[trigger] ab[i].key_view() == ba[i].key_view() && opt_view(
                ab[i].from,
            ) == opt_view(ba[i].to) && opt_view(ab[i].to) == opt_view(ba[i].from),
    decreases ab.len() + ba.len(),
{
    if ab.len() > 0 && ba.len() > 0 {
        let k1 = ab[0].key_view();
        let k2 = ba[0].key_view();
        // Both lists start with the least differing key.
        assert(b.get(k1) != a.get(k1));
        let j = choose|j: int| 0 <= j < ba.len() && #[trigger] ba[j].key_view() == k1;
        assert(a.get(k2) != b.get(k2));
        let i = choose|i: int| 0 <= i < ab.len() && #[trigger] ab[i].key_view() == k2;
        lemma_key_lt_irreflexive(k1);
        lemma_key_lt_irreflexive(k2);
        if i > 0 {
            assert(key_lt(ab[0].key_view(), ab[i].key_view()));
            if j > 0 {
                assert(key_lt(ba[0].key_view(), ba[j].key_view()));
                lemma_key_lt_transitive(k1, k2, k1);
            }
        }
        let ab2 = ab.drop_first();
        let ba2 = ba.drop_first();
        let a2 = a.remove(k1);
        let b2 = b.remove(k1);
        assert(k1 == k2) by {
            if i > 0 && j == 0 {
                assert(ba[0].key_view() == k1);
            }
            if i == 0 {
                assert(ab[0].key_view() == k2);
            }
        }
        assert(is_diff(ab2, a2, b2)) by {
            assert forall|kk: SettingKey| a2.get(kk) != b2.get(kk) implies exists|x: int|
                0 <= x < ab2.len() && #[trigger] ab2[x].key_view() == kk by {
                assert(kk != k1);
                assert(a.get(kk) != b.get(kk));
                let x = choose|x: int| 0 <= x < ab.len() && #[trigger] ab[x].key_view() == kk;
                assert(x != 0);
                assert(ab2[x - 1] == ab[x]);
            }
            assert forall|x: int| 0 <= x < ab2.len() implies {
                let kk = #[trigger] ab2[x].key_view();
                &&& opt_view(ab2[x].from) == a2.get(kk)
                &&& opt_view(ab2[x].to) == b2.get(kk)
                &&& a2.get(kk) != b2.get(kk)
            } by {
                assert(ab2[x] == ab[x + 1]);
                assert(key_lt(ab[0].key_view(), ab[x + 1].key_view()));
            }
            assert forall|x: int, y: int| 0 <= x < y < ab2.len() implies key_lt(
                #[trigger] ab2[x].key_view(),
                #[trigger] ab2[y].key_view(),
            ) by {
                assert(ab2[x] == ab[x + 1] && ab2[y] == ab[y + 1]);
            }
        }
        assert(is_diff(ba2, b2, a2)) by {
            assert forall|kk: SettingKey| b2.get(kk) != a2.get(kk) implies exists|x: int|
                0 <= x < ba2.len() && #[trigger] ba2[x].key_view() == kk by {
                assert(kk != k1);
                assert(a.get(kk) != b.get(kk));
                let x = choose|x: int| 0 <= x < ba.len() && #[trigger] ba[x].key_view() == kk;
                assert(x != 0);
                assert(ba2[x - 1] == ba[x]);
            }
            assert forall|x: int| 0 <= x < ba2.len() implies {
                let kk = #[trigger] ba2[x].key_view();
                &&& opt_view(ba2[x].from) == b2.get(kk)
                &&& opt_view(ba2[x].to) == a2.get(kk)
                &&& b2.get(kk) != a2.get(kk)
            } by {
                assert(ba2[x] == ba[x + 1]);
                assert(key_lt(ba[0].key_view(), ba[x + 1].key_view()));
            }
            assert forall|x: int, y: int| 0 <= x < y < ba2.len() implies key_lt(
                #[trigger] ba2[x].key_view(),
                #[trigger] ba2[y].key_view(),
            ) by {
                assert(ba2[x] == ba[x + 1] && ba2[y] == ba[y + 1]);
            }
        }
        lemma_diff_unique(ab2, ba2, a2, b2);
        assert forall|x: int| 0 <= x < ab.len() implies #[trigger] ab[x].key_view()
            == ba[x].key_view() && opt_view(ab[x].from) == opt_view(ba[x].to) && opt_view(ab[x].to)
            == opt_view(ba[x].from) by {
            if x > 0 {
                assert(ab2[x - 1] == ab[x] && ba2[x - 1] == ba[x]);
            }
        }
    } else if ab.len() > 0 {
        let k = ab[0].key_view();
        assert(b.get(k) != a.get(k));
    } else if ba.len() > 0 {
        let k = ba[0].key_view();
        assert(a.get(k) != b.get(k));
    }
}

/// The overlay between a map and itself is empty.
pub proof fn law_overlay_of_same(m: SettingsView)
    ensures
        overlay_of(m, m) == Map::<SettingKey, Seq<char>>::empty(),
{
    assert(overlay_of(m, m) =~= Map::<SettingKey, Seq<char>>::empty());
}

/// What is read from a settings file never holds a machine-specific key.
pub proof fn law_portable_has_no_local(s: Seq<(SettingKey, Seq<char>)>)
    ensures
        forall|k: SettingKey| #[trigger] portable_map(s).contains_key(k) ==> !local(k.0, k.1, k.2),
    decreases s.len(),
{
    if s.len() > 0 {
        let t = s.drop_last();
        law_portable_has_no_local(t);
        let l = s.last();
        if local(l.0.0, l.0.1, l.0.2) {
            assert(portable_map(s) == portable_map(t));
        } else {
            assert(portable_map(s) == portable_map(t).insert(l.0, l.1));
        }
    }
}

/// A settings map without machine-specific keys survives the persisted shape: reading
/// back the listing it is written as gives the same map.
pub proof fn law_persisted_round_trip(listing: Seq<(SettingKey, Seq<char>)>, m: SettingsView)
    requires
        to_map(listing) == m,
        forall|k: SettingKey| #[trigger] m.contains_key(k) ==> !local(k.0, k.1, k.2),
    ensures
        portable_map(listing) == m,
    decreases listing.len(),
{
    lemma_to_map_dom(listing);
    if listing.len() > 0 {
        let t = listing.drop_last();
        let last = listing.last();
        assert(listed(listing, last.0));
        assert(m.contains_key(last.0));
        lemma_to_map_dom(t);
        assert forall|k: SettingKey| #[trigger] to_map(t).contains_key(k) implies !local(
            k.0,
            k.1,
            k.2,
        ) by {
            let i = choose|i: int| 0 <= i < t.len() && t[i].0 == k;
            assert(listing[i] == t[i]);
            assert(listed(listing, k));
            assert(to_map(listing).contains_key(k));
        }
        law_persisted_round_trip(t, to_map(t));
        assert(!local(last.0.0, last.0.1, last.0.2));
        assert(portable_map(listing) == portable_map(t).insert(last.0, last.1));
    }
}

} // verus!
