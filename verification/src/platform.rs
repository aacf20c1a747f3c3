//! Where things live on this machine: the League install, found from Riot's own
//! metadata.

use vstd::prelude::*;

use crate::json::{field, Json};
use crate::lcu::{split_chars, split_on};
use crate::text::{
    chars_of, contains, join_path, joined, starts_with, str_contains, string_of, trim, trim_chars,
};

verus! {

/// Where League installs itself when the user does not choose.
pub const DEFAULT_INSTALL: &'static str = "C:\\Riot Games\\League of Legends";

/// A League of Legends install directory (the live patchline, never PBE).
#[derive(Debug, Clone, PartialEq, Eq)]
pub struct LeagueInstall {
    root: String,
}

impl LeagueInstall {
    pub closed spec fn root_view(&self) -> Seq<char> {
        self.root@
    }

    /// The file whose presence marks a League install.
    pub fn client_exe(root: &str) -> (r: String)
        ensures
            r@ == joined(root@, "LeagueClient.exe"@),
    {
        join_path(root, "LeagueClient.exe")
    }

    /// Accepts `root` only if it looks like a League install: `has_client` says whether
    /// [`LeagueInstall::client_exe`] of it is a file.
    pub fn at(root: &str, has_client: bool) -> (r: Option<LeagueInstall>)
        ensures
            r is Some <==> has_client,
            r matches Some(i) ==> i.root_view() == root@,
    {
        if has_client {
            Some(LeagueInstall { root: root.to_owned() })
        } else {
            None
        }
    }

    pub fn root(&self) -> (r: &str)
        ensures
            r@ == self.root_view(),
    {
        self.root.as_str()
    }

    /// The settings file the client keeps for the logged-in account.
    pub fn persisted_settings(&self) -> (r: String)
        ensures
            r@ == joined(joined(self.root_view(), "Config"@), "PersistedSettings.json"@),
    {
        let config = join_path(self.root.as_str(), "Config");
        join_path(config.as_str(), "PersistedSettings.json")
    }
}

/// Index of the first character that is not `"`, or the length.
pub open spec fn unquoted_start(s: Seq<char>) -> int
    decreases s.len(),
{
    if s.len() == 0 {
        0
    } else if s[0] == '"' {
        1 + unquoted_start(s.drop_first())
    } else {
        0
    }
}

/// Index just past the last character that is not `"`, or 0.
pub open spec fn unquoted_end(s: Seq<char>) -> int
    decreases s.len(),
{
    if s.len() == 0 {
        0
    } else if s.last() == '"' {
        unquoted_end(s.drop_last())
    } else {
        s.len() as int
    }
}

/// `s` without the `"` around it (`str::trim_matches('"')`).
pub open spec fn unquoted(s: Seq<char>) -> Seq<char> {
    let a = unquoted_start(s);
    let b = unquoted_end(s);
    if a < b {
        s.subrange(a, b)
    } else {
        Seq::empty()
    }
}

proof fn lemma_unquoted_start(s: Seq<char>, a: int)
    requires
        0 <= a <= s.len(),
        forall|k: int| 0 <= k < a ==> s[k] == '"',
        a == s.len() || s[a] != '"',
    ensures
        unquoted_start(s) == a,
    decreases s.len(),
{
    if s.len() > 0 && a > 0 {
        lemma_unquoted_start(s.drop_first(), a - 1);
    }
}

proof fn lemma_unquoted_end(s: Seq<char>, b: int)
    requires
        0 <= b <= s.len(),
        forall|k: int| b <= k < s.len() ==> s[k] == '"',
        b == 0 || s[b - 1] != '"',
    ensures
        unquoted_end(s) == b,
    decreases s.len(),
{
    if s.len() > 0 && b < s.len() {
        lemma_unquoted_end(s.drop_last(), b);
    }
}

fn unquote(s: &Vec<char>) -> (r: Vec<char>)
    ensures
        r@ == unquoted(s@),
{
    let mut a: usize = 0;
    while a < s.len() && s[a] == '"'
        invariant
            a <= s.len(),
            forall|k: int| 0 <= k < a ==> s@[k] == '"',
        decreases s.len() - a,
    {
        a += 1;
    }
    let mut b: usize = s.len();
    while b > 0 && s[b - 1] == '"'
        invariant
            b <= s.len(),
            forall|k: int| b <= k < s.len() ==> s@[k] == '"',
        decreases b,
    {
        b -= 1;
    }
    proof {
        lemma_unquoted_start(s@, a as int);
        lemma_unquoted_end(s@, b as int);
    }
    let mut r: Vec<char> = Vec::new();
    if a < b {
        let mut i: usize = a;
        while i < b
            invariant
                a <= i <= b <= s.len(),
                r@ == s@.subrange(a as int, i as int),
            decreases b - i,
        {
            r.push(s[i]);
            i += 1;
            assert(r@ =~= s@.subrange(a as int, i as int));
        }
    } else {
        assert(r@ =~= Seq::<char>::empty());
    }
    r
}

/// The first line of `lines` that, trimmed, starts with the install key.
pub open spec fn install_line(lines: Seq<Seq<char>>) -> Option<Seq<char>>
    decreases lines.len(),
{
    if lines.len() == 0 {
        None
    } else if starts_with(trim(lines[0]), "product_install_full_path:"@) {
        Some(trim(lines[0]))
    } else {
        install_line(lines.drop_first())
    }
}

/// The install path in `product_install_full_path: "C:/Riot Games/League of Legends"`:
/// after the key on the first line that has it, trimmed and unquoted, if not empty.
pub open spec fn install_path_of(yaml: Seq<char>) -> Option<Seq<char>> {
    match install_line(split_on(yaml, '\n')) {
        Some(line) => {
            let path = unquoted(trim(line.skip(26)));
            if path.len() > 0 {
                Some(path)
            } else {
                None
            }
        },
        None => None,
    }
}

/// Reads `product_install_full_path: "C:/Riot Games/League of Legends"` from Riot's
/// product settings.
pub fn install_from_product_settings(yaml: &str) -> (r: Option<String>)
    ensures
        r matches Some(p) ==> install_path_of(yaml@) == Some(p@),
        r is None ==> install_path_of(yaml@) is None,
{
    proof {
        reveal_strlit("product_install_full_path:");
        assert("product_install_full_path:"@.len() == 26);
    }
    let chars = chars_of(yaml);
    let lines = split_chars(&chars, '\n');
    let ghost all = lines@.map_values(|p: Vec<char>| p@);
    let key = chars_of("product_install_full_path:");
    let mut i: usize = 0;
    assert(all.skip(0) =~= all);
    while i < lines.len()
        invariant
            all == lines@.map_values(|p: Vec<char>| p@),
            all == split_on(yaml@, '\n'),
            key@ == "product_install_full_path:"@,
            key@.len() == 26,
            i <= lines@.len(),
            install_line(all) == install_line(all.skip(i as int)),
        decreases lines.len() - i,
    {
        assert(all.skip(i as int)[0] == lines@[i as int]@);
        let line = trim_chars(&lines[i]);
        let mut has_key = line.len() >= key.len();
        let mut j: usize = 0;
        while has_key && j < key.len()
            invariant
                key@ == "product_install_full_path:"@,
                has_key ==> line@.len() >= key@.len(),
                j <= key@.len(),
                has_key ==> forall|q: int| 0 <= q < j ==> line@[q] == key@[q],
                !has_key ==> !starts_with(line@, key@),
            decreases key.len() - j,
        {
            if line[j] != key[j] {
                has_key = false;
                assert(line@.subrange(0, key@.len() as int)[j as int] != key@[j as int]);
            }
            j += 1;
        }
        if has_key {
            assert(line@.subrange(0, key@.len() as int) =~= key@);
            let mut rest: Vec<char> = Vec::new();
            let mut q: usize = key.len();
            while q < line.len()
                invariant
                    key@.len() <= q <= line@.len(),
                    rest@ == line@.subrange(key@.len() as int, q as int),
                decreases line.len() - q,
            {
                rest.push(line[q]);
                q += 1;
                assert(rest@ =~= line@.subrange(key@.len() as int, q as int));
            }
            assert(rest@ =~= line@.skip(26));
            let value = trim_chars(&rest);
            let path = unquote(&value);
            if path.len() == 0 {
                return None;
            }
            return Some(string_of(&path));
        }
        assert(all.skip(i as int).drop_first() =~= all.skip(i + 1));
        i += 1;
    }
    None
}

/// The keys of `members` that are not PBE installs, in order.
pub open spec fn live_keys(members: Seq<(String, Json)>) -> Seq<Seq<char>>
    decreases members.len(),
{
    if members.len() == 0 {
        Seq::empty()
    } else {
        let before = live_keys(members.drop_last());
        let k = members.last().0@;
        if contains(k, "(PBE)"@) {
            before
        } else {
            before.push(k)
        }
    }
}

/// The install directories listed under `associated_client` in
/// `RiotClientInstalls.json`, without PBE. `json` is `None` when the file did not read
/// as JSON.
pub open spec fn live_installs(json: Option<Json>) -> Seq<Seq<char>> {
    match json {
        Some(v) => match field(v, "associated_client"@) {
            Some(Json::Object(members)) => live_keys(members@),
            _ => Seq::empty(),
        },
        None => Seq::empty(),
    }
}

/// The install directories listed under `associated_client`, which also holds PBE.
pub fn installs_from_riot_client_installs(json: Option<&Json>) -> (r: Vec<String>)
    ensures
        r@.map_values(|s: String| s@) == live_installs(match json {
            Some(j) => Some(*j),
            None => None,
        }),
{
    let clients = match json {
        Some(v) => match v.get("associated_client") {
            Some(Json::Object(members)) => members,
            _ => return Vec::new(),
        },
        None => return Vec::new(),
    };
    let mut out: Vec<String> = Vec::new();
    let mut i: usize = 0;
    while i < clients.len()
        invariant
            i <= clients@.len(),
            out@.map_values(|s: String| s@) == live_keys(clients@.take(i as int)),
        decreases clients.len() - i,
    {
        assert(clients@.take(i + 1).drop_last() =~= clients@.take(i as int));
        let ghost before = out@;
        let key = clients[i].0.as_str();
        if !str_contains(key, "(PBE)") {
            out.push(key.to_owned());
            assert(out@.map_values(|s: String| s@) =~= before.map_values(|s: String| s@).push(key@));
        }
        i += 1;
    }
    assert(clients@.take(i as int) =~= clients@);
    out
}

/// Where to look for the install, in order: Riot's product settings, then its list of
/// installs, then the default folder.
pub fn install_candidates(product_settings: &str, client_installs: Option<&Json>) -> (r: Vec<String>)
    ensures
        r@.map_values(|s: String| s@) == (match install_path_of(product_settings@) {
            Some(p) => seq![p],
            None => Seq::<Seq<char>>::empty(),
        }) + live_installs(match client_installs {
            Some(j) => Some(*j),
            None => None,
        }) + seq![DEFAULT_INSTALL@],
{
    let mut out: Vec<String> = Vec::new();
    if let Some(p) = install_from_product_settings(product_settings) {
        out.push(p);
    }
    let mut listed = installs_from_riot_client_installs(client_installs);
    out.append(&mut listed);
    let ghost before = out@;
    out.push(DEFAULT_INSTALL.to_owned());
    assert(out@.map_values(|s: String| s@) =~= before.map_values(|s: String| s@).push(DEFAULT_INSTALL@));
    out
}

} // verus!
