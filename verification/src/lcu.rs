//! The League client (LCU): its lockfile, what its events look like, and how settings
//! are written to it.

use vstd::prelude::*;

use crate::json::{field, int_of, str_of, Json};
use crate::settings::{SettingKey, SettingsMap, SettingsView, sorted, to_map};
use crate::text::{
    chars_of, concat, debug_quoted, decimal, decimal_string, is_whitespace, push_char, quote, str_eq, string_of,
    trim, trim_chars,
};

verus! {

/// `s` cut at every `sep` (`str::split` with a character).
pub open spec fn split_on(s: Seq<char>, sep: char) -> Seq<Seq<char>>
    decreases s.len(),
{
    if s.len() == 0 {
        seq![Seq::empty()]
    } else {
        let parts = split_on(s.drop_last(), sep);
        if s.last() == sep {
            parts.push(Seq::empty())
        } else {
            parts.update(parts.len() - 1, parts.last().push(s.last()))
        }
    }
}

pub proof fn lemma_split_on_nonempty(s: Seq<char>, sep: char)
    ensures
        split_on(s, sep).len() >= 1,
    decreases s.len(),
{
    if s.len() > 0 {
        lemma_split_on_nonempty(s.drop_last(), sep);
    }
}

/// The parts of `s` between the separators.
pub fn split_chars(s: &Vec<char>, sep: char) -> (r: Vec<Vec<char>>)
    ensures
        r@.map_values(|p: Vec<char>| p@) == split_on(s@, sep),
{
    let mut done: Vec<Vec<char>> = Vec::new();
    let mut cur: Vec<char> = Vec::new();
    let mut i: usize = 0;
    while i < s.len()
        invariant
            i <= s.len(),
            done@.map_values(|p: Vec<char>| p@).push(cur@) == split_on(s@.take(i as int), sep),
        decreases s.len() - i,
    {
        let c = s[i];
        let ghost before = done@.map_values(|p: Vec<char>| p@).push(cur@);
        proof {
            assert(s@.take(i + 1).drop_last() =~= s@.take(i as int));
            assert(s@.take(i + 1).last() == c);
            lemma_split_on_nonempty(s@.take(i as int), sep);
        }
        if c == sep {
            let finished = cur;
            done.push(finished);
            cur = Vec::new();
            assert(done@.map_values(|p: Vec<char>| p@).push(cur@) =~= before.push(Seq::empty()));
        } else {
            cur.push(c);
            assert(done@.map_values(|p: Vec<char>| p@).push(cur@) =~= before.update(
                before.len() - 1,
                before.last().push(c),
            ));
        }
        i += 1;
    }
    assert(s@.take(i as int) =~= s@);
    let ghost before = done@.map_values(|p: Vec<char>| p@);
    done.push(cur);
    assert(done@.map_values(|p: Vec<char>| p@) =~= before.push(cur@));
    done
}

pub open spec fn is_digit(c: char) -> bool {
    '0' <= c && c <= '9'
}

/// The number the decimal digits `d` spell.
pub open spec fn digits_value(d: Seq<char>) -> nat
    decreases d.len(),
{
    if d.len() == 0 {
        0
    } else {
        digits_value(d.drop_last()) * 10 + ((d.last() as nat) - 48) as nat
    }
}

/// The digits of an unsigned number: without a leading `+`.
pub open spec fn unsigned_digits(s: Seq<char>) -> Seq<char> {
    if s.len() > 0 && s[0] == '+' {
        s.drop_first()
    } else {
        s
    }
}

pub open spec fn all_digits(d: Seq<char>) -> bool {
    forall|i: int| 0 <= i < d.len() ==> is_digit(#[trigger] d[i])
}

/// An unsigned integer as `str::parse` reads it: an optional `+`, then at least one
/// decimal digit and nothing else, and no more than `max`.
pub open spec fn parse_uint(s: Seq<char>, max: nat) -> Option<nat> {
    let d = unsigned_digits(s);
    if d.len() == 0 || !all_digits(d) {
        None
    } else if digits_value(d) > max {
        None
    } else {
        Some(digits_value(d))
    }
}

/// Reads an unsigned integer no greater than `max`.
pub fn parse_uint_chars(s: &Vec<char>, max: u64) -> (r: Option<u64>)
    requires
        max <= u32::MAX,
    ensures
        r matches Some(v) ==> parse_uint(s@, max as nat) == Some(v as nat),
        r is None ==> parse_uint(s@, max as nat) is None,
{
    let start: usize = if s.len() > 0 && s[0] == '+' { 1 } else { 0 };
    let ghost d = unsigned_digits(s@);
    assert(d =~= s@.skip(start as int));
    if start == s.len() {
        return None;
    }
    let mut acc: u64 = 0;
    let mut i: usize = start;
    while i < s.len()
        invariant
            start <= i <= s.len(),
            d == s@.skip(start as int),
            d == unsigned_digits(s@),
            max <= u32::MAX,
            forall|k: int| start <= k < i ==> is_digit(#[trigger] s@[k]),
            acc == if digits_value(s@.subrange(start as int, i as int)) <= max {
                digits_value(s@.subrange(start as int, i as int))
            } else {
                max as nat + 1
            },
        decreases s.len() - i,
    {
        let c = s[i];
        if !('0' <= c && c <= '9') {
            assert(d.len() == s@.len() - start);
            assert(d[i - start] == c);
            assert(!is_digit(d[i - start]));
            assert(!all_digits(d));
            assert(parse_uint(s@, max as nat) is None);
            return None;
        }
        let digit = (c as u64) - 48;
        let ghost prev = s@.subrange(start as int, i as int);
        assert(s@.subrange(start as int, i + 1).drop_last() =~= prev);
        assert(s@.subrange(start as int, i + 1).last() == c);
        let next = acc * 10 + digit;
        acc = if next > max { max + 1 } else { next };
        i += 1;
    }
    assert(s@.subrange(start as int, i as int) =~= d);
    assert forall|k: int| 0 <= k < d.len() implies is_digit(#[trigger] d[k]) by {
        assert(d[k] == s@[k + start]);
    }
    assert(all_digits(d));
    if acc > max {
        None
    } else {
        Some(acc)
    }
}

/// Why talking to the League client failed.
#[derive(Debug, Clone, PartialEq, Eq)]
pub enum LcuError {
    /// The lockfile does not have the expected shape.
    MalformedLockfile(String),
    /// Reading the lockfile failed.
    Io(String),
    /// A request to the client failed.
    Http(String),
    /// The WebSocket to the client failed.
    WebSocket(String),
    /// TLS could not be set up.
    Tls(String),
    /// The client answered a request with an error status.
    Status { path: String, status: u16, body: String },
    /// A settings file the client has no endpoint for.
    UnknownSettingsFile(String),
}

pub open spec fn lcu_error_text(e: LcuError) -> Seq<char> {
    match e {
        LcuError::MalformedLockfile(m) => "malformed lockfile: "@ + m@,
        LcuError::Io(m) => "could not read lockfile: "@ + m@,
        LcuError::Http(m) => "request to the League client failed: "@ + m@,
        LcuError::WebSocket(m) => "WebSocket to the League client failed: "@ + m@,
        LcuError::Tls(m) => "could not set up TLS: "@ + m@,
        LcuError::Status { path, status, body } => "League client answered "@ + decimal(status as nat)
            + " for "@ + path@ + ": "@ + body@,
        LcuError::UnknownSettingsFile(f) => "settings file "@ + debug_quoted(f@) + " has no LCU endpoint"@,
    }
}

impl LcuError {
    /// The sentence that describes the error.
    pub fn message(&self) -> (r: String)
        ensures
            r@ == lcu_error_text(*self),
    {
        match self {
            LcuError::MalformedLockfile(m) => concat("malformed lockfile: ", m.as_str()),
            LcuError::Io(m) => concat("could not read lockfile: ", m.as_str()),
            LcuError::Http(m) => concat("request to the League client failed: ", m.as_str()),
            LcuError::WebSocket(m) => concat("WebSocket to the League client failed: ", m.as_str()),
            LcuError::Tls(m) => concat("could not set up TLS: ", m.as_str()),
            LcuError::Status { path, status, body } => {
                let n = decimal_string(*status as u128);
                let a = concat("League client answered ", n.as_str());
                let b = concat(a.as_str(), " for ");
                let c = concat(b.as_str(), path.as_str());
                let d = concat(c.as_str(), ": ");
                concat(d.as_str(), body.as_str())
            },
            LcuError::UnknownSettingsFile(f) => {
                let q = quote(f.as_str());
                let a = concat("settings file ", q.as_str());
                concat(a.as_str(), " has no LCU endpoint")
            },
        }
    }
}

/// Connection details the League client writes to `<install>/lockfile` while it runs:
/// `LeagueClient:<pid>:<port>:<password>:<protocol>`.
#[derive(Debug, Clone, PartialEq, Eq)]
pub struct Lockfile {
    pub pid: u32,
    pub port: u16,
    pub password: String,
    pub protocol: String,
}

/// The fields of a lockfile: its trimmed contents cut at every `:`.
pub open spec fn lockfile_fields(contents: Seq<char>) -> Seq<Seq<char>> {
    split_on(trim(contents), ':')
}

/// Whether `contents` is a well-formed lockfile: five fields, of which the second is a
/// `u32` and the third a `u16`.
pub open spec fn lockfile_ok(contents: Seq<char>) -> bool {
    let f = lockfile_fields(contents);
    f.len() == 5 && parse_uint(f[1], u32::MAX as nat) is Some && parse_uint(f[2], u16::MAX as nat)
        is Some
}

/// What a malformed lockfile is reported as: how many `:`-separated fields it has.
pub open spec fn malformed_message(contents: Seq<char>) -> Seq<char> {
    decimal(split_on(contents, ':').len()) + " fields"@
}

impl Lockfile {
    /// Parses the contents of a lockfile.
    pub fn parse(contents: &str) -> (r: Result<Lockfile, LcuError>)
        ensures
            r is Ok <==> lockfile_ok(contents@),
            r matches Ok(l) ==> {
                let f = lockfile_fields(contents@);
                &&& parse_uint(f[1], u32::MAX as nat) == Some(l.pid as nat)
                &&& parse_uint(f[2], u16::MAX as nat) == Some(l.port as nat)
                &&& l.password@ == f[3]
                &&& l.protocol@ == f[4]
            },
            r matches Err(e) ==> e matches LcuError::MalformedLockfile(m) && m@ == malformed_message(
                contents@,
            ),
    {
        let all = chars_of(contents);
        let trimmed = trim_chars(&all);
        let fields = split_chars(&trimmed, ':');
        let ghost f = fields@.map_values(|p: Vec<char>| p@);
        assert(f == lockfile_fields(contents@));
        if fields.len() != 5 {
            return Err(LcuError::MalformedLockfile(malformed(&all)));
        }
        assert(f[1] == fields@[1]@ && f[2] == fields@[2]@ && f[3] == fields@[3]@ && f[4]
            == fields@[4]@);
        let pid = match parse_uint_chars(&fields[1], 4294967295) {
            Some(v) => v,
            None => {
                return Err(LcuError::MalformedLockfile(malformed(&all)));
            },
        };
        let port = match parse_uint_chars(&fields[2], 65535) {
            Some(v) => v,
            None => {
                return Err(LcuError::MalformedLockfile(malformed(&all)));
            },
        };
        Ok(Lockfile {
            pid: pid as u32,
            port: port as u16,
            password: string_of(&fields[3]),
            protocol: string_of(&fields[4]),
        })
    }

    /// `<protocol>://127.0.0.1:<port>`, where the client's REST API answers.
    pub fn base_url(&self) -> (r: String)
        ensures
            r@ == self.protocol@ + "://127.0.0.1:"@ + decimal(self.port as nat),
    {
        let head = concat(self.protocol.as_str(), "://127.0.0.1:");
        let port = decimal_string(self.port as u128);
        concat(head.as_str(), port.as_str())
    }
}

/// "<n> fields", for a lockfile with `n` fields.
fn malformed(all: &Vec<char>) -> (r: String)
    ensures
        r@ == decimal(split_on(all@, ':').len()) + " fields"@,
{
    let parts = split_chars(all, ':');
    assert(parts@.map_values(|p: Vec<char>| p@).len() == parts@.len());
    let n = decimal_string(parts.len() as u128);
    concat(n.as_str(), " fields")
}


/// One part of a keybind is empty: blank, or `[<Unbound>]`.
pub open spec fn blank_bind(part: Seq<char>) -> bool {
    trim(part).len() == 0 || trim(part) == "[<Unbound>]"@
}

/// A keybind value means no key: `""`, `"[<Unbound>]"`, `"[<Unbound>],[<Unbound>]"`...
pub open spec fn unbound(bind: Seq<char>) -> bool {
    let parts = split_on(bind, ',');
    forall|i: int| 0 <= i < parts.len() ==> blank_bind(#[trigger] parts[i])
}

/// Whether a keybind value means no key.
pub fn is_unbound(bind: &str) -> (r: bool)
    ensures
        r == unbound(bind@),
{
    let all = chars_of(bind);
    let parts = split_chars(&all, ',');
    let ghost ps = parts@.map_values(|p: Vec<char>| p@);
    let mut i: usize = 0;
    while i < parts.len()
        invariant
            i <= parts@.len(),
            ps == parts@.map_values(|p: Vec<char>| p@),
            ps == split_on(bind@, ','),
            forall|j: int| 0 <= j < i ==> blank_bind(#[trigger] ps[j]),
        decreases parts.len() - i,
    {
        assert(ps[i as int] == parts@[i as int]@);
        let t = trim_chars(&parts[i]);
        let blank = if t.len() == 0 {
            true
        } else {
            let s = string_of(&t);
            str_eq(s.as_str(), "[<Unbound>]")
        };
        if !blank {
            return false;
        }
        i += 1;
    }
    true
}

/// Which side of [`split_unbinds`] a setting goes to: keybinds being cleared come first.
pub open spec fn clears_bind(k: SettingKey, v: Seq<char>) -> bool {
    k.0 == "Input.ini"@ && unbound(v)
}

/// The settings of `m` that [`clears_bind`] puts on the side `first`.
pub open spec fn bind_part(m: SettingsView, first: bool) -> SettingsView {
    Map::new(|k: SettingKey| m.contains_key(k) && clears_bind(k, m[k]) == first, |k: SettingKey| m[k])
}

/// Splits off the keybinds that are being cleared, so that keys can be freed in a first
/// pass and bound in a second: the client allows a key on one action only.
pub fn split_unbinds(settings: &SettingsMap) -> (r: (SettingsMap, SettingsMap))
    ensures
        r.0@ == bind_part(settings@, true),
        r.1@ == bind_part(settings@, false),
{
    let all = settings.iter();
    let ghost l = settings.listing();
    proof {
        crate::settings::lemma_to_map_values(l);
        crate::settings::lemma_to_map_dom(l);
    }
    let mut unbinds = SettingsMap::new();
    let mut rest = SettingsMap::new();
    let mut i: usize = 0;
    while i < all.len()
        invariant
            i <= all@.len(),
            all@.map_values(|q: (String, String, String, String)| crate::settings::quad_pair(q)) == l,
            sorted(l),
            to_map(l) == settings@,
            forall|q: int| #![trigger l[q]] 0 <= q < l.len() ==> settings@.contains_key(l[q].0) && settings@[l[q].0] == l[q].1,
            forall|k: SettingKey| #[trigger] settings@.contains_key(k) <==> crate::settings::listed(l, k),
            unbinds@ == bind_part(to_map(l.take(i as int)), true),
            rest@ == bind_part(to_map(l.take(i as int)), false),
        decreases all.len() - i,
    {
        let q = &all[i];
        assert(l[i as int] == crate::settings::quad_pair(*q));
        let ghost k = l[i as int].0;
        let ghost prev = to_map(l.take(i as int));
        assert(l.take(i + 1).drop_last() =~= l.take(i as int));
        assert(to_map(l.take(i + 1)) == prev.insert(k, l[i as int].1));
        let first = str_eq(q.0.as_str(), "Input.ini") && is_unbound(q.3.as_str());
        if first {
            unbinds.set(q.0.as_str(), q.1.as_str(), q.2.as_str(), q.3.as_str());
        } else {
            rest.set(q.0.as_str(), q.1.as_str(), q.2.as_str(), q.3.as_str());
        }
        proof {
            assert(bind_part(prev.insert(k, l[i as int].1), true) =~= if first {
                bind_part(prev, true).insert(k, l[i as int].1)
            } else {
                bind_part(prev, true).remove(k)
            });
            assert(bind_part(prev.insert(k, l[i as int].1), false) =~= if first {
                bind_part(prev, false).remove(k)
            } else {
                bind_part(prev, false).insert(k, l[i as int].1)
            });
            crate::settings::lemma_to_map_dom(l.take(i as int));
            if crate::settings::listed(l.take(i as int), k) {
                let j = choose|j: int| 0 <= j < i && l.take(i as int)[j].0 == k;
                assert(l[j].0 == k);
                crate::settings::lemma_sorted_distinct(l, j, i as int);
            }
            assert(!prev.contains_key(k));
            assert(bind_part(prev, true).remove(k) =~= bind_part(prev, true));
            assert(bind_part(prev, false).remove(k) =~= bind_part(prev, false));
        }
        i += 1;
    }
    assert(l.take(i as int) =~= l);
    (unbinds, rest)
}

proof fn lemma_split_on_whole(a: Seq<char>, sep: char)
    requires
        forall|i: int| 0 <= i < a.len() ==> a[i] != sep,
    ensures
        split_on(a, sep) == seq![a],
    decreases a.len(),
{
    if a.len() > 0 {
        lemma_split_on_whole(a.drop_last(), sep);
        assert(a.drop_last().push(a.last()) =~= a);
        assert(seq![a.drop_last()].update(0, a.drop_last().push(a.last())) =~= seq![a]);
    } else {
        assert(a =~= Seq::<char>::empty());
    }
}

proof fn lemma_split_on_first(a: Seq<char>, sep: char, rest: Seq<char>)
    requires
        forall|i: int| 0 <= i < a.len() ==> a[i] != sep,
    ensures
        split_on(a.push(sep) + rest, sep) == seq![a] + split_on(rest, sep),
    decreases rest.len(),
{
    let x = a.push(sep) + rest;
    if rest.len() == 0 {
        assert(x =~= a.push(sep));
        assert(x.drop_last() =~= a);
        lemma_split_on_whole(a, sep);
        assert(split_on(x, sep) =~= seq![a].push(Seq::empty()));
        assert(seq![a] + split_on(rest, sep) =~= seq![a].push(Seq::empty()));
    } else {
        assert(x.drop_last() =~= a.push(sep) + rest.drop_last());
        assert(x.last() == rest.last());
        lemma_split_on_first(a, sep, rest.drop_last());
        lemma_split_on_nonempty(rest.drop_last(), sep);
        let parts = split_on(rest.drop_last(), sep);
        if rest.last() == sep {
            assert((seq![a] + parts).push(Seq::empty()) =~= seq![a] + parts.push(Seq::empty()));
        } else {
            let whole = seq![a] + parts;
            assert(whole.last() == parts.last());
            assert(whole.update(whole.len() - 1, whole.last().push(rest.last())) =~= seq![a] + parts.update(
                parts.len() - 1,
                parts.last().push(rest.last()),
            ));
        }
    }
}

/// A keybind value without a comma means no key exactly when it is blank or
/// `[<Unbound>]`; one with a comma means no key exactly when its first part does not
/// name a key and neither does the rest. So `[q],[<Unbound>]` holds the key q.
pub proof fn law_unbound_part_by_part(first: Seq<char>, rest: Seq<char>)
    requires
        forall|i: int| 0 <= i < first.len() ==> first[i] != ',',
    ensures
        unbound(first) <==> (trim(first).len() == 0 || trim(first) == "[<Unbound>]"@),
        unbound(first.push(',') + rest) <==> ((trim(first).len() == 0 || trim(first) == "[<Unbound>]"@)
            && unbound(rest)),
{
    lemma_split_on_whole(first, ',');
    lemma_split_on_first(first, ',', rest);
    let whole = seq![first] + split_on(rest, ',');
    if unbound(first.push(',') + rest) {
        assert(blank_bind(whole[0]));
        assert forall|i: int| 0 <= i < split_on(rest, ',').len() implies blank_bind(
            #[trigger] split_on(rest, ',')[i],
        ) by {
            assert(whole[i + 1] == split_on(rest, ',')[i]);
        }
    }
    if blank_bind(first) && unbound(rest) {
        assert forall|i: int| 0 <= i < whole.len() implies blank_bind(#[trigger] whole[i]) by {
            if i > 0 {
                assert(whole[i] == split_on(rest, ',')[i - 1]);
            }
        }
    }
    assert(unbound(first) ==> blank_bind(seq![first][0]));
}

/// Writing the cleared keybinds and then the rest writes every setting exactly once:
/// the two parts do not overlap and together are the whole.
pub proof fn law_unbinds_partition(m: SettingsView)
    ensures
        bind_part(m, true).dom().disjoint(bind_part(m, false).dom()),
        bind_part(m, true).union_prefer_right(bind_part(m, false)) == m,
{
    assert(bind_part(m, true).union_prefer_right(bind_part(m, false)) =~= m);
}

/// The endpoint that takes a settings file.
pub open spec fn endpoint_of(file: Seq<char>) -> Option<Seq<char>> {
    if file == "Game.cfg"@ {
        Some("/lol-game-settings/v1/game-settings"@)
    } else if file == "Input.ini"@ {
        Some("/lol-game-settings/v1/input-settings"@)
    } else {
        None
    }
}

/// The client endpoint that takes the settings of `file`.
pub fn settings_endpoint(file: &str) -> (r: Result<&'static str, LcuError>)
    ensures
        r matches Ok(path) ==> endpoint_of(file@) == Some(path@),
        r matches Err(e) ==> endpoint_of(file@) is None && (e matches LcuError::UnknownSettingsFile(
            f,
        ) && f@ == file@),
{
    if str_eq(file, "Game.cfg") {
        Ok("/lol-game-settings/v1/game-settings")
    } else if str_eq(file, "Input.ini") {
        Ok("/lol-game-settings/v1/input-settings")
    } else {
        Err(LcuError::UnknownSettingsFile(file.to_owned()))
    }
}

/// The logged-in account, from `/lol-summoner/v1/current-summoner`.
#[derive(Debug, Clone, PartialEq, Eq)]
pub struct Summoner {
    pub puuid: String,
    pub game_name: String,
    pub tag_line: String,
    pub profile_icon_id: u32,
    pub summoner_level: u32,
}

impl Summoner {
    /// An account with no name and no id.
    pub fn empty() -> (r: Summoner)
        ensures
            r.puuid@.len() == 0 && r.game_name@.len() == 0 && r.tag_line@.len() == 0,
            r.profile_icon_id == 0 && r.summoner_level == 0,
    {
        Summoner {
            puuid: String::new(),
            game_name: String::new(),
            tag_line: String::new(),
            profile_icon_id: 0,
            summoner_level: 0,
        }
    }

    pub fn copy(&self) -> (r: Summoner)
        ensures
            r == *self,
    {
        Summoner {
            puuid: self.puuid.clone(),
            game_name: self.game_name.clone(),
            tag_line: self.tag_line.clone(),
            profile_icon_id: self.profile_icon_id,
            summoner_level: self.summoner_level,
        }
    }
}

/// The value as a `u32`, when it is an integer in range (what serde reads into one).
pub open spec fn u32_of(j: Json) -> Option<u32> {
    match j {
        Json::Int(v) => if 0 <= v <= u32::MAX {
            Some(v as u32)
        } else {
            None
        },
        _ => None,
    }
}

pub fn as_u32(j: &Json) -> (r: Option<u32>)
    ensures
        r == u32_of(*j),
{
    match j {
        Json::Int(v) => if 0 <= *v && *v <= 4294967295i128 {
            Some(*v as u32)
        } else {
            None
        },
        _ => None,
    }
}

/// A number field that may be left out: 0 when absent, a `u32` when present.
pub open spec fn count_field(j: Option<Json>) -> Option<u32> {
    match j {
        Some(v) => u32_of(v),
        None => Some(0u32),
    }
}

/// The fields of an account as serde reads them: `puuid`, `gameName` and `tagLine`,
/// then `profileIconId` and `summonerLevel`, which default to 0, from an object, or the
/// same in that order from an array of three to five.
pub open spec fn summoner_fields(j: Json) -> Option<(Seq<char>, Seq<char>, Seq<char>, u32, u32)> {
    let parts: Option<(Json, Json, Json, Option<Json>, Option<Json>)> = match j {
        Json::Object(members) => match (
            crate::json::find_member(members@, "puuid"@),
            crate::json::find_member(members@, "gameName"@),
            crate::json::find_member(members@, "tagLine"@),
        ) {
            (Some(a), Some(b), Some(c)) => Some(
                (
                    a,
                    b,
                    c,
                    crate::json::find_member(members@, "profileIconId"@),
                    crate::json::find_member(members@, "summonerLevel"@),
                ),
            ),
            _ => None,
        },
        Json::Array(items) => if 3 <= items@.len() <= 5 {
            Some(
                (
                    items@[0],
                    items@[1],
                    items@[2],
                    if items@.len() >= 4 {
                        Some(items@[3])
                    } else {
                        None
                    },
                    if items@.len() == 5 {
                        Some(items@[4])
                    } else {
                        None
                    },
                ),
            )
        } else {
            None
        },
        _ => None,
    };
    match parts {
        Some((a, b, c, d, e)) => match (str_of(a), str_of(b), str_of(c), count_field(d), count_field(e)) {
            (Some(p), Some(g), Some(t), Some(i), Some(l)) => Some((p, g, t, i, l)),
            _ => None,
        },
        None => None,
    }
}

fn count_of(j: Option<&Json>) -> (r: Option<u32>)
    ensures
        r == count_field(match j {
            Some(v) => Some(*v),
            None => None,
        }),
{
    match j {
        Some(v) => as_u32(v),
        None => Some(0),
    }
}

impl Default for Summoner {
    fn default() -> (r: Summoner)
        ensures
            r.puuid@.len() == 0 && r.game_name@.len() == 0 && r.tag_line@.len() == 0,
            r.profile_icon_id == 0 && r.summoner_level == 0,
    {
        Summoner::empty()
    }
}

impl Summoner {
    /// The account in `data`, as the client sends it for the current summoner.
    pub fn from_json(data: &Json) -> (r: Option<Summoner>)
        ensures
            r is Some <==> summoner_fields(*data) is Some,
            r matches Some(s) ==> summoner_fields(*data) == Some(
                (s.puuid@, s.game_name@, s.tag_line@, s.profile_icon_id, s.summoner_level),
            ),
    {
        let (a, b, c, d, e) = match data {
            Json::Object(_) => {
                let a = data.get("puuid");
                let b = data.get("gameName");
                let c = data.get("tagLine");
                match (a, b, c) {
                    (Some(a), Some(b), Some(c)) => (a, b, c, data.get("profileIconId"), data.get("summonerLevel")),
                    _ => return None,
                }
            },
            Json::Array(items) => {
                if items.len() < 3 || items.len() > 5 {
                    return None;
                }
                let d = if items.len() >= 4 {
                    Some(&items[3])
                } else {
                    None
                };
                let e = if items.len() == 5 {
                    Some(&items[4])
                } else {
                    None
                };
                (&items[0], &items[1], &items[2], d, e)
            },
            _ => return None,
        };
        match (a.as_str(), b.as_str(), c.as_str(), count_of(d), count_of(e)) {
            (Some(p), Some(g), Some(t), Some(i), Some(l)) => Some(
                Summoner {
                    puuid: p.to_owned(),
                    game_name: g.to_owned(),
                    tag_line: t.to_owned(),
                    profile_icon_id: i,
                    summoner_level: l,
                },
            ),
            _ => None,
        }
    }
}

/// One change pushed by the client over its WebSocket.
#[derive(Debug, PartialEq)]
pub struct LcuEvent {
    /// The REST path whose resource changed, e.g. `/lol-gameflow/v1/gameflow-phase`.
    pub uri: String,
    /// `Create`, `Update` or `Delete`.
    pub event_type: String,
    pub data: Json,
}

/// What an event object holds: `uri`, `eventType` and `data` (`null` when absent), as
/// members or, in that order, as the elements of an array of two or three.
pub open spec fn event_body(j: Json) -> Option<(Seq<char>, Seq<char>, Json)> {
    match j {
        Json::Object(members) => {
            let uri = crate::json::find_member(members@, "uri"@);
            let kind = crate::json::find_member(members@, "eventType"@);
            let data = crate::json::find_member(members@, "data"@);
            match (uri, kind) {
                (Some(Json::Str(u)), Some(Json::Str(t))) => Some(
                    (
                        u@,
                        t@,
                        match data {
                            Some(d) => d,
                            None => Json::Null,
                        },
                    ),
                ),
                _ => None,
            }
        },
        Json::Array(items) => {
            if (items@.len() == 2 || items@.len() == 3) && items@[0] is Str && items@[1] is Str {
                Some(
                    (
                        items@[0]->Str_0@,
                        items@[1]->Str_0@,
                        if items@.len() == 3 {
                            items@[2]
                        } else {
                            Json::Null
                        },
                    ),
                )
            } else {
                None
            }
        },
        _ => None,
    }
}

/// The event in a WebSocket frame `[8, "<topic>", {...}]`; anything else is not an event.
pub open spec fn event_of_frame(frame: Json) -> Option<(Seq<char>, Seq<char>, Json)> {
    match frame {
        Json::Array(items) => if items@.len() == 3 && items@[0] == Json::Int(8) && items@[1] is Str {
            event_body(items@[2])
        } else {
            None
        },
        _ => None,
    }
}

/// Removes and returns the first member named `key`.
fn take_member(members: &mut Vec<(String, Json)>, key: &str) -> (r: Option<Json>)
    ensures
        r == crate::json::find_member(old(members)@, key@),
{
    let mut i: usize = 0;
    assert(members@.skip(0) =~= members@);
    while i < members.len()
        invariant
            i <= members@.len(),
            members@ == old(members)@,
            crate::json::find_member(members@, key@) == crate::json::find_member(
                members@.skip(i as int),
                key@,
            ),
        decreases members.len() - i,
    {
        assert(members@.skip(i as int)[0] == members@[i as int]);
        if str_eq(members[i].0.as_str(), key) {
            assert(crate::json::find_member(members@.skip(i as int), key@) == Some(
                members@[i as int].1,
            ));
            let (_, v) = members.remove(i);
            return Some(v);
        }
        assert(members@.skip(i as int).drop_first() =~= members@.skip(i + 1));
        i += 1;
    }
    None
}

fn take_string(members: &mut Vec<(String, Json)>, key: &str) -> (r: Option<String>)
    ensures
        r matches Some(s) ==> (crate::json::find_member(old(members)@, key@) matches Some(Json::Str(t))
            && t@ == s@),
        r is None ==> !(crate::json::find_member(old(members)@, key@) matches Some(Json::Str(_))),
{
    match take_member(members, key) {
        Some(Json::Str(s)) => Some(s),
        _ => None,
    }
}

impl LcuEvent {
    /// The event in a text frame: `frame` is the frame read as JSON, `None` when it did
    /// not read as JSON, which is no event either.
    pub fn parse(frame: Option<Json>) -> (r: Option<LcuEvent>)
        ensures
            frame is None ==> r is None,
            frame matches Some(f) ==> (r matches Some(e) ==> event_of_frame(f) == Some((e.uri@, e.event_type@, e.data))),
            frame matches Some(f) ==> (r is None ==> event_of_frame(f) is None),
    {
        match frame {
            Some(f) => LcuEvent::from_frame(f),
            None => None,
        }
    }

    /// The event a frame carries, if it is an event frame.
    pub fn from_frame(frame: Json) -> (r: Option<LcuEvent>)
        ensures
            r matches Some(e) ==> event_of_frame(frame) == Some((e.uri@, e.event_type@, e.data)),
            r is None ==> event_of_frame(frame) is None,
    {
        let ghost original = frame;
        match frame {
            Json::Array(mut items) => {
                if items.len() != 3 {
                    return None;
                }
                let opcode_ok = match &items[0] {
                    Json::Int(v) => *v == 8,
                    _ => false,
                };
                let topic_ok = match &items[1] {
                    Json::Str(_) => true,
                    _ => false,
                };
                if !opcode_ok || !topic_ok {
                    return None;
                }
                let ghost body = items@[2];
                let last = items.pop();
                match last {
                    Some(b) => {
                        assert(b == body);
                        let r = LcuEvent::from_body(b);
                        r
                    },
                    None => None,
                }
            },
            _ => None,
        }
    }

    fn from_body(body: Json) -> (r: Option<LcuEvent>)
        ensures
            r matches Some(e) ==> event_body(body) == Some((e.uri@, e.event_type@, e.data)),
            r is None ==> event_body(body) is None,
    {
        let ghost original = body;
        match body {
            Json::Object(mut members) => {
                let ghost m0 = members@;
                let uri = match &take_member_ref(&members, "uri") {
                    Some(s) => s.clone(),
                    None => {
                        return None;
                    },
                };
                let event_type = match &take_member_ref(&members, "eventType") {
                    Some(s) => s.clone(),
                    None => {
                        return None;
                    },
                };
                let data = match take_member(&mut members, "data") {
                    Some(d) => d,
                    None => Json::Null,
                };
                Some(LcuEvent { uri, event_type, data })
            },
            Json::Array(mut items) => {
                let n = items.len();
                if n != 2 && n != 3 {
                    return None;
                }
                let ghost i0 = items@;
                let data = if n == 3 {
                    match items.pop() {
                        Some(d) => d,
                        None => Json::Null,
                    }
                } else {
                    Json::Null
                };
                assert(items@.len() == 2);
                assert(items@[0] == i0[0] && items@[1] == i0[1]);
                let event_type = match items.pop() {
                    Some(Json::Str(t)) => t,
                    _ => {
                        return None;
                    },
                };
                let uri = match items.pop() {
                    Some(Json::Str(u)) => u,
                    _ => {
                        return None;
                    },
                };
                Some(LcuEvent { uri, event_type, data })
            },
            _ => None,
        }
    }
}

/// The text of the first member named `key`, when it is a string.
fn take_member_ref(members: &Vec<(String, Json)>, key: &str) -> (r: Option<String>)
    ensures
        r matches Some(s) ==> (crate::json::find_member(members@, key@) matches Some(Json::Str(t))
            && t@ == s@),
        r is None ==> !(crate::json::find_member(members@, key@) matches Some(Json::Str(_))),
{
    let mut i: usize = 0;
    assert(members@.skip(0) =~= members@);
    while i < members.len()
        invariant
            i <= members@.len(),
            crate::json::find_member(members@, key@) == crate::json::find_member(
                members@.skip(i as int),
                key@,
            ),
        decreases members.len() - i,
    {
        assert(members@.skip(i as int)[0] == members@[i as int]);
        if str_eq(members[i].0.as_str(), key) {
            assert(crate::json::find_member(members@.skip(i as int), key@) == Some(
                members@[i as int].1,
            ));
            return match &members[i].1 {
                Json::Str(s) => Some(s.clone()),
                _ => None,
            };
        }
        assert(members@.skip(i as int).drop_first() =~= members@.skip(i + 1));
        i += 1;
    }
    None
}

/// The base64 digit for a value below 64, in the standard alphabet.
pub open spec fn b64_digit(v: int) -> char {
    if v < 26 {
        (65 + v) as char
    } else if v < 52 {
        (97 + v - 26) as char
    } else if v < 62 {
        (48 + v - 52) as char
    } else if v == 62 {
        '+'
    } else {
        '/'
    }
}

/// `bytes` in base64 with the standard alphabet and `=` padding (RFC 4648).
pub open spec fn base64(bytes: Seq<u8>) -> Seq<char>
    decreases bytes.len(),
{
    if bytes.len() == 0 {
        Seq::empty()
    } else if bytes.len() == 1 {
        let b0 = bytes[0] as int;
        seq![b64_digit(b0 / 4), b64_digit((b0 % 4) * 16), '=', '=']
    } else if bytes.len() == 2 {
        let b0 = bytes[0] as int;
        let b1 = bytes[1] as int;
        seq![b64_digit(b0 / 4), b64_digit((b0 % 4) * 16 + b1 / 16), b64_digit((b1 % 16) * 4), '=']
    } else {
        let b0 = bytes[0] as int;
        let b1 = bytes[1] as int;
        let b2 = bytes[2] as int;
        seq![
            b64_digit(b0 / 4),
            b64_digit((b0 % 4) * 16 + b1 / 16),
            b64_digit((b1 % 16) * 4 + b2 / 64),
            b64_digit(b2 % 64),
        ] + base64(bytes.skip(3))
    }
}

/// `bytes` in base64 with the standard alphabet and padding, as
/// `base64::engine::general_purpose::STANDARD.encode` writes it. It panics only when
/// the length of the result does not fit a `usize`, which `requires` rules out.
#[verifier::external_body]
fn base64_standard(bytes: &[u8]) -> (r: String)
    requires
        (bytes@.len() + 2) / 3 * 4 <= usize::MAX,
    ensures
        r@ == base64(bytes@),
{
    base64::Engine::encode(&base64::engine::general_purpose::STANDARD, bytes)
}

/// Encoding two texts one after the other gives the bytes of each, one after the other.
pub proof fn lemma_encode_utf8_concat(a: Seq<char>, b: Seq<char>)
    ensures
        vstd::utf8::encode_utf8(a + b) == vstd::utf8::encode_utf8(a) + vstd::utf8::encode_utf8(b),
    decreases a.len(),
{
    if a.len() > 0 {
        assert((a + b).drop_first() =~= a.drop_first() + b);
        lemma_encode_utf8_concat(a.drop_first(), b);
        assert(vstd::utf8::encode_utf8(a + b) =~= vstd::utf8::encode_utf8(a) + vstd::utf8::encode_utf8(b));
    } else {
        assert(a + b =~= b);
        assert(vstd::utf8::encode_utf8(a) =~= Seq::<u8>::empty());
        assert(vstd::utf8::encode_utf8(a + b) =~= vstd::utf8::encode_utf8(a) + vstd::utf8::encode_utf8(b));
    }
}

/// The `Authorization` header value for the client's WebSocket: Basic authentication
/// as user `riot` with the lockfile's password.
pub fn basic_authorization(password: &str) -> (r: String)
    requires
        (5 + vstd::utf8::encode_utf8(password@).len() + 2) / 3 * 4 <= usize::MAX,
    ensures
        r@ == "Basic "@ + base64(vstd::utf8::encode_utf8("riot:"@ + password@)),
{
    let credentials = concat("riot:", password);
    proof {
        reveal_strlit("riot:");
        lemma_encode_utf8_concat("riot:"@, password@);
        assert(vstd::utf8::encode_utf8("riot:"@).len() == 5) by {
            vstd::utf8::is_ascii_chars_encode_utf8("riot:"@);
        }
    }
    let encoded = base64_standard(credentials.as_str().as_bytes());
    concat("Basic ", encoded.as_str())
}

/// Where the client's WebSocket listens.
pub fn websocket_url(port: u16) -> (r: String)
    ensures
        r@ == "wss://127.0.0.1:"@ + decimal(port as nat) + "/"@,
{
    let n = decimal_string(port as u128);
    let a = concat("wss://127.0.0.1:", n.as_str());
    concat(a.as_str(), "/")
}

} // verus!
