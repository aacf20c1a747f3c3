//! Champion names and icons and the player's profile icon, taken from the user's own
//! League client and cached on disk:
//!
//! ```text
//! cache/champions.json
//! cache/champion-icons/<id>.png
//! cache/profile-icons/<id>.jpg
//! ```

use vstd::prelude::*;

use crate::order::{items_of, lemma_map_keeps_multiset, lemma_same_elements, sort_by_text};
use crate::text::{concat, decimal, decimal_string, join_path, joined, lowercase, text_le, to_lowercase};

verus! {

broadcast use vstd::seq_lib::group_to_multiset_ensures;

/// League's data lists some champions a second time for special game modes, under ids
/// from 60000 up. Nobody picks those in a normal game.
pub const GAME_MODE_COPIES: u32 = 60000;

#[derive(Debug, Clone, PartialEq, Eq)]
pub struct Champion {
    pub id: u32,
    pub name: String,
}

/// The mastery points recorded for `id` in `entries`: the last entry for it wins, and a
/// champion never played has 0.
pub open spec fn mastery_in(entries: Seq<(u32, u64)>, id: u32) -> u64
    decreases entries.len(),
{
    if entries.len() == 0 {
        0
    } else if entries.last().0 == id {
        entries.last().1
    } else {
        mastery_in(entries.drop_last(), id)
    }
}

/// The champion cache, and the mastery of the account logged in.
#[derive(Debug, Clone, PartialEq, Eq)]
pub struct Champions {
    pub dir: String,
    /// Mastery points of the logged-in account by champion. Kept in memory only: it
    /// belongs to whoever is logged in.
    pub mastery: Vec<(u32, u64)>,
}

impl Champions {
    /// `data_dir` is mimic's data directory.
    pub fn new(data_dir: &str) -> (r: Champions)
        ensures
            r.dir@ == joined(data_dir@, "cache"@),
            r.mastery@.len() == 0,
    {
        Champions { dir: join_path(data_dir, "cache"), mastery: Vec::new() }
    }

    /// The cached list of champions.
    pub fn list_path(&self) -> (r: String)
        ensures
            r@ == joined(self.dir@, "champions.json"@),
    {
        join_path(self.dir.as_str(), "champions.json")
    }

    pub fn icons_dir(&self) -> (r: String)
        ensures
            r@ == joined(self.dir@, "champion-icons"@),
    {
        join_path(self.dir.as_str(), "champion-icons")
    }

    pub fn profile_icons_dir(&self) -> (r: String)
        ensures
            r@ == joined(self.dir@, "profile-icons"@),
    {
        join_path(self.dir.as_str(), "profile-icons")
    }

    pub fn icon_path(&self, id: u32) -> (r: String)
        ensures
            r@ == joined(joined(self.dir@, "champion-icons"@), decimal(id as nat) + ".png"@),
    {
        let dir = self.icons_dir();
        let n = decimal_string(id as u128);
        let file = concat(n.as_str(), ".png");
        join_path(dir.as_str(), file.as_str())
    }

    pub fn profile_icon_path(&self, id: u32) -> (r: String)
        ensures
            r@ == joined(joined(self.dir@, "profile-icons"@), decimal(id as nat) + ".jpg"@),
    {
        let dir = self.profile_icons_dir();
        let n = decimal_string(id as u128);
        let file = concat(n.as_str(), ".jpg");
        join_path(dir.as_str(), file.as_str())
    }

    /// Mastery points of the logged-in account on a champion; 0 if never played.
    pub fn mastery(&self, id: u32) -> (r: u64)
        ensures
            r == mastery_in(self.mastery@, id),
    {
        let mut i: usize = self.mastery.len();
        assert(self.mastery@.take(i as int) =~= self.mastery@);
        while i > 0
            invariant
                i <= self.mastery@.len(),
                mastery_in(self.mastery@, id) == mastery_in(self.mastery@.take(i as int), id),
            decreases i,
        {
            let ghost prefix = self.mastery@.take(i as int);
            assert(prefix.drop_last() =~= self.mastery@.take(i - 1));
            if self.mastery[i - 1].0 == id {
                return self.mastery[i - 1].1;
            }
            i -= 1;
        }
        0
    }

    /// Replaces the mastery with what the client reported for the account.
    pub fn set_mastery(&mut self, entries: Vec<(u32, u64)>)
        ensures
            final(self).mastery == entries,
            final(self).dir == old(self).dir,
    {
        self.mastery = entries;
    }
}

/// The champions of `cached` that a normal game can have: not the game-mode copies.
pub open spec fn playable_of(cached: Seq<Champion>) -> Seq<Champion>
    decreases cached.len(),
{
    if cached.len() == 0 {
        Seq::empty()
    } else {
        let before = playable_of(cached.drop_last());
        if cached.last().id < GAME_MODE_COPIES {
            before.push(cached.last())
        } else {
            before
        }
    }
}

/// The cached champions that a normal game can have, in their order.
pub fn playable(cached: Vec<Champion>) -> (r: Vec<Champion>)
    ensures
        r@ == playable_of(cached@),
{
    let mut out: Vec<Champion> = Vec::new();
    let mut i: usize = 0;
    while i < cached.len()
        invariant
            i <= cached@.len(),
            out@ == playable_of(cached@.take(i as int)),
        decreases cached.len() - i,
    {
        assert(cached@.take(i + 1).drop_last() =~= cached@.take(i as int));
        if cached[i].id < GAME_MODE_COPIES {
            out.push(Champion { id: cached[i].id, name: cached[i].name.clone() });
        }
        i += 1;
    }
    assert(cached@.take(i as int) =~= cached@);
    out
}

/// The name of champion `id` in `list`.
pub fn name_in(list: &[Champion], id: u32) -> (r: Option<String>)
    ensures
        r matches Some(n) ==> exists|i: int| 0 <= i < list@.len() && list@[i].id == id && list@[i].name@ == n@
            && forall|q: int| 0 <= q < i ==> #[trigger] list@[q].id != id,
        r is None ==> forall|q: int| 0 <= q < list@.len() ==> #[trigger] list@[q].id != id,
{
    let mut i: usize = 0;
    while i < list.len()
        invariant
            i <= list@.len(),
            forall|q: int| 0 <= q < i ==> #[trigger] list@[q].id != id,
        decreases list.len() - i,
    {
        if list[i].id == id {
            return Some(list[i].name.clone());
        }
        i += 1;
    }
    None
}

/// The champions in an entry list of the client's `champion-summary.json`, as
/// `(id, name)`. The list has a placeholder "None" with id -1, which is not a champion:
/// only ids from 1 that fit a `u32` count.
pub open spec fn summary_champions(summary: Seq<(i64, String)>) -> Seq<(u32, Seq<char>)>
    decreases summary.len(),
{
    if summary.len() == 0 {
        Seq::empty()
    } else {
        let before = summary_champions(summary.drop_last());
        let e = summary.last();
        if 0 < e.0 <= u32::MAX {
            before.push((e.0 as u32, e.1@))
        } else {
            before
        }
    }
}

pub fn champions_from(summary: Vec<(i64, String)>) -> (r: Vec<Champion>)
    ensures
        r@.map_values(|c: Champion| (c.id, c.name@)) == summary_champions(summary@),
{
    let mut out: Vec<Champion> = Vec::new();
    let mut i: usize = 0;
    while i < summary.len()
        invariant
            i <= summary@.len(),
            out@.map_values(|c: Champion| (c.id, c.name@)) == summary_champions(summary@.take(i as int)),
        decreases summary.len() - i,
    {
        assert(summary@.take(i + 1).drop_last() =~= summary@.take(i as int));
        let ghost before = out@;
        let (id, name) = (&summary[i].0, &summary[i].1);
        if 0 < *id && *id <= 4294967295i64 {
            let c = Champion { id: *id as u32, name: name.clone() };
            out.push(c);
            assert(out@.map_values(|c: Champion| (c.id, c.name@)) =~= before.map_values(|c: Champion| (c.id, c.name@)).push((c.id, c.name@)));
        }
        i += 1;
    }
    assert(summary@.take(i as int) =~= summary@);
    out
}

/// Champions in the order they are cached: by name, ignoring case.
pub fn order_champions(champions: Vec<Champion>) -> (r: Vec<Champion>)
    ensures
        r@.to_multiset() == champions@.to_multiset(),
        forall|i: int, j: int|
            0 <= i < j < r@.len() ==> text_le(
                lowercase(#[trigger] r@[i].name@),
                lowercase(#[trigger] r@[j].name@),
            ),
{
    let ghost c0 = champions@;
    let mut keyed: Vec<(String, Champion)> = Vec::new();
    let mut rest = champions;
    while rest.len() > 0
        invariant
            keyed@.map_values(|p: (String, Champion)| p.1) + rest@ == c0,
            forall|q: int| 0 <= q < keyed@.len() ==> (#[trigger] keyed@[q]).0@ == lowercase(keyed@[q].1.name@),
        decreases rest.len(),
    {
        let ghost k0 = keyed@;
        let c = rest.remove(0);
        let key = to_lowercase(c.name.as_str());
        keyed.push((key, c));
        assert(keyed@.map_values(|p: (String, Champion)| p.1) =~= k0.map_values(|p: (String, Champion)| p.1).push(c));
    }
    assert(keyed@.map_values(|p: (String, Champion)| p.1) =~= c0);
    let ghost ks = keyed@;
    let sorted = sort_by_text(keyed);
    let ghost ss = sorted@;
    let r = items_of(sorted);
    proof {
        lemma_map_keeps_multiset(ss, ks, |p: (String, Champion)| p.1);
        assert forall|q: int| 0 <= q < ss.len() implies (#[trigger] ss[q]).0@ == lowercase(ss[q].1.name@) by {
            lemma_same_elements(ks, ss, q);
        }
        assert forall|a: int, b: int| 0 <= a < b < r@.len() implies text_le(
            lowercase(#[trigger] r@[a].name@),
            lowercase(#[trigger] r@[b].name@),
        ) by {
            assert(r@[a] == ss[a].1 && r@[b] == ss[b].1);
        }
    }
    r
}

/// The client's path for a profile icon.
pub fn profile_icon_asset(id: u32) -> (r: String)
    ensures
        r@ == "/lol-game-data/assets/v1/profile-icons/"@ + decimal(id as nat) + ".jpg"@,
{
    let n = decimal_string(id as u128);
    let a = concat("/lol-game-data/assets/v1/profile-icons/", n.as_str());
    concat(a.as_str(), ".jpg")
}

/// The client's path for a champion's icon.
pub fn champion_icon_asset(id: u32) -> (r: String)
    ensures
        r@ == "/lol-game-data/assets/v1/champion-icons/"@ + decimal(id as nat) + ".png"@,
{
    let n = decimal_string(id as u128);
    let a = concat("/lol-game-data/assets/v1/champion-icons/", n.as_str());
    concat(a.as_str(), ".png")
}

} // verus!
