//! Sorting lists by a key: by text for names, by number for ids and times.

use vstd::multiset::Multiset;
use vstd::prelude::*;

use crate::text::{
    chars_lt, compare_str, lemma_chars_lt_irreflexive, lemma_chars_lt_total,
    lemma_chars_lt_transitive, text_le, Order,
};

verus! {

broadcast use vstd::seq_lib::group_to_multiset_ensures;

/// The keys never go down along `s`.
pub open spec fn text_sorted<T>(s: Seq<(String, T)>) -> bool {
    forall|i: int, j: int| 0 <= i < j < s.len() ==> text_le(#[trigger] s[i].0@, #[trigger] s[j].0@)
}

/// The keys never go down along `s`, or never go up when `descending`.
pub open spec fn number_sorted<T>(s: Seq<(i128, T)>, descending: bool) -> bool {
    forall|i: int, j: int|
        0 <= i < j < s.len() ==> if descending {
            #[trigger] s[i].0 >= #[trigger] s[j].0
        } else {
            s[i].0 <= s[j].0
        }
}

proof fn lemma_text_le_transitive(a: Seq<char>, b: Seq<char>, c: Seq<char>)
    requires
        text_le(a, b),
        text_le(b, c),
    ensures
        text_le(a, c),
{
    if chars_lt(a, b) && chars_lt(b, c) {
        lemma_chars_lt_transitive(a, b, c);
    }
}

/// Two sequences with the same elements still have the same elements after one map.
pub proof fn lemma_map_keeps_multiset<A, B>(s1: Seq<A>, s2: Seq<A>, f: spec_fn(A) -> B)
    requires
        s1.to_multiset() == s2.to_multiset(),
    ensures
        s1.map_values(f).to_multiset() == s2.map_values(f).to_multiset(),
    decreases s1.len(),
{
    broadcast use vstd::multiset::group_multiset_axioms;

    if s1.len() == 0 {
        assert(s2.to_multiset().len() == 0);
        assert(s1.map_values(f) =~= Seq::<B>::empty());
        assert(s2.map_values(f) =~= Seq::<B>::empty());
    } else {
        let x = s1[0];
        assert(s1.contains(x));
        assert(s1.to_multiset().count(x) > 0);
        assert(s2.contains(x));
        let k = choose|k: int| 0 <= k < s2.len() && s2[k] == x;
        let t1 = s1.remove(0);
        let t2 = s2.remove(k);
        assert(t1.to_multiset() == s1.to_multiset().remove(x));
        assert(t2.to_multiset() == s2.to_multiset().remove(x));
        lemma_map_keeps_multiset(t1, t2, f);
        assert(s1.map_values(f) =~= t1.map_values(f).insert(0, f(x)));
        assert(s2.map_values(f) =~= t2.map_values(f).insert(k, f(x)));
        assert(t1.map_values(f).insert(0, f(x)).to_multiset() == t1.map_values(f).to_multiset().insert(f(x)));
        assert(t2.map_values(f).insert(k, f(x)).to_multiset() == t2.map_values(f).to_multiset().insert(f(x)));
    }
}

/// The pairs of `v` ordered by their text, with the items kept.
pub fn sort_by_text<T>(v: Vec<(String, T)>) -> (r: Vec<(String, T)>)
    ensures
        r@.to_multiset() == v@.to_multiset(),
        text_sorted(r@),
{
    let ghost all = v@.to_multiset();
    let mut rest = v;
    let mut out: Vec<(String, T)> = Vec::new();
    assert(out@.to_multiset() =~= Multiset::empty());
    while rest.len() > 0
        invariant
            out@.to_multiset().add(rest@.to_multiset()) == all,
            text_sorted(out@),
        decreases rest.len(),
    {
        let ghost rest0 = rest@;
        let x = rest.remove(0);
        assert(rest@.to_multiset() == rest0.to_multiset().remove(x)) by {
            assert(rest@ == rest0.remove(0));
        }
        let mut j: usize = out.len();
        loop
            invariant
                j <= out@.len(),
                text_sorted(out@),
                forall|q: int| j <= q < out@.len() ==> chars_lt(x.0@, #[trigger] out@[q].0@),
            ensures
                j <= out@.len(),
                forall|q: int| j <= q < out@.len() ==> chars_lt(x.0@, #[trigger] out@[q].0@),
                j == 0 || !chars_lt(x.0@, out@[j - 1].0@),
            decreases j,
        {
            if j == 0 {
                break;
            }
            match compare_str(x.0.as_str(), out[j - 1].0.as_str()) {
                Order::Less => {
                    j = j - 1;
                },
                _ => {
                    proof {
                        lemma_chars_lt_irreflexive(x.0@);
                    }
                    break;
                },
            }
        }
        proof {
            if j > 0 {
                lemma_chars_lt_total(x.0@, out@[j - 1].0@);
                assert(text_le(out@[j - 1].0@, x.0@));
                assert forall|q: int| 0 <= q < j implies text_le(#[trigger] out@[q].0@, x.0@) by {
                    if q < j - 1 {
                        lemma_text_le_transitive(out@[q].0@, out@[j - 1].0@, x.0@);
                    }
                }
            }
        }
        let ghost out0 = out@;
        out.insert(j, x);
        proof {
            assert(out@ == out0.insert(j as int, x));
            assert forall|a: int, b: int| 0 <= a < b < out@.len() implies text_le(
                #[trigger] out@[a].0@,
                #[trigger] out@[b].0@,
            ) by {
                if a < j && b < j {
                    assert(out@[a] == out0[a] && out@[b] == out0[b]);
                } else if a < j && b == j {
                    assert(out@[a] == out0[a]);
                } else if a < j {
                    assert(out@[a] == out0[a] && out@[b] == out0[b - 1]);
                    assert(text_le(out0[a].0@, x.0@));
                    lemma_text_le_transitive(out0[a].0@, x.0@, out0[b - 1].0@);
                } else if a == j {
                    assert(out@[b] == out0[b - 1]);
                } else {
                    assert(out@[a] == out0[a - 1] && out@[b] == out0[b - 1]);
                }
            }
            assert(out@.to_multiset() == out0.to_multiset().insert(x));
            assert(out@.to_multiset().add(rest@.to_multiset()) =~= all);
        }
    }
    assert(rest@.to_multiset() =~= Multiset::empty());
    assert(out@.to_multiset() =~= all);
    out
}

/// The pairs of `v` ordered by their number, smallest first or, when `descending`,
/// largest first, with the items kept.
pub fn sort_by_number<T>(v: Vec<(i128, T)>, descending: bool) -> (r: Vec<(i128, T)>)
    ensures
        r@.to_multiset() == v@.to_multiset(),
        number_sorted(r@, descending),
{
    let ghost all = v@.to_multiset();
    let mut rest = v;
    let mut out: Vec<(i128, T)> = Vec::new();
    assert(out@.to_multiset() =~= Multiset::empty());
    while rest.len() > 0
        invariant
            out@.to_multiset().add(rest@.to_multiset()) == all,
            number_sorted(out@, descending),
        decreases rest.len(),
    {
        let ghost rest0 = rest@;
        let x = rest.remove(0);
        assert(rest@.to_multiset() == rest0.to_multiset().remove(x)) by {
            assert(rest@ == rest0.remove(0));
        }
        let mut j: usize = out.len();
        loop
            invariant
                j <= out@.len(),
                number_sorted(out@, descending),
                forall|q: int|
                    j <= q < out@.len() ==> if descending {
                        x.0 > #[trigger] out@[q].0
                    } else {
                        x.0 < out@[q].0
                    },
            ensures
                j <= out@.len(),
                forall|q: int|
                    j <= q < out@.len() ==> if descending {
                        x.0 > #[trigger] out@[q].0
                    } else {
                        x.0 < out@[q].0
                    },
                j == 0 || (if descending {
                    x.0 <= out@[j - 1].0
                } else {
                    x.0 >= out@[j - 1].0
                }),
            decreases j,
        {
            if j == 0 {
                break;
            }
            let later = if descending {
                x.0 > out[j - 1].0
            } else {
                x.0 < out[j - 1].0
            };
            if later {
                j = j - 1;
            } else {
                break;
            }
        }
        let ghost out0 = out@;
        out.insert(j, x);
        proof {
            assert(out@ == out0.insert(j as int, x));
            assert forall|a: int, b: int| 0 <= a < b < out@.len() implies (if descending {
                #[trigger] out@[a].0 >= #[trigger] out@[b].0
            } else {
                out@[a].0 <= out@[b].0
            }) by {
                if a < j && b < j {
                    assert(out@[a] == out0[a] && out@[b] == out0[b]);
                } else if a < j && b == j {
                    assert(out@[a] == out0[a]);
                    if a < j - 1 {
                        assert(if descending {
                            out0[a].0 >= out0[j - 1].0
                        } else {
                            out0[a].0 <= out0[j - 1].0
                        });
                    }
                } else if a < j {
                    assert(out@[a] == out0[a] && out@[b] == out0[b - 1]);
                } else if a == j {
                    assert(out@[b] == out0[b - 1]);
                } else {
                    assert(out@[a] == out0[a - 1] && out@[b] == out0[b - 1]);
                }
            }
            assert(out@.to_multiset() == out0.to_multiset().insert(x));
            assert(out@.to_multiset().add(rest@.to_multiset()) =~= all);
        }
    }
    assert(rest@.to_multiset() =~= Multiset::empty());
    assert(out@.to_multiset() =~= all);
    out
}

/// `a` sorts strictly before `b` by its first text, and by its second where the first
/// texts are the same.
pub open spec fn pair_lt(a: (Seq<char>, Seq<char>), b: (Seq<char>, Seq<char>)) -> bool {
    chars_lt(a.0, b.0) || (a.0 == b.0 && chars_lt(a.1, b.1))
}

/// `a` comes before `b` by text then text, or they are the same.
pub open spec fn pair_le(a: (Seq<char>, Seq<char>), b: (Seq<char>, Seq<char>)) -> bool {
    a == b || pair_lt(a, b)
}

/// The two texts a pair is ordered by.
pub open spec fn pair_key<T>(p: ((String, String), T)) -> (Seq<char>, Seq<char>) {
    (p.0.0@, p.0.1@)
}

/// The pairs of keys never go down along `s`.
pub open spec fn pair_sorted<T>(s: Seq<((String, String), T)>) -> bool {
    forall|i: int, j: int| 0 <= i < j < s.len() ==> pair_le(pair_key(#[trigger] s[i]), pair_key(#[trigger] s[j]))
}

proof fn lemma_pair_lt_transitive(a: (Seq<char>, Seq<char>), b: (Seq<char>, Seq<char>), c: (Seq<char>, Seq<char>))
    requires
        pair_lt(a, b),
        pair_lt(b, c),
    ensures
        pair_lt(a, c),
{
    if chars_lt(a.0, b.0) && chars_lt(b.0, c.0) {
        lemma_chars_lt_transitive(a.0, b.0, c.0);
    } else if a.0 == b.0 && b.0 == c.0 {
        lemma_chars_lt_transitive(a.1, b.1, c.1);
    }
}

proof fn lemma_pair_le_transitive(a: (Seq<char>, Seq<char>), b: (Seq<char>, Seq<char>), c: (Seq<char>, Seq<char>))
    requires
        pair_le(a, b),
        pair_le(b, c),
    ensures
        pair_le(a, c),
{
    if pair_lt(a, b) && pair_lt(b, c) {
        lemma_pair_lt_transitive(a, b, c);
    }
}

proof fn lemma_pair_lt_total(a: (Seq<char>, Seq<char>), b: (Seq<char>, Seq<char>))
    ensures
        a == b || pair_lt(a, b) || pair_lt(b, a),
        !pair_lt(a, a),
{
    lemma_chars_lt_total(a.0, b.0);
    lemma_chars_lt_total(a.1, b.1);
    lemma_chars_lt_irreflexive(a.0);
    lemma_chars_lt_irreflexive(a.1);
}

/// Whether `a` sorts strictly before `b` by their pairs of texts.
fn pair_less(a: &(String, String), b: &(String, String)) -> (r: bool)
    ensures
        r == pair_lt((a.0@, a.1@), (b.0@, b.1@)),
{
    proof {
        lemma_chars_lt_irreflexive(a.0@);
        lemma_chars_lt_irreflexive(a.1@);
    }
    match compare_str(a.0.as_str(), b.0.as_str()) {
        Order::Less => true,
        Order::Greater => false,
        Order::Equal => match compare_str(a.1.as_str(), b.1.as_str()) {
            Order::Less => true,
            _ => false,
        },
    }
}

/// The items of `v` ordered by their pairs of texts, by the first and then by the
/// second, with the items kept.
pub fn sort_by_text_pair<T>(v: Vec<((String, String), T)>) -> (r: Vec<((String, String), T)>)
    ensures
        r@.to_multiset() == v@.to_multiset(),
        pair_sorted(r@),
{
    let ghost all = v@.to_multiset();
    let mut rest = v;
    let mut out: Vec<((String, String), T)> = Vec::new();
    assert(out@.to_multiset() =~= Multiset::empty());
    while rest.len() > 0
        invariant
            out@.to_multiset().add(rest@.to_multiset()) == all,
            pair_sorted(out@),
        decreases rest.len(),
    {
        let ghost rest0 = rest@;
        let x = rest.remove(0);
        assert(rest@.to_multiset() == rest0.to_multiset().remove(x)) by {
            assert(rest@ == rest0.remove(0));
        }
        let mut j: usize = out.len();
        loop
            invariant
                j <= out@.len(),
                pair_sorted(out@),
                forall|q: int| j <= q < out@.len() ==> pair_lt(pair_key(x), pair_key(#[trigger] out@[q])),
            ensures
                j <= out@.len(),
                forall|q: int| j <= q < out@.len() ==> pair_lt(pair_key(x), pair_key(#[trigger] out@[q])),
                j == 0 || !pair_lt(pair_key(x), pair_key(out@[j - 1])),
            decreases j,
        {
            if j == 0 {
                break;
            }
            if pair_less(&x.0, &out[j - 1].0) {
                j = j - 1;
            } else {
                break;
            }
        }
        proof {
            if j > 0 {
                lemma_pair_lt_total(pair_key(x), pair_key(out@[j - 1]));
                assert(pair_le(pair_key(out@[j - 1]), pair_key(x)));
                assert forall|q: int| 0 <= q < j implies pair_le(pair_key(#[trigger] out@[q]), pair_key(x)) by {
                    if q < j - 1 {
                        lemma_pair_le_transitive(pair_key(out@[q]), pair_key(out@[j - 1]), pair_key(x));
                    }
                }
            }
        }
        let ghost out0 = out@;
        out.insert(j, x);
        proof {
            assert(out@ == out0.insert(j as int, x));
            assert forall|a: int, b: int| 0 <= a < b < out@.len() implies pair_le(
                pair_key(#[trigger] out@[a]),
                pair_key(#[trigger] out@[b]),
            ) by {
                if a < j && b < j {
                    assert(out@[a] == out0[a] && out@[b] == out0[b]);
                } else if a < j && b == j {
                    assert(out@[a] == out0[a]);
                } else if a < j {
                    assert(out@[a] == out0[a] && out@[b] == out0[b - 1]);
                    assert(pair_le(pair_key(out0[a]), pair_key(x)));
                    lemma_pair_le_transitive(pair_key(out0[a]), pair_key(x), pair_key(out0[b - 1]));
                } else if a == j {
                    assert(out@[b] == out0[b - 1]);
                } else {
                    assert(out@[a] == out0[a - 1] && out@[b] == out0[b - 1]);
                }
            }
            assert(out@.to_multiset() == out0.to_multiset().insert(x));
            assert(out@.to_multiset().add(rest@.to_multiset()) =~= all);
        }
    }
    assert(rest@.to_multiset() =~= Multiset::empty());
    assert(out@.to_multiset() =~= all);
    out
}

/// The items of `v`, in order, without their keys.
pub fn items_of<K, T>(v: Vec<(K, T)>) -> (r: Vec<T>)
    ensures
        r@ == v@.map_values(|p: (K, T)| p.1),
{
    let ghost whole = v@.map_values(|p: (K, T)| p.1);
    let mut rest = v;
    let mut out: Vec<T> = Vec::new();
    while rest.len() > 0
        invariant
            out@ + rest@.map_values(|p: (K, T)| p.1) == whole,
        decreases rest.len(),
    {
        let ghost rest0 = rest@;
        let (_, item) = rest.remove(0);
        out.push(item);
        assert(rest0.map_values(|p: (K, T)| p.1) =~= seq![item] + rest@.map_values(|p: (K, T)| p.1));
        assert(out@ + rest@.map_values(|p: (K, T)| p.1) =~= whole);
    }
    assert(rest@.map_values(|p: (K, T)| p.1) =~= Seq::<T>::empty());
    assert(out@ =~= whole);
    out
}

/// Whatever holds of every element of `a` holds of every element of a sequence with the
/// same elements.
pub proof fn lemma_same_elements<A>(a: Seq<A>, b: Seq<A>, i: int)
    requires
        a.to_multiset() == b.to_multiset(),
        0 <= i < b.len(),
    ensures
        exists|j: int| 0 <= j < a.len() && a[j] == b[i],
{
    assert(b.contains(b[i]));
    assert(b.to_multiset().count(b[i]) > 0);
    assert(a.contains(b[i]));
}

} // verus!
