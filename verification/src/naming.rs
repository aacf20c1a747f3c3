//! Names: free names for copies and imports, names cut to a length, and file names made
//! from profile names.

use vstd::prelude::*;

use crate::text::{concat, decimal, decimal_string, digit_char, list_has, push_char, trim, trim_str};

verus! {

/// The `n`-th name tried for `stem`: the stem itself, then `stem 2`, `stem 3`, ...
pub open spec fn candidate(stem: Seq<char>, n: nat) -> Seq<char> {
    if n <= 1 {
        stem
    } else {
        stem + " "@ + decimal(n)
    }
}

pub open spec fn views(list: Seq<String>) -> Seq<Seq<char>> {
    list.map_values(|s: String| s@)
}

/// `name` is the first of the names tried for `stem` that `taken` does not hold.
pub open spec fn first_free(stem: Seq<char>, taken: Seq<String>, name: Seq<char>) -> bool {
    exists|n: nat|
        n >= 1 && name == #[trigger] candidate(stem, n) && !views(taken).contains(name) && forall|m: nat|
            1 <= m < n ==> views(taken).contains(#[trigger] candidate(stem, m))
}

proof fn lemma_decimal_nonempty(n: nat)
    ensures
        decimal(n).len() >= 1,
        n >= 10 ==> decimal(n).len() >= 2,
    decreases n,
{
    if n >= 10 {
        lemma_decimal_nonempty(n / 10);
    }
}

/// Different numbers are written differently.
pub proof fn lemma_decimal_injective(a: nat, b: nat)
    requires
        decimal(a) == decimal(b),
    ensures
        a == b,
    decreases a,
{
    lemma_decimal_nonempty(a);
    lemma_decimal_nonempty(b);
    if a < 10 && b < 10 {
        assert(decimal(a)[0] == digit_char(a));
        assert(decimal(b)[0] == digit_char(b));
    } else if a >= 10 && b >= 10 {
        assert(decimal(a).last() == digit_char(a % 10));
        assert(decimal(b).last() == digit_char(b % 10));
        assert(decimal(a).drop_last() =~= decimal(a / 10));
        assert(decimal(b).drop_last() =~= decimal(b / 10));
        lemma_decimal_injective(a / 10, b / 10);
    } else {
        lemma_decimal_nonempty(a / 10);
        lemma_decimal_nonempty(b / 10);
    }
}

proof fn lemma_candidates_differ(stem: Seq<char>, a: nat, b: nat)
    requires
        1 <= a < b,
    ensures
        candidate(stem, a) != candidate(stem, b),
{
    reveal_strlit(" ");
    lemma_decimal_nonempty(b);
    if a >= 2 {
        if candidate(stem, a) == candidate(stem, b) {
            let ca = candidate(stem, a);
            lemma_decimal_nonempty(a);
            let da = decimal(a);
            let db = decimal(b);
            assert(ca.len() == stem.len() + 1 + da.len());
            assert(candidate(stem, b).len() == stem.len() + 1 + db.len());
            assert(da.len() == db.len());
            assert forall|i: int| 0 <= i < da.len() implies da[i] == db[i] by {
                assert(ca[stem.len() + 1 + i] == da[i]);
                assert(candidate(stem, b)[stem.len() + 1 + i] == db[i]);
            }
            assert(da =~= db);
            lemma_decimal_injective(a, b);
        }
    }
}

/// Among `count + 1` names tried, one is free when only `count` are taken.
proof fn lemma_some_candidate_free(stem: Seq<char>, taken: Seq<String>)
    ensures
        exists|n: nat| 1 <= n <= taken.len() + 1 && !views(taken).contains(#[trigger] candidate(stem, n)),
{
    if forall|n: nat| 1 <= n <= taken.len() + 1 ==> views(taken).contains(#[trigger] candidate(stem, n)) {
        let tried = Seq::new((taken.len() + 1) as nat, |i: int| candidate(stem, (i + 1) as nat));
        assert(tried.no_duplicates()) by {
            assert forall|i: int, j: int| 0 <= i < tried.len() && 0 <= j < tried.len() && i != j
                implies tried[i] != tried[j] by {
                if i < j {
                    lemma_candidates_differ(stem, (i + 1) as nat, (j + 1) as nat);
                } else {
                    lemma_candidates_differ(stem, (j + 1) as nat, (i + 1) as nat);
                }
            }
        }
        tried.unique_seq_to_set();
        views(taken).lemma_cardinality_of_set();
        assert(tried.to_set().subset_of(views(taken).to_set())) by {
            assert forall|x: Seq<char>| tried.to_set().contains(x) implies views(taken).to_set().contains(x) by {
                let i = choose|i: int| 0 <= i < tried.len() && tried[i] == x;
                assert(views(taken).contains(candidate(stem, (i + 1) as nat)));
            }
        }
        vstd::set_lib::lemma_len_subset(tried.to_set(), views(taken).to_set());
    }
}

/// The `n`-th name tried for `stem`.
fn candidate_string(stem: &str, n: usize) -> (r: String)
    ensures
        r@ == candidate(stem@, n as nat),
{
    if n <= 1 {
        stem.to_owned()
    } else {
        let a = concat(stem, " ");
        let d = decimal_string(n as u128);
        concat(a.as_str(), d.as_str())
    }
}

/// The first of `stem`, `stem 2`, `stem 3`, ... that `taken` does not hold.
pub fn free_name(stem: &str, taken: &[String]) -> (r: String)
    requires
        taken@.len() < usize::MAX,
    ensures
        first_free(stem@, taken@, r@),
{
    proof {
        lemma_some_candidate_free(stem@, taken@);
    }
    let mut n: usize = 1;
    loop
        invariant
            1 <= n <= taken@.len() + 1,
            taken@.len() < usize::MAX,
            exists|f: nat| n <= f <= taken@.len() + 1 && !views(taken@).contains(#[trigger] candidate(stem@, f)),
            forall|m: nat| 1 <= m < n ==> views(taken@).contains(#[trigger] candidate(stem@, m)),
        decreases taken@.len() + 1 - n,
    {
        let name = candidate_string(stem, n);
        let used = list_has(taken, name.as_str());
        proof {
            if used {
                let i = choose|i: int| 0 <= i < taken@.len() && #[trigger] taken@[i]@ == name@;
                assert(views(taken@)[i] == name@);
            } else {
                assert forall|i: int| 0 <= i < views(taken@).len() implies views(taken@)[i] != name@ by {
                    assert(views(taken@)[i] == taken@[i]@);
                }
            }
        }
        if !used {
            assert(first_free(stem@, taken@, name@) ) by {
                assert(name@ == candidate(stem@, n as nat));
            }
            return name;
        }
        proof {
            let f = choose|f: nat| n <= f <= taken@.len() + 1 && !views(taken@).contains(#[trigger] candidate(stem@, f));
            assert(f != n);
        }
        n = n + 1;
    }
}

/// The first `n` characters of `s`, or all of it when it is shorter.
pub open spec fn first_chars(s: Seq<char>, n: nat) -> Seq<char> {
    if s.len() <= n {
        s
    } else {
        s.take(n as int)
    }
}

pub fn take_chars(s: &str, n: usize) -> (r: String)
    ensures
        r@ == first_chars(s@, n as nat),
{
    let len = s.unicode_len();
    let mut r = String::new();
    let mut i: usize = 0;
    while i < len && i < n
        invariant
            len == s@.len(),
            i <= len,
            i <= n,
            r@ == s@.take(i as int),
        decreases len - i,
    {
        push_char(&mut r, s.get_char(i));
        i += 1;
        assert(r@ =~= s@.take(i as int));
    }
    assert(s@.len() <= n ==> s@.take(i as int) =~= s@);
    r
}

/// What `char::is_alphanumeric` says of `c`: Unicode's `Alphabetic` or `Numeric`.
pub uninterp spec fn alphanumeric(c: char) -> bool;

/// Whether `c` is a letter or a digit in any script (`char::is_alphanumeric`). Unicode's
/// tables decide, and are only named here; among ASCII characters they hold exactly the
/// letters and the digits.
#[verifier::external_body]
pub(crate) fn is_alphanumeric(c: char) -> (r: bool)
    ensures
        r == alphanumeric(c),
        c <= '\u{7f}' ==> (r <==> (('a' <= c && c <= 'z') || ('A' <= c && c <= 'Z') || ('0' <= c && c <= '9'))),
{
    c.is_alphanumeric()
}

/// A character of a profile name as it goes into a file name: what Windows allows,
/// `_` for anything else.
pub open spec fn stem_char(c: char) -> char {
    if alphanumeric(c) || c == ' ' || c == '-' || c == '_' {
        c
    } else {
        '_'
    }
}

pub open spec fn file_stem_of(name: Seq<char>) -> Seq<char> {
    let kept = trim(name.map_values(|c: char| stem_char(c)));
    if kept.len() == 0 {
        "profile"@
    } else {
        kept
    }
}

/// A file name made from a profile name: what Windows allows, nothing else.
pub fn file_stem(name: &str) -> (r: String)
    ensures
        r@ == file_stem_of(name@),
{
    let len = name.unicode_len();
    let mut mapped = String::new();
    let mut i: usize = 0;
    while i < len
        invariant
            len == name@.len(),
            i <= len,
            mapped@ == name@.take(i as int).map_values(|c: char| stem_char(c)),
        decreases len - i,
    {
        let c = name.get_char(i);
        let keep = is_alphanumeric(c) || c == ' ' || c == '-' || c == '_';
        push_char(&mut mapped, if keep { c } else { '_' });
        i += 1;
        assert(mapped@ =~= name@.take(i as int).map_values(|c: char| stem_char(c)));
    }
    assert(name@.take(i as int) =~= name@);
    let stem = trim_str(mapped.as_str());
    if stem.unicode_len() == 0 {
        "profile".to_owned()
    } else {
        stem
    }
}

/// A free name is free: it is none of the names taken.
pub proof fn law_free_name_is_free(stem: Seq<char>, taken: Seq<String>, name: Seq<char>)
    requires
        first_free(stem, taken, name),
    ensures
        forall|i: int| 0 <= i < taken.len() ==> #[trigger] taken[i]@ != name,
{
    assert forall|i: int| 0 <= i < taken.len() implies #[trigger] taken[i]@ != name by {
        assert(views(taken)[i] == taken[i]@);
    }
}

} // verus!
