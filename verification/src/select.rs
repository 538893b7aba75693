//! The selection correlator: turns the set of identifying strings a user
//! picked back into concrete (key, string) pairs.
//!
//! The chosen strings are sorted, adjacent duplicates are counted, and any
//! string appearing more than once is a hard error that aborts the whole
//! batch before any clip is produced — two selections resolving to the same
//! output target would silently overwrite each other. Every surviving
//! unique string is then resolved against the store's freshly re-derived
//! strings; a string that fails to resolve signals an internal invariant
//! break, not a user error.

use vstd::prelude::*;

use crate::db::{keyed_strings_view, Key};

verus! {

/// Lexicographic order on character sequences (true when `a <= b`). For
/// strings this coincides with Rust's byte-wise `str` ordering, since
/// UTF-8 byte order agrees with code-point order.
pub open spec fn lex_le(a: Seq<char>, b: Seq<char>) -> bool
    decreases a.len(),
{
    if a.len() == 0 {
        true
    } else if b.len() == 0 {
        false
    } else if a[0] < b[0] {
        true
    } else if a[0] > b[0] {
        false
    } else {
        lex_le(a.skip(1), b.skip(1))
    }
}

/// The order is total.
pub proof fn lemma_lex_le_total(a: Seq<char>, b: Seq<char>)
    ensures
        lex_le(a, b) || lex_le(b, a),
    decreases a.len(),
{
    if a.len() != 0 && b.len() != 0 && a[0] == b[0] {
        lemma_lex_le_total(a.skip(1), b.skip(1));
    }
}

/// The order is antisymmetric.
pub proof fn lemma_lex_le_antisymmetric(a: Seq<char>, b: Seq<char>)
    requires
        lex_le(a, b),
        lex_le(b, a),
    ensures
        a == b,
    decreases a.len(),
{
    if a.len() == 0 {
        assert(b.len() == 0);
        assert(a =~= b);
    } else {
        assert(b.len() != 0);
        assert(a[0] == b[0]);
        lemma_lex_le_antisymmetric(a.skip(1), b.skip(1));
        assert(a =~= seq![a[0]] + a.skip(1));
        assert(b =~= seq![b[0]] + b.skip(1));
    }
}

/// The order is transitive.
pub proof fn lemma_lex_le_transitive(a: Seq<char>, b: Seq<char>, c: Seq<char>)
    requires
        lex_le(a, b),
        lex_le(b, c),
    ensures
        lex_le(a, c),
    decreases a.len(),
{
    if a.len() != 0 && b.len() != 0 && c.len() != 0 && a[0] == b[0] && b[0] == c[0] {
        lemma_lex_le_transitive(a.skip(1), b.skip(1), c.skip(1));
    }
}

/// Each element is at most its successor.
pub open spec fn spec_sorted(s: Seq<Seq<char>>) -> bool {
    forall|i: int| 0 <= i < s.len() - 1 ==> #[trigger] lex_le(s[i], s[i + 1])
}

/// In a sorted sequence any earlier element is at most any later one.
pub proof fn lemma_sorted_le(s: Seq<Seq<char>>, a: int, b: int)
    requires
        spec_sorted(s),
        0 <= a <= b < s.len(),
    ensures
        lex_le(s[a], s[b]),
    decreases b - a,
{
    if a == b {
        lemma_lex_le_total(s[a], s[a]);
        assert(lex_le(s[a], s[a]));
    } else {
        lemma_sorted_le(s, a, b - 1);
        assert(lex_le(s[b - 1], s[b - 1 + 1]));
        lemma_lex_le_transitive(s[a], s[b - 1], s[b]);
    }
}

/// How often `t` occurs in `s`.
pub open spec fn spec_count(s: Seq<Seq<char>>, t: Seq<char>) -> int
    decreases s.len(),
{
    if s.len() == 0 {
        0
    } else {
        (if s[0] == t {
            1int
        } else {
            0int
        }) + spec_count(s.skip(1), t)
    }
}

/// Occurrence counts are never negative.
pub proof fn lemma_count_nonneg(s: Seq<Seq<char>>, t: Seq<char>)
    ensures
        spec_count(s, t) >= 0,
    decreases s.len(),
{
    if s.len() != 0 {
        lemma_count_nonneg(s.skip(1), t);
    }
}

/// Inserting one element raises exactly its own count by one.
pub proof fn lemma_count_insert(s: Seq<Seq<char>>, t: Seq<char>, i: int, x: Seq<char>)
    requires
        0 <= i <= s.len(),
    ensures
        spec_count(s.insert(i, x), t) == spec_count(s, t) + (if x == t {
            1int
        } else {
            0int
        }),
    decreases i,
{
    let s2 = s.insert(i, x);
    if i == 0 {
        assert(s2[0] == x);
        assert(s2.skip(1) =~= s);
    } else {
        assert(s.len() != 0);
        assert(s2[0] == s[0]);
        assert(s2.skip(1) =~= s.skip(1).insert(i - 1, x));
        lemma_count_insert(s.skip(1), t, i - 1, x);
    }
}

/// When the occurrences of `t` are exactly the positions in `[lo, hi)`,
/// the count is the width of that window.
pub proof fn lemma_count_range(s: Seq<Seq<char>>, t: Seq<char>, lo: int, hi: int)
    requires
        0 <= lo <= hi <= s.len(),
        forall|k: int| 0 <= k < s.len() ==> (s[k] == t <==> lo <= k < hi),
    ensures
        spec_count(s, t) == hi - lo,
    decreases s.len(),
{
    if s.len() == 0 {
    } else {
        let rest = s.skip(1);
        if s[0] == t {
            assert(lo == 0 && hi >= 1);
            assert forall|k: int| 0 <= k < rest.len() implies (rest[k] == t <==> 0 <= k < hi
                - 1) by {
                assert(rest[k] == s[k + 1]);
            }
            lemma_count_range(rest, t, 0, hi - 1);
        } else {
            let lo2 = if lo >= 1 {
                lo - 1
            } else {
                if hi >= 1 {
                    hi - 1
                } else {
                    0
                }
            };
            let hi2 = if hi >= 1 {
                hi - 1
            } else {
                0
            };
            assert forall|k: int| 0 <= k < rest.len() implies (rest[k] == t <==> lo2 <= k
                < hi2) by {
                assert(rest[k] == s[k + 1]);
            }
            lemma_count_range(rest, t, lo2, hi2);
        }
    }
}

/// In a sequence of pairwise distinct elements every count is zero or one.
pub proof fn lemma_count_unique(s: Seq<Seq<char>>, t: Seq<char>)
    requires
        forall|i: int, j: int| 0 <= i < j < s.len() ==> s[i] != s[j],
    ensures
        (exists|i: int| 0 <= i < s.len() && s[i] == t) ==> spec_count(s, t) == 1,
        !(exists|i: int| 0 <= i < s.len() && s[i] == t) ==> spec_count(s, t) == 0,
    decreases s.len(),
{
    if s.len() != 0 {
        let rest = s.skip(1);
        assert forall|i: int, j: int| 0 <= i < j < rest.len() implies rest[i] != rest[j] by {
            assert(rest[i] == s[i + 1] && rest[j] == s[j + 1]);
        }
        lemma_count_unique(rest, t);
        if s[0] == t {
            assert(!(exists|i: int| 0 <= i < rest.len() && rest[i] == t)) by {
                if exists|i: int| 0 <= i < rest.len() && rest[i] == t {
                    let i = choose|i: int| 0 <= i < rest.len() && rest[i] == t;
                    assert(s[i + 1] == t && s[0] != s[i + 1]);
                }
            }
        } else {
            if exists|i: int| 0 <= i < s.len() && s[i] == t {
                let i = choose|i: int| 0 <= i < s.len() && s[i] == t;
                assert(rest[i - 1] == t);
            }
        }
    }
}

/// Compares two strings in the lexicographic order.
pub fn string_le(a: &str, b: &str) -> (r: bool)
    ensures
        r == lex_le(a@, b@),
{
    let av = crate::util::chars_of(a);
    let bv = crate::util::chars_of(b);
    let mut i: usize = 0;
    assert(a@.skip(0) =~= a@);
    assert(b@.skip(0) =~= b@);
    loop
        invariant
            i <= a@.len(),
            i <= b@.len(),
            av@ == a@,
            bv@ == b@,
            lex_le(a@, b@) == lex_le(a@.skip(i as int), b@.skip(i as int)),
        decreases a@.len() - i,
    {
        let ghost ra = a@.skip(i as int);
        let ghost rb = b@.skip(i as int);
        if i == av.len() {
            return true;
        }
        if i == bv.len() {
            assert(ra.len() != 0 && rb.len() == 0);
            return false;
        }
        assert(ra[0] == a@[i as int] && rb[0] == b@[i as int]);
        let ca = av[i];
        let cb = bv[i];
        if ca < cb {
            return true;
        }
        if cb < ca {
            return false;
        }
        assert(ca == cb);
        assert(ra.skip(1) =~= a@.skip(i + 1 as int));
        assert(rb.skip(1) =~= b@.skip(i + 1 as int));
        i = i + 1;
    }
}

/// The first position whose element is at least `x` (the length when
/// every element is below `x`).
fn insertion_point(r: &Vec<String>, x: &String) -> (idx: usize)
    ensures
        idx <= r@.len(),
        forall|k: int| 0 <= k < idx ==> !lex_le(x@, #[trigger] r.deep_view()[k]),
        idx < r@.len() ==> lex_le(x@, r.deep_view()[idx as int]),
{
    let mut idx: usize = 0;
    while idx < r.len()
        invariant
            idx <= r@.len(),
            forall|k: int| 0 <= k < idx ==> !lex_le(x@, #[trigger] r.deep_view()[k]),
        decreases r@.len() - idx,
    {
        assert(r@[idx as int]@ == r.deep_view()[idx as int]);
        if string_le(x.as_str(), r[idx].as_str()) {
            return idx;
        }
        idx = idx + 1;
    }
    idx
}

/// Inserts a string into a sorted vector, keeping it sorted.
fn insert_sorted(r: &mut Vec<String>, x: String)
    requires
        spec_sorted(old(r).deep_view()),
    ensures
        spec_sorted(final(r).deep_view()),
        forall|t: Seq<char>|
            spec_count(final(r).deep_view(), t) == spec_count(old(r).deep_view(), t) + (if x@
                == t {
                1int
            } else {
                0int
            }),
{
    let ghost s = r.deep_view();
    let idx = insertion_point(r, &x);
    r.insert(idx, x);
    assert(final(r).deep_view() =~= s.insert(idx as int, x@));
    let ghost s2 = final(r).deep_view();
    assert forall|i: int| 0 <= i < s2.len() - 1 implies #[trigger] lex_le(s2[i], s2[i + 1]) by {
        if i + 1 < idx {
            assert(s2[i] == s[i] && s2[i + 1] == s[i + 1]);
            assert(lex_le(s[i], s[i + 1]));
        } else if i + 1 == idx {
            assert(s2[i] == s[i] && s2[i + 1] == x@);
            assert(!lex_le(x@, s[i]));
            lemma_lex_le_total(x@, s[i]);
        } else if i == idx {
            assert(s2[i] == x@ && s2[i + 1] == s[i]);
            assert(lex_le(x@, s[i]));
        } else {
            assert(s2[i] == s[i - 1] && s2[i + 1] == s[i]);
            assert(lex_le(s[i - 1], s[i - 1 + 1]));
        }
    }
    assert forall|t: Seq<char>|
        spec_count(s2, t) == spec_count(s, t) + (if x@ == t {
            1int
        } else {
            0int
        }) by {
        lemma_count_insert(s, t, idx as int, x@);
    }
}

/// Sorts the strings, keeping every occurrence.
pub fn sort_strings(v: &Vec<String>) -> (r: Vec<String>)
    ensures
        spec_sorted(r.deep_view()),
        forall|t: Seq<char>| spec_count(r.deep_view(), t) == spec_count(v.deep_view(), t),
{
    let ghost sv = v.deep_view();
    let mut r: Vec<String> = Vec::new();
    let mut i: usize = 0;
    assert(r.deep_view() =~= Seq::<Seq<char>>::empty());
    assert(sv.skip(0) =~= sv);
    while i < v.len()
        invariant
            i <= v@.len(),
            sv == v.deep_view(),
            v@.len() == sv.len(),
            spec_sorted(r.deep_view()),
            forall|t: Seq<char>|
                spec_count(sv, t) == spec_count(r.deep_view(), t) + spec_count(
                    sv.skip(i as int),
                    t,
                ),
        decreases v@.len() - i,
    {
        let ghost rest = sv.skip(i as int);
        assert(rest[0] == sv[i as int]);
        assert(v@[i as int]@ == sv[i as int]);
        let ghost before = r.deep_view();
        insert_sorted(&mut r, v[i].clone());
        assert(rest.skip(1) =~= sv.skip(i + 1 as int));
        assert forall|t: Seq<char>|
            spec_count(sv, t) == spec_count(r.deep_view(), t) + spec_count(
                sv.skip(i + 1 as int),
                t,
            ) by {
            assert(spec_count(rest, t) == (if rest[0] == t {
                1int
            } else {
                0int
            }) + spec_count(rest.skip(1), t));
        }
        i = i + 1;
    }
    assert(sv.skip(sv.len() as int) =~= Seq::<Seq<char>>::empty());
    r
}

/// A positive count has a witness.
pub proof fn lemma_count_exists(s: Seq<Seq<char>>, t: Seq<char>)
    requires
        spec_count(s, t) >= 1,
    ensures
        exists|k: int| 0 <= k < s.len() && s[k] == t,
    decreases s.len(),
{
    if s.len() != 0 {
        if s[0] == t {
            assert(s[0] == t);
        } else {
            lemma_count_exists(s.skip(1), t);
            let k = choose|k: int| 0 <= k < s.skip(1).len() && s.skip(1)[k] == t;
            assert(s[k + 1] == t);
        }
    }
}

/// The end of the run of elements equal to the one at `i`: the first
/// later position holding a different string, or the length.
fn group_end(v: &Vec<String>, i: usize) -> (j: usize)
    requires
        i < v@.len(),
    ensures
        i < j <= v@.len(),
        forall|k: int| i <= k < j ==> v.deep_view()[k] == v.deep_view()[i as int],
        j < v@.len() ==> v.deep_view()[j as int] != v.deep_view()[i as int],
{
    let ghost sv = v.deep_view();
    let n: usize = v.len();
    let mut j: usize = i + 1;
    while j < v.len()
        invariant
            i < j <= v@.len(),
            sv == v.deep_view(),
            v@.len() == sv.len(),
            forall|k: int| i <= k < j ==> sv[k] == sv[i as int],
        decreases v@.len() - j,
    {
        assert(v@[j as int]@ == sv[j as int]);
        assert(v@[i as int]@ == sv[i as int]);
        if !(v[j] == v[i]) {
            return j;
        }
        j = j + 1;
    }
    j
}

/// Groups a sorted run of strings: one `(count, string)` pair per distinct
/// string, where `count` is how often it occurs.
pub fn dedup_with_counts(v: &Vec<String>) -> (groups: Vec<(usize, String)>)
    requires
        spec_sorted(v.deep_view()),
    ensures
        forall|g: int|
            0 <= g < groups@.len() ==> (#[trigger] groups@[g]).0 as int == spec_count(
                v.deep_view(),
                groups@[g].1@,
            ) && groups@[g].0 >= 1,
        forall|g: int, h: int| 0 <= g < h < groups@.len() ==> groups@[g].1@ != groups@[h].1@,
        forall|t: Seq<char>|
            spec_count(v.deep_view(), t) >= 1 ==> exists|g: int|
                0 <= g < groups@.len() && (#[trigger] groups@[g]).1@ == t,
{
    let ghost sv = v.deep_view();
    let mut groups: Vec<(usize, String)> = Vec::new();
    let mut i: usize = 0;
    while i < v.len()
        invariant
            i <= v@.len(),
            sv == v.deep_view(),
            v@.len() == sv.len(),
            spec_sorted(sv),
            i < sv.len() ==> forall|k: int| 0 <= k < i ==> sv[k] != sv[i as int],
            forall|g: int|
                0 <= g < groups@.len() ==> (#[trigger] groups@[g]).0 as int == spec_count(
                    sv,
                    groups@[g].1@,
                ) && groups@[g].0 >= 1,
            forall|g: int|
                0 <= g < groups@.len() ==> exists|k: int|
                    0 <= k < i && sv[k] == (#[trigger] groups@[g]).1@,
            forall|g: int, h: int| 0 <= g < h < groups@.len() ==> groups@[g].1@ != groups@[h].1@,
            forall|k: int|
                0 <= k < i ==> exists|g: int|
                    0 <= g < groups@.len() && (#[trigger] groups@[g]).1@ == #[trigger] sv[k],
        decreases v@.len() - i,
    {
        assert(v@[i as int]@ == sv[i as int]);
        let j: usize = group_end(v, i);
        // within `[i, j)` everything equals `sv[i]`; before `i` and from
        // `j` on nothing does
        assert forall|k: int| 0 <= k < sv.len() implies (sv[k] == sv[i as int] <==> i <= k
            < j) by {
            if k < i {
                assert(sv[k] != sv[i as int]);
            } else if k >= j as int && j < sv.len() {
                if sv[k] == sv[i as int] && k > j as int {
                    lemma_sorted_le(sv, i as int, j as int);
                    lemma_sorted_le(sv, j as int, k);
                    assert(lex_le(sv[j as int], sv[i as int]));
                    lemma_lex_le_antisymmetric(sv[i as int], sv[j as int]);
                    assert(false);
                }
            }
        }
        proof {
            lemma_count_range(sv, sv[i as int], i as int, j as int);
        }
        let count: usize = j - i;
        let ghost old_groups = groups@;
        assert forall|g: int| 0 <= g < groups@.len() implies (#[trigger] groups@[g]).1@
            != sv[i as int] by {
            let k = choose|k: int| 0 <= k < i && sv[k] == groups@[g].1@;
            assert(sv[k] != sv[i as int]);
        }
        groups.push((count, v[i].clone()));
        assert(groups@ == old_groups.push((count, v@[i as int])));
        // the next group starts at `j`, whose string differs from
        // everything before it
        assert(j < sv.len() ==> forall|k: int| 0 <= k < j ==> sv[k] != sv[j as int]) by {
            if j < sv.len() {
                assert forall|k: int| 0 <= k < j implies sv[k] != sv[j as int] by {
                    if i <= k {
                        assert(sv[k] == sv[i as int]);
                        assert(sv[j as int] != sv[i as int]);
                    } else {
                        if sv[k] == sv[j as int] {
                            lemma_sorted_le(sv, k, i as int);
                            lemma_sorted_le(sv, i as int, j as int);
                            lemma_lex_le_transitive(sv[i as int], sv[j as int], sv[i as int]);
                            assert(false) by {
                                lemma_lex_le_antisymmetric(sv[i as int], sv[j as int]);
                                assert(sv[j as int] != sv[i as int]);
                            }
                        }
                    }
                }
            }
        }
        assert forall|k: int| 0 <= k < j implies exists|g: int|
            0 <= g < groups@.len() && (#[trigger] groups@[g]).1@ == #[trigger] sv[k] by {
            if k < i {
                let g = choose|g: int| 0 <= g < old_groups.len() && old_groups[g].1@ == sv[k];
                assert(groups@[g].1@ == sv[k]);
            } else {
                assert(sv[k] == sv[i as int]);
                assert(groups@[groups@.len() - 1].1@ == sv[i as int]);
            }
        }
        i = j;
    }
    assert forall|t: Seq<char>| spec_count(sv, t) >= 1 implies exists|g: int|
        0 <= g < groups@.len() && (#[trigger] groups@[g]).1@ == t by {
        lemma_count_exists(sv, t);
        let k = choose|k: int| 0 <= k < sv.len() && sv[k] == t;
        assert(exists|g: int| 0 <= g < groups@.len() && (#[trigger] groups@[g]).1@ == sv[k]);
    }
    groups
}

/// Why a selection could not be correlated back to the store.
#[derive(Debug)]
pub enum CorrelateError {
    /// Strings that were selected more than once, each with its
    /// multiplicity. A hard error: the whole batch is aborted before any
    /// clip is produced, because two selections resolving to the same
    /// output target would silently overwrite each other.
    Duplicates(Vec<(usize, String)>),
    /// A selected string matched nothing the store generates. This
    /// signals an internal invariant break (the store changed shape
    /// between string generation and correlation), not a user error.
    UnmatchedSelection(String),
}

/// The first generated pair whose identifying string is `t`.
pub open spec fn spec_first_match(m: Seq<(Seq<char>, Seq<char>)>, t: Seq<char>) -> Option<
    (Seq<char>, Seq<char>),
>
    decreases m.len(),
{
    if m.len() == 0 {
        None
    } else if m[0].1 == t {
        Some(m[0])
    } else {
        spec_first_match(m.skip(1), t)
    }
}

/// A match, when there is one, carries the string it was looked up by.
pub proof fn lemma_first_match_string(m: Seq<(Seq<char>, Seq<char>)>, t: Seq<char>)
    ensures
        match spec_first_match(m, t) {
            Some(p) => p.1 == t,
            None => true,
        },
    decreases m.len(),
{
    if m.len() != 0 && m[0].1 != t {
        lemma_first_match_string(m.skip(1), t);
    }
}

/// Finds the first generated pair carrying the string `t`.
fn find_match(search_map: &Vec<(Key, String)>, t: &String) -> (r: Option<(Key, String)>)
    ensures
        match r {
            Some(p) => spec_first_match(keyed_strings_view(search_map@), t@) == Some(
                (p.0@, p.1@),
            ),
            None => spec_first_match(keyed_strings_view(search_map@), t@) is None,
        },
{
    let ghost mv = keyed_strings_view(search_map@);
    let mut i: usize = 0;
    assert(mv.skip(0) =~= mv);
    while i < search_map.len()
        invariant
            i <= search_map@.len(),
            mv == keyed_strings_view(search_map@),
            search_map@.len() == mv.len(),
            spec_first_match(mv, t@) == spec_first_match(mv.skip(i as int), t@),
        decreases search_map@.len() - i,
    {
        let ghost rest = mv.skip(i as int);
        assert(rest[0] == mv[i as int]);
        assert(mv[i as int] == (search_map@[i as int].0@, search_map@[i as int].1@));
        if search_map[i].1 == *t {
            return Some((search_map[i].0.clone(), search_map[i].1.clone()));
        }
        assert(rest.skip(1) =~= mv.skip(i + 1 as int));
        i = i + 1;
    }
    assert(mv.skip(mv.len() as int) =~= Seq::<(Seq<char>, Seq<char>)>::empty());
    None
}

/// Every string selected at least `bound` times has a group.
pub open spec fn covers_all(groups: Seq<(usize, String)>, sel: Seq<Seq<char>>, bound: int) -> bool {
    forall|t: Seq<char>|
        spec_count(sel, t) >= bound ==> exists|x: int|
            0 <= x < groups.len() && (#[trigger] groups[x]).1@ == t
}

/// The identifying strings of a run of generated pairs.
pub open spec fn strings_of_pairs(m: Seq<(Seq<char>, Seq<char>)>) -> Seq<Seq<char>> {
    m.map_values(|p: (Seq<char>, Seq<char>)| p.1)
}

/// Sorts the selection, groups equal strings, and separates out the
/// duplicated ones: `Err` carries the strings selected more than once,
/// each with its multiplicity; `Ok` carries one group per distinct string,
/// each of which was selected exactly once.
fn selection_groups(selected: &Vec<String>) -> (r: Result<
    Vec<(usize, String)>,
    Vec<(usize, String)>,
>)
    ensures
        r is Ok ==> forall|t: Seq<char>| spec_count(selected.deep_view(), t) <= 1,
        (r matches Ok(groups) ==> forall|x: int|
            0 <= x < groups@.len() ==> spec_count(
                selected.deep_view(),
                (#[trigger] groups@[x]).1@,
            ) == 1),
        (r matches Ok(groups) ==> forall|x: int, y: int|
            0 <= x < y < groups@.len() ==> groups@[x].1@ != groups@[y].1@),
        (r matches Ok(groups) ==> covers_all(groups@, selected.deep_view(), 1)),
        r is Err ==> exists|t: Seq<char>| spec_count(selected.deep_view(), t) >= 2,
        (r matches Err(d) ==> forall|x: int|
            0 <= x < d@.len() ==> (#[trigger] d@[x]).0 as int == spec_count(
                selected.deep_view(),
                d@[x].1@,
            ) && d@[x].0 >= 2),
        (r matches Err(d) ==> covers_all(d@, selected.deep_view(), 2)),
{
    let ghost sel = selected.deep_view();
    let sorted = sort_strings(selected);
    let groups = dedup_with_counts(&sorted);
    let ghost sv = sorted.deep_view();
    let mut dups: Vec<(usize, String)> = Vec::new();
    let mut g: usize = 0;
    while g < groups.len()
        invariant
            g <= groups@.len(),
            sel == selected.deep_view(),
            sv == sorted.deep_view(),
            forall|t: Seq<char>| spec_count(sv, t) == spec_count(sel, t),
            forall|x: int|
                0 <= x < groups@.len() ==> (#[trigger] groups@[x]).0 as int == spec_count(
                    sv,
                    groups@[x].1@,
                ) && groups@[x].0 >= 1,
            forall|x: int, y: int| 0 <= x < y < groups@.len() ==> groups@[x].1@ != groups@[y].1@,
            forall|x: int|
                0 <= x < dups@.len() ==> (#[trigger] dups@[x]).0 as int == spec_count(
                    sel,
                    dups@[x].1@,
                ) && dups@[x].0 >= 2,
            forall|x: int|
                0 <= x < dups@.len() ==> exists|y: int|
                    0 <= y < g && (#[trigger] dups@[x]).1@ == groups@[y].1@,
            forall|y: int|
                0 <= y < g && (#[trigger] groups@[y]).0 >= 2 ==> exists|x: int|
                    0 <= x < dups@.len() && (#[trigger] dups@[x]).1@ == groups@[y].1@,
        decreases groups@.len() - g,
    {
        let ghost old_dups = dups@;
        if groups[g].0 >= 2 {
            dups.push((groups[g].0, groups[g].1.clone()));
            assert(dups@ == old_dups.push((groups@[g as int].0, groups@[g as int].1)));
        }
        proof {
            assert forall|y: int|
                0 <= y < g + 1 && (#[trigger] groups@[y]).0 >= 2 implies exists|x: int|
                0 <= x < dups@.len() && (#[trigger] dups@[x]).1@ == groups@[y].1@ by {
                if y < g {
                    let x = choose|x: int|
                        0 <= x < old_dups.len() && (#[trigger] old_dups[x]).1@
                            == groups@[y].1@;
                    assert(dups@[x].1@ == groups@[y].1@);
                } else {
                    assert(dups@[dups@.len() - 1].1@ == groups@[y].1@);
                }
            }
        }
        g = g + 1;
    }
    if dups.len() > 0 {
        proof {
            let x0 = 0int;
            assert(spec_count(sel, dups@[x0].1@) >= 2);
            assert(covers_all(dups@, sel, 2)) by {
                assert forall|t: Seq<char>| spec_count(sel, t) >= 2 implies exists|x: int|
                    0 <= x < dups@.len() && (#[trigger] dups@[x]).1@ == t by {
                    assert(spec_count(sv, t) == spec_count(sel, t));
                    assert(spec_count(sv, t) >= 1);
                    let y = choose|y: int|
                        0 <= y < groups@.len() && (#[trigger] groups@[y]).1@ == t;
                    assert(groups@[y].0 as int == spec_count(sv, groups@[y].1@));
                    assert(groups@[y].0 >= 2);
                    assert(exists|x: int|
                        0 <= x < dups@.len() && (#[trigger] dups@[x]).1@ == groups@[y].1@);
                }
            }
            assert(covers_all(dups@, selected.deep_view(), 2));
        }
        return Err(dups);
    }
    proof {
        assert forall|t: Seq<char>| spec_count(sel, t) <= 1 by {
            if spec_count(sel, t) >= 2 {
                let y = choose|y: int|
                    0 <= y < groups@.len() && (#[trigger] groups@[y]).1@ == t;
                assert(groups@[y].0 >= 2);
                assert(exists|x: int|
                    0 <= x < dups@.len() && (#[trigger] dups@[x]).1@ == groups@[y].1@);
            } else {
                lemma_count_nonneg(sel, t);
            }
        }
        assert forall|x: int| 0 <= x < groups@.len() implies spec_count(
            sel,
            (#[trigger] groups@[x]).1@,
        ) == 1 by {
            assert(groups@[x].0 as int == spec_count(sv, groups@[x].1@));
            assert(spec_count(sel, groups@[x].1@) >= 1 && spec_count(sel, groups@[x].1@) <= 1);
        }
        assert(covers_all(groups@, sel, 1)) by {
            assert forall|t: Seq<char>| spec_count(sel, t) >= 1 implies exists|x: int|
                0 <= x < groups@.len() && (#[trigger] groups@[x]).1@ == t by {
                assert(spec_count(sv, t) == spec_count(sel, t));
                assert(spec_count(sv, t) >= 1);
            }
        }
        assert(covers_all(groups@, selected.deep_view(), 1));
    }
    Ok(groups)
}

/// Maps the set of selected strings back to the generated pairs they came
/// from. Duplicated selections are a hard error reported with their
/// multiplicities; a selection that matches nothing is an internal
/// invariant break; otherwise every distinct selected string resolves to
/// the first generated pair that carries it.
pub fn correlate(search_map: &Vec<(Key, String)>, selected: &Vec<String>) -> (r: Result<
    Vec<(Key, String)>,
    CorrelateError,
>)
    ensures
        r is Ok ==> forall|t: Seq<char>| spec_count(selected.deep_view(), t) <= 1,
        (r matches Ok(pairs) ==> forall|t: Seq<char>|
            spec_count(selected.deep_view(), t) == spec_count(
                strings_of_pairs(keyed_strings_view(pairs@)),
                t,
            )),
        (r matches Ok(pairs) ==> forall|x: int|
            0 <= x < pairs@.len() ==> spec_first_match(
                keyed_strings_view(search_map@),
                (#[trigger] keyed_strings_view(pairs@)[x]).1,
            ) == Some(keyed_strings_view(pairs@)[x])),
        (r matches Err(CorrelateError::Duplicates(d)) ==> exists|t: Seq<char>|
            spec_count(selected.deep_view(), t) >= 2),
        (r matches Err(CorrelateError::Duplicates(d)) ==> forall|x: int|
            0 <= x < d@.len() ==> (#[trigger] d@[x]).0 as int == spec_count(
                selected.deep_view(),
                d@[x].1@,
            ) && d@[x].0 >= 2),
        (r matches Err(CorrelateError::Duplicates(d)) ==> covers_all(
            d@,
            selected.deep_view(),
            2,
        )),
        (r matches Err(CorrelateError::UnmatchedSelection(t)) ==> forall|u: Seq<char>|
            spec_count(selected.deep_view(), u) <= 1),
        (r matches Err(CorrelateError::UnmatchedSelection(t)) ==> spec_count(
            selected.deep_view(),
            t@,
        ) == 1),
        (r matches Err(CorrelateError::UnmatchedSelection(t)) ==> spec_first_match(
            keyed_strings_view(search_map@),
            t@,
        ) is None),
{
    let ghost sel = selected.deep_view();
    let groups = match selection_groups(selected) {
        Err(d) => {
            return Err(CorrelateError::Duplicates(d));
        },
        Ok(groups) => groups,
    };
    let ghost mv = keyed_strings_view(search_map@);
    let mut pairs: Vec<(Key, String)> = Vec::new();
    let mut g2: usize = 0;
    while g2 < groups.len()
        invariant
            g2 <= groups@.len(),
            sel == selected.deep_view(),
            mv == keyed_strings_view(search_map@),
            pairs@.len() == g2,
            forall|t: Seq<char>| spec_count(sel, t) <= 1,
            forall|x: int|
                0 <= x < groups@.len() ==> spec_count(sel, (#[trigger] groups@[x]).1@) == 1,
            forall|x: int, y: int| 0 <= x < y < groups@.len() ==> groups@[x].1@ != groups@[y].1@,
            covers_all(groups@, sel, 1),
            forall|x: int|
                0 <= x < g2 ==> (#[trigger] keyed_strings_view(pairs@)[x]).1 == groups@[x].1@,
            forall|x: int|
                0 <= x < g2 ==> spec_first_match(
                    mv,
                    (#[trigger] keyed_strings_view(pairs@)[x]).1,
                ) == Some(keyed_strings_view(pairs@)[x]),
        decreases groups@.len() - g2,
    {
        let ghost old_pairs = pairs@;
        match find_match(search_map, &groups[g2].1) {
            None => {
                return Err(CorrelateError::UnmatchedSelection(groups[g2].1.clone()));
            },
            Some(p) => {
                proof {
                    lemma_first_match_string(mv, groups@[g2 as int].1@);
                }
                pairs.push(p);
                assert(keyed_strings_view(pairs@) =~= keyed_strings_view(old_pairs).push(
                    (pairs@[g2 as int].0@, pairs@[g2 as int].1@),
                ));
            },
        }
        g2 = g2 + 1;
    }
    // the resolved pairs carry exactly the distinct selected strings
    proof {
        let pv = keyed_strings_view(pairs@);
        let ps = strings_of_pairs(pv);
        let gs = groups@.map_values(|x: (usize, String)| x.1@);
        assert(ps =~= gs);
        assert forall|t: Seq<char>| spec_count(sel, t) == spec_count(ps, t) by {
            assert forall|x: int, y: int| 0 <= x < y < gs.len() implies gs[x] != gs[y] by {
                assert(gs[x] == groups@[x].1@ && gs[y] == groups@[y].1@);
            }
            lemma_count_unique(gs, t);
            lemma_count_nonneg(sel, t);
            if spec_count(sel, t) >= 1 {
                let y = choose|y: int|
                    0 <= y < groups@.len() && (#[trigger] groups@[y]).1@ == t;
                assert(gs[y] == t);
                assert(spec_count(ps, t) == 1);
            } else {
                if exists|k: int| 0 <= k < gs.len() && gs[k] == t {
                    let k = choose|k: int| 0 <= k < gs.len() && gs[k] == t;
                    assert(groups@[k].1@ == t);
                    assert(spec_count(sel, t) == 1);
                }
            }
        }
    }
    Ok(pairs)
}

} // verus!
