//! Fuzzy decoding: recovering values from sentences with typos, by matching
//! sentence segments against dictionary phrases within a Levenshtein
//! distance.
use vstd::prelude::*;

use crate::bits::{
    be_bytes, chunk_from_components, chunk_value, join_chunks, join_payload, u128_to_be_bytes,
};
use crate::checksum::{calculate_checksum, checksum_spec};
use crate::dictionary::phrases_of;
use crate::error::Memo128Error;
use crate::hex::{hex_bytes, hex_encoding, valid_hex_input};
use crate::memo::{encoded_indices, valid_tables, Memo128};
use crate::parse::{char_tables, tables_view, tail_in_bounds};
use crate::text::{chars_of, string_from_chars, trim, trim_chars};

verus! {

/// The smallest of three numbers.
pub open spec fn min3(x: nat, y: nat, z: nat) -> nat {
    let m = if x <= y {
        x
    } else {
        y
    };
    if m <= z {
        m
    } else {
        z
    }
}

/// The Levenshtein distance between `a` and `b`: the least number of
/// single-character insertions, deletions and substitutions that turn one
/// into the other.
pub open spec fn edit_distance(a: Seq<char>, b: Seq<char>) -> nat
    decreases a.len() + b.len(),
{
    if a.len() == 0 {
        b.len()
    } else if b.len() == 0 {
        a.len()
    } else {
        min3(
            edit_distance(a.drop_last(), b) + 1,
            edit_distance(a, b.drop_last()) + 1,
            edit_distance(a.drop_last(), b.drop_last()) + if a.last() == b.last() {
                0nat
            } else {
                1nat
            },
        )
    }
}

/// The distance is at most the length of the longer sequence.
pub proof fn lemma_edit_distance_bound(a: Seq<char>, b: Seq<char>)
    ensures
        edit_distance(a, b) <= if a.len() >= b.len() {
            a.len()
        } else {
            b.len()
        },
    decreases a.len() + b.len(),
{
    if a.len() > 0 && b.len() > 0 {
        lemma_edit_distance_bound(a.drop_last(), b.drop_last());
    }
}

/// Appending the same characters to both sides does not increase the
/// distance.
pub proof fn lemma_edit_distance_common_suffix(a: Seq<char>, b: Seq<char>, q: Seq<char>)
    ensures
        edit_distance(a + q, b + q) <= edit_distance(a, b),
    decreases q.len(),
{
    if q.len() == 0 {
        assert(a + q =~= a);
        assert(b + q =~= b);
    } else {
        let q1 = q.drop_last();
        lemma_edit_distance_common_suffix(a, b, q1);
        assert((a + q).drop_last() =~= a + q1);
        assert((b + q).drop_last() =~= b + q1);
        assert((a + q).last() == (b + q).last());
    }
}

/// One substituted character: `s` with position `i` changed is within
/// distance 1 of `s`.
pub proof fn lemma_edit_distance_substitution(s: Seq<char>, i: int, c: char)
    requires
        0 <= i < s.len(),
    ensures
        edit_distance(s.update(i, c), s) <= 1,
{
    let p = s.take(i);
    let q = s.skip(i + 1);
    lemma_edit_distance_self(p);
    assert(p.push(c).drop_last() =~= p);
    assert(p.push(s[i]).drop_last() =~= p);
    lemma_edit_distance_common_suffix(p.push(c), p.push(s[i]), q);
    assert(s.update(i, c) =~= p.push(c) + q);
    assert(s =~= p.push(s[i]) + q);
}

/// One inserted character: `s` with `c` inserted at position `i` is within
/// distance 1 of `s`.
pub proof fn lemma_edit_distance_insertion(s: Seq<char>, i: int, c: char)
    requires
        0 <= i <= s.len(),
    ensures
        edit_distance(s.insert(i, c), s) <= 1,
{
    let p = s.take(i);
    let q = s.skip(i);
    lemma_edit_distance_self(p);
    assert(p.push(c).drop_last() =~= p);
    if p.len() > 0 {
        assert(edit_distance(p.push(c), p) <= edit_distance(p, p) + 1);
    }
    lemma_edit_distance_common_suffix(p.push(c), p, q);
    assert(s.insert(i, c) =~= p.push(c) + q);
    assert(s =~= p + q);
}

/// One deleted character: `s` with position `i` removed is within distance
/// 1 of `s`.
pub proof fn lemma_edit_distance_deletion(s: Seq<char>, i: int)
    requires
        0 <= i < s.len(),
    ensures
        edit_distance(s.remove(i), s) <= 1,
{
    let r = s.remove(i);
    lemma_edit_distance_insertion(r, i, s[i]);
    assert(r.insert(i, s[i]) =~= s);
    lemma_edit_distance_symmetric(s, r);
}

/// The Levenshtein distance between two character vectors.
pub fn edit_distance_chars(a: &Vec<char>, b: &Vec<char>) -> (r: usize)
    ensures
        r == edit_distance(a@, b@),
{
    let n = a.len();
    let m = b.len();
    if n == 0 {
        return m;
    }
    if m == 0 {
        return n;
    }
    // prev[j] is the distance between the first i - 1 characters of `a`
    // and the first j characters of `b`.
    let mut prev: Vec<usize> = Vec::new();
    let mut j: usize = 0;
    while j < m
        invariant
            m == b@.len(),
            j <= m,
            prev@.len() == j,
            forall|q: int| 0 <= q < j ==> #[trigger] prev@[q] == q,
        decreases m - j,
    {
        prev.push(j);
        j = j + 1;
    }
    prev.push(m);
    let row_len = prev.len();
    assert(m < row_len);
    proof {
        assert forall|q: int| 0 <= q <= m implies #[trigger] prev@[q] == edit_distance(
            a@.take(0),
            b@.take(q),
        ) by {
            assert(a@.take(0).len() == 0);
        }
    }
    let mut row: usize = 0;
    while row < n
        invariant
            n == a@.len(),
            m == b@.len(),
            row <= n,
            0 < n,
            0 < m,
            m < row_len,
            prev@.len() == m + 1,
            forall|q: int|
                0 <= q <= m ==> #[trigger] prev@[q] == edit_distance(
                    a@.take(row as int),
                    b@.take(q),
                ),
        decreases n - row,
    {
        let i = row + 1;
        let mut cur: Vec<usize> = Vec::new();
        cur.push(i);
        proof {
            assert(b@.take(0).len() == 0);
            assert(edit_distance(a@.take(i as int), b@.take(0)) == i);
        }
        let mut j: usize = 1;
        let ai = a[i - 1];
        while j <= m
            invariant
                n == a@.len(),
                m == b@.len(),
                1 <= i <= n,
                i == row + 1,
                m < row_len,
                1 <= j <= m + 1,
                prev@.len() == m + 1,
                ai == a@[i - 1],
                forall|q: int|
                    0 <= q <= m ==> #[trigger] prev@[q] == edit_distance(
                        a@.take(i - 1),
                        b@.take(q),
                    ),
                cur@.len() == j,
                forall|q: int|
                    0 <= q < j ==> #[trigger] cur@[q] == edit_distance(a@.take(i as int), b@.take(q)),
            decreases m + 1 - j,
        {
            let cost: usize = if ai == b[j - 1] {
                0
            } else {
                1
            };
            proof {
                lemma_edit_distance_bound(a@.take(i - 1), b@.take(j as int));
                lemma_edit_distance_bound(a@.take(i - 1), b@.take(j - 1));
            }
            let del_or_ins = if prev[j] <= cur[j - 1] {
                prev[j]
            } else {
                cur[j - 1]
            };
            let edit = del_or_ins + 1;
            let sub = prev[j - 1] + cost;
            let best = if edit <= sub {
                edit
            } else {
                sub
            };
            proof {
                let x = a@.take(i as int);
                let y = b@.take(j as int);
                assert(x.drop_last() =~= a@.take(i - 1));
                assert(y.drop_last() =~= b@.take(j - 1));
                assert(x.last() == a@[i - 1]);
                assert(y.last() == b@[j - 1]);
            }
            cur.push(best);
            j = j + 1;
        }
        prev = cur;
        row = row + 1;
    }
    proof {
        assert(a@.take(n as int) =~= a@);
        assert(b@.take(m as int) =~= b@);
    }
    prev[m]
}

/// Calculates the Levenshtein distance between two strings: the least
/// number of single-character insertions, deletions and substitutions that
/// turn one into the other.
pub fn levenshtein_distance(s1: &str, s2: &str) -> (r: usize)
    ensures
        r == edit_distance(s1@, s2@),
{
    let a = chars_of(s1);
    let b = chars_of(s2);
    edit_distance_chars(&a, &b)
}

/// The indices, in increasing order, of the first `n` phrases of `table`
/// at distance exactly `d` from `text`.
pub open spec fn indices_at_distance(text: Seq<char>, table: Seq<Seq<char>>, d: nat, n: nat) -> Seq<
    int,
>
    decreases n,
{
    if n == 0 {
        Seq::empty()
    } else {
        let r = indices_at_distance(text, table, d, (n - 1) as nat);
        if edit_distance(text, table[n - 1]) == d {
            r.push(n - 1)
        } else {
            r
        }
    }
}

/// The indices of the phrases at distance below `k` from `text`, ordered by
/// distance and, within one distance, by index.
pub open spec fn matches_below(text: Seq<char>, table: Seq<Seq<char>>, k: nat) -> Seq<int>
    decreases k,
{
    if k == 0 {
        Seq::empty()
    } else {
        matches_below(text, table, (k - 1) as nat) + indices_at_distance(
            text,
            table,
            (k - 1) as nat,
            table.len(),
        )
    }
}

/// The phrases of `table` within distance `max_distance` of `text`, closest
/// first and, within one distance, in index order (a stable sort by
/// distance).
pub open spec fn fuzzy_matches(text: Seq<char>, table: Seq<Seq<char>>, max_distance: nat) -> Seq<int> {
    matches_below(text, table, max_distance + 1)
}

proof fn lemma_indices_at_distance_bounds(text: Seq<char>, table: Seq<Seq<char>>, d: nat, n: nat)
    ensures
        forall|i: int|
            0 <= i < indices_at_distance(text, table, d, n).len() ==> 0 <= #[trigger] indices_at_distance(
                text,
                table,
                d,
                n,
            )[i] < n,
    decreases n,
{
    if n > 0 {
        lemma_indices_at_distance_bounds(text, table, d, (n - 1) as nat);
        let r = indices_at_distance(text, table, d, (n - 1) as nat);
        let s = indices_at_distance(text, table, d, n);
        assert forall|i: int| 0 <= i < s.len() implies 0 <= #[trigger] s[i] < n by {
            if i < r.len() {
                assert(s[i] == r[i]);
            }
        }
    }
}

proof fn lemma_indices_at_distance_empty(text: Seq<char>, table: Seq<Seq<char>>, d: nat, n: nat)
    requires
        n <= table.len(),
        forall|i: int| 0 <= i < n ==> edit_distance(text, #[trigger] table[i]) != d,
    ensures
        indices_at_distance(text, table, d, n) == Seq::<int>::empty(),
    decreases n,
{
    if n > 0 {
        lemma_indices_at_distance_empty(text, table, d, (n - 1) as nat);
    }
}

/// Distances that no phrase has add nothing to the matches.
proof fn lemma_matches_below_skip(text: Seq<char>, table: Seq<Seq<char>>, lo: nat, hi: nat)
    requires
        lo <= hi,
        forall|i: int|
            0 <= i < table.len() ==> !(lo <= #[trigger] edit_distance(text, table[i]) < hi),
    ensures
        matches_below(text, table, hi) == matches_below(text, table, lo),
    decreases hi - lo,
{
    if lo < hi {
        lemma_matches_below_skip(text, table, lo, (hi - 1) as nat);
        lemma_indices_at_distance_empty(text, table, (hi - 1) as nat, table.len());
        assert(matches_below(text, table, hi) =~= matches_below(text, table, (hi - 1) as nat));
    }
}

proof fn lemma_matches_below_bounds(text: Seq<char>, table: Seq<Seq<char>>, k: nat)
    ensures
        forall|i: int|
            0 <= i < matches_below(text, table, k).len() ==> 0 <= #[trigger] matches_below(
                text,
                table,
                k,
            )[i] < table.len(),
    decreases k,
{
    if k > 0 {
        lemma_matches_below_bounds(text, table, (k - 1) as nat);
        lemma_indices_at_distance_bounds(text, table, (k - 1) as nat, table.len());
        let a = matches_below(text, table, (k - 1) as nat);
        let b = indices_at_distance(text, table, (k - 1) as nat, table.len());
        assert forall|i: int| 0 <= i < (a + b).len() implies 0 <= #[trigger] (a + b)[i]
            < table.len() by {
            if i >= a.len() {
                assert((a + b)[i] == b[i - a.len()]);
            }
        }
    }
}

/// The phrase indices of a list of (index, distance) matches.
pub open spec fn match_indices(v: Seq<(usize, usize)>) -> Seq<int> {
    v.map_values(|m: (usize, usize)| m.0 as int)
}

/// The phrases of `table` within `max_distance` of `text`, each as its
/// index and its distance from `text`, closest first, ties in index order.
fn find_fuzzy_matches(text: &Vec<char>, table: &Vec<Vec<char>>, max_distance: usize) -> (r: Vec<
    (usize, usize),
>)
    ensures
        match_indices(r@) == fuzzy_matches(
            text@,
            crate::parse::rows_view(table@),
            max_distance as nat,
        ),
        forall|i: int|
            0 <= i < r@.len() ==> #[trigger] r@[i].0 < table@.len() && r@[i].1 == edit_distance(
                text@,
                table@[r@[i].0 as int]@,
            ),
{
    let ghost tab = crate::parse::rows_view(table@);
    let n = table.len();
    let mut dists: Vec<usize> = Vec::with_capacity(n);
    for i in 0..n
        invariant
            n == table@.len(),
            tab == crate::parse::rows_view(table@),
            dists@.len() == i,
            forall|q: int| 0 <= q < i ==> #[trigger] dists@[q] == edit_distance(text@, tab[q]),
    {
        assert(tab[i as int] == table@[i as int]@);
        dists.push(edit_distance_chars(text, &table[i]));
    }
    let mut out: Vec<(usize, usize)> = Vec::new();
    let mut lower: usize = 0;
    let mut finished = false;
    while !finished
        invariant
            n == table@.len(),
            tab == crate::parse::rows_view(table@),
            tab.len() == n,
            dists@.len() == n,
            forall|q: int| 0 <= q < n ==> #[trigger] dists@[q] == edit_distance(text@, tab[q]),
            !finished ==> lower <= max_distance + 1,
            !finished ==> match_indices(out@) == matches_below(
                text@,
                tab,
                lower as nat,
            ),
            finished ==> match_indices(out@) == fuzzy_matches(
                text@,
                tab,
                max_distance as nat,
            ),
            forall|i: int|
                0 <= i < out@.len() ==> #[trigger] out@[i].0 < n && out@[i].1 == edit_distance(
                    text@,
                    tab[out@[i].0 as int],
                ),
        decreases (if finished {
            0
        } else {
            max_distance + 2 - lower
        }),
    {
        // The least distance at or above `lower` that a phrase within range has.
        let mut found = false;
        let mut best: usize = 0;
        for i in 0..n
            invariant
                n == dists@.len(),
                found ==> lower <= best <= max_distance,
                found ==> exists|q: int| 0 <= q < i && dists@[q] == best,
                forall|q: int|
                    0 <= q < i ==> !(lower <= #[trigger] dists@[q] <= max_distance) || (found
                        && best <= dists@[q]),
        {
            let d = dists[i];
            if lower <= d && d <= max_distance && (!found || d < best) {
                found = true;
                best = d;
            }
        }
        if !found {
            proof {
                assert forall|q: int| 0 <= q < tab.len() implies !(lower <= #[trigger] edit_distance(
                    text@,
                    tab[q],
                ) < max_distance + 1) by {
                    assert(dists@[q] == edit_distance(text@, tab[q]));
                }
                lemma_matches_below_skip(text@, tab, lower as nat, (max_distance + 1) as nat);
            }
            finished = true;
        } else {
            proof {
                assert forall|q: int| 0 <= q < tab.len() implies !(lower <= #[trigger] edit_distance(
                    text@,
                    tab[q],
                ) < best) by {
                    assert(dists@[q] == edit_distance(text@, tab[q]));
                }
                lemma_matches_below_skip(text@, tab, lower as nat, best as nat);
            }
            let ghost before = out@;
            let mut i: usize = 0;
            while i < n
                invariant
                    n == dists@.len(),
                    n == table@.len(),
                    tab.len() == n,
                    forall|q: int| 0 <= q < n ==> #[trigger] dists@[q] == edit_distance(text@, tab[q]),
                    i <= n,
                    match_indices(out@) == match_indices(before) + indices_at_distance(
                        text@,
                        tab,
                        best as nat,
                        i as nat,
                    ),
                    forall|q: int|
                        0 <= q < out@.len() ==> #[trigger] out@[q].0 < n && out@[q].1
                            == edit_distance(text@, tab[out@[q].0 as int]),
                decreases n - i,
            {
                let ghost prev = out@;
                if dists[i] == best {
                    out.push((i, best));
                    assert(match_indices(out@) =~= match_indices(prev).push(i as int));
                }
                i = i + 1;
            }
            assert(match_indices(out@) =~= matches_below(
                text@,
                tab,
                (best + 1) as nat,
            ));
            if best >= max_distance {
                finished = true;
            } else {
                lower = best + 1;
            }
        }
    }
    proof {
        assert forall|i: int| 0 <= i < out@.len() implies #[trigger] out@[i].0 < table@.len()
            && out@[i].1 == edit_distance(text@, table@[out@[i].0 as int]@) by {
            assert(tab[out@[i].0 as int] == table@[out@[i].0 as int]@);
        }
    }
    out
}

/// The positions below `n` at which `s` has a space, in increasing order.
pub open spec fn space_positions(s: Seq<char>, n: nat) -> Seq<int>
    decreases n,
{
    if n == 0 {
        Seq::empty()
    } else {
        let r = space_positions(s, (n - 1) as nat);
        if s[n - 1] == ' ' {
            r.push(n - 1)
        } else {
            r
        }
    }
}

/// The lengths tried for the segment of `s` that matches component `comp`:
/// the whole of `s` for the last component; otherwise every position of a
/// space and the end of `s`; and, when `s` has no space, every length from 1
/// up to the length of `s` but at most 100.
pub open spec fn segment_points(s: Seq<char>, comp: int) -> Seq<int> {
    if comp == 4 {
        seq![s.len() as int]
    } else if space_positions(s, s.len()).len() > 0 {
        space_positions(s, s.len()).push(s.len() as int)
    } else {
        Seq::new(if s.len() <= 100 { s.len() } else { 100 }, |i: int| i + 1)
    }
}

/// What is left of `s` after a segment of length `k` and the space that
/// follows it, if any.
pub open spec fn remainder(s: Seq<char>, k: int) -> Seq<char> {
    if k < s.len() {
        if s[k] == ' ' {
            s.subrange(k + 1, s.len() as int)
        } else {
            s.subrange(k, s.len() as int)
        }
    } else {
        Seq::empty()
    }
}

/// Each sequence of `seqs` with `x` in front.
pub open spec fn prepend_all(x: int, seqs: Seq<Seq<int>>) -> Seq<Seq<int>> {
    seqs.map_values(|t: Seq<int>| seq![x] + t)
}

/// Each sequence of `seqs` with `p` in front.
pub open spec fn prefixed(p: Seq<int>, seqs: Seq<Seq<int>>) -> Seq<Seq<int>> {
    seqs.map_values(|t: Seq<int>| p + t)
}

/// The index sequences for components `comp..5` that the fuzzy search finds
/// in `rest`, in the order it finds them: for each segment length in turn,
/// for each phrase of the component's dictionary close enough to the
/// segment (closest first), the sequences found in what follows the segment.
/// After the last component, what is left must be blank.
pub open spec fn candidate_parses(
    tables: Seq<Seq<Seq<char>>>,
    max_distance: nat,
    rest: Seq<char>,
    comp: int,
) -> Seq<Seq<int>>
    decreases 5 - comp, 2nat, 0nat,
{
    if comp >= 5 {
        if crate::text::trim(rest).len() == 0 {
            seq![Seq::empty()]
        } else {
            Seq::empty()
        }
    } else {
        parses_over_points(tables, max_distance, rest, comp, segment_points(rest, comp))
    }
}

/// The candidate parses found over the segment lengths `pts`, in order.
pub open spec fn parses_over_points(
    tables: Seq<Seq<Seq<char>>>,
    max_distance: nat,
    rest: Seq<char>,
    comp: int,
    pts: Seq<int>,
) -> Seq<Seq<int>>
    decreases 5 - comp, 1nat, pts.len(),
{
    if pts.len() == 0 || comp >= 5 {
        Seq::empty()
    } else {
        let k = pts.last();
        parses_over_points(tables, max_distance, rest, comp, pts.drop_last())
            + parses_over_matches(
            tables,
            max_distance,
            remainder(rest, k),
            comp,
            fuzzy_matches(rest.take(k), tables[comp], max_distance),
        )
    }
}

/// The candidate parses that start with each of the phrase indices `ms`,
/// in order.
pub open spec fn parses_over_matches(
    tables: Seq<Seq<Seq<char>>>,
    max_distance: nat,
    rem: Seq<char>,
    comp: int,
    ms: Seq<int>,
) -> Seq<Seq<int>>
    decreases 5 - comp, 0nat, ms.len(),
{
    if ms.len() == 0 || comp >= 5 {
        Seq::empty()
    } else {
        parses_over_matches(tables, max_distance, rem, comp, ms.drop_last()) + prepend_all(
            ms.last(),
            candidate_parses(tables, max_distance, rem, comp + 1),
        )
    }
}

/// The five indices of a tuple, as a sequence.
pub open spec fn tuple_seq(t: (usize, usize, usize, usize, usize)) -> Seq<int> {
    seq![t.0 as int, t.1 as int, t.2 as int, t.3 as int, t.4 as int]
}

/// The index sequences of a list of tuples.
pub open spec fn tuple_seqs(v: Seq<(usize, usize, usize, usize, usize)>) -> Seq<Seq<int>> {
    v.map_values(|t: (usize, usize, usize, usize, usize)| tuple_seq(t))
}

/// The values of a list of indices, as integers.
pub open spec fn ints(v: Seq<usize>) -> Seq<int> {
    v.map_values(|x: usize| x as int)
}

/// Whether every index of every tuple lies within its dictionary.
pub open spec fn tuples_in_bounds(
    tables: Seq<Seq<Seq<char>>>,
    v: Seq<(usize, usize, usize, usize, usize)>,
) -> bool {
    forall|i: int|
        0 <= i < v.len() ==> crate::parse::tail_in_bounds(tables, 0, #[trigger] tuple_seq(v[i]))
}

proof fn lemma_prefixed_concat(p: Seq<int>, a: Seq<Seq<int>>, b: Seq<Seq<int>>)
    ensures
        prefixed(p, a + b) == prefixed(p, a) + prefixed(p, b),
{
    assert(prefixed(p, a + b) =~= prefixed(p, a) + prefixed(p, b));
}

proof fn lemma_prefixed_push(p: Seq<int>, x: int, a: Seq<Seq<int>>)
    ensures
        prefixed(p.push(x), a) == prefixed(p, prepend_all(x, a)),
{
    assert forall|i: int| 0 <= i < a.len() implies #[trigger] prefixed(p.push(x), a)[i] == prefixed(
        p,
        prepend_all(x, a),
    )[i] by {
        assert(p.push(x) + a[i] =~= p + (seq![x] + a[i]));
    }
    assert(prefixed(p.push(x), a) =~= prefixed(p, prepend_all(x, a)));
}

/// A copy of `s[a..b]`.
fn copy_range(s: &Vec<char>, a: usize, b: usize) -> (r: Vec<char>)
    requires
        a <= b <= s@.len(),
    ensures
        r@ == s@.subrange(a as int, b as int),
{
    let mut r: Vec<char> = Vec::new();
    let mut i = a;
    while i < b
        invariant
            a <= i <= b <= s@.len(),
            r@ =~= s@.subrange(a as int, i as int),
        decreases b - i,
    {
        r.push(s[i]);
        i = i + 1;
    }
    r
}

/// The segment lengths to try for component `comp` in `s[start..]`.
fn segment_points_of(s: &Vec<char>, start: usize, comp: usize) -> (r: Vec<usize>)
    requires
        start <= s@.len(),
    ensures
        ints(r@) == segment_points(s@.subrange(start as int, s@.len() as int), comp as int),
        forall|i: int| 0 <= i < r@.len() ==> #[trigger] r@[i] <= s@.len() - start,
{
    let ghost rest = s@.subrange(start as int, s@.len() as int);
    let slen = s.len();
    let len = slen - start;
    if comp == 4 {
        let mut r = Vec::new();
        r.push(len);
        assert(ints(r@) =~= seq![len as int]);
        return r;
    }
    let mut spaces: Vec<usize> = Vec::new();
    let mut q: usize = 0;
    while q < len
        invariant
            slen == s@.len(),
            start <= s@.len(),
            len == s@.len() - start,
            len == rest.len(),
            rest == s@.subrange(start as int, s@.len() as int),
            q <= len,
            ints(spaces@) == space_positions(rest, q as nat),
            forall|i: int| 0 <= i < spaces@.len() ==> #[trigger] spaces@[i] < q,
        decreases len - q,
    {
        let ghost before = spaces@;
        assert(rest[q as int] == s@[start + q]);
        if s[start + q] == ' ' {
            spaces.push(q);
            assert(ints(spaces@) =~= ints(before).push(q as int));
        }
        q = q + 1;
    }
    if spaces.len() > 0 {
        let ghost before = spaces@;
        spaces.push(len);
        assert(ints(spaces@) =~= ints(before).push(len as int));
        return spaces;
    }
    let top = if len <= 100 {
        len
    } else {
        100
    };
    let mut r: Vec<usize> = Vec::new();
    let mut i: usize = 0;
    while i < top
        invariant
            top <= len,
            i <= top,
            r@.len() == i,
            forall|k: int| 0 <= k < i ==> #[trigger] r@[k] == k + 1,
        decreases top - i,
    {
        r.push(i + 1);
        i = i + 1;
    }
    assert(ints(r@) =~= Seq::new(top as nat, |k: int| k + 1));
    r
}

/// Searches `s[start..]` for the phrases of components `comp..5`, appending
/// each complete match, with `current` in front, to `results`.
fn find_sequences(
    tables: &Vec<Vec<Vec<char>>>,
    max_distance: usize,
    s: &Vec<char>,
    start: usize,
    comp: usize,
    current: &mut Vec<usize>,
    results: &mut Vec<(usize, usize, usize, usize, usize)>,
)
    requires
        tables@.len() == 5,
        comp <= 5,
        start <= s@.len(),
        old(current)@.len() == comp,
        forall|j: int|
            0 <= j < comp ==> #[trigger] old(current)@[j] < crate::parse::tables_view(
                tables@,
            )[j].len(),
        tuples_in_bounds(crate::parse::tables_view(tables@), old(results)@),
    ensures
        final(current)@ == old(current)@,
        tuples_seqs_eq(
            final(results)@,
            old(results)@,
            ints(old(current)@),
            candidate_parses(
                crate::parse::tables_view(tables@),
                max_distance as nat,
                s@.subrange(start as int, s@.len() as int),
                comp as int,
            ),
        ),
        tuples_in_bounds(crate::parse::tables_view(tables@), final(results)@),
    decreases 5 - comp,
{
    let ghost tv = crate::parse::tables_view(tables@);
    let ghost rest = s@.subrange(start as int, s@.len() as int);
    let ghost cur0 = current@;
    if comp == 5 {
        let tail = copy_range(s, start, s.len());
        let trimmed = crate::text::trim_chars(&tail);
        if trimmed.len() == 0 {
            let t = (current[0], current[1], current[2], current[3], current[4]);
            let ghost before = results@;
            results.push(t);
            proof {
                assert(tuple_seq(t) =~= ints(cur0) + Seq::<int>::empty());
                assert(tuple_seqs(results@) =~= tuple_seqs(before) + prefixed(
                    ints(cur0),
                    seq![Seq::<int>::empty()],
                ));
                assert(crate::parse::tail_in_bounds(tv, 0, tuple_seq(t))) by {
                    assert forall|k: int| 0 <= k < 5 implies 0 <= #[trigger] tuple_seq(t)[k]
                        < tv[0 + k].len() by {
                        assert(tuple_seq(t)[k] == cur0[k]);
                    }
                }
                assert forall|i: int| 0 <= i < results@.len() implies crate::parse::tail_in_bounds(
                    tv,
                    0,
                    #[trigger] tuple_seq(results@[i]),
                ) by {
                    if i < before.len() {
                        assert(results@[i] == before[i]);
                    }
                }
            }
        } else {
            assert(tuple_seqs(results@) =~= tuple_seqs(results@) + prefixed(
                ints(cur0),
                Seq::<Seq<int>>::empty(),
            ));
        }
        return;
    }
    let pts = segment_points_of(s, start, comp);
    let ghost results0 = results@;
    let ghost all_pts = ints(pts@);
    assert(all_pts.take(0) =~= Seq::<int>::empty());
    let table = &tables[comp];
    assert(tv[comp as int] == crate::parse::rows_view(table@));
    let slen = s.len();
    let mut pi: usize = 0;
    while pi < pts.len()
        invariant
            slen == s@.len(),
            tables@.len() == 5,
            comp < 5,
            start <= s@.len(),
            tv == crate::parse::tables_view(tables@),
            rest == s@.subrange(start as int, s@.len() as int),
            table == &tables@[comp as int],
            tv[comp as int] == crate::parse::rows_view(table@),
            all_pts == ints(pts@),
            all_pts == segment_points(rest, comp as int),
            forall|i: int| 0 <= i < pts@.len() ==> #[trigger] pts@[i] <= s@.len() - start,
            pi <= pts@.len(),
            current@ == cur0,
            cur0.len() == comp,
            forall|j: int| 0 <= j < comp ==> #[trigger] cur0[j] < tv[j].len(),
            tuples_in_bounds(tv, results@),
            tuples_seqs_eq(
                results@,
                results0,
                ints(cur0),
                parses_over_points(tv, max_distance as nat, rest, comp as int, all_pts.take(pi as int)),
            ),
        decreases pts@.len() - pi,
    {
        let k = pts[pi];
        let prefix = copy_range(s, start, start + k);
        assert(prefix@ == rest.take(k as int));
        let matches = find_fuzzy_matches(&prefix, table, max_distance);
        let next_start = if start + k < slen {
            if s[start + k] == ' ' {
                start + k + 1
            } else {
                start + k
            }
        } else {
            slen
        };
        assert(s@.subrange(next_start as int, s@.len() as int) =~= remainder(rest, k as int));
        let ghost ms = match_indices(matches@);
        let ghost results1 = results@;
        assert(ms.take(0) =~= Seq::<int>::empty());
        let mut mi: usize = 0;
        while mi < matches.len()
            invariant
                slen == s@.len(),
                tables@.len() == 5,
                comp < 5,
                next_start <= s@.len(),
                tv == crate::parse::tables_view(tables@),
                table == &tables@[comp as int],
                tv[comp as int] == crate::parse::rows_view(table@),
                ms == match_indices(matches@),
                forall|i: int| 0 <= i < matches@.len() ==> #[trigger] matches@[i].0 < table@.len(),
                mi <= matches@.len(),
                current@ == cur0,
                cur0.len() == comp,
                forall|j: int| 0 <= j < comp ==> #[trigger] cur0[j] < tv[j].len(),
                tuples_in_bounds(tv, results@),
                tuples_seqs_eq(
                    results@,
                    results1,
                    ints(cur0),
                    parses_over_matches(
                        tv,
                        max_distance as nat,
                        s@.subrange(next_start as int, s@.len() as int),
                        comp as int,
                        ms.take(mi as int),
                    ),
                ),
            decreases matches@.len() - mi,
        {
            let idx = matches[mi].0;
            let ghost results2 = results@;
            current.push(idx);
            proof {
                assert(ints(current@) =~= ints(cur0).push(idx as int));
                assert forall|j: int| 0 <= j < comp + 1 implies #[trigger] current@[j]
                    < tv[j].len() by {
                    if j == comp {
                        assert(tv[comp as int].len() == table@.len());
                    }
                }
            }
            find_sequences(tables, max_distance, s, next_start, comp + 1, current, results);
            current.pop();
            proof {
                assert(current@ =~= cur0);
                let sub = candidate_parses(
                    tv,
                    max_distance as nat,
                    s@.subrange(next_start as int, s@.len() as int),
                    comp + 1,
                );
                lemma_prefixed_push(ints(cur0), idx as int, sub);
                assert(ms.take(mi + 1).drop_last() =~= ms.take(mi as int));
                assert(ms.take(mi + 1).last() == idx as int);
                lemma_tuples_seqs_eq_trans(
                    results@,
                    results2,
                    results1,
                    ints(cur0),
                    parses_over_matches(
                        tv,
                        max_distance as nat,
                        s@.subrange(next_start as int, s@.len() as int),
                        comp as int,
                        ms.take(mi as int),
                    ),
                    prepend_all(idx as int, sub),
                );
            }
            mi = mi + 1;
        }
        proof {
            assert(ms.take(matches@.len() as int) =~= ms);
            assert(all_pts.take(pi + 1).drop_last() =~= all_pts.take(pi as int));
            assert(all_pts.take(pi + 1).last() == k as int);
            lemma_tuples_seqs_eq_trans(
                results@,
                results1,
                results0,
                ints(cur0),
                parses_over_points(tv, max_distance as nat, rest, comp as int, all_pts.take(pi as int)),
                parses_over_matches(
                    tv,
                    max_distance as nat,
                    remainder(rest, k as int),
                    comp as int,
                    fuzzy_matches(rest.take(k as int), tv[comp as int], max_distance as nat),
                ),
            );
        }
        pi = pi + 1;
    }
    proof {
        assert(all_pts.take(pts@.len() as int) =~= all_pts);
    }
}

/// `after` is `before` followed by the sequences `seqs`, each with `p` in
/// front.
pub open spec fn tuples_seqs_eq(
    after: Seq<(usize, usize, usize, usize, usize)>,
    before: Seq<(usize, usize, usize, usize, usize)>,
    p: Seq<int>,
    seqs: Seq<Seq<int>>,
) -> bool {
    tuple_seqs(after) == tuple_seqs(before) + prefixed(p, seqs)
}

proof fn lemma_tuples_seqs_eq_trans(
    c: Seq<(usize, usize, usize, usize, usize)>,
    b: Seq<(usize, usize, usize, usize, usize)>,
    a: Seq<(usize, usize, usize, usize, usize)>,
    p: Seq<int>,
    x: Seq<Seq<int>>,
    y: Seq<Seq<int>>,
)
    requires
        tuples_seqs_eq(b, a, p, x),
        tuples_seqs_eq(c, b, p, y),
    ensures
        tuples_seqs_eq(c, a, p, x + y),
{
    lemma_prefixed_concat(p, x, y);
    assert(tuple_seqs(c) =~= tuple_seqs(a) + prefixed(p, x + y));
}

/// The candidate parses of one input sentence, once trimmed.
pub open spec fn sentence_candidates(
    tables: Seq<Seq<Seq<char>>>,
    max_distance: nat,
    s: Seq<char>,
) -> Seq<Seq<int>> {
    candidate_parses(tables, max_distance, trim(s), 0)
}

/// The value that three candidate parses give, as lowercase hexadecimal,
/// when the checksum they carry matches their data.
pub open spec fn combo_hex(t0: Seq<int>, t1: Seq<int>, t2: Seq<int>) -> Option<Seq<char>> {
    let n = join_chunks(chunk_value(t0) as nat, chunk_value(t1) as nat, chunk_value(t2) as nat);
    let bytes = be_bytes(n / 128, 16);
    if checksum_spec(bytes) as nat == n % 128 {
        Some(hex_encoding(bytes))
    } else {
        None
    }
}

/// `acc` with the value `h` added, unless it is absent or already there.
pub open spec fn collect_hex(acc: Seq<Seq<char>>, h: Option<Seq<char>>) -> Seq<Seq<char>> {
    match h {
        Some(x) => if acc.contains(x) {
            acc
        } else {
            acc.push(x)
        },
        None => acc,
    }
}

/// The values collected over the first `n` candidates of the third
/// sentence.
pub open spec fn fold_third(
    acc: Seq<Seq<char>>,
    t0: Seq<int>,
    t1: Seq<int>,
    c2: Seq<Seq<int>>,
    n: nat,
) -> Seq<Seq<char>>
    decreases n,
{
    if n == 0 {
        acc
    } else {
        collect_hex(fold_third(acc, t0, t1, c2, (n - 1) as nat), combo_hex(t0, t1, c2[n - 1]))
    }
}

/// The values collected over the first `n` candidates of the second
/// sentence.
pub open spec fn fold_second(
    acc: Seq<Seq<char>>,
    t0: Seq<int>,
    c1: Seq<Seq<int>>,
    c2: Seq<Seq<int>>,
    n: nat,
) -> Seq<Seq<char>>
    decreases n,
{
    if n == 0 {
        acc
    } else {
        fold_third(fold_second(acc, t0, c1, c2, (n - 1) as nat), t0, c1[n - 1], c2, c2.len())
    }
}

/// The values collected into `acc` over the first `n` candidates of the
/// first sentence.
pub open spec fn fold_first(
    acc: Seq<Seq<char>>,
    c0: Seq<Seq<int>>,
    c1: Seq<Seq<int>>,
    c2: Seq<Seq<int>>,
    n: nat,
) -> Seq<Seq<char>>
    decreases n,
{
    if n == 0 {
        acc
    } else {
        fold_second(fold_first(acc, c0, c1, c2, (n - 1) as nat), c0[n - 1], c1, c2, c1.len())
    }
}

/// `acc` followed by the distinct values, not already in `acc`, in order of
/// first appearance, that the combinations of one candidate parse per
/// sentence give with a matching checksum.
pub open spec fn collect_results(
    acc: Seq<Seq<char>>,
    c0: Seq<Seq<int>>,
    c1: Seq<Seq<int>>,
    c2: Seq<Seq<int>>,
) -> Seq<Seq<char>> {
    fold_first(acc, c0, c1, c2, c0.len())
}

/// The distinct values, in order of first appearance, that the combinations
/// of one candidate parse per sentence give with a matching checksum.
pub open spec fn fuzzy_results(c0: Seq<Seq<int>>, c1: Seq<Seq<int>>, c2: Seq<Seq<int>>) -> Seq<
    Seq<char>,
> {
    collect_results(Seq::empty(), c0, c1, c2)
}

/// Fuzzy matching decoder for the Memo128 system: decodes sentences that
/// may hold typos or small rephrasings.
pub struct FuzzyMemo128 {
    memo128: Memo128,
    max_levenshtein_distance: usize,
}

impl FuzzyMemo128 {
    /// The phrases of the five dictionaries, in sentence order.
    pub closed spec fn tables(&self) -> Seq<Seq<Seq<char>>> {
        self.memo128.tables()
    }

    /// The greatest Levenshtein distance at which a segment matches a
    /// phrase.
    pub closed spec fn max_distance(&self) -> nat {
        self.max_levenshtein_distance as nat
    }

    /// Creates a fuzzy decoder over the dictionaries of `memo128`.
    pub fn new(memo128: Memo128, max_levenshtein_distance: usize) -> (r: Self)
        ensures
            r.tables() == memo128.tables(),
            r.max_distance() == max_levenshtein_distance,
    {
        FuzzyMemo128 { memo128, max_levenshtein_distance }
    }

    /// The candidate parses of `sentence`, in the order the search finds
    /// them.
    fn fuzzy_parse_sentence(&self, sentence: &str) -> (r: Vec<(usize, usize, usize, usize, usize)>)
        ensures
            tuple_seqs(r@) == candidate_parses(self.tables(), self.max_distance(), sentence@, 0),
            tuples_in_bounds(self.tables(), r@),
    {
        let character_dict = self.memo128.get_character_dict();
        let setting_dict = self.memo128.get_setting_dict();
        let action_dict = self.memo128.get_action_dict();
        let object_dict = self.memo128.get_object_dict();
        let outcome_dict = self.memo128.get_outcome_dict();
        let dictionaries = char_tables(
            character_dict,
            setting_dict,
            action_dict,
            object_dict,
            outcome_dict,
        );
        assert(dictionaries@.len() == tables_view(dictionaries@).len());
        let s = chars_of(sentence);
        let mut results: Vec<(usize, usize, usize, usize, usize)> = Vec::new();
        let mut current_indices: Vec<usize> = Vec::with_capacity(5);
        assert(s@.subrange(0, s@.len() as int) =~= s@);
        find_sequences(
            &dictionaries,
            self.max_levenshtein_distance,
            &s,
            0,
            0,
            &mut current_indices,
            &mut results,
        );
        assert(prefixed(Seq::<int>::empty(), candidate_parses(self.tables(), self.max_distance(), sentence@, 0)) =~= candidate_parses(self.tables(), self.max_distance(), sentence@, 0));
        assert(ints(Seq::<usize>::empty()) =~= Seq::<int>::empty());
        results
    }

    /// Decodes three possibly imperfect sentences: every 128-bit value, as
    /// lowercase hexadecimal, that some combination of candidate parses of
    /// the sentences gives with a matching checksum, each value once, in
    /// order of first appearance.
    ///
    /// Fails with `ParsingError` when there are not exactly three sentences
    /// or one of them has no candidate parse.
    pub fn fuzzy_decode(&self, input_sentences: &[String]) -> (r: Result<Vec<String>, Memo128Error>)
        ensures
            valid_tables(self.tables()),
            match r {
                Ok(v) => {
                    let s = phrases_of(input_sentences@);
                    &&& s.len() == 3
                    &&& forall|i: int|
                        0 <= i < 3 ==> #[trigger] sentence_candidates(
                            self.tables(),
                            self.max_distance(),
                            s[i],
                        ).len() > 0
                    &&& phrases_of(v@) == fuzzy_results(
                        sentence_candidates(self.tables(), self.max_distance(), s[0]),
                        sentence_candidates(self.tables(), self.max_distance(), s[1]),
                        sentence_candidates(self.tables(), self.max_distance(), s[2]),
                    )
                },
                Err(e) => {
                    let s = phrases_of(input_sentences@);
                    &&& e is ParsingError
                    &&& (s.len() != 3 || exists|i: int|
                        0 <= i < 3 && #[trigger] sentence_candidates(
                            self.tables(),
                            self.max_distance(),
                            s[i],
                        ).len() == 0)
                },
            },
    {
        proof {
            use_type_invariant(&self.memo128);
        }
        let ghost s = phrases_of(input_sentences@);
        if input_sentences.len() != 3 {
            let mut m = String::from_str("Expected exactly 3 sentences, got ");
            m.append(input_sentences.len().to_string().as_str());
            return Err(Memo128Error::ParsingError(m));
        }
        let mut sentence_candidates_found: Vec<Vec<(usize, usize, usize, usize, usize)>> = Vec::new();
        let mut i: usize = 0;
        while i < 3
            invariant
                input_sentences@.len() == 3,
                s == phrases_of(input_sentences@),
                valid_tables(self.tables()),
                i <= 3,
                sentence_candidates_found@.len() == i,
                forall|j: int|
                    0 <= j < i ==> tuple_seqs(#[trigger] sentence_candidates_found@[j]@)
                        == sentence_candidates(self.tables(), self.max_distance(), s[j])
                        && sentence_candidates_found@[j]@.len() > 0 && tuples_in_bounds(
                        self.tables(),
                        sentence_candidates_found@[j]@,
                    ),
            decreases 3 - i,
        {
            let chars = chars_of(input_sentences[i].as_str());
            let trimmed_chars = trim_chars(&chars);
            let sentence = string_from_chars(&trimmed_chars);
            assert(sentence@ == trim(s[i as int]));
            let candidates = self.fuzzy_parse_sentence(sentence.as_str());
            if candidates.len() == 0 {
                assert(sentence_candidates(self.tables(), self.max_distance(), s[i as int]).len() == 0);
                let mut m = String::from_str("No fuzzy matches found for sentence: ");
                m.append(sentence.as_str());
                return Err(Memo128Error::ParsingError(m));
            }
            sentence_candidates_found.push(candidates);
            i = i + 1;
        }
        let mut valid_hex_results: Vec<String> = Vec::new();
        assert(phrases_of(valid_hex_results@) =~= Seq::<Seq<char>>::empty());
        self.check_candidates(&sentence_candidates_found, &mut valid_hex_results);
        Ok(valid_hex_results)
    }

    /// The payload, as data word and checksum, that one candidate parse per
    /// sentence gives.
    fn reconstruct_number(
        &self,
        t0: (usize, usize, usize, usize, usize),
        t1: (usize, usize, usize, usize, usize),
        t2: (usize, usize, usize, usize, usize),
    ) -> (r: (u128, u8))
        requires
            valid_tables(self.tables()),
            tail_in_bounds(self.tables(), 0, tuple_seq(t0)),
            tail_in_bounds(self.tables(), 0, tuple_seq(t1)),
            tail_in_bounds(self.tables(), 0, tuple_seq(t2)),
        ensures
            ({
                let n = join_chunks(
                    chunk_value(tuple_seq(t0)) as nat,
                    chunk_value(tuple_seq(t1)) as nat,
                    chunk_value(tuple_seq(t2)) as nat,
                );
                r.0 == n / 128 && r.1 == n % 128
            }),
    {
        proof {
            lemma_in_bounds(self.tables(), tuple_seq(t0));
            lemma_in_bounds(self.tables(), tuple_seq(t1));
            lemma_in_bounds(self.tables(), tuple_seq(t2));
        }
        let c0 = chunk_from_components(t0);
        let c1 = chunk_from_components(t1);
        let c2 = chunk_from_components(t2);
        join_payload(c0, c1, c2)
    }

    /// Appends to `valid_hex_results` the values of all combinations of one
    /// candidate per sentence whose checksum matches, in order of first
    /// appearance, leaving out each value already in the vector or already
    /// appended.
    fn check_candidates(
        &self,
        sentence_candidates: &Vec<Vec<(usize, usize, usize, usize, usize)>>,
        valid_hex_results: &mut Vec<String>,
    )
        requires
            valid_tables(self.tables()),
            sentence_candidates@.len() == 3,
            forall|j: int|
                0 <= j < 3 ==> tuples_in_bounds(self.tables(), #[trigger] sentence_candidates@[j]@),
        ensures
            phrases_of(final(valid_hex_results)@) == collect_results(
                phrases_of(old(valid_hex_results)@),
                tuple_seqs(sentence_candidates@[0]@),
                tuple_seqs(sentence_candidates@[1]@),
                tuple_seqs(sentence_candidates@[2]@),
            ),
            phrases_of(old(valid_hex_results)@).is_prefix_of(phrases_of(final(valid_hex_results)@)),
            phrases_of(old(valid_hex_results)@).no_duplicates() ==> phrases_of(
                final(valid_hex_results)@,
            ).no_duplicates(),
    {
        let cands0 = &sentence_candidates[0];
        let cands1 = &sentence_candidates[1];
        let cands2 = &sentence_candidates[2];
        let ghost c0 = tuple_seqs(cands0@);
        let ghost c1 = tuple_seqs(cands1@);
        let ghost c2 = tuple_seqs(cands2@);
        let ghost acc0 = phrases_of(valid_hex_results@);
        let mut i0: usize = 0;
        while i0 < cands0.len()
            invariant
                valid_tables(self.tables()),
                tuples_in_bounds(self.tables(), cands0@),
                tuples_in_bounds(self.tables(), cands1@),
                tuples_in_bounds(self.tables(), cands2@),
                c0 == tuple_seqs(cands0@),
                c1 == tuple_seqs(cands1@),
                c2 == tuple_seqs(cands2@),
                i0 <= cands0@.len(),
                phrases_of(valid_hex_results@) == fold_first(acc0, c0, c1, c2, i0 as nat),
            decreases cands0@.len() - i0,
        {
            let t0 = cands0[i0];
            assert(tail_in_bounds(self.tables(), 0, tuple_seq(cands0@[i0 as int])));
            let ghost acc1 = phrases_of(valid_hex_results@);
            let mut i1: usize = 0;
            while i1 < cands1.len()
                invariant
                    valid_tables(self.tables()),
                    tuples_in_bounds(self.tables(), cands1@),
                    tuples_in_bounds(self.tables(), cands2@),
                    tail_in_bounds(self.tables(), 0, tuple_seq(t0)),
                    c0 == tuple_seqs(cands0@),
                    c1 == tuple_seqs(cands1@),
                    c2 == tuple_seqs(cands2@),
                    i1 <= cands1@.len(),
                    phrases_of(valid_hex_results@) == fold_second(acc1, tuple_seq(t0), c1, c2, i1 as nat),
                decreases cands1@.len() - i1,
            {
                let t1 = cands1[i1];
                assert(tail_in_bounds(self.tables(), 0, tuple_seq(cands1@[i1 as int])));
                let ghost acc2 = phrases_of(valid_hex_results@);
                let mut i2: usize = 0;
                while i2 < cands2.len()
                    invariant
                        valid_tables(self.tables()),
                        tuples_in_bounds(self.tables(), cands2@),
                        tail_in_bounds(self.tables(), 0, tuple_seq(t0)),
                        tail_in_bounds(self.tables(), 0, tuple_seq(t1)),
                        c2 == tuple_seqs(cands2@),
                        i2 <= cands2@.len(),
                        phrases_of(valid_hex_results@) == fold_third(
                            acc2,
                            tuple_seq(t0),
                            tuple_seq(t1),
                            c2,
                            i2 as nat,
                        ),
                    decreases cands2@.len() - i2,
                {
                    let t2 = cands2[i2];
                    assert(tail_in_bounds(self.tables(), 0, tuple_seq(cands2@[i2 as int])));
                    let (data_num_decoded, checksum_bits_decoded) = self.reconstruct_number(t0, t1, t2);
                    let padded_bytes = u128_to_be_bytes(data_num_decoded);
                    let checksum_bits_calculated = calculate_checksum(&padded_bytes);
                    let ghost before = phrases_of(valid_hex_results@);
                    if checksum_bits_decoded == checksum_bits_calculated {
                        let hex_result = Memo128::bytes_to_hex(&padded_bytes);
                        if !contains_string(valid_hex_results, &hex_result) {
                            valid_hex_results.push(hex_result);
                            assert(phrases_of(valid_hex_results@) =~= before.push(hex_result@));
                        }
                    }
                    i2 = i2 + 1;
                }
                i1 = i1 + 1;
            }
            i0 = i0 + 1;
        }
        proof {
            lemma_collect_results(acc0, c0, c1, c2, Seq::empty());
        }
    }
}

/// Whether `v` holds a string equal to `s`.
fn contains_string(v: &Vec<String>, s: &String) -> (r: bool)
    ensures
        r == phrases_of(v@).contains(s@),
{
    let n = v.len();
    let mut i: usize = 0;
    while i < n
        invariant
            n == v@.len(),
            i <= n,
            forall|k: int| 0 <= k < i ==> phrases_of(v@)[k] != s@,
        decreases n - i,
    {
        if v[i] == *s {
            assert(phrases_of(v@)[i as int] == s@);
            return true;
        }
        i = i + 1;
    }
    false
}

/// In valid tables, in-bounds index sequences are within the dictionary
/// sizes.
proof fn lemma_in_bounds(tables: Seq<Seq<Seq<char>>>, t: Seq<int>)
    requires
        valid_tables(tables),
        tail_in_bounds(tables, 0, t),
    ensures
        crate::bits::indices_in_bounds(t),
{
    assert forall|k: int| 0 <= k < 5 implies 0 <= #[trigger] t[k] < crate::bits::dictionary_sizes()[k] by {
        assert(crate::dictionary::valid_table(tables[k], crate::bits::dictionary_sizes()[k]));
        assert(t[k] < tables[0 + k].len());
    }
}

/// A sequence is at distance zero from itself.
pub proof fn lemma_edit_distance_self(a: Seq<char>)
    ensures
        edit_distance(a, a) == 0,
    decreases a.len(),
{
    if a.len() > 0 {
        lemma_edit_distance_self(a.drop_last());
    }
}

/// The Levenshtein distance is symmetric.
pub proof fn lemma_edit_distance_symmetric(a: Seq<char>, b: Seq<char>)
    ensures
        edit_distance(a, b) == edit_distance(b, a),
    decreases a.len() + b.len(),
{
    if a.len() > 0 && b.len() > 0 {
        lemma_edit_distance_symmetric(a.drop_last(), b);
        lemma_edit_distance_symmetric(a, b.drop_last());
        lemma_edit_distance_symmetric(a.drop_last(), b.drop_last());
    }
}

proof fn lemma_collect_distinct(acc: Seq<Seq<char>>, h: Option<Seq<char>>)
    ensures
        acc.is_prefix_of(collect_hex(acc, h)),
        acc.no_duplicates() ==> collect_hex(acc, h).no_duplicates(),
        forall|x: Seq<char>|
            #[trigger] collect_hex(acc, h).contains(x) <==> acc.contains(x) || h == Some(x),
{
    if let Some(v) = h {
        if !acc.contains(v) {
            let r = acc.push(v);
            assert(acc =~= r.subrange(0, acc.len() as int));
            if acc.no_duplicates() {
                assert forall|i: int, j: int|
                    0 <= i < r.len() && 0 <= j < r.len() && i != j implies r[i] != r[j] by {
                    if i == acc.len() as int {
                        assert(!acc.contains(v));
                        if r[j] == v {
                            assert(acc[j] == v);
                        }
                    } else if j == acc.len() as int {
                        if r[i] == v {
                            assert(acc[i] == v);
                        }
                    }
                }
            }
            assert forall|x: Seq<char>| #[trigger] r.contains(x) <==> acc.contains(x) || h == Some(
                x,
            ) by {
                if r.contains(x) {
                    let i = choose|i: int| 0 <= i < r.len() && r[i] == x;
                    if i < acc.len() {
                        assert(acc[i] == x);
                    }
                }
                if acc.contains(x) {
                    let i = choose|i: int| 0 <= i < acc.len() && acc[i] == x;
                    assert(r[i] == x);
                }
                if h == Some(x) {
                    assert(r[acc.len() as int] == x);
                }
            }
        } else {
            assert(acc =~= acc.subrange(0, acc.len() as int));
        }
    } else {
        assert(acc =~= acc.subrange(0, acc.len() as int));
    }
}

proof fn lemma_prefix_trans(a: Seq<Seq<char>>, b: Seq<Seq<char>>, c: Seq<Seq<char>>)
    requires
        a.is_prefix_of(b),
        b.is_prefix_of(c),
    ensures
        a.is_prefix_of(c),
{
    assert forall|i: int| 0 <= i < a.len() implies a[i] == c.subrange(0, a.len() as int)[i] by {
        assert(a[i] == b.subrange(0, a.len() as int)[i]);
        assert(b[i] == c.subrange(0, b.len() as int)[i]);
    }
    assert(a =~= c.subrange(0, a.len() as int));
}

proof fn lemma_fold_third(
    acc: Seq<Seq<char>>,
    t0: Seq<int>,
    t1: Seq<int>,
    c2: Seq<Seq<int>>,
    n: nat,
)
    requires
        n <= c2.len(),
    ensures
        acc.is_prefix_of(fold_third(acc, t0, t1, c2, n)),
        acc.no_duplicates() ==> fold_third(acc, t0, t1, c2, n).no_duplicates(),
        forall|x: Seq<char>|
            #[trigger] fold_third(acc, t0, t1, c2, n).contains(x) <==> acc.contains(x) || exists|
                i2: int,
            |
                0 <= i2 < n && #[trigger] combo_hex(t0, t1, c2[i2]) == Some(x),
    decreases n,
{
    if n > 0 {
        lemma_fold_third(acc, t0, t1, c2, (n - 1) as nat);
        let prev = fold_third(acc, t0, t1, c2, (n - 1) as nat);
        lemma_collect_distinct(prev, combo_hex(t0, t1, c2[n - 1]));
        lemma_prefix_trans(acc, prev, fold_third(acc, t0, t1, c2, n));
        assert forall|x: Seq<char>| #[trigger]
            fold_third(acc, t0, t1, c2, n).contains(x) <==> acc.contains(x) || exists|i2: int|
                0 <= i2 < n && #[trigger] combo_hex(t0, t1, c2[i2]) == Some(x) by {
            if exists|i2: int| 0 <= i2 < n && #[trigger] combo_hex(t0, t1, c2[i2]) == Some(x) {
                let i2 = choose|i2: int| 0 <= i2 < n && #[trigger] combo_hex(t0, t1, c2[i2]) == Some(x);
                if i2 < n - 1 {
                    assert(prev.contains(x));
                }
            }
        }
    } else {
        assert(acc =~= acc.subrange(0, acc.len() as int));
    }
}

proof fn lemma_fold_second(
    acc: Seq<Seq<char>>,
    t0: Seq<int>,
    c1: Seq<Seq<int>>,
    c2: Seq<Seq<int>>,
    n: nat,
)
    requires
        n <= c1.len(),
    ensures
        acc.is_prefix_of(fold_second(acc, t0, c1, c2, n)),
        acc.no_duplicates() ==> fold_second(acc, t0, c1, c2, n).no_duplicates(),
        forall|x: Seq<char>|
            #[trigger] fold_second(acc, t0, c1, c2, n).contains(x) <==> acc.contains(x) || exists|
                i1: int,
                i2: int,
            |
                0 <= i1 < n && 0 <= i2 < c2.len() && #[trigger] combo_hex(t0, c1[i1], c2[i2])
                    == Some(x),
    decreases n,
{
    if n > 0 {
        lemma_fold_second(acc, t0, c1, c2, (n - 1) as nat);
        let prev = fold_second(acc, t0, c1, c2, (n - 1) as nat);
        lemma_fold_third(prev, t0, c1[n - 1], c2, c2.len());
        lemma_prefix_trans(acc, prev, fold_second(acc, t0, c1, c2, n));
        assert forall|x: Seq<char>| #[trigger]
            fold_second(acc, t0, c1, c2, n).contains(x) <==> acc.contains(x) || exists|
                i1: int,
                i2: int,
            |
                0 <= i1 < n && 0 <= i2 < c2.len() && #[trigger] combo_hex(t0, c1[i1], c2[i2])
                    == Some(x) by {
            if exists|i1: int, i2: int|
                0 <= i1 < n && 0 <= i2 < c2.len() && #[trigger] combo_hex(t0, c1[i1], c2[i2])
                    == Some(x) {
                let (i1, i2) = choose|i1: int, i2: int|
                    0 <= i1 < n && 0 <= i2 < c2.len() && #[trigger] combo_hex(t0, c1[i1], c2[i2])
                        == Some(x);
                if i1 < n - 1 {
                    assert(prev.contains(x));
                } else {
                    assert(combo_hex(t0, c1[n - 1], c2[i2]) == Some(x));
                }
            }
            if fold_second(acc, t0, c1, c2, n).contains(x) && !acc.contains(x) {
                if !prev.contains(x) {
                    let i2 = choose|i2: int|
                        0 <= i2 < c2.len() && #[trigger] combo_hex(t0, c1[n - 1], c2[i2]) == Some(x);
                    assert(combo_hex(t0, c1[n - 1], c2[i2]) == Some(x));
                }
            }
        }
    } else {
        assert(acc =~= acc.subrange(0, acc.len() as int));
    }
}

proof fn lemma_fold_first(
    acc: Seq<Seq<char>>,
    c0: Seq<Seq<int>>,
    c1: Seq<Seq<int>>,
    c2: Seq<Seq<int>>,
    n: nat,
)
    requires
        n <= c0.len(),
    ensures
        acc.is_prefix_of(fold_first(acc, c0, c1, c2, n)),
        acc.no_duplicates() ==> fold_first(acc, c0, c1, c2, n).no_duplicates(),
        forall|x: Seq<char>|
            #[trigger] fold_first(acc, c0, c1, c2, n).contains(x) <==> acc.contains(x) || exists|
                i0: int,
                i1: int,
                i2: int,
            |
                0 <= i0 < n && 0 <= i1 < c1.len() && 0 <= i2 < c2.len() && #[trigger] combo_hex(
                    c0[i0],
                    c1[i1],
                    c2[i2],
                ) == Some(x),
    decreases n,
{
    if n > 0 {
        lemma_fold_first(acc, c0, c1, c2, (n - 1) as nat);
        let prev = fold_first(acc, c0, c1, c2, (n - 1) as nat);
        lemma_fold_second(prev, c0[n - 1], c1, c2, c1.len());
        lemma_prefix_trans(acc, prev, fold_first(acc, c0, c1, c2, n));
        assert forall|x: Seq<char>| #[trigger]
            fold_first(acc, c0, c1, c2, n).contains(x) <==> acc.contains(x) || exists|
                i0: int,
                i1: int,
                i2: int,
            |
                0 <= i0 < n && 0 <= i1 < c1.len() && 0 <= i2 < c2.len() && #[trigger] combo_hex(
                    c0[i0],
                    c1[i1],
                    c2[i2],
                ) == Some(x) by {
            if exists|i0: int, i1: int, i2: int|
                0 <= i0 < n && 0 <= i1 < c1.len() && 0 <= i2 < c2.len() && #[trigger] combo_hex(
                    c0[i0],
                    c1[i1],
                    c2[i2],
                ) == Some(x) {
                let (i0, i1, i2) = choose|i0: int, i1: int, i2: int|
                    0 <= i0 < n && 0 <= i1 < c1.len() && 0 <= i2 < c2.len() && #[trigger] combo_hex(
                        c0[i0],
                        c1[i1],
                        c2[i2],
                    ) == Some(x);
                if i0 < n - 1 {
                    assert(prev.contains(x));
                } else {
                    assert(combo_hex(c0[n - 1], c1[i1], c2[i2]) == Some(x));
                }
            }
            if fold_first(acc, c0, c1, c2, n).contains(x) && !acc.contains(x) {
                if prev.contains(x) {
                    let (i0, i1, i2) = choose|i0: int, i1: int, i2: int|
                        0 <= i0 < n - 1 && 0 <= i1 < c1.len() && 0 <= i2 < c2.len()
                            && #[trigger] combo_hex(c0[i0], c1[i1], c2[i2]) == Some(x);
                    assert(combo_hex(c0[i0], c1[i1], c2[i2]) == Some(x));
                } else {
                    let (i1, i2) = choose|i1: int, i2: int|
                        0 <= i1 < c1.len() && 0 <= i2 < c2.len() && #[trigger] combo_hex(
                            c0[n - 1],
                            c1[i1],
                            c2[i2],
                        ) == Some(x);
                    assert(combo_hex(c0[n - 1], c1[i1], c2[i2]) == Some(x));
                }
            }
        }
    } else {
        assert(acc =~= acc.subrange(0, acc.len() as int));
    }
}

/// Collecting results keeps what was there before, in place, and adds
/// exactly the values that some combination of one candidate parse per
/// sentence gives with a matching checksum; it adds no value twice.
pub proof fn lemma_collect_results(
    acc: Seq<Seq<char>>,
    c0: Seq<Seq<int>>,
    c1: Seq<Seq<int>>,
    c2: Seq<Seq<int>>,
    h: Seq<char>,
)
    ensures
        acc.is_prefix_of(collect_results(acc, c0, c1, c2)),
        acc.no_duplicates() ==> collect_results(acc, c0, c1, c2).no_duplicates(),
        collect_results(acc, c0, c1, c2).contains(h) <==> acc.contains(h) || exists|
            i0: int,
            i1: int,
            i2: int,
        |
            0 <= i0 < c0.len() && 0 <= i1 < c1.len() && 0 <= i2 < c2.len() && #[trigger] combo_hex(
                c0[i0],
                c1[i1],
                c2[i2],
            ) == Some(h),
{
    lemma_fold_first(acc, c0, c1, c2, c0.len());
}

/// The fuzzy decoder lists each value once, and lists exactly the values
/// that some combination of one candidate parse per sentence gives with a
/// matching checksum.
pub proof fn lemma_fuzzy_results(c0: Seq<Seq<int>>, c1: Seq<Seq<int>>, c2: Seq<Seq<int>>, h: Seq<char>)
    ensures
        fuzzy_results(c0, c1, c2).no_duplicates(),
        fuzzy_results(c0, c1, c2).contains(h) <==> exists|i0: int, i1: int, i2: int|
            0 <= i0 < c0.len() && 0 <= i1 < c1.len() && 0 <= i2 < c2.len() && #[trigger] combo_hex(
                c0[i0],
                c1[i1],
                c2[i2],
            ) == Some(h),
{
    lemma_collect_results(Seq::empty(), c0, c1, c2, h);
}

proof fn lemma_space_positions_contains(s: Seq<char>, n: nat, p: int)
    requires
        0 <= p < n <= s.len(),
        s[p] == ' ',
    ensures
        space_positions(s, n).contains(p),
    decreases n,
{
    if p < n - 1 {
        lemma_space_positions_contains(s, (n - 1) as nat, p);
        let r = space_positions(s, (n - 1) as nat);
        let i = choose|i: int| 0 <= i < r.len() && r[i] == p;
        assert(space_positions(s, n)[i] == p);
    } else {
        let r = space_positions(s, (n - 1) as nat);
        assert(space_positions(s, n)[r.len() as int] == p);
    }
}

proof fn lemma_indices_at_distance_contains(
    text: Seq<char>,
    table: Seq<Seq<char>>,
    d: nat,
    n: nat,
    i: int,
)
    requires
        0 <= i < n <= table.len(),
        edit_distance(text, table[i]) == d,
    ensures
        indices_at_distance(text, table, d, n).contains(i),
    decreases n,
{
    let r = indices_at_distance(text, table, d, (n - 1) as nat);
    if i < n - 1 {
        lemma_indices_at_distance_contains(text, table, d, (n - 1) as nat, i);
        let q = choose|q: int| 0 <= q < r.len() && r[q] == i;
        assert(indices_at_distance(text, table, d, n)[q] == i);
    } else {
        assert(indices_at_distance(text, table, d, n)[r.len() as int] == i);
    }
}

proof fn lemma_matches_below_contains(text: Seq<char>, table: Seq<Seq<char>>, k: nat, i: int)
    requires
        0 <= i < table.len(),
        edit_distance(text, table[i]) < k,
    ensures
        matches_below(text, table, k).contains(i),
    decreases k,
{
    let a = matches_below(text, table, (k - 1) as nat);
    let b = indices_at_distance(text, table, (k - 1) as nat, table.len());
    if edit_distance(text, table[i]) < k - 1 {
        lemma_matches_below_contains(text, table, (k - 1) as nat, i);
        let q = choose|q: int| 0 <= q < a.len() && a[q] == i;
        assert((a + b)[q] == i);
    } else {
        lemma_indices_at_distance_contains(text, table, (k - 1) as nat, table.len(), i);
        let q = choose|q: int| 0 <= q < b.len() && b[q] == i;
        assert((a + b)[a.len() + q] == i);
    }
}

proof fn lemma_over_matches_contains(
    tables: Seq<Seq<Seq<char>>>,
    max_distance: nat,
    rem: Seq<char>,
    comp: int,
    ms: Seq<int>,
    j: int,
    u: Seq<int>,
)
    requires
        0 <= comp < 5,
        0 <= j < ms.len(),
        candidate_parses(tables, max_distance, rem, comp + 1).contains(u),
    ensures
        parses_over_matches(tables, max_distance, rem, comp, ms).contains(seq![ms[j]] + u),
    decreases ms.len(),
{
    let a = parses_over_matches(tables, max_distance, rem, comp, ms.drop_last());
    let b = prepend_all(ms.last(), candidate_parses(tables, max_distance, rem, comp + 1));
    if j < ms.len() - 1 {
        lemma_over_matches_contains(tables, max_distance, rem, comp, ms.drop_last(), j, u);
        let q = choose|q: int| 0 <= q < a.len() && a[q] == seq![ms.drop_last()[j]] + u;
        assert((a + b)[q] == seq![ms[j]] + u);
    } else {
        let c = candidate_parses(tables, max_distance, rem, comp + 1);
        let q = choose|q: int| 0 <= q < c.len() && c[q] == u;
        assert(b[q] == seq![ms[j]] + u);
        assert((a + b)[a.len() + q] == seq![ms[j]] + u);
    }
}

proof fn lemma_over_points_contains(
    tables: Seq<Seq<Seq<char>>>,
    max_distance: nat,
    rest: Seq<char>,
    comp: int,
    pts: Seq<int>,
    j: int,
    x: Seq<int>,
)
    requires
        0 <= comp < 5,
        0 <= j < pts.len(),
        parses_over_matches(
            tables,
            max_distance,
            remainder(rest, pts[j]),
            comp,
            fuzzy_matches(rest.take(pts[j]), tables[comp], max_distance),
        ).contains(x),
    ensures
        parses_over_points(tables, max_distance, rest, comp, pts).contains(x),
    decreases pts.len(),
{
    let a = parses_over_points(tables, max_distance, rest, comp, pts.drop_last());
    let k = pts.last();
    let b = parses_over_matches(
        tables,
        max_distance,
        remainder(rest, k),
        comp,
        fuzzy_matches(rest.take(k), tables[comp], max_distance),
    );
    if j < pts.len() - 1 {
        lemma_over_points_contains(tables, max_distance, rest, comp, pts.drop_last(), j, x);
        let q = choose|q: int| 0 <= q < a.len() && a[q] == x;
        assert((a + b)[q] == x);
    } else {
        let q = choose|q: int| 0 <= q < b.len() && b[q] == x;
        assert((a + b)[a.len() + q] == x);
    }
}

/// The pieces `p`, joined by single spaces.
pub open spec fn join_pieces(p: Seq<Seq<char>>) -> Seq<char>
    decreases p.len(),
{
    if p.len() == 0 {
        Seq::empty()
    } else if p.len() == 1 {
        p[0]
    } else {
        p[0] + seq![' '] + join_pieces(p.drop_first())
    }
}

/// Whether each piece of `p` lies within `max_distance` of the phrase that
/// `t` picks for it from the dictionaries `level..5`.
pub open spec fn pieces_close(
    tables: Seq<Seq<Seq<char>>>,
    level: int,
    p: Seq<Seq<char>>,
    t: Seq<int>,
    max_distance: nat,
) -> bool {
    &&& p.len() == t.len()
    &&& forall|k: int|
        0 <= k < p.len() ==> edit_distance(#[trigger] p[k], tables[level + k][t[k]]) <= max_distance
}

/// A text made of one piece per remaining component, joined by single
/// spaces, each piece within the allowed distance of the phrase that `t`
/// picks for it, has `t` among its candidate parses: the fuzzy search
/// tolerates typos inside the phrases.
pub proof fn lemma_close_parse_is_candidate(
    tables: Seq<Seq<Seq<char>>>,
    max_distance: nat,
    p: Seq<Seq<char>>,
    comp: int,
    t: Seq<int>,
)
    requires
        tables.len() == 5,
        0 <= comp <= 4,
        tail_in_bounds(tables, comp, t),
        pieces_close(tables, comp, p, t, max_distance),
    ensures
        candidate_parses(tables, max_distance, join_pieces(p), comp).contains(t),
    decreases 4 - comp,
{
    let rest = join_pieces(p);
    let e = p[0];
    let k = e.len() as int;
    assert(0 <= t[0] < tables[comp + 0].len());
    assert(edit_distance(p[0], tables[comp + 0][t[0]]) <= max_distance);
    lemma_matches_below_contains(e, tables[comp], max_distance + 1, t[0]);
    let ms = fuzzy_matches(e, tables[comp], max_distance);
    let jm = choose|q: int| 0 <= q < ms.len() && ms[q] == t[0];
    let pts = segment_points(rest, comp);
    if comp == 4 {
        assert(rest == e);
        assert(rest.take(k) =~= e);
        assert(pts =~= seq![k]);
        let empty = Seq::<char>::empty();
        assert(remainder(rest, k) =~= empty);
        assert(crate::text::trim(empty) =~= empty);
        let c = candidate_parses(tables, max_distance, empty, 5);
        assert(c[0] =~= Seq::<int>::empty());
        lemma_over_matches_contains(tables, max_distance, empty, comp, ms, jm, Seq::<int>::empty());
        assert(seq![t[0]] + Seq::<int>::empty() =~= t);
        lemma_over_points_contains(tables, max_distance, rest, comp, pts, 0, t);
    } else {
        let tail = t.drop_first();
        let ptail = p.drop_first();
        let j = join_pieces(ptail);
        assert(rest == e + seq![' '] + j);
        assert(rest[k] == ' ');
        assert(rest.take(k) =~= e);
        assert(remainder(rest, k) =~= j);
        assert(tail_in_bounds(tables, comp + 1, tail)) by {
            assert forall|q: int| 0 <= q < tail.len() implies 0 <= #[trigger] tail[q] < tables[comp
                + 1 + q].len() by {
                assert(tail[q] == t[q + 1]);
            }
        }
        assert(pieces_close(tables, comp + 1, ptail, tail, max_distance)) by {
            assert forall|q: int| 0 <= q < ptail.len() implies edit_distance(
                #[trigger] ptail[q],
                tables[comp + 1 + q][tail[q]],
            ) <= max_distance by {
                assert(ptail[q] == p[q + 1]);
                assert(tail[q] == t[q + 1]);
                assert(edit_distance(p[q + 1], tables[comp + (q + 1)][t[q + 1]]) <= max_distance);
            }
        }
        lemma_close_parse_is_candidate(tables, max_distance, ptail, comp + 1, tail);
        lemma_over_matches_contains(tables, max_distance, j, comp, ms, jm, tail);
        assert(seq![t[0]] + tail =~= t);
        lemma_space_positions_contains(rest, rest.len(), k);
        let sp = space_positions(rest, rest.len());
        assert(pts == sp.push(rest.len() as int));
        let jp = choose|q: int| 0 <= q < sp.len() && sp[q] == k;
        assert(pts[jp] == k);
        lemma_over_points_contains(tables, max_distance, rest, comp, pts, jp, t);
    }
}

/// The phrases that `t` picks from the dictionaries `level..5`.
pub open spec fn picked_phrases(tables: Seq<Seq<Seq<char>>>, level: int, t: Seq<int>) -> Seq<
    Seq<char>,
> {
    Seq::new(t.len(), |q: int| tables[level + q][t[q]])
}

proof fn lemma_joined_pieces(tables: Seq<Seq<Seq<char>>>, level: int, t: Seq<int>)
    requires
        0 <= level <= 4,
        t.len() == 5 - level,
    ensures
        crate::parse::joined(tables, level, t) == join_pieces(picked_phrases(tables, level, t)),
    decreases 4 - level,
{
    let p = picked_phrases(tables, level, t);
    if level < 4 {
        lemma_joined_pieces(tables, level + 1, t.drop_first());
        assert(p.drop_first() =~= picked_phrases(tables, level + 1, t.drop_first()));
    }
}

/// The exact parse of a text is among its candidate parses, whatever the
/// allowed distance.
pub proof fn lemma_exact_parse_is_candidate(
    tables: Seq<Seq<Seq<char>>>,
    max_distance: nat,
    rest: Seq<char>,
    comp: int,
    t: Seq<int>,
)
    requires
        tables.len() == 5,
        0 <= comp <= 4,
        tail_in_bounds(tables, comp, t),
        crate::parse::joined(tables, comp, t) == rest,
    ensures
        candidate_parses(tables, max_distance, rest, comp).contains(t),
{
    let p = picked_phrases(tables, comp, t);
    lemma_joined_pieces(tables, comp, t);
    assert forall|k: int| 0 <= k < p.len() implies edit_distance(
        #[trigger] p[k],
        tables[comp + k][t[k]],
    ) <= max_distance by {
        lemma_edit_distance_self(p[k]);
    }
    lemma_close_parse_is_candidate(tables, max_distance, p, comp, t);
}

/// Fuzzy decoding tolerates typos: when each of three sentences, once
/// trimmed, is five pieces joined by single spaces, each piece within the
/// allowed distance of the phrase that encoding `hex` put in its place,
/// every sentence has a candidate parse and the value `hex` writes is among
/// the fuzzy results (as `hex` itself, when it is lowercase).
pub proof fn lemma_typo_decode_in_fuzzy_results(
    tables: Seq<Seq<Seq<char>>>,
    max_distance: nat,
    hex: Seq<char>,
    s: Seq<Seq<char>>,
    pieces: Seq<Seq<Seq<char>>>,
)
    requires
        valid_tables(tables),
        valid_hex_input(hex),
        s.len() == 3,
        pieces.len() == 3,
        forall|i: int|
            0 <= i < 3 ==> trim(s[i]) == join_pieces(#[trigger] pieces[i]) && pieces_close(
                tables,
                0,
                pieces[i],
                encoded_indices(hex, i),
                max_distance,
            ),
    ensures
        forall|i: int|
            0 <= i < 3 ==> #[trigger] sentence_candidates(tables, max_distance, s[i]).len() > 0,
        fuzzy_results(
            sentence_candidates(tables, max_distance, s[0]),
            sentence_candidates(tables, max_distance, s[1]),
            sentence_candidates(tables, max_distance, s[2]),
        ).contains(hex_encoding(hex_bytes(hex))),
        (forall|i: int| 0 <= i < 32 ==> #[trigger] crate::hex::is_lower_hex_digit(hex[i]))
            ==> fuzzy_results(
            sentence_candidates(tables, max_distance, s[0]),
            sentence_candidates(tables, max_distance, s[1]),
            sentence_candidates(tables, max_distance, s[2]),
        ).contains(hex),
{
    crate::memo::lemma_encoded_indices(tables, hex);
    let t0 = encoded_indices(hex, 0);
    let t1 = encoded_indices(hex, 1);
    let t2 = encoded_indices(hex, 2);
    assert(tail_in_bounds(tables, 0, t0));
    assert(tail_in_bounds(tables, 0, t1));
    assert(tail_in_bounds(tables, 0, t2));
    assert(trim(s[0]) == join_pieces(pieces[0]));
    assert(trim(s[1]) == join_pieces(pieces[1]));
    assert(trim(s[2]) == join_pieces(pieces[2]));
    lemma_close_parse_is_candidate(tables, max_distance, pieces[0], 0, t0);
    lemma_close_parse_is_candidate(tables, max_distance, pieces[1], 0, t1);
    lemma_close_parse_is_candidate(tables, max_distance, pieces[2], 0, t2);
    let c0 = sentence_candidates(tables, max_distance, s[0]);
    let c1 = sentence_candidates(tables, max_distance, s[1]);
    let c2 = sentence_candidates(tables, max_distance, s[2]);
    let i0 = choose|q: int| 0 <= q < c0.len() && c0[q] == t0;
    let i1 = choose|q: int| 0 <= q < c1.len() && c1[q] == t1;
    let i2 = choose|q: int| 0 <= q < c2.len() && c2[q] == t2;
    assert forall|i: int| 0 <= i < 3 implies #[trigger] sentence_candidates(
        tables,
        max_distance,
        s[i],
    ).len() > 0 by {
        if i == 0 {
            assert(c0[i0] == t0);
        } else if i == 1 {
            assert(c1[i1] == t1);
        } else {
            assert(c2[i2] == t2);
        }
    }
    let h = hex_encoding(hex_bytes(hex));
    assert(combo_hex(c0[i0], c1[i1], c2[i2]) == Some(h));
    lemma_fuzzy_results(c0, c1, c2, h);
    if forall|i: int| 0 <= i < 32 ==> #[trigger] crate::hex::is_lower_hex_digit(hex[i]) {
        crate::hex::lemma_encoding_of_hex_bytes(hex);
    }
}

/// Fuzzy decoding finds every value that exact decoding finds: when the
/// three sentences decode, their value is among the fuzzy results at any
/// allowed distance.
pub proof fn lemma_exact_decode_in_fuzzy_results(
    tables: Seq<Seq<Seq<char>>>,
    max_distance: nat,
    s: Seq<Seq<char>>,
)
    requires
        valid_tables(tables),
        crate::memo::parses_all(tables, s),
        crate::memo::checksum_matches(tables, s),
    ensures
        fuzzy_results(
            sentence_candidates(tables, max_distance, s[0]),
            sentence_candidates(tables, max_distance, s[1]),
            sentence_candidates(tables, max_distance, s[2]),
        ).contains(hex_encoding(crate::memo::decoded_bytes(tables, s))),
{
    let c0 = sentence_candidates(tables, max_distance, s[0]);
    let c1 = sentence_candidates(tables, max_distance, s[1]);
    let c2 = sentence_candidates(tables, max_distance, s[2]);
    let t0 = crate::parse::sole_parse(tables, trim(s[0]))->0;
    let t1 = crate::parse::sole_parse(tables, trim(s[1]))->0;
    let t2 = crate::parse::sole_parse(tables, trim(s[2]))->0;
    assert(crate::parse::sole_parse(tables, trim(s[0])) is Some);
    assert(crate::parse::sole_parse(tables, trim(s[1])) is Some);
    assert(crate::parse::sole_parse(tables, trim(s[2])) is Some);
    assert(crate::parse::is_sole_parse(tables, trim(s[0]), t0));
    assert(crate::parse::is_sole_parse(tables, trim(s[1]), t1));
    assert(crate::parse::is_sole_parse(tables, trim(s[2]), t2));
    lemma_exact_parse_is_candidate(tables, max_distance, trim(s[0]), 0, t0);
    lemma_exact_parse_is_candidate(tables, max_distance, trim(s[1]), 0, t1);
    lemma_exact_parse_is_candidate(tables, max_distance, trim(s[2]), 0, t2);
    let i0 = choose|q: int| 0 <= q < c0.len() && c0[q] == t0;
    let i1 = choose|q: int| 0 <= q < c1.len() && c1[q] == t1;
    let i2 = choose|q: int| 0 <= q < c2.len() && c2[q] == t2;
    let h = hex_encoding(crate::memo::decoded_bytes(tables, s));
    assert(combo_hex(c0[i0], c1[i1], c2[i2]) == Some(h));
    lemma_fuzzy_results(c0, c1, c2, h);
}

proof fn lemma_indices_at_distance_member(
    text: Seq<char>,
    table: Seq<Seq<char>>,
    d: nat,
    n: nat,
    i: int,
)
    requires
        indices_at_distance(text, table, d, n).contains(i),
    ensures
        0 <= i < n,
        edit_distance(text, table[i]) == d,
    decreases n,
{
    if n > 0 {
        let r = indices_at_distance(text, table, d, (n - 1) as nat);
        let q = choose|q: int|
            0 <= q < indices_at_distance(text, table, d, n).len() && indices_at_distance(
                text,
                table,
                d,
                n,
            )[q] == i;
        if q < r.len() {
            assert(r[q] == i);
            lemma_indices_at_distance_member(text, table, d, (n - 1) as nat, i);
        }
    }
}

proof fn lemma_matches_below_member(text: Seq<char>, table: Seq<Seq<char>>, k: nat, i: int)
    requires
        matches_below(text, table, k).contains(i),
    ensures
        0 <= i < table.len(),
        edit_distance(text, table[i]) < k,
    decreases k,
{
    if k > 0 {
        let a = matches_below(text, table, (k - 1) as nat);
        let b = indices_at_distance(text, table, (k - 1) as nat, table.len());
        let q = choose|q: int| 0 <= q < (a + b).len() && (a + b)[q] == i;
        if q < a.len() {
            assert(a[q] == i);
            lemma_matches_below_member(text, table, (k - 1) as nat, i);
        } else {
            assert(b[q - a.len()] == i);
            lemma_indices_at_distance_member(text, table, (k - 1) as nat, table.len(), i);
        }
    }
}

proof fn lemma_over_matches_member(
    tables: Seq<Seq<Seq<char>>>,
    max_distance: nat,
    rem: Seq<char>,
    comp: int,
    ms: Seq<int>,
    x: Seq<int>,
)
    requires
        parses_over_matches(tables, max_distance, rem, comp, ms).contains(x),
    ensures
        exists|j: int, u: Seq<int>|
            0 <= j < ms.len() && candidate_parses(tables, max_distance, rem, comp + 1).contains(u)
                && x == seq![ms[j]] + u,
    decreases ms.len(),
{
    if ms.len() > 0 && comp < 5 {
        let a = parses_over_matches(tables, max_distance, rem, comp, ms.drop_last());
        let c = candidate_parses(tables, max_distance, rem, comp + 1);
        let b = prepend_all(ms.last(), c);
        let q = choose|q: int| 0 <= q < (a + b).len() && (a + b)[q] == x;
        if q < a.len() {
            assert(a[q] == x);
            lemma_over_matches_member(tables, max_distance, rem, comp, ms.drop_last(), x);
            let (j, u) = choose|j: int, u: Seq<int>|
                0 <= j < ms.drop_last().len() && c.contains(u) && x == seq![ms.drop_last()[j]] + u;
            assert(ms[j] == ms.drop_last()[j]);
        } else {
            let r = q - a.len();
            assert(b[r] == x);
            assert(c.contains(c[r]));
            assert(x == seq![ms[ms.len() - 1]] + c[r]);
        }
    }
}

proof fn lemma_over_points_member(
    tables: Seq<Seq<Seq<char>>>,
    max_distance: nat,
    rest: Seq<char>,
    comp: int,
    pts: Seq<int>,
    x: Seq<int>,
)
    requires
        parses_over_points(tables, max_distance, rest, comp, pts).contains(x),
    ensures
        exists|j: int|
            0 <= j < pts.len() && #[trigger] parses_over_matches(
                tables,
                max_distance,
                remainder(rest, pts[j]),
                comp,
                fuzzy_matches(rest.take(pts[j]), tables[comp], max_distance),
            ).contains(x),
    decreases pts.len(),
{
    if pts.len() > 0 && comp < 5 {
        let a = parses_over_points(tables, max_distance, rest, comp, pts.drop_last());
        let k = pts.last();
        let b = parses_over_matches(
            tables,
            max_distance,
            remainder(rest, k),
            comp,
            fuzzy_matches(rest.take(k), tables[comp], max_distance),
        );
        let q = choose|q: int| 0 <= q < (a + b).len() && (a + b)[q] == x;
        if q < a.len() {
            assert(a[q] == x);
            lemma_over_points_member(tables, max_distance, rest, comp, pts.drop_last(), x);
            let j = choose|j: int|
                0 <= j < pts.drop_last().len() && #[trigger] parses_over_matches(
                    tables,
                    max_distance,
                    remainder(rest, pts.drop_last()[j]),
                    comp,
                    fuzzy_matches(rest.take(pts.drop_last()[j]), tables[comp], max_distance),
                ).contains(x);
            assert(pts[j] == pts.drop_last()[j]);
            assert(parses_over_matches(
                tables,
                max_distance,
                remainder(rest, pts[j]),
                comp,
                fuzzy_matches(rest.take(pts[j]), tables[comp], max_distance),
            ).contains(x));
        } else {
            let j = pts.len() - 1;
            assert(b[q - a.len()] == x);
            assert(b.contains(x));
            assert(pts[j] == k);
            assert(parses_over_matches(
                tables,
                max_distance,
                remainder(rest, pts[j]),
                comp,
                fuzzy_matches(rest.take(pts[j]), tables[comp], max_distance),
            ).contains(x));
        }
    }
}

/// Allowing a greater distance keeps every candidate parse found with a
/// smaller one.
pub proof fn lemma_candidates_monotone(
    tables: Seq<Seq<Seq<char>>>,
    m1: nat,
    m2: nat,
    rest: Seq<char>,
    comp: int,
    x: Seq<int>,
)
    requires
        m1 <= m2,
        0 <= comp,
        candidate_parses(tables, m1, rest, comp).contains(x),
    ensures
        candidate_parses(tables, m2, rest, comp).contains(x),
    decreases 5 - comp,
{
    if comp < 5 {
        let pts = segment_points(rest, comp);
        lemma_over_points_member(tables, m1, rest, comp, pts, x);
        let j = choose|j: int|
            0 <= j < pts.len() && #[trigger] parses_over_matches(
                tables,
                m1,
                remainder(rest, pts[j]),
                comp,
                fuzzy_matches(rest.take(pts[j]), tables[comp], m1),
            ).contains(x);
        let seg = rest.take(pts[j]);
        let rem = remainder(rest, pts[j]);
        let ms1 = fuzzy_matches(seg, tables[comp], m1);
        let ms2 = fuzzy_matches(seg, tables[comp], m2);
        lemma_over_matches_member(tables, m1, rem, comp, ms1, x);
        let (jm, u) = choose|jm: int, u: Seq<int>|
            0 <= jm < ms1.len() && candidate_parses(tables, m1, rem, comp + 1).contains(u) && x
                == seq![ms1[jm]] + u;
        lemma_candidates_monotone(tables, m1, m2, rem, comp + 1, u);
        assert(ms1.contains(ms1[jm]));
        lemma_matches_below_member(seg, tables[comp], m1 + 1, ms1[jm]);
        lemma_matches_below_contains(seg, tables[comp], m2 + 1, ms1[jm]);
        let jm2 = choose|q: int| 0 <= q < ms2.len() && ms2[q] == ms1[jm];
        lemma_over_matches_contains(tables, m2, rem, comp, ms2, jm2, u);
        lemma_over_points_contains(tables, m2, rest, comp, pts, j, x);
    }
}

/// Fuzzy decoding is monotone in the allowed distance: with a greater
/// distance, every sentence that had a candidate parse still has one, and
/// every value found is still found.
pub proof fn lemma_fuzzy_results_monotone(
    tables: Seq<Seq<Seq<char>>>,
    m1: nat,
    m2: nat,
    s: Seq<Seq<char>>,
    h: Seq<char>,
)
    requires
        m1 <= m2,
        s.len() == 3,
    ensures
        forall|i: int|
            0 <= i < 3 && sentence_candidates(tables, m1, s[i]).len() > 0 ==> #[trigger] sentence_candidates(
                tables,
                m2,
                s[i],
            ).len() > 0,
        fuzzy_results(
            sentence_candidates(tables, m1, s[0]),
            sentence_candidates(tables, m1, s[1]),
            sentence_candidates(tables, m1, s[2]),
        ).contains(h) ==> fuzzy_results(
            sentence_candidates(tables, m2, s[0]),
            sentence_candidates(tables, m2, s[1]),
            sentence_candidates(tables, m2, s[2]),
        ).contains(h),
{
    assert forall|i: int|
        0 <= i < 3 && sentence_candidates(tables, m1, s[i]).len() > 0 implies #[trigger] sentence_candidates(
        tables,
        m2,
        s[i],
    ).len() > 0 by {
        let c = sentence_candidates(tables, m1, s[i]);
        assert(c.contains(c[0]));
        lemma_candidates_monotone(tables, m1, m2, trim(s[i]), 0, c[0]);
    }
    let a0 = sentence_candidates(tables, m1, s[0]);
    let a1 = sentence_candidates(tables, m1, s[1]);
    let a2 = sentence_candidates(tables, m1, s[2]);
    let b0 = sentence_candidates(tables, m2, s[0]);
    let b1 = sentence_candidates(tables, m2, s[1]);
    let b2 = sentence_candidates(tables, m2, s[2]);
    lemma_fuzzy_results(a0, a1, a2, h);
    lemma_fuzzy_results(b0, b1, b2, h);
    if fuzzy_results(a0, a1, a2).contains(h) {
        let (i0, i1, i2) = choose|i0: int, i1: int, i2: int|
            0 <= i0 < a0.len() && 0 <= i1 < a1.len() && 0 <= i2 < a2.len() && #[trigger] combo_hex(
                a0[i0],
                a1[i1],
                a2[i2],
            ) == Some(h);
        assert(a0.contains(a0[i0]));
        assert(a1.contains(a1[i1]));
        assert(a2.contains(a2[i2]));
        lemma_candidates_monotone(tables, m1, m2, trim(s[0]), 0, a0[i0]);
        lemma_candidates_monotone(tables, m1, m2, trim(s[1]), 0, a1[i1]);
        lemma_candidates_monotone(tables, m1, m2, trim(s[2]), 0, a2[i2]);
        let j0 = choose|q: int| 0 <= q < b0.len() && b0[q] == a0[i0];
        let j1 = choose|q: int| 0 <= q < b1.len() && b1[q] == a1[i1];
        let j2 = choose|q: int| 0 <= q < b2.len() && b2[q] == a2[i2];
        assert(combo_hex(b0[j0], b1[j1], b2[j2]) == Some(h));
    }
}

/// Changing one character that is not a space in a text made of pieces
/// joined by single spaces changes one character of one piece: the index of
/// that piece and the position in it are returned.
pub proof fn lemma_join_pieces_update(p: Seq<Seq<char>>, j: int, c: char) -> (r: (int, int))
    requires
        p.len() >= 1,
        0 <= j < join_pieces(p).len(),
        join_pieces(p)[j] != ' ',
    ensures
        0 <= r.0 < p.len(),
        0 <= r.1 < p[r.0].len(),
        join_pieces(p.update(r.0, p[r.0].update(r.1, c))) == join_pieces(p).update(j, c),
    decreases p.len(),
{
    let e = p[0];
    if p.len() == 1 {
        let p2 = p.update(0, e.update(j, c));
        assert(p2.len() == 1);
        (0, j)
    } else {
        let rest = p.drop_first();
        assert(join_pieces(p) == e + seq![' '] + join_pieces(rest));
        if j < e.len() {
            let p2 = p.update(0, e.update(j, c));
            assert(p2.drop_first() =~= rest);
            assert(join_pieces(p2) == e.update(j, c) + seq![' '] + join_pieces(rest));
            assert(join_pieces(p2) =~= join_pieces(p).update(j, c));
            (0, j)
        } else {
            assert(j != e.len());
            let j2 = j - e.len() - 1;
            assert(join_pieces(rest)[j2] == join_pieces(p)[j]);
            let (k, i) = lemma_join_pieces_update(rest, j2, c);
            let rest2 = rest.update(k, rest[k].update(i, c));
            let p2 = p.update(k + 1, p[k + 1].update(i, c));
            assert(p2.drop_first() =~= rest2);
            assert(p2[0] == e);
            assert(join_pieces(p2) == e + seq![' '] + join_pieces(rest2));
            assert(join_pieces(p2) =~= join_pieces(p).update(j, c));
            (k + 1, i)
        }
    }
}

/// Fuzzy decoding recovers a value from a sentence with a typo: when one
/// character of one of the three encoded sentences, other than a space, is
/// replaced by a character that is not whitespace, and the allowed distance
/// is at least 1, the value `hex` writes is among the fuzzy results (as
/// `hex` itself, when it is lowercase).
pub proof fn lemma_substitution_decode_in_fuzzy_results(
    tables: Seq<Seq<Seq<char>>>,
    max_distance: nat,
    hex: Seq<char>,
    s: Seq<Seq<char>>,
    n: int,
    j: int,
    c: char,
)
    requires
        valid_tables(tables),
        valid_hex_input(hex),
        max_distance >= 1,
        0 <= n < 3,
        s.len() == 3,
        forall|i: int|
            0 <= i < 3 && i != n ==> #[trigger] s[i] == crate::memo::encoded_sentences(
                tables,
                hex,
            )[i],
        0 <= j < crate::memo::encoded_sentences(tables, hex)[n].len(),
        crate::memo::encoded_sentences(tables, hex)[n][j] != ' ',
        !crate::text::is_white_space(c),
        s[n] == crate::memo::encoded_sentences(tables, hex)[n].update(j, c),
    ensures
        fuzzy_results(
            sentence_candidates(tables, max_distance, s[0]),
            sentence_candidates(tables, max_distance, s[1]),
            sentence_candidates(tables, max_distance, s[2]),
        ).contains(hex_encoding(hex_bytes(hex))),
        (forall|i: int| 0 <= i < 32 ==> #[trigger] crate::hex::is_lower_hex_digit(hex[i]))
            ==> fuzzy_results(
            sentence_candidates(tables, max_distance, s[0]),
            sentence_candidates(tables, max_distance, s[1]),
            sentence_candidates(tables, max_distance, s[2]),
        ).contains(hex),
{
    let enc = crate::memo::encoded_sentences(tables, hex);
    crate::memo::lemma_encoded_indices(tables, hex);
    let exact = Seq::new(3, |i: int| picked_phrases(tables, 0, encoded_indices(hex, i)));
    assert forall|i: int| 0 <= i < 3 implies #[trigger] enc[i] == join_pieces(exact[i])
        && crate::text::is_trimmed(enc[i]) && pieces_close(
        tables,
        0,
        exact[i],
        encoded_indices(hex, i),
        max_distance,
    ) by {
        let t = encoded_indices(hex, i);
        assert(enc[i] == crate::parse::sentence_of(tables, t));
        lemma_joined_pieces(tables, 0, t);
        crate::memo::lemma_sentence_trimmed(tables, t);
        assert forall|k: int| 0 <= k < exact[i].len() implies edit_distance(
            #[trigger] exact[i][k],
            tables[0 + k][t[k]],
        ) <= max_distance by {
            lemma_edit_distance_self(exact[i][k]);
        }
    }
    let e = enc[n];
    let pn = exact[n];
    assert(e == join_pieces(pn));
    assert(pn.len() == 5);
    let (k, i) = lemma_join_pieces_update(pn, j, c);
    let pn2 = pn.update(k, pn[k].update(i, c));
    let t = encoded_indices(hex, n);
    assert(pieces_close(tables, 0, pn2, t, max_distance)) by {
        lemma_edit_distance_substitution(pn[k], i, c);
        assert forall|q: int| 0 <= q < pn2.len() implies edit_distance(
            #[trigger] pn2[q],
            tables[0 + q][t[q]],
        ) <= max_distance by {
            if q == k {
                assert(pn[k] == tables[0 + k][t[k]]);
            } else {
                assert(pn2[q] == pn[q]);
            }
        }
    }
    assert(crate::text::is_trimmed(s[n])) by {
        assert(crate::text::is_trimmed(e));
        assert(s[n].len() == e.len());
        if j == 0 {
            assert(s[n][0] == c);
        } else {
            assert(s[n][0] == e[0]);
        }
        if j == e.len() - 1 {
            assert(s[n].last() == c);
        } else {
            assert(s[n].last() == e.last());
        }
    }
    crate::text::lemma_trim_of_trimmed(s[n]);
    let pieces = exact.update(n, pn2);
    assert forall|q: int| 0 <= q < 3 implies trim(s[q]) == join_pieces(#[trigger] pieces[q])
        && pieces_close(tables, 0, pieces[q], encoded_indices(hex, q), max_distance) by {
        if q != n {
            assert(s[q] == enc[q]);
            crate::text::lemma_trim_of_trimmed(enc[q]);
        }
    }
    lemma_typo_decode_in_fuzzy_results(tables, max_distance, hex, s, pieces);
}

/// Whether `rest` is the pieces `p` in order, each followed by a single
/// space or by nothing, the last followed by nothing.
pub open spec fn loosely_joined(p: Seq<Seq<char>>, rest: Seq<char>) -> bool
    decreases p.len(),
{
    if p.len() == 0 {
        false
    } else if p.len() == 1 {
        rest == p[0]
    } else {
        let k = p[0].len() as int;
        &&& k <= rest.len()
        &&& rest.take(k) == p[0]
        &&& ((k < rest.len() && rest[k] == ' ' && loosely_joined(p.drop_first(), rest.skip(k + 1)))
            || loosely_joined(p.drop_first(), rest.skip(k)))
    }
}

proof fn lemma_space_positions_bounds(s: Seq<char>, n: nat)
    ensures
        forall|i: int|
            0 <= i < space_positions(s, n).len() ==> 0 <= #[trigger] space_positions(s, n)[i] < n,
    decreases n,
{
    if n > 0 {
        lemma_space_positions_bounds(s, (n - 1) as nat);
        let r = space_positions(s, (n - 1) as nat);
        assert forall|i: int|
            0 <= i < space_positions(s, n).len() implies 0 <= #[trigger] space_positions(s, n)[i]
            < n by {
            if i < r.len() {
                assert(space_positions(s, n)[i] == r[i]);
            }
        }
    }
}

proof fn lemma_segment_points_bounds(s: Seq<char>, comp: int, j: int)
    requires
        0 <= j < segment_points(s, comp).len(),
    ensures
        0 <= segment_points(s, comp)[j] <= s.len(),
        comp == 4 ==> segment_points(s, comp)[j] == s.len(),
{
    lemma_space_positions_bounds(s, s.len());
    let sp = space_positions(s, s.len());
    if comp != 4 && sp.len() > 0 {
        if j < sp.len() {
            assert(segment_points(s, comp)[j] == sp[j]);
        }
    }
}

/// Every candidate parse is sound: its indices lie within the dictionaries,
/// and the text is its pieces, each followed by at most one space, each
/// piece within the allowed distance of the phrase the candidate picks for
/// it. The pieces are returned.
pub proof fn lemma_candidate_is_close_parse(
    tables: Seq<Seq<Seq<char>>>,
    max_distance: nat,
    rest: Seq<char>,
    comp: int,
    x: Seq<int>,
) -> (p: Seq<Seq<char>>)
    requires
        0 <= comp <= 4,
        candidate_parses(tables, max_distance, rest, comp).contains(x),
    ensures
        tail_in_bounds(tables, comp, x),
        pieces_close(tables, comp, p, x, max_distance),
        loosely_joined(p, rest),
    decreases 5 - comp,
{
    let pts = segment_points(rest, comp);
    lemma_over_points_member(tables, max_distance, rest, comp, pts, x);
    let j = choose|j: int|
        0 <= j < pts.len() && #[trigger] parses_over_matches(
            tables,
            max_distance,
            remainder(rest, pts[j]),
            comp,
            fuzzy_matches(rest.take(pts[j]), tables[comp], max_distance),
        ).contains(x);
    let k = pts[j];
    lemma_segment_points_bounds(rest, comp, j);
    let seg = rest.take(k);
    let rem = remainder(rest, k);
    let ms = fuzzy_matches(seg, tables[comp], max_distance);
    lemma_over_matches_member(tables, max_distance, rem, comp, ms, x);
    let (jm, u) = choose|jm: int, u: Seq<int>|
        0 <= jm < ms.len() && candidate_parses(tables, max_distance, rem, comp + 1).contains(u)
            && x == seq![ms[jm]] + u;
    assert(ms.contains(ms[jm]));
    lemma_matches_below_member(seg, tables[comp], max_distance + 1, ms[jm]);
    assert(x[0] == ms[jm]);
    if comp == 4 {
        let c = candidate_parses(tables, max_distance, rem, 5);
        let q = choose|q: int| 0 <= q < c.len() && c[q] == u;
        assert(u =~= Seq::<int>::empty());
        assert(x =~= seq![ms[jm]]);
        assert(seg =~= rest);
        let p = seq![seg];
        assert(p[0] == seg);
        p
    } else {
        let pu = lemma_candidate_is_close_parse(tables, max_distance, rem, comp + 1, u);
        let p = seq![seg] + pu;
        assert(p.drop_first() =~= pu);
        assert(x.drop_first() =~= u);
        assert(tail_in_bounds(tables, comp, x)) by {
            assert forall|q: int| 0 <= q < x.len() implies 0 <= #[trigger] x[q] < tables[comp
                + q].len() by {
                if q > 0 {
                    assert(x[q] == u[q - 1]);
                }
            }
        }
        assert(pieces_close(tables, comp, p, x, max_distance)) by {
            assert forall|q: int| 0 <= q < p.len() implies edit_distance(
                #[trigger] p[q],
                tables[comp + q][x[q]],
            ) <= max_distance by {
                if q > 0 {
                    assert(p[q] == pu[q - 1]);
                    assert(x[q] == u[q - 1]);
                    assert(edit_distance(pu[q - 1], tables[comp + 1 + (q - 1)][u[q - 1]])
                        <= max_distance);
                }
            }
        }
        assert(p[0] == seg);
        assert(seg.len() == k);
        if k < rest.len() {
            if rest[k] == ' ' {
                assert(rem =~= rest.skip(k + 1));
            } else {
                assert(rem =~= rest.skip(k));
            }
        } else {
            assert(rem =~= rest.skip(k));
        }
        p
    }
}

/// Every value that fuzzy decoding returns passes the checksum: it is the
/// lowercase hexadecimal of the data bytes of a payload that one candidate
/// parse per sentence joins to, and the payload's low 7 bits are the first
/// 7 bits of the SHA-256 digest of those bytes.
pub proof fn lemma_fuzzy_results_pass_checksum(
    c0: Seq<Seq<int>>,
    c1: Seq<Seq<int>>,
    c2: Seq<Seq<int>>,
    h: Seq<char>,
)
    requires
        fuzzy_results(c0, c1, c2).contains(h),
    ensures
        exists|i0: int, i1: int, i2: int|
            #![trigger c0[i0], c1[i1], c2[i2]]
            0 <= i0 < c0.len() && 0 <= i1 < c1.len() && 0 <= i2 < c2.len() && ({
                let n = join_chunks(
                    chunk_value(c0[i0]) as nat,
                    chunk_value(c1[i1]) as nat,
                    chunk_value(c2[i2]) as nat,
                );
                &&& h == hex_encoding(be_bytes(n / 128, 16))
                &&& crate::checksum::sha256_digest_spec(be_bytes(n / 128, 16))[0] / 2 == n % 128
            }),
{
    lemma_fuzzy_results(c0, c1, c2, h);
    let (i0, i1, i2) = choose|i0: int, i1: int, i2: int|
        0 <= i0 < c0.len() && 0 <= i1 < c1.len() && 0 <= i2 < c2.len() && #[trigger] combo_hex(
            c0[i0],
            c1[i1],
            c2[i2],
        ) == Some(h);
    let n = join_chunks(
        chunk_value(c0[i0]) as nat,
        chunk_value(c1[i1]) as nat,
        chunk_value(c2[i2]) as nat,
    );
    let b = be_bytes(n / 128, 16);
    crate::checksum::lemma_checksum_is_digest_top_bits(b);
    assert(h == hex_encoding(b));
    assert(crate::checksum::sha256_digest_spec(b)[0] / 2 == n % 128);
}

/// Distance zero only between identical sequences.
pub proof fn lemma_edit_distance_zero(a: Seq<char>, b: Seq<char>)
    ensures
        edit_distance(a, b) == 0 <==> a == b,
    decreases a.len() + b.len(),
{
    if a == b {
        lemma_edit_distance_self(a);
    } else if edit_distance(a, b) == 0 {
        if a.len() > 0 && b.len() > 0 {
            lemma_edit_distance_zero(a.drop_last(), b.drop_last());
            assert(a.last() == b.last());
            assert(a.drop_last() == b.drop_last());
            assert(a =~= a.drop_last().push(a.last()));
            assert(b =~= b.drop_last().push(b.last()));
        } else {
            assert(a.len() == 0 && b.len() == 0);
            assert(a =~= b);
        }
    }
}

/// Substituting a different character at one position gives distance
/// exactly 1.
pub proof fn lemma_edit_distance_substitution_exact(s: Seq<char>, i: int, c: char)
    requires
        0 <= i < s.len(),
        c != s[i],
    ensures
        edit_distance(s.update(i, c), s) == 1,
{
    lemma_edit_distance_substitution(s, i, c);
    lemma_edit_distance_zero(s.update(i, c), s);
    assert(s.update(i, c)[i] != s[i]);
}

/// The distance is at least the difference of the lengths: each edit
/// changes the length by at most one.
pub proof fn lemma_edit_distance_length_gap(a: Seq<char>, b: Seq<char>)
    ensures
        edit_distance(a, b) >= a.len() - b.len(),
        edit_distance(a, b) >= b.len() - a.len(),
    decreases a.len() + b.len(),
{
    if a.len() > 0 && b.len() > 0 {
        lemma_edit_distance_length_gap(a.drop_last(), b);
        lemma_edit_distance_length_gap(a, b.drop_last());
        lemma_edit_distance_length_gap(a.drop_last(), b.drop_last());
    }
}

} // verus!
