//! Exact parsing of a sentence into five dictionary phrases.
//!
//! A sentence is the five phrases (character, setting, action, object,
//! outcome) joined by single spaces. Phrases may themselves hold spaces, so
//! a sentence can have several parses. A sentence parses only when exactly
//! one tuple of phrases gives it: the search finds the least parse, in the
//! lexicographic order of the index tuples, and the greatest, and the
//! sentence is ambiguous when they differ.
use vstd::prelude::*;

use crate::dictionary::Dictionary;
use crate::error::Memo128Error;
use crate::text::chars_of;

verus! {

/// The characters of each row.
pub open spec fn rows_view(v: Seq<Vec<char>>) -> Seq<Seq<char>> {
    v.map_values(|r: Vec<char>| r@)
}

/// The characters of each row of each table.
pub open spec fn tables_view(v: Seq<Vec<Vec<char>>>) -> Seq<Seq<Seq<char>>> {
    v.map_values(|t: Vec<Vec<char>>| rows_view(t@))
}

/// Whether `t` picks one phrase from each of the dictionaries `level..5`.
pub open spec fn tail_in_bounds(tables: Seq<Seq<Seq<char>>>, level: int, t: Seq<int>) -> bool {
    &&& t.len() == 5 - level
    &&& forall|k: int| 0 <= k < t.len() ==> 0 <= #[trigger] t[k] < tables[level + k].len()
}

/// The phrases `t` picks from the dictionaries `level..5`, joined by single
/// spaces.
pub open spec fn joined(tables: Seq<Seq<Seq<char>>>, level: int, t: Seq<int>) -> Seq<char>
    decreases 4 - level,
{
    if level >= 4 {
        tables[4][t[0]]
    } else {
        tables[level][t[0]] + seq![' '] + joined(tables, level + 1, t.drop_first())
    }
}

/// The sentence for the five indices `t`.
pub open spec fn sentence_of(tables: Seq<Seq<Seq<char>>>, t: Seq<int>) -> Seq<char> {
    joined(tables, 0, t)
}

/// Lexicographic order on index sequences of equal length.
pub open spec fn lex_lt(a: Seq<int>, b: Seq<int>) -> bool
    decreases a.len(),
{
    a.len() > 0 && (a[0] < b[0] || (a[0] == b[0] && lex_lt(a.drop_first(), b.drop_first())))
}

/// `t` is the least parse of `s` over the dictionaries `level..5`.
pub open spec fn is_first_parse(
    tables: Seq<Seq<Seq<char>>>,
    level: int,
    s: Seq<char>,
    t: Seq<int>,
) -> bool {
    &&& tail_in_bounds(tables, level, t)
    &&& joined(tables, level, t) == s
    &&& forall|t2: Seq<int>|
        tail_in_bounds(tables, level, t2) && lex_lt(t2, t) ==> joined(tables, level, t2) != s
}

/// `t` is the greatest parse of `s` over the dictionaries `level..5`.
pub open spec fn is_last_parse(
    tables: Seq<Seq<Seq<char>>>,
    level: int,
    s: Seq<char>,
    t: Seq<int>,
) -> bool {
    &&& tail_in_bounds(tables, level, t)
    &&& joined(tables, level, t) == s
    &&& forall|t2: Seq<int>|
        tail_in_bounds(tables, level, t2) && lex_lt(t, t2) ==> joined(tables, level, t2) != s
}

/// No choice of phrases from the dictionaries `level..5` gives `s`.
pub open spec fn no_parse(tables: Seq<Seq<Seq<char>>>, level: int, s: Seq<char>) -> bool {
    forall|t: Seq<int>| tail_in_bounds(tables, level, t) ==> joined(tables, level, t) != s
}

/// `t` is the only choice of one phrase per dictionary that, joined by
/// single spaces, gives the sentence `s`.
pub open spec fn is_sole_parse(tables: Seq<Seq<Seq<char>>>, s: Seq<char>, t: Seq<int>) -> bool {
    &&& tail_in_bounds(tables, 0, t)
    &&& joined(tables, 0, t) == s
    &&& forall|t2: Seq<int>|
        tail_in_bounds(tables, 0, t2) && #[trigger] joined(tables, 0, t2) == s ==> t2 == t
}

/// The parse of the sentence `s`, when it has exactly one.
pub open spec fn sole_parse(tables: Seq<Seq<Seq<char>>>, s: Seq<char>) -> Option<Seq<int>> {
    if exists|t: Seq<int>| is_sole_parse(tables, s, t) {
        Some(choose|t: Seq<int>| is_sole_parse(tables, s, t))
    } else {
        None
    }
}

/// Of two distinct index sequences of equal length, one is below the other.
pub proof fn lemma_lex_total(a: Seq<int>, b: Seq<int>)
    requires
        a.len() == b.len(),
    ensures
        a =~= b || lex_lt(a, b) || lex_lt(b, a),
    decreases a.len(),
{
    if a.len() > 0 && a[0] == b[0] {
        lemma_lex_total(a.drop_first(), b.drop_first());
        if a.drop_first() =~= b.drop_first() {
            assert(a =~= seq![a[0]] + a.drop_first());
            assert(b =~= seq![b[0]] + b.drop_first());
        }
    }
}

/// The sole parse, once found, is what `sole_parse` names.
pub proof fn lemma_sole_parse_is(tables: Seq<Seq<Seq<char>>>, s: Seq<char>, t: Seq<int>)
    requires
        is_sole_parse(tables, s, t),
    ensures
        sole_parse(tables, s) == Some(t),
{
    let c = choose|t2: Seq<int>| is_sole_parse(tables, s, t2);
    assert(joined(tables, 0, c) == s);
}

/// Splitting a sentence after its first phrase.
proof fn lemma_joined_split(tables: Seq<Seq<Seq<char>>>, level: int, t: Seq<int>, s: Seq<char>)
    requires
        0 <= level < 4,
        t.len() == 5 - level,
    ensures
        ({
            let e = tables[level][t[0]];
            joined(tables, level, t) == s <==> (s.len() > e.len() && s.subrange(0, e.len() as int)
                == e && s[e.len() as int] == ' ' && s.subrange(e.len() as int + 1, s.len() as int)
                == joined(tables, level + 1, t.drop_first()))
        }),
{
    let e = tables[level][t[0]];
    let rest = joined(tables, level + 1, t.drop_first());
    let j = e + seq![' '] + rest;
    assert(joined(tables, level, t) == j);
    if j == s {
        assert(s.subrange(0, e.len() as int) =~= e);
        assert(s.subrange(e.len() as int + 1, s.len() as int) =~= rest);
    }
    if s.len() > e.len() && s.subrange(0, e.len() as int) == e && s[e.len() as int] == ' '
        && s.subrange(e.len() as int + 1, s.len() as int) == rest {
        assert(s =~= j);
    }
}

/// Whether `e` occurs in `s` at position `start`.
fn occurs_at(s: &Vec<char>, start: usize, e: &Vec<char>) -> (r: bool)
    requires
        start <= s@.len(),
    ensures
        r == (start + e@.len() <= s@.len() && s@.subrange(start as int, start + e@.len()) == e@),
{
    let n = s.len();
    let m = e.len();
    if m > n - start {
        return false;
    }
    let mut i: usize = 0;
    while i < m
        invariant
            n == s@.len(),
            m == e@.len(),
            start + m <= n,
            i <= m,
            forall|k: int| 0 <= k < i ==> s@[start + k] == e@[k],
        decreases m - i,
    {
        if s[start + i] != e[i] {
            assert(s@.subrange(start as int, start + m)[i as int] != e@[i as int]);
            return false;
        }
        i = i + 1;
    }
    assert(s@.subrange(start as int, start + m) =~= e@);
    true
}

/// Whether the suffix of `s` from `start` is exactly `e`.
fn suffix_is(s: &Vec<char>, start: usize, e: &Vec<char>) -> (r: bool)
    requires
        start <= s@.len(),
    ensures
        r == (s@.subrange(start as int, s@.len() as int) == e@),
{
    if s.len() - start != e.len() {
        return false;
    }
    occurs_at(s, start, e)
}

/// The least parse of the suffix of `s` from `start` over the dictionaries
/// `level..5`, if any.
fn find_parse(tables: &Vec<Vec<Vec<char>>>, level: usize, s: &Vec<char>, start: usize) -> (r:
    Option<Vec<usize>>)
    requires
        tables@.len() == 5,
        level < 5,
        start <= s@.len(),
    ensures
        match r {
            Some(v) => is_first_parse(
                tables_view(tables@),
                level as int,
                s@.subrange(start as int, s@.len() as int),
                v@.map_values(|x: usize| x as int),
            ),
            None => no_parse(
                tables_view(tables@),
                level as int,
                s@.subrange(start as int, s@.len() as int),
            ),
        },
    decreases 5 - level,
{
    let ghost tv = tables_view(tables@);
    let ghost suffix = s@.subrange(start as int, s@.len() as int);
    let table = &tables[level];
    assert(tv[level as int] == rows_view(table@));
    let count = table.len();
    let mut i: usize = 0;
    while i < count
        invariant
            tables@.len() == 5,
            level < 5,
            start <= s@.len(),
            tv == tables_view(tables@),
            suffix == s@.subrange(start as int, s@.len() as int),
            table == &tables@[level as int],
            tv[level as int] == rows_view(table@),
            count == table@.len(),
            i <= count,
            forall|t: Seq<int>|
                tail_in_bounds(tv, level as int, t) && t[0] < i ==> joined(tv, level as int, t)
                    != suffix,
        decreases count - i,
    {
        let entry = &table[i];
        assert(tv[level as int][i as int] == entry@);
        if level == 4 {
            if suffix_is(s, start, entry) {
                let mut v: Vec<usize> = Vec::new();
                v.push(i);
                proof {
                    let t = v@.map_values(|x: usize| x as int);
                    assert(t =~= seq![i as int]);
                    assert forall|t2: Seq<int>|
                        tail_in_bounds(tv, level as int, t2) && lex_lt(t2, t) implies joined(
                        tv,
                        level as int,
                        t2,
                    ) != suffix by {
                        assert(t2.drop_first().len() == 0);
                        assert(!lex_lt(t2.drop_first(), t.drop_first()));
                        assert(t2[0] < i);
                    }
                }
                return Some(v);
            }
            assert forall|t: Seq<int>|
                tail_in_bounds(tv, level as int, t) && t[0] < i + 1 implies joined(
                tv,
                level as int,
                t,
            ) != suffix by {
                if t[0] == i {
                    assert(joined(tv, level as int, t) == entry@);
                }
            }
        } else {
            let len = entry.len();
            let mut matched = false;
            let slen = s.len();
            if occurs_at(s, start, entry) {
                if start + len < slen {
                    if s[start + len] == ' ' {
                        matched = true;
                    }
                }
            }
            proof {
                assert forall|t: Seq<int>|
                    tail_in_bounds(tv, level as int, t) && t[0] == i implies (joined(
                    tv,
                    level as int,
                    t,
                ) == suffix <==> matched && joined(tv, level + 1, t.drop_first())
                    == s@.subrange(start + len + 1, s@.len() as int)) by {
                    lemma_joined_split(tv, level as int, t, suffix);
                    if s@.subrange(start as int, start + len) == entry@ && start + len
                        < s@.len() {
                        assert(suffix.subrange(0, len as int) =~= s@.subrange(
                            start as int,
                            start + len,
                        ));
                        assert(suffix[len as int] == s@[start + len]);
                        assert(suffix.subrange(len + 1, suffix.len() as int) =~= s@.subrange(
                            start + len + 1,
                            s@.len() as int,
                        ));
                    }
                    if suffix.len() > len && suffix.subrange(0, len as int) == entry@ {
                        assert(suffix.subrange(0, len as int) =~= s@.subrange(
                            start as int,
                            start + len,
                        ));
                    }
                }
            }
            if matched {
                match find_parse(tables, level + 1, s, start + len + 1) {
                    Some(rest) => {
                        let mut v: Vec<usize> = Vec::new();
                        v.push(i);
                        let mut k: usize = 0;
                        while k < rest.len()
                            invariant
                                v@ =~= seq![i].add(rest@.take(k as int)),
                                k <= rest@.len(),
                            decreases rest@.len() - k,
                        {
                            v.push(rest[k]);
                            k = k + 1;
                        }
                        proof {
                            assert(rest@.take(rest@.len() as int) =~= rest@);
                            let t = v@.map_values(|x: usize| x as int);
                            let rt = rest@.map_values(|x: usize| x as int);
                            assert(t.drop_first() =~= rt);
                            assert(t[0] == i);
                            assert(tail_in_bounds(tv, level as int, t)) by {
                                assert forall|q: int| 0 <= q < t.len() implies 0 <= #[trigger] t[q]
                                    < tv[level + q].len() by {
                                    if q > 0 {
                                        assert(t[q] == rt[q - 1]);
                                    }
                                }
                            }
                            assert forall|t2: Seq<int>|
                                tail_in_bounds(tv, level as int, t2) && lex_lt(t2, t) implies joined(
                                tv,
                                level as int,
                                t2,
                            ) != suffix by {
                                if t2[0] == i {
                                    assert(lex_lt(t2.drop_first(), rt));
                                    assert(tail_in_bounds(tv, level + 1, t2.drop_first())) by {
                                        assert forall|q: int|
                                            0 <= q < t2.drop_first().len() implies 0
                                            <= #[trigger] t2.drop_first()[q] < tv[level + 1
                                            + q].len() by {
                                            assert(t2.drop_first()[q] == t2[q + 1]);
                                        }
                                    }
                                }
                            }
                        }
                        return Some(v);
                    },
                    None => {
                        proof {
                            assert forall|t: Seq<int>|
                                tail_in_bounds(tv, level as int, t) && t[0] == i implies joined(
                                tv,
                                level as int,
                                t,
                            ) != suffix by {
                                assert(tail_in_bounds(tv, level + 1, t.drop_first())) by {
                                    assert forall|q: int|
                                        0 <= q < t.drop_first().len() implies 0
                                        <= #[trigger] t.drop_first()[q] < tv[level + 1
                                        + q].len() by {
                                        assert(t.drop_first()[q] == t[q + 1]);
                                    }
                                }
                            }
                        }
                    },
                }
            }
        }
        i = i + 1;
    }
    None
}

/// The greatest parse of the suffix of `s` from `start` over the
/// dictionaries `level..5`, if any.
fn find_last_parse(tables: &Vec<Vec<Vec<char>>>, level: usize, s: &Vec<char>, start: usize) -> (r:
    Option<Vec<usize>>)
    requires
        tables@.len() == 5,
        level < 5,
        start <= s@.len(),
    ensures
        match r {
            Some(v) => is_last_parse(
                tables_view(tables@),
                level as int,
                s@.subrange(start as int, s@.len() as int),
                v@.map_values(|x: usize| x as int),
            ),
            None => no_parse(
                tables_view(tables@),
                level as int,
                s@.subrange(start as int, s@.len() as int),
            ),
        },
    decreases 5 - level,
{
    let ghost tv = tables_view(tables@);
    let ghost suffix = s@.subrange(start as int, s@.len() as int);
    let table = &tables[level];
    assert(tv[level as int] == rows_view(table@));
    let count = table.len();
    let mut i: usize = count;
    while i > 0
        invariant
            tables@.len() == 5,
            level < 5,
            start <= s@.len(),
            tv == tables_view(tables@),
            suffix == s@.subrange(start as int, s@.len() as int),
            table == &tables@[level as int],
            tv[level as int] == rows_view(table@),
            count == table@.len(),
            i <= count,
            forall|t: Seq<int>|
                tail_in_bounds(tv, level as int, t) && t[0] >= i ==> joined(tv, level as int, t)
                    != suffix,
        decreases i,
    {
        i = i - 1;
        let entry = &table[i];
        assert(tv[level as int][i as int] == entry@);
        if level == 4 {
            if suffix_is(s, start, entry) {
                let mut v: Vec<usize> = Vec::new();
                v.push(i);
                proof {
                    let t = v@.map_values(|x: usize| x as int);
                    assert(t =~= seq![i as int]);
                    assert forall|t2: Seq<int>|
                        tail_in_bounds(tv, level as int, t2) && lex_lt(t, t2) implies joined(
                        tv,
                        level as int,
                        t2,
                    ) != suffix by {
                        assert(t2.drop_first().len() == 0);
                        assert(!lex_lt(t.drop_first(), t2.drop_first()));
                        assert(t2[0] > i);
                    }
                }
                return Some(v);
            }
            assert forall|t: Seq<int>|
                tail_in_bounds(tv, level as int, t) && t[0] >= i implies joined(
                tv,
                level as int,
                t,
            ) != suffix by {
                if t[0] == i {
                    assert(joined(tv, level as int, t) == entry@);
                }
            }
        } else {
            let len = entry.len();
            let mut matched = false;
            let slen = s.len();
            if occurs_at(s, start, entry) {
                if start + len < slen {
                    if s[start + len] == ' ' {
                        matched = true;
                    }
                }
            }
            proof {
                assert forall|t: Seq<int>|
                    tail_in_bounds(tv, level as int, t) && t[0] == i implies (joined(
                    tv,
                    level as int,
                    t,
                ) == suffix <==> matched && joined(tv, level + 1, t.drop_first())
                    == s@.subrange(start + len + 1, s@.len() as int)) by {
                    lemma_joined_split(tv, level as int, t, suffix);
                    if s@.subrange(start as int, start + len) == entry@ && start + len
                        < s@.len() {
                        assert(suffix.subrange(0, len as int) =~= s@.subrange(
                            start as int,
                            start + len,
                        ));
                        assert(suffix[len as int] == s@[start + len]);
                        assert(suffix.subrange(len + 1, suffix.len() as int) =~= s@.subrange(
                            start + len + 1,
                            s@.len() as int,
                        ));
                    }
                    if suffix.len() > len && suffix.subrange(0, len as int) == entry@ {
                        assert(suffix.subrange(0, len as int) =~= s@.subrange(
                            start as int,
                            start + len,
                        ));
                    }
                }
            }
            if matched {
                match find_last_parse(tables, level + 1, s, start + len + 1) {
                    Some(rest) => {
                        let mut v: Vec<usize> = Vec::new();
                        v.push(i);
                        let mut k: usize = 0;
                        while k < rest.len()
                            invariant
                                v@ =~= seq![i].add(rest@.take(k as int)),
                                k <= rest@.len(),
                            decreases rest@.len() - k,
                        {
                            v.push(rest[k]);
                            k = k + 1;
                        }
                        proof {
                            assert(rest@.take(rest@.len() as int) =~= rest@);
                            let t = v@.map_values(|x: usize| x as int);
                            let rt = rest@.map_values(|x: usize| x as int);
                            assert(t.drop_first() =~= rt);
                            assert(t[0] == i);
                            assert(tail_in_bounds(tv, level as int, t)) by {
                                assert forall|q: int| 0 <= q < t.len() implies 0 <= #[trigger] t[q]
                                    < tv[level + q].len() by {
                                    if q > 0 {
                                        assert(t[q] == rt[q - 1]);
                                    }
                                }
                            }
                            assert forall|t2: Seq<int>|
                                tail_in_bounds(tv, level as int, t2) && lex_lt(t, t2) implies joined(
                                tv,
                                level as int,
                                t2,
                            ) != suffix by {
                                if t2[0] == i {
                                    assert(lex_lt(rt, t2.drop_first()));
                                    assert(tail_in_bounds(tv, level + 1, t2.drop_first())) by {
                                        assert forall|q: int|
                                            0 <= q < t2.drop_first().len() implies 0
                                            <= #[trigger] t2.drop_first()[q] < tv[level + 1
                                            + q].len() by {
                                            assert(t2.drop_first()[q] == t2[q + 1]);
                                        }
                                    }
                                }
                            }
                        }
                        return Some(v);
                    },
                    None => {
                        proof {
                            assert forall|t: Seq<int>|
                                tail_in_bounds(tv, level as int, t) && t[0] == i implies joined(
                                tv,
                                level as int,
                                t,
                            ) != suffix by {
                                assert(tail_in_bounds(tv, level + 1, t.drop_first())) by {
                                    assert forall|q: int|
                                        0 <= q < t.drop_first().len() implies 0
                                        <= #[trigger] t.drop_first()[q] < tv[level + 1
                                        + q].len() by {
                                        assert(t.drop_first()[q] == t[q + 1]);
                                    }
                                }
                            }
                        }
                    },
                }
            }
        }
    }
    None
}

/// The characters of each phrase of `d`.
pub fn char_table(d: &Dictionary) -> (r: Vec<Vec<char>>)
    ensures
        rows_view(r@) == d.phrases(),
{
    let n = d.entries.len();
    let mut r: Vec<Vec<char>> = Vec::new();
    for i in 0..n
        invariant
            n == d.entries@.len(),
            rows_view(r@) =~= d.phrases().take(i as int),
    {
        let row = chars_of(d.entries[i].as_str());
        let ghost prev = r@;
        r.push(row);
        assert(rows_view(r@) =~= rows_view(prev).push(row@));
        assert(d.phrases().take(i + 1) =~= d.phrases().take(i as int).push(d.entries@[i as int]@));
    }
    assert(d.phrases().take(n as int) =~= d.phrases());
    r
}

/// The character tables of the five dictionaries, in sentence order.
pub fn char_tables(
    character: &Dictionary,
    setting: &Dictionary,
    action: &Dictionary,
    object: &Dictionary,
    outcome: &Dictionary,
) -> (r: Vec<Vec<Vec<char>>>)
    ensures
        tables_view(r@) == seq![
            character.phrases(),
            setting.phrases(),
            action.phrases(),
            object.phrases(),
            outcome.phrases(),
        ],
{
    let mut r: Vec<Vec<Vec<char>>> = Vec::new();
    r.push(char_table(character));
    r.push(char_table(setting));
    r.push(char_table(action));
    r.push(char_table(object));
    r.push(char_table(outcome));
    assert(tables_view(r@) =~= seq![
        character.phrases(),
        setting.phrases(),
        action.phrases(),
        object.phrases(),
        outcome.phrases(),
    ]);
    r
}

/// The tables of five dictionaries, in sentence order.
pub open spec fn dictionary_tables(
    character: Dictionary,
    setting: Dictionary,
    action: Dictionary,
    object: Dictionary,
    outcome: Dictionary,
) -> Seq<Seq<Seq<char>>> {
    seq![
        character.phrases(),
        setting.phrases(),
        action.phrases(),
        object.phrases(),
        outcome.phrases(),
    ]
}

/// Parses `sentence` into the indices of its five phrases: the one tuple
/// (character, setting, action, object, outcome) whose phrases, joined by
/// single spaces, are exactly `sentence`. Fails with `ParsingError` when no
/// tuple gives the sentence, or more than one does.
pub fn parse_sentence(
    character: &Dictionary,
    setting: &Dictionary,
    action: &Dictionary,
    object: &Dictionary,
    outcome: &Dictionary,
    sentence: &str,
) -> (r: Result<(usize, usize, usize, usize, usize), Memo128Error>)
    ensures
        match r {
            Ok(t) => is_sole_parse(
                dictionary_tables(*character, *setting, *action, *object, *outcome),
                sentence@,
                seq![t.0 as int, t.1 as int, t.2 as int, t.3 as int, t.4 as int],
            ),
            Err(e) => e is ParsingError && sole_parse(
                dictionary_tables(*character, *setting, *action, *object, *outcome),
                sentence@,
            ) is None,
        },
{
    let ghost tv = dictionary_tables(*character, *setting, *action, *object, *outcome);
    let tables = char_tables(character, setting, action, object, outcome);
    let s = chars_of(sentence);
    assert(tables@.len() == tables_view(tables@).len());
    assert(tables_view(tables@) == tv);
    assert(s@.subrange(0, s@.len() as int) =~= s@);
    match find_parse(&tables, 0, &s, 0) {
        Some(v) => {
            let ghost least = v@.map_values(|x: usize| x as int);
            match find_last_parse(&tables, 0, &s, 0) {
                Some(w) => {
                    let ghost last = w@.map_values(|x: usize| x as int);
                    assert(v@.len() == 5 && w@.len() == 5);
                    if v[0] == w[0] && v[1] == w[1] && v[2] == w[2] && v[3] == w[3] && v[4] == w[4] {
                        let r = (v[0], v[1], v[2], v[3], v[4]);
                        proof {
                            assert(least =~= last);
                            assert(least =~= seq![
                                r.0 as int,
                                r.1 as int,
                                r.2 as int,
                                r.3 as int,
                                r.4 as int,
                            ]);
                            assert forall|t2: Seq<int>|
                                tail_in_bounds(tv, 0, t2) && #[trigger] joined(tv, 0, t2)
                                    == sentence@ implies t2 == least by {
                                lemma_lex_total(t2, least);
                            }
                        }
                        Ok(r)
                    } else {
                        proof {
                            assert(least != last) by {
                                if least == last {
                                    assert(least[0] == last[0]);
                                    assert(least[1] == last[1]);
                                    assert(least[2] == last[2]);
                                    assert(least[3] == last[3]);
                                    assert(least[4] == last[4]);
                                }
                            }
                            if exists|t: Seq<int>| is_sole_parse(tv, sentence@, t) {
                                let t = choose|t: Seq<int>| is_sole_parse(tv, sentence@, t);
                                assert(joined(tv, 0, least) == sentence@);
                                assert(joined(tv, 0, last) == sentence@);
                            }
                        }
                        let mut m = String::from_str("Sentence has more than one parse: ");
                        m.append(sentence);
                        Err(Memo128Error::ParsingError(m))
                    }
                },
                None => {
                    proof {
                        assert(joined(tv, 0, least) == sentence@);
                    }
                    let mut m = String::from_str("Cannot parse sentence: ");
                    m.append(sentence);
                    Err(Memo128Error::ParsingError(m))
                },
            }
        },
        None => {
            proof {
                if exists|t: Seq<int>| is_sole_parse(tv, sentence@, t) {
                    let t = choose|t: Seq<int>| is_sole_parse(tv, sentence@, t);
                    assert(joined(tv, 0, t) == sentence@);
                }
            }
            let mut m = String::from_str("Cannot parse sentence: ");
            m.append(sentence);
            Err(Memo128Error::ParsingError(m))
        },
    }
}

} // verus!
