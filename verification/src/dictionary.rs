//! Dictionaries of phrases, one per sentence component.
use std::collections::HashMap;
use vstd::prelude::*;

use crate::error::Memo128Error;
use crate::text::{chars_of, decimal, is_trimmed, push_decimal, string_from_chars, trim, trim_chars};

verus! {

broadcast use vstd::std_specs::hash::group_hash_axioms;

/// Dictionary of phrases used for one component of the sentences.
///
/// The position of a phrase in `entries` is the index that the phrase
/// encodes.
pub struct Dictionary {
    /// Phrases, indexed by their position (the encoded bit value).
    pub entries: Vec<String>,
    /// Reverse lookup from a phrase to its index in `entries`.
    pub reverse_lookup: HashMap<String, usize>,
}

/// The characters of each string in `v`.
pub open spec fn phrases_of(v: Seq<String>) -> Seq<Seq<char>> {
    v.map_values(|e: String| e@)
}

/// The entries kept from the lines of a dictionary file: each line trimmed,
/// blank lines left out, order kept.
pub open spec fn kept_entries(lines: Seq<Seq<char>>) -> Seq<Seq<char>>
    decreases lines.len(),
{
    if lines.len() == 0 {
        Seq::empty()
    } else {
        let rest = kept_entries(lines.drop_last());
        let t = trim(lines.last());
        if t.len() == 0 {
            rest
        } else {
            rest.push(t)
        }
    }
}

/// Whether `entries` is a complete dictionary of `size` phrases: exactly
/// `size` entries, no two alike, each non-empty and without surrounding
/// whitespace.
pub open spec fn valid_table(entries: Seq<Seq<char>>, size: int) -> bool {
    &&& entries.len() == size
    &&& entries.no_duplicates()
    &&& forall|i: int| 0 <= i < entries.len() ==> #[trigger] entries[i].len() > 0 && is_trimmed(entries[i])
}

impl Dictionary {
    /// The phrases of the dictionary, as character sequences.
    pub open spec fn phrases(&self) -> Seq<Seq<char>> {
        phrases_of(self.entries@)
    }

    /// Whether `reverse_lookup` maps each phrase of `entries` to its index,
    /// and holds nothing else.
    pub open spec fn lookup_inverts_entries(&self) -> bool {
        &&& forall|k: String|
            #[trigger] self.reverse_lookup@.contains_key(k) <==> self.entries@.contains(k)
        &&& forall|i: int|
            0 <= i < self.entries@.len() ==> self.reverse_lookup@[#[trigger] self.entries@[i]] == i
    }

    /// Creates a new empty dictionary with room for `expected_size` entries.
    pub fn new(expected_size: usize) -> (d: Self)
        ensures
            d.entries@.len() == 0,
            d.reverse_lookup@ == Map::<String, usize>::empty(),
    {
        Dictionary {
            entries: Vec::with_capacity(expected_size),
            reverse_lookup: HashMap::with_capacity(expected_size),
        }
    }

    /// The phrase at `index`, or `None` when `index` is out of range.
    pub fn get(&self, index: usize) -> (r: Option<&String>)
        ensures
            match r {
                Some(e) => index < self.entries@.len() && *e == self.entries@[index as int],
                None => index >= self.entries@.len(),
            },
    {
        if index < self.entries.len() {
            Some(&self.entries[index])
        } else {
            None
        }
    }

    /// Builds a dictionary from the lines of a dictionary file.
    ///
    /// Each line is trimmed and blank lines are skipped. The dictionary must
    /// end up with exactly `expected_size` entries, none repeated; otherwise
    /// an `InvalidDictionary` error is returned. The reverse lookup maps each
    /// entry to its index. vstd describes the contents of a `HashMap` only
    /// for key types that obey its key model, and does not declare that
    /// `String` does; the clause on `reverse_lookup` is stated under that
    /// condition.
    pub fn from_lines(lines: &[String], expected_size: usize) -> (r: Result<Self, Memo128Error>)
        ensures
            match r {
                Ok(d) => {
                    &&& kept_entries(phrases_of(lines@)).len() == expected_size
                    &&& kept_entries(phrases_of(lines@)).no_duplicates()
                    &&& d.phrases() == kept_entries(phrases_of(lines@))
                    &&& vstd::std_specs::hash::obeys_key_model::<String>()
                        ==> d.lookup_inverts_entries() && d.reverse_lookup@.len()
                        == d.entries@.len()
                },
                Err(e) => {
                    &&& e is InvalidDictionary
                    &&& !(kept_entries(phrases_of(lines@)).len() == expected_size && kept_entries(
                        phrases_of(lines@),
                    ).no_duplicates())
                },
            },
    {
        let mut dict = Dictionary::new(expected_size);
        let n = lines.len();
        let ghost all = phrases_of(lines@);
        assert(all.take(0) =~= Seq::<Seq<char>>::empty());
        let mut idx: usize = 0;
        while idx < n
            invariant
                n == lines@.len(),
                idx <= n,
                all == phrases_of(lines@),
                dict.phrases() == kept_entries(all.take(idx as int)),
                dict.phrases().no_duplicates(),
                dict.entries@.len() <= expected_size,
                vstd::std_specs::hash::obeys_key_model::<String>() ==> dict.lookup_inverts_entries(),
            decreases n - idx,
        {
            let ghost prev = dict.phrases();
            assert(all.take(idx + 1).drop_last() =~= all.take(idx as int));
            assert(all.take(idx + 1).last() == lines@[idx as int]@);
            let line_chars = chars_of(lines[idx].as_str());
            let trimmed = trim_chars(&line_chars);
            assert(all[idx as int] == lines@[idx as int]@);
            if trimmed.len() > 0 {
                assert(kept_entries(all.take(idx + 1)) == prev.push(trimmed@));
                if dict.entries.len() >= expected_size {
                    proof {
                        lemma_kept_entries_prefix(all, idx as int + 1);
                    }
                    return Err(Memo128Error::InvalidDictionary(message_more_than(expected_size)));
                }
                let entry = string_from_chars(&trimmed);
                let mut j: usize = 0;
                while j < dict.entries.len()
                    invariant
                        0 <= j <= dict.entries@.len(),
                        forall|k: int| 0 <= k < j ==> dict.phrases()[k] != entry@,
                        idx < n,
                        n == lines@.len(),
                        all == phrases_of(lines@),
                        dict.phrases() == prev,
                        prev == kept_entries(all.take(idx as int)),
                        entry@ == trimmed@,
                        trimmed@ == trim(all[idx as int]),
                        trimmed@.len() > 0,
                        kept_entries(all.take(idx + 1)) == prev.push(trimmed@),
                    decreases dict.entries@.len() - j,
                {
                    if dict.entries[j] == entry {
                        proof {
                            let s = kept_entries(all.take(idx + 1));
                            assert(s[j as int] == s[prev.len() as int]);
                            assert(!s.no_duplicates());
                            lemma_kept_entries_prefix(all, idx as int + 1);
                            if kept_entries(all).no_duplicates() {
                                lemma_no_duplicates_prefix(kept_entries(all), s.len() as int);
                            }
                        }
                        return Err(Memo128Error::InvalidDictionary(message_duplicate(&entry)));
                    }
                    j = j + 1;
                }
                let ghost old_dict = dict;
                assert(!old_dict.phrases().contains(entry@)) by {
                    if old_dict.phrases().contains(entry@) {
                        let k = choose|k: int| 0 <= k < old_dict.phrases().len() && old_dict.phrases()[k] == entry@;
                        assert(dict.phrases()[k] != entry@);
                    }
                }
                let position = dict.entries.len();
                dict.reverse_lookup.insert(entry.clone(), position);
                dict.entries.push(entry);
                assert(dict.phrases() =~= prev.push(trimmed@));
                proof {
                    assert(dict.entries@.drop_last() =~= old_dict.entries@);
                    if vstd::std_specs::hash::obeys_key_model::<String>() {
                        lemma_lookup_extend(old_dict, dict, position);
                    }
                }
            }
            idx = idx + 1;
        }
        assert(all.take(n as int) =~= all);
        proof {
            if vstd::std_specs::hash::obeys_key_model::<String>() {
                lemma_lookup_len(dict);
            }
        }
        if dict.entries.len() != expected_size {
            return Err(Memo128Error::InvalidDictionary(message_wrong_count(expected_size, dict.entries.len())));
        }
        Ok(dict)
    }
}

/// A prefix of the lines keeps a prefix of the entries.
proof fn lemma_kept_entries_prefix(lines: Seq<Seq<char>>, i: int)
    requires
        0 <= i <= lines.len(),
    ensures
        kept_entries(lines.take(i)).len() <= kept_entries(lines).len(),
        kept_entries(lines.take(i)) =~= kept_entries(lines).take(
            kept_entries(lines.take(i)).len() as int,
        ),
    decreases lines.len() - i,
{
    if i < lines.len() {
        lemma_kept_entries_prefix(lines, i + 1);
        assert(lines.take(i + 1).drop_last() =~= lines.take(i));
    } else {
        assert(lines.take(i) =~= lines);
    }
}

/// A sequence with duplicates in a prefix has duplicates.
proof fn lemma_no_duplicates_prefix(s: Seq<Seq<char>>, n: int)
    requires
        0 <= n <= s.len(),
        s.no_duplicates(),
    ensures
        s.take(n).no_duplicates(),
{
    assert forall|i: int, j: int|
        0 <= i < s.take(n).len() && 0 <= j < s.take(n).len() && i != j implies s.take(n)[i]
        != s.take(n)[j] by {
        assert(s.take(n)[i] == s[i]);
        assert(s.take(n)[j] == s[j]);
    }
}

/// A reverse lookup that inverts distinct entries has one key per entry.
proof fn lemma_lookup_len(d: Dictionary)
    requires
        d.lookup_inverts_entries(),
        d.phrases().no_duplicates(),
    ensures
        d.reverse_lookup@.len() == d.entries@.len(),
{
    let e = d.entries@;
    assert(e.no_duplicates()) by {
        assert forall|i: int, j: int| 0 <= i < e.len() && 0 <= j < e.len() && i != j implies e[i]
            != e[j] by {
            assert(d.phrases()[i] != d.phrases()[j]);
        }
    }
    e.unique_seq_to_set();
    assert(d.reverse_lookup@.dom() =~= e.to_set()) by {
        assert forall|k: String| #[trigger] d.reverse_lookup@.dom().contains(k) <==> e.to_set().contains(k) by {
            assert(d.reverse_lookup@.contains_key(k) <==> e.contains(k));
        }
    }
}

/// Adding a new phrase at the end, and mapping it to its index, keeps the
/// reverse lookup the inverse of the entries.
proof fn lemma_lookup_extend(before: Dictionary, after: Dictionary, p: usize)
    requires
        p == before.entries@.len(),
        before.lookup_inverts_entries(),
        after.entries@.len() == before.entries@.len() + 1,
        after.entries@.drop_last() == before.entries@,
        !before.phrases().contains(after.entries@.last()@),
        after.reverse_lookup@ == before.reverse_lookup@.insert(after.entries@.last(), p),
    ensures
        after.lookup_inverts_entries(),
{
    let e = after.entries@.last();
    let n = before.entries@.len() as int;
    assert forall|i: int| 0 <= i < n implies before.entries@[i] != e by {
        if before.entries@[i] == e {
            assert(before.phrases()[i] == e@);
        }
    }
    assert forall|k: String| #[trigger] after.reverse_lookup@.contains_key(k) <==> after.entries@.contains(k) by {
        if after.entries@.contains(k) {
            let i = choose|i: int| 0 <= i < after.entries@.len() && after.entries@[i] == k;
            if i < n {
                assert(before.entries@[i] == k);
            }
        }
        if before.entries@.contains(k) {
            let i = choose|i: int| 0 <= i < n && before.entries@[i] == k;
            assert(after.entries@[i] == k);
        }
        if k == e {
            assert(after.entries@[n] == k);
        }
    }
    assert forall|i: int| 0 <= i < after.entries@.len() implies after.reverse_lookup@[#[trigger] after.entries@[i]] == i by {
        if i < n {
            assert(after.entries@[i] == before.entries@[i]);
            assert(before.entries@[i] != e);
            assert(before.reverse_lookup@[before.entries@[i]] == i);
        }
    }
}

fn message_more_than(expected_size: usize) -> (r: String)
    ensures
        r@ == "Dictionary contains more than "@ + decimal(expected_size as nat) + " entries"@,
{
    let mut m = String::from_str("Dictionary contains more than ");
    push_decimal(&mut m, expected_size);
    m.append(" entries");
    m
}

fn message_duplicate(entry: &String) -> (r: String)
    ensures
        r@ == "Duplicate entry found: "@ + entry@,
{
    let mut m = String::from_str("Duplicate entry found: ");
    m.append(entry.as_str());
    m
}

fn message_wrong_count(expected_size: usize, found: usize) -> (r: String)
    ensures
        r@ == "Dictionary should contain exactly "@ + decimal(expected_size as nat)
            + " entries, found "@ + decimal(found as nat),
{
    let mut m = String::from_str("Dictionary should contain exactly ");
    push_decimal(&mut m, expected_size);
    m.append(" entries, found ");
    push_decimal(&mut m, found);
    m
}

/// The kept entries are, in order, the trimmed lines whose trim is not
/// empty, each exactly as `trim` leaves it: the returned `idx` lists the
/// lines they come from, in increasing order, and names every non-blank
/// line.
pub proof fn lemma_kept_entries_are_trimmed_lines(lines: Seq<Seq<char>>) -> (idx: Seq<int>)
    ensures
        idx.len() == kept_entries(lines).len(),
        forall|j: int|
            0 <= j < idx.len() ==> 0 <= #[trigger] idx[j] < lines.len() && kept_entries(lines)[j]
                == trim(lines[idx[j]]) && trim(lines[idx[j]]).len() > 0,
        forall|j1: int, j2: int| 0 <= j1 < j2 < idx.len() ==> idx[j1] < idx[j2],
        forall|l: int| 0 <= l < lines.len() && trim(#[trigger] lines[l]).len() > 0 ==> idx.contains(l),
    decreases lines.len(),
{
    if lines.len() == 0 {
        Seq::empty()
    } else {
        let prev = lines.drop_last();
        let pidx = lemma_kept_entries_are_trimmed_lines(prev);
        let last = lines.len() - 1;
        let t = trim(lines.last());
        let idx = if t.len() == 0 {
            pidx
        } else {
            pidx.push(last)
        };
        assert forall|j: int| 0 <= j < idx.len() implies 0 <= #[trigger] idx[j] < lines.len()
            && kept_entries(lines)[j] == trim(lines[idx[j]]) && trim(lines[idx[j]]).len() > 0 by {
            if j < pidx.len() {
                assert(idx[j] == pidx[j]);
                assert(lines[pidx[j]] == prev[pidx[j]]);
            }
        }
        assert forall|l: int| 0 <= l < lines.len() && trim(#[trigger] lines[l]).len() > 0 implies idx.contains(l) by {
            if l < last {
                assert(lines[l] == prev[l]);
                assert(pidx.contains(l));
                let q = choose|q: int| 0 <= q < pidx.len() && pidx[q] == l;
                assert(idx[q] == l);
            } else {
                assert(idx[pidx.len() as int] == l);
            }
        }
        idx
    }
}

} // verus!
