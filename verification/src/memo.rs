//! Encoding 128-bit values as three sentences, and decoding them back.
use vstd::prelude::*;

use crate::bits::{
    be_bytes, be_bytes_to_u128, be_value, chunk_components, chunk_from_components, chunk_modulus,
    chunk_of, chunk_value, components, dictionary_sizes, indices_in_bounds, join_chunks,
    join_payload, payload, split_payload, u128_to_be_bytes,
};
use crate::checksum::{calculate_checksum, checksum_spec};
use crate::dictionary::{phrases_of, valid_table, Dictionary};
use crate::error::Memo128Error;
use crate::hex::{hex_bytes, hex_encoding, valid_hex_input};
use crate::parse::{
    dictionary_tables, is_sole_parse, joined, lemma_sole_parse_is, sole_parse,
    sentence_of, tail_in_bounds,
};
use crate::text::{chars_of, is_trimmed, is_white_space, push_char, string_from_chars, trim, trim_chars};

verus! {

/// Whether `tables` are five complete dictionaries of the sizes the
/// encoding needs (1024, 1024, 256, 512 and 256 phrases).
pub open spec fn valid_tables(tables: Seq<Seq<Seq<char>>>) -> bool {
    &&& tables.len() == 5
    &&& forall|k: int| 0 <= k < 5 ==> valid_table(#[trigger] tables[k], dictionary_sizes()[k])
}

/// The three sentences that encode the hexadecimal input `hex`: the data
/// bytes followed by their 7-bit checksum, cut into three 45-bit chunks, each
/// chunk written as the five phrases its indices pick.
pub open spec fn encoded_sentences(tables: Seq<Seq<Seq<char>>>, hex: Seq<char>) -> Seq<Seq<char>> {
    let b = hex_bytes(hex);
    let n = payload(be_value(b), checksum_spec(b) as nat);
    Seq::new(3, |i: int| sentence_of(tables, components(chunk_of(n, i))))
}

/// The five phrase indices of sentence `i` (0, 1 or 2) of the encoding of
/// the hexadecimal input `hex`.
pub open spec fn encoded_indices(hex: Seq<char>, i: int) -> Seq<int> {
    let b = hex_bytes(hex);
    components(chunk_of(payload(be_value(b), checksum_spec(b) as nat), i))
}

/// Whether there are three sentences and each, once trimmed, has exactly
/// one parse.
pub open spec fn parses_all(tables: Seq<Seq<Seq<char>>>, s: Seq<Seq<char>>) -> bool {
    &&& s.len() == 3
    &&& forall|i: int| 0 <= i < 3 ==> (#[trigger] sole_parse(tables, trim(s[i]))) is Some
}

/// The chunk that sentence `i` parses to.
pub open spec fn decoded_chunk(tables: Seq<Seq<Seq<char>>>, s: Seq<Seq<char>>, i: int) -> nat {
    chunk_value(sole_parse(tables, trim(s[i]))->0) as nat
}

/// The 135-bit payload that the three sentences parse to.
pub open spec fn decoded_payload(tables: Seq<Seq<Seq<char>>>, s: Seq<Seq<char>>) -> nat {
    join_chunks(decoded_chunk(tables, s, 0), decoded_chunk(tables, s, 1), decoded_chunk(tables, s, 2))
}

/// The 16 data bytes carried by the three sentences.
pub open spec fn decoded_bytes(tables: Seq<Seq<Seq<char>>>, s: Seq<Seq<char>>) -> Seq<u8> {
    be_bytes(decoded_payload(tables, s) / 128, 16)
}

/// Whether the checksum carried by the sentences matches their data.
pub open spec fn checksum_matches(tables: Seq<Seq<Seq<char>>>, s: Seq<Seq<char>>) -> bool {
    checksum_spec(decoded_bytes(tables, s)) as nat == decoded_payload(tables, s) % 128
}

/// Whether no index tuple other than `t` gives the sentence of `t`.
pub open spec fn uniquely_spelled(tables: Seq<Seq<Seq<char>>>, t: Seq<int>) -> bool {
    forall|t2: Seq<int>|
        tail_in_bounds(tables, 0, t2) && #[trigger] sentence_of(tables, t2) == sentence_of(tables, t)
            ==> t2 == t
}

/// Whether no two different index tuples give the same sentence.
pub open spec fn unambiguous(tables: Seq<Seq<Seq<char>>>) -> bool {
    forall|t1: Seq<int>, t2: Seq<int>|
        tail_in_bounds(tables, 0, t1) && tail_in_bounds(tables, 0, t2) && #[trigger] sentence_of(
            tables,
            t1,
        ) == #[trigger] sentence_of(tables, t2) ==> t1 == t2
}

/// In unambiguous dictionaries every in-bounds tuple is the only one that
/// spells its sentence.
pub proof fn lemma_unambiguous_spells_uniquely(tables: Seq<Seq<Seq<char>>>, t: Seq<int>)
    requires
        unambiguous(tables),
        tail_in_bounds(tables, 0, t),
    ensures
        uniquely_spelled(tables, t),
{
}

/// Encoder and decoder of 128-bit values as three memorable sentences.
pub struct Memo128 {
    character_dict: Dictionary,
    setting_dict: Dictionary,
    action_dict: Dictionary,
    object_dict: Dictionary,
    outcome_dict: Dictionary,
}

impl Memo128 {
    /// The dictionary of component `k`: character, setting, action, object,
    /// outcome.
    pub closed spec fn dictionary(&self, k: int) -> Dictionary {
        if k == 0 {
            self.character_dict
        } else if k == 1 {
            self.setting_dict
        } else if k == 2 {
            self.action_dict
        } else if k == 3 {
            self.object_dict
        } else {
            self.outcome_dict
        }
    }

    /// The phrases of the five dictionaries, in sentence order.
    pub open spec fn tables(&self) -> Seq<Seq<Seq<char>>> {
        dictionary_tables(
            self.dictionary(0),
            self.dictionary(1),
            self.dictionary(2),
            self.dictionary(3),
            self.dictionary(4),
        )
    }

    #[verifier::type_invariant]
    pub(crate) open spec fn dictionaries_valid(&self) -> bool {
        valid_tables(self.tables())
    }

    /// Creates a Memo128 from its five dictionaries.
    ///
    /// Each dictionary must hold exactly the number of phrases its bits
    /// select (1024, 1024, 256, 512, 256), none repeated, none empty and none
    /// with surrounding whitespace, as loading a dictionary file gives them.
    pub fn new(
        character_dict: Dictionary,
        setting_dict: Dictionary,
        action_dict: Dictionary,
        object_dict: Dictionary,
        outcome_dict: Dictionary,
    ) -> (r: Result<Self, Memo128Error>)
        ensures
            match r {
                Ok(m) => {
                    &&& m.dictionary(0) == character_dict
                    &&& m.dictionary(1) == setting_dict
                    &&& m.dictionary(2) == action_dict
                    &&& m.dictionary(3) == object_dict
                    &&& m.dictionary(4) == outcome_dict
                    &&& valid_tables(m.tables())
                },
                Err(e) => e is InvalidDictionary && !valid_tables(
                    dictionary_tables(
                        character_dict,
                        setting_dict,
                        action_dict,
                        object_dict,
                        outcome_dict,
                    ),
                ),
            },
    {
        let ghost t = dictionary_tables(
            character_dict,
            setting_dict,
            action_dict,
            object_dict,
            outcome_dict,
        );
        let ok0 = table_is_valid(&character_dict, 1024);
        let ok1 = table_is_valid(&setting_dict, 1024);
        let ok2 = table_is_valid(&action_dict, 256);
        let ok3 = table_is_valid(&object_dict, 512);
        let ok4 = table_is_valid(&outcome_dict, 256);
        if !(ok0 && ok1 && ok2 && ok3 && ok4) {
            proof {
                if valid_tables(t) {
                    assert(valid_table(t[0], dictionary_sizes()[0]));
                    assert(valid_table(t[1], dictionary_sizes()[1]));
                    assert(valid_table(t[2], dictionary_sizes()[2]));
                    assert(valid_table(t[3], dictionary_sizes()[3]));
                    assert(valid_table(t[4], dictionary_sizes()[4]));
                }
            }
            return Err(
                Memo128Error::InvalidDictionary(
                    String::from_str(
                        "Each dictionary must hold exactly its number of distinct, non-empty, trimmed entries",
                    ),
                ),
            );
        }
        proof {
            assert forall|k: int| 0 <= k < 5 implies valid_table(
                #[trigger] t[k],
                dictionary_sizes()[k],
            ) by {
                if k == 0 {
                } else if k == 1 {
                } else if k == 2 {
                } else if k == 3 {
                } else {
                }
            }
        }
        Ok(Memo128 { character_dict, setting_dict, action_dict, object_dict, outcome_dict })
    }

    /// The Character dictionary.
    pub fn get_character_dict(&self) -> (r: &Dictionary)
        ensures
            *r == self.dictionary(0),
    {
        &self.character_dict
    }

    /// The Setting dictionary.
    pub fn get_setting_dict(&self) -> (r: &Dictionary)
        ensures
            *r == self.dictionary(1),
    {
        &self.setting_dict
    }

    /// The Action dictionary.
    pub fn get_action_dict(&self) -> (r: &Dictionary)
        ensures
            *r == self.dictionary(2),
    {
        &self.action_dict
    }

    /// The Object dictionary.
    pub fn get_object_dict(&self) -> (r: &Dictionary)
        ensures
            *r == self.dictionary(3),
    {
        &self.object_dict
    }

    /// The Outcome dictionary.
    pub fn get_outcome_dict(&self) -> (r: &Dictionary)
        ensures
            *r == self.dictionary(4),
    {
        &self.outcome_dict
    }
}

impl Memo128 {
    /// The sentence for one 45-bit chunk: its five phrases joined by single
    /// spaces.
    fn chunk_sentence(&self, chunk: u64) -> (r: Result<String, Memo128Error>)
        requires
            chunk < chunk_modulus(),
        ensures
            r matches Ok(s) && s@ == sentence_of(self.tables(), components(chunk as nat)),
    {
        proof {
            use_type_invariant(self);
        }
        let ghost tables = self.tables();
        let (idx_c, idx_s, idx_a, idx_o, idx_k) = chunk_components(chunk);
        proof {
            let t = components(chunk as nat);
            assert(t[0] < dictionary_sizes()[0]);
            assert(t[1] < dictionary_sizes()[1]);
            assert(t[2] < dictionary_sizes()[2]);
            assert(t[3] < dictionary_sizes()[3]);
            assert(t[4] < dictionary_sizes()[4]);
            assert(valid_table(tables[0], dictionary_sizes()[0]));
            assert(valid_table(tables[1], dictionary_sizes()[1]));
            assert(valid_table(tables[2], dictionary_sizes()[2]));
            assert(valid_table(tables[3], dictionary_sizes()[3]));
            assert(valid_table(tables[4], dictionary_sizes()[4]));
        }
        let phrase_c = match self.character_dict.get(idx_c) {
            Some(p) => p,
            None => {
                return Err(Memo128Error::InvalidDictionary(String::from_str("Character index out of range")));
            },
        };
        let phrase_s = match self.setting_dict.get(idx_s) {
            Some(p) => p,
            None => {
                return Err(Memo128Error::InvalidDictionary(String::from_str("Setting index out of range")));
            },
        };
        let phrase_a = match self.action_dict.get(idx_a) {
            Some(p) => p,
            None => {
                return Err(Memo128Error::InvalidDictionary(String::from_str("Action index out of range")));
            },
        };
        let phrase_o = match self.object_dict.get(idx_o) {
            Some(p) => p,
            None => {
                return Err(Memo128Error::InvalidDictionary(String::from_str("Object index out of range")));
            },
        };
        let phrase_k = match self.outcome_dict.get(idx_k) {
            Some(p) => p,
            None => {
                return Err(Memo128Error::InvalidDictionary(String::from_str("Outcome index out of range")));
            },
        };
        let mut sentence = String::from_str(phrase_c.as_str());
        push_char(&mut sentence, ' ');
        sentence.append(phrase_s.as_str());
        push_char(&mut sentence, ' ');
        sentence.append(phrase_a.as_str());
        push_char(&mut sentence, ' ');
        sentence.append(phrase_o.as_str());
        push_char(&mut sentence, ' ');
        sentence.append(phrase_k.as_str());
        proof {
            let t = components(chunk as nat);
            reveal_with_fuel(joined, 5);
            assert(t.drop_first().drop_first().drop_first().drop_first()[0] == t[4]);
            assert(t.drop_first().drop_first().drop_first()[0] == t[3]);
            assert(t.drop_first().drop_first()[0] == t[2]);
            assert(t.drop_first()[0] == t[1]);
            assert(sentence@ =~= sentence_of(tables, t));
        }
        Ok(sentence)
    }

    /// Encodes a 128-bit value, given as 32 hexadecimal digits, as three
    /// sentences.
    ///
    /// Fails with `InvalidHexInput` when the input is not 32 hexadecimal
    /// digits.
    pub fn encode(&self, hex_input: &str) -> (r: Result<Vec<String>, Memo128Error>)
        ensures
            valid_tables(self.tables()),
            match r {
                Ok(sentences) => valid_hex_input(hex_input@) && phrases_of(sentences@)
                    == encoded_sentences(self.tables(), hex_input@),
                Err(e) => !valid_hex_input(hex_input@) && e is InvalidHexInput,
            },
    {
        proof {
            use_type_invariant(self);
        }
        let data_bytes = match Self::hex_to_bytes(hex_input) {
            Ok(b) => b,
            Err(e) => {
                return Err(e);
            },
        };
        if data_bytes.len() != 16 {
            return Err(
                Memo128Error::InvalidHexInput(String::from_str("Data must be exactly 16 bytes (128 bits)")),
            );
        }
        let checksum_bits = calculate_checksum(&data_bytes);
        let data_num = be_bytes_to_u128(&data_bytes);
        let (c0, c1, c2) = split_payload(data_num, checksum_bits);
        let ghost expected = encoded_sentences(self.tables(), hex_input@);
        let mut output_sentences: Vec<String> = Vec::with_capacity(3);
        let mut k: usize = 0;
        while k < 3
            invariant
                k <= 3,
                c0 == chunk_of(payload(data_num as nat, checksum_bits as nat), 0),
                c1 == chunk_of(payload(data_num as nat, checksum_bits as nat), 1),
                c2 == chunk_of(payload(data_num as nat, checksum_bits as nat), 2),
                c0 < chunk_modulus(),
                c1 < chunk_modulus(),
                c2 < chunk_modulus(),
                expected.len() == 3,
                forall|i: int|
                    0 <= i < 3 ==> #[trigger] expected[i] == sentence_of(
                        self.tables(),
                        components(chunk_of(payload(data_num as nat, checksum_bits as nat), i)),
                    ),
                phrases_of(output_sentences@) =~= expected.subrange(3 - k, 3),
            decreases 3 - k,
        {
            let chunk_value = if k == 0 {
                c2
            } else if k == 1 {
                c1
            } else {
                c0
            };
            let sentence = match self.chunk_sentence(chunk_value) {
                Ok(s) => s,
                Err(e) => {
                    return Err(e);
                },
            };
            let ghost before = output_sentences@;
            output_sentences.insert(0, sentence);
            assert(phrases_of(output_sentences@) =~= seq![sentence@] + phrases_of(before));
            assert(expected[2 - k as int] == sentence@);
            assert(expected.subrange(3 - (k + 1), 3) =~= seq![expected[2 - k as int]]
                + expected.subrange(3 - k, 3));
            k = k + 1;
        }
        Ok(output_sentences)
    }

    /// Parses a sentence into its five component indices: the one index
    /// tuple whose phrases, joined by single spaces, are the sentence. Fails
    /// with `ParsingError` when no tuple or more than one gives it.
    fn parse_sentence(&self, sentence: &str) -> (r: Result<
        (usize, usize, usize, usize, usize),
        Memo128Error,
    >)
        ensures
            match r {
                Ok(t) => is_sole_parse(
                    self.tables(),
                    sentence@,
                    seq![t.0 as int, t.1 as int, t.2 as int, t.3 as int, t.4 as int],
                ),
                Err(e) => e is ParsingError && sole_parse(self.tables(), sentence@) is None,
            },
    {
        crate::parse::parse_sentence(
            &self.character_dict,
            &self.setting_dict,
            &self.action_dict,
            &self.object_dict,
            &self.outcome_dict,
            sentence,
        )
    }

    /// Decodes three sentences back to the 128-bit value, as 32 lowercase
    /// hexadecimal digits.
    ///
    /// Each sentence is trimmed and parsed into its five phrases; the indices
    /// rebuild the 135-bit payload, whose last 7 bits must be the checksum of
    /// the first 128. Fails with `ParsingError` when there are not exactly
    /// three sentences or one of them has no parse or more than one, and with
    /// `ChecksumError` when the checksum does not match.
    pub fn decode(&self, input_sentences: &[String]) -> (r: Result<String, Memo128Error>)
        ensures
            valid_tables(self.tables()),
            match r {
                Ok(hex) => {
                    &&& parses_all(self.tables(), phrases_of(input_sentences@))
                    &&& checksum_matches(self.tables(), phrases_of(input_sentences@))
                    &&& hex@ == hex_encoding(
                        decoded_bytes(self.tables(), phrases_of(input_sentences@)),
                    )
                },
                Err(e) => {
                    ||| (!parses_all(self.tables(), phrases_of(input_sentences@))
                        && e is ParsingError)
                    ||| (parses_all(self.tables(), phrases_of(input_sentences@)) && !checksum_matches(
                        self.tables(),
                        phrases_of(input_sentences@),
                    ) && e is ChecksumError)
                },
            },
    {
        proof {
            use_type_invariant(self);
        }
        let ghost tables = self.tables();
        let ghost sents = phrases_of(input_sentences@);
        if input_sentences.len() != 3 {
            let mut m = String::from_str("Expected exactly 3 sentences, got ");
            m.append(input_sentences.len().to_string().as_str());
            return Err(Memo128Error::ParsingError(m));
        }
        let mut chunks: Vec<u64> = Vec::with_capacity(3);
        let mut i: usize = 0;
        while i < 3
            invariant
                input_sentences@.len() == 3,
                sents == phrases_of(input_sentences@),
                tables == self.tables(),
                valid_tables(tables),
                i <= 3,
                chunks@.len() == i,
                forall|j: int|
                    0 <= j < i ==> (#[trigger] sole_parse(tables, trim(sents[j]))) is Some,
                forall|j: int|
                    0 <= j < i ==> #[trigger] chunks@[j] == decoded_chunk(tables, sents, j)
                        && chunks@[j] < chunk_modulus(),
            decreases 3 - i,
        {
            let chars = chars_of(input_sentences[i].as_str());
            let trimmed_chars = trim_chars(&chars);
            let trimmed = string_from_chars(&trimmed_chars);
            assert(trimmed@ == trim(sents[i as int]));
            match self.parse_sentence(trimmed.as_str()) {
                Ok(t) => {
                    let ghost ts = seq![t.0 as int, t.1 as int, t.2 as int, t.3 as int, t.4 as int];
                    proof {
                        lemma_sole_parse_is(tables, trimmed@, ts);
                        assert(indices_in_bounds(ts)) by {
                            assert forall|k: int| 0 <= k < 5 implies 0 <= #[trigger] ts[k]
                                < dictionary_sizes()[k] by {
                                assert(valid_table(tables[k], dictionary_sizes()[k]));
                            }
                        }
                    }
                    let chunk = chunk_from_components(t);
                    chunks.push(chunk);
                },
                Err(e) => {
                    return Err(e);
                },
            }
            i = i + 1;
        }
        let (data_num_decoded, checksum_bits_decoded) = join_payload(chunks[0], chunks[1], chunks[2]);
        let padded_bytes = u128_to_be_bytes(data_num_decoded);
        let checksum_bits_calculated = calculate_checksum(&padded_bytes);
        if checksum_bits_decoded != checksum_bits_calculated {
            return Err(Memo128Error::ChecksumError);
        }
        Ok(Self::bytes_to_hex(&padded_bytes))
    }
}

/// Whether the phrases of `d` form a valid table of `size` entries.
fn table_is_valid(d: &Dictionary, size: usize) -> (r: bool)
    ensures
        r == valid_table(d.phrases(), size as int),
{
    let n = d.entries.len();
    if n != size {
        return false;
    }
    let ghost p = d.phrases();
    let mut i: usize = 0;
    while i < n
        invariant
            n == d.entries@.len(),
            p == d.phrases(),
            n == size,
            i <= n,
            forall|a: int| 0 <= a < i ==> #[trigger] p[a].len() > 0 && is_trimmed(p[a]),
            forall|a: int, b: int| 0 <= a < b < i ==> #[trigger] p[a] != #[trigger] p[b],
        decreases n - i,
    {
        let chars = chars_of(d.entries[i].as_str());
        assert(chars@ == p[i as int]);
        let len = chars.len();
        if len == 0 {
            return false;
        }
        if is_white_space_char_at(&chars, 0) || is_white_space_char_at(&chars, len - 1) {
            return false;
        }
        let mut j: usize = 0;
        while j < i
            invariant
                n == d.entries@.len(),
                p == d.phrases(),
                i < n,
                j <= i,
                forall|b: int| 0 <= b < j ==> p[b] != p[i as int],
            decreases i - j,
        {
            if d.entries[j] == d.entries[i] {
                assert(p[j as int] == p[i as int]);
                assert(!p.no_duplicates());
                return false;
            }
            j = j + 1;
        }
        i = i + 1;
    }
    proof {
        assert forall|a: int, b: int| 0 <= a < p.len() && 0 <= b < p.len() && a != b implies p[a]
            != p[b] by {
            if a < b {
            } else {
            }
        }
    }
    true
}

fn is_white_space_char_at(v: &Vec<char>, i: usize) -> (r: bool)
    requires
        i < v@.len(),
    ensures
        r == is_white_space(v@[i as int]),
{
    crate::text::is_white_space_char(v[i])
}

/// A joined sentence starts with the first character of its first phrase
/// and ends with the last character of its last phrase.
proof fn lemma_joined_ends(tables: Seq<Seq<Seq<char>>>, level: int, t: Seq<int>)
    requires
        0 <= level <= 4,
        tables.len() == 5,
        tail_in_bounds(tables, level, t),
        forall|k: int, i: int|
            0 <= k < 5 && 0 <= i < tables[k].len() ==> #[trigger] tables[k][i].len() > 0,
    ensures
        joined(tables, level, t).len() > 0,
        joined(tables, level, t)[0] == tables[level][t[0]][0],
        joined(tables, level, t).last() == tables[4][t.last()].last(),
    decreases 4 - level,
{
    assert(0 <= t[0] < tables[level].len());
    if level < 4 {
        let rest = t.drop_first();
        assert(tail_in_bounds(tables, level + 1, rest)) by {
            assert forall|k: int| 0 <= k < rest.len() implies 0 <= #[trigger] rest[k] < tables[level
                + 1 + k].len() by {
                assert(rest[k] == t[k + 1]);
            }
        }
        lemma_joined_ends(tables, level + 1, rest);
        assert(rest.last() == t.last());
        let e = tables[level][t[0]];
        let j = e + seq![' '] + joined(tables, level + 1, rest);
        assert(j[0] == e[0]);
        assert(j.last() == joined(tables, level + 1, rest).last());
    }
}

/// In valid tables, every sentence built from in-bounds indices has no
/// surrounding whitespace.
pub proof fn lemma_sentence_trimmed(tables: Seq<Seq<Seq<char>>>, t: Seq<int>)
    requires
        valid_tables(tables),
        tail_in_bounds(tables, 0, t),
    ensures
        is_trimmed(sentence_of(tables, t)),
{
    assert forall|k: int, i: int| 0 <= k < 5 && 0 <= i < tables[k].len() implies #[trigger] tables[k][i].len() > 0 by {
        assert(valid_table(tables[k], dictionary_sizes()[k]));
    }
    lemma_joined_ends(tables, 0, t);
    assert(valid_table(tables[0], dictionary_sizes()[0]));
    assert(valid_table(tables[4], dictionary_sizes()[4]));
    assert(is_trimmed(tables[0][t[0]]));
    assert(t.last() == t[4]);
    assert(is_trimmed(tables[4][t[4]]));
}

/// In valid tables, in-bounds indices are exactly the indices within the
/// dictionary sizes.
proof fn lemma_bounds_agree(tables: Seq<Seq<Seq<char>>>, t: Seq<int>)
    requires
        valid_tables(tables),
    ensures
        tail_in_bounds(tables, 0, t) <==> indices_in_bounds(t),
{
    assert forall|k: int| 0 <= k < 5 implies #[trigger] tables[k].len() == dictionary_sizes()[k] by {
        assert(valid_table(tables[k], dictionary_sizes()[k]));
    }
    if tail_in_bounds(tables, 0, t) {
        assert forall|k: int| 0 <= k < 5 implies 0 <= #[trigger] t[k] < dictionary_sizes()[k] by {
            assert(tables[0 + k].len() == dictionary_sizes()[k]);
        }
    }
    if indices_in_bounds(t) {
        assert forall|k: int| 0 <= k < t.len() implies 0 <= #[trigger] t[k] < tables[0 + k].len() by {
            assert(tables[k].len() == dictionary_sizes()[k]);
        }
    }
}

proof fn lemma_pow256_16()
    ensures
        crate::bits::pow256(16) == 0x1_0000_0000_0000_0000_0000_0000_0000_0000,
{
    reveal_with_fuel(crate::bits::pow256, 17);
}

/// The indices that encoding a valid hexadecimal input picks lie within the
/// dictionaries, and the payload their chunks join to carries the input's
/// bytes above its checksum.
pub proof fn lemma_encoded_indices(tables: Seq<Seq<Seq<char>>>, hex: Seq<char>)
    requires
        valid_tables(tables),
        valid_hex_input(hex),
    ensures
        forall|i: int| 0 <= i < 3 ==> tail_in_bounds(tables, 0, #[trigger] encoded_indices(hex, i)),
        ({
            let n = join_chunks(
                chunk_value(encoded_indices(hex, 0)) as nat,
                chunk_value(encoded_indices(hex, 1)) as nat,
                chunk_value(encoded_indices(hex, 2)) as nat,
            );
            &&& be_bytes(n / 128, 16) == hex_bytes(hex)
            &&& checksum_spec(hex_bytes(hex)) as nat == n % 128
        }),
{
    let b = hex_bytes(hex);
    let d = be_value(b);
    let cs = checksum_spec(b) as nat;
    let n = payload(d, cs);
    crate::bits::lemma_be_value_bound(b);
    lemma_pow256_16();
    assert(n < 0x80_0000_0000_0000_0000_0000_0000_0000_0000);
    crate::bits::lemma_join_of_chunks(n);
    assert forall|i: int| 0 <= i < 3 implies tail_in_bounds(tables, 0, #[trigger] encoded_indices(hex, i))
        && chunk_value(encoded_indices(hex, i)) == chunk_of(n, i) by {
        crate::bits::lemma_chunk_of_components(chunk_of(n, i));
        lemma_bounds_agree(tables, encoded_indices(hex, i));
    }
    assert(chunk_value(encoded_indices(hex, 0)) == chunk_of(n, 0));
    assert(chunk_value(encoded_indices(hex, 1)) == chunk_of(n, 1));
    assert(chunk_value(encoded_indices(hex, 2)) == chunk_of(n, 2));
    vstd::arithmetic::div_mod::lemma_fundamental_div_mod_converse(
        n as int,
        128,
        d as int,
        cs as int,
    );
    crate::bits::lemma_be_bytes_of_value(b);
}

/// Decoding the sentences that encode a value gives the value back: when
/// each of the three encoded sentences is spelled by no index tuple but its
/// own (as in dictionaries where no two tuples spell the same sentence),
/// the three sentences parse, their checksum matches, and they carry the
/// bytes written by the hexadecimal input (so a lowercase input comes back
/// unchanged).
pub proof fn lemma_decode_of_encode(tables: Seq<Seq<Seq<char>>>, hex: Seq<char>)
    requires
        valid_tables(tables),
        valid_hex_input(hex),
        forall|i: int| 0 <= i < 3 ==> uniquely_spelled(tables, #[trigger] encoded_indices(hex, i)),
    ensures
        parses_all(tables, encoded_sentences(tables, hex)),
        checksum_matches(tables, encoded_sentences(tables, hex)),
        decoded_bytes(tables, encoded_sentences(tables, hex)) == hex_bytes(hex),
        (forall|i: int| 0 <= i < 32 ==> #[trigger] crate::hex::is_lower_hex_digit(hex[i]))
            ==> hex_encoding(decoded_bytes(tables, encoded_sentences(tables, hex))) == hex,
{
    let b = hex_bytes(hex);
    let d = be_value(b);
    let cs = checksum_spec(b) as nat;
    let n = payload(d, cs);
    let sents = encoded_sentences(tables, hex);
    crate::bits::lemma_be_value_bound(b);
    lemma_pow256_16();
    assert(n < 0x80_0000_0000_0000_0000_0000_0000_0000_0000);
    crate::bits::lemma_join_of_chunks(n);
    assert forall|i: int| 0 <= i < 3 implies #[trigger] sole_parse(tables, trim(sents[i]))
        == Some(components(chunk_of(n, i))) by {
        let t = components(chunk_of(n, i));
        crate::bits::lemma_chunk_of_components(chunk_of(n, i));
        lemma_bounds_agree(tables, t);
        lemma_sentence_trimmed(tables, t);
        crate::text::lemma_trim_of_trimmed(sents[i]);
        assert(t == encoded_indices(hex, i));
        assert(uniquely_spelled(tables, t));
        assert forall|t2: Seq<int>|
            tail_in_bounds(tables, 0, t2) && #[trigger] joined(tables, 0, t2) == sents[i] implies t2
            == t by {
            assert(sentence_of(tables, t2) == sentence_of(tables, t));
        }
        lemma_sole_parse_is(tables, sents[i], t);
    }
    assert forall|i: int| 0 <= i < 3 implies #[trigger] decoded_chunk(tables, sents, i) == chunk_of(
        n,
        i,
    ) by {
        assert(sole_parse(tables, trim(sents[i])) == Some(components(chunk_of(n, i))));
        crate::bits::lemma_chunk_of_components(chunk_of(n, i));
    }
    assert(decoded_chunk(tables, sents, 0) == chunk_of(n, 0));
    assert(decoded_chunk(tables, sents, 1) == chunk_of(n, 1));
    assert(decoded_chunk(tables, sents, 2) == chunk_of(n, 2));
    assert(decoded_payload(tables, sents) == n);
    vstd::arithmetic::div_mod::lemma_fundamental_div_mod_converse(
        n as int,
        128,
        d as int,
        cs as int,
    );
    crate::bits::lemma_be_bytes_of_value(b);
    assert(decoded_bytes(tables, sents) == b);
    if forall|i: int| 0 <= i < 32 ==> #[trigger] crate::hex::is_lower_hex_digit(hex[i]) {
        crate::hex::lemma_encoding_of_hex_bytes(hex);
    }
}

/// Encoding the value that three sentences decode to gives back the
/// sentences, trimmed: decoding succeeds only on sentences that encoding
/// would produce.
pub proof fn lemma_encode_of_decode(tables: Seq<Seq<Seq<char>>>, s: Seq<Seq<char>>)
    requires
        valid_tables(tables),
        parses_all(tables, s),
        checksum_matches(tables, s),
    ensures
        valid_hex_input(hex_encoding(decoded_bytes(tables, s))),
        encoded_sentences(tables, hex_encoding(decoded_bytes(tables, s))) == s.map_values(
            |x: Seq<char>| trim(x),
        ),
{
    let n = decoded_payload(tables, s);
    let db = decoded_bytes(tables, s);
    assert forall|i: int| 0 <= i < 3 implies decoded_chunk(tables, s, i) < chunk_modulus()
        && #[trigger] components(decoded_chunk(tables, s, i)) == sole_parse(
        tables,
        trim(s[i]),
    )->0 by {
        let t = sole_parse(tables, trim(s[i]))->0;
        assert(is_sole_parse(tables, trim(s[i]), t));
        lemma_bounds_agree(tables, t);
        crate::bits::lemma_components_of_chunk(t);
    }
    let c0 = decoded_chunk(tables, s, 0);
    let c1 = decoded_chunk(tables, s, 1);
    let c2 = decoded_chunk(tables, s, 2);
    assert(components(c0) == sole_parse(tables, trim(s[0]))->0);
    assert(components(c1) == sole_parse(tables, trim(s[1]))->0);
    assert(components(c2) == sole_parse(tables, trim(s[2]))->0);
    crate::bits::lemma_chunks_of_join(c0, c1, c2);
    assert(n < 0x80_0000_0000_0000_0000_0000_0000_0000_0000);
    let d = n / 128;
    let cs = n % 128;
    lemma_pow256_16();
    crate::bits::lemma_be_value_of_bytes(d, 16);
    crate::hex::lemma_hex_bytes_of_encoding(db);
    let h = hex_encoding(db);
    assert(hex_bytes(h) == db);
    assert(be_value(db) == d);
    assert(payload(d, cs) == n);
    let e = encoded_sentences(tables, h);
    assert forall|i: int| 0 <= i < 3 implies #[trigger] e[i] == trim(s[i]) by {
        let t = sole_parse(tables, trim(s[i]))->0;
        assert(is_sole_parse(tables, trim(s[i]), t));
        if i == 0 {
            assert(chunk_of(n, 0) == c0);
        } else if i == 1 {
            assert(chunk_of(n, 1) == c1);
        } else {
            assert(chunk_of(n, 2) == c2);
        }
    }
    assert(e =~= s.map_values(|x: Seq<char>| trim(x)));
}

} // verus!
