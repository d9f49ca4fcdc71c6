use memo128::checksum::calculate_checksum;
use memo128::parse::parse_sentence;
use memo128::{Dictionary, Memo128, Memo128Error};

/// The lines of a dictionary file of `size` entries "test entry {i}".
fn test_lines(size: usize) -> Vec<String> {
    (0..size).map(|i| format!("test entry {}", i)).collect()
}

fn test_dictionary(size: usize) -> Dictionary {
    Dictionary::from_lines(&test_lines(size), size).unwrap()
}

fn test_memo128() -> Memo128 {
    Memo128::new(
        test_dictionary(1024),
        test_dictionary(1024),
        test_dictionary(256),
        test_dictionary(512),
        test_dictionary(256),
    )
    .unwrap()
}

#[test]
fn test_checksum_calculation() {
    // Test vector
    let data = [0, 1, 2, 3, 4, 5, 6, 7, 8, 9, 10, 11, 12, 13, 14, 15];
    let checksum = calculate_checksum(&data);

    // The checksum is a 7-bit value
    assert!(checksum <= 127);
}

#[test]
fn test_checksum_known_values() {
    // SHA-256 of the bytes 0..16 starts with 0xbe; of 16 zero bytes, with 0x37.
    let data: Vec<u8> = (0..16).collect();
    assert_eq!(calculate_checksum(&data), 0xbe >> 1);
    assert_eq!(calculate_checksum(&[0u8; 16]), 0x37 >> 1);
}

#[test]
fn test_hex_conversion() {
    let hex = "000102030405060708090a0b0c0d0e0f";
    let bytes = Memo128::hex_to_bytes(hex).unwrap();
    assert_eq!(
        bytes,
        [0, 1, 2, 3, 4, 5, 6, 7, 8, 9, 10, 11, 12, 13, 14, 15]
    );

    let hex_roundtrip = Memo128::bytes_to_hex(&bytes);
    assert_eq!(hex, hex_roundtrip);
}

#[test]
fn test_hex_uppercase_input() {
    let bytes = Memo128::hex_to_bytes("FFFEFDFCFBFAF9F8F7F6F5F4F3F2F1F0").unwrap();
    assert_eq!(bytes[0], 0xff);
    assert_eq!(bytes[15], 0xf0);
    assert_eq!(Memo128::bytes_to_hex(&bytes), "fffefdfcfbfaf9f8f7f6f5f4f3f2f1f0");
}

#[test]
fn test_hex_errors() {
    assert!(matches!(
        Memo128::hex_to_bytes("0011"),
        Err(Memo128Error::InvalidHexInput(_))
    ));
    assert!(matches!(
        Memo128::hex_to_bytes("000102030405060708090a0b0c0d0e0g"),
        Err(Memo128Error::InvalidHexInput(_))
    ));
    assert!(matches!(
        Memo128::hex_to_bytes("+00102030405060708090a0b0c0d0e0f"),
        Err(Memo128Error::InvalidHexInput(_))
    ));
    assert!(matches!(
        Memo128::hex_to_bytes("000102030405060708090a0b0c0d0e0f00"),
        Err(Memo128Error::InvalidHexInput(_))
    ));
}

#[test]
fn test_bytes_to_hex_values() {
    assert_eq!(Memo128::bytes_to_hex(&[]), "");
    assert_eq!(Memo128::bytes_to_hex(&[0x00, 0x0a, 0xab, 0xff]), "000aabff");
}

#[test]
fn test_roundtrip_encoding_decoding() {
    let memo128 = test_memo128();

    // Test vector
    let hex_input = "000102030405060708090a0b0c0d0e0f";

    // Encode
    let sentences = memo128.encode(hex_input).unwrap();
    assert_eq!(sentences.len(), 3);

    // Decode
    let hex_output = memo128.decode(&sentences).unwrap();
    assert_eq!(hex_input, hex_output);
}

#[test]
fn test_encoding_exact_sentences() {
    let memo128 = test_memo128();
    let sentences = memo128.encode("000102030405060708090a0b0c0d0e0f").unwrap();
    assert_eq!(
        sentences,
        vec![
            "test entry 0 test entry 16 test entry 32 test entry 96 test entry 128".to_string(),
            "test entry 643 test entry 14 test entry 16 test entry 36 test entry 40".to_string(),
            "test entry 176 test entry 771 test entry 67 test entry 263 test entry 223".to_string(),
        ]
    );
}

#[test]
fn test_roundtrip_more_values() {
    let memo128 = test_memo128();
    for hex in [
        "00000000000000000000000000000000",
        "ffffffffffffffffffffffffffffffff",
        "0123456789abcdef0123456789abcdef",
        "80000000000000000000000000000001",
    ] {
        let sentences = memo128.encode(hex).unwrap();
        assert_eq!(memo128.decode(&sentences).unwrap(), hex);
    }
    // Uppercase input comes back in lowercase.
    let sentences = memo128.encode("0123456789ABCDEF0123456789ABCDEF").unwrap();
    assert_eq!(memo128.decode(&sentences).unwrap(), "0123456789abcdef0123456789abcdef");
}

#[test]
fn test_decode_trims_sentences() {
    let memo128 = test_memo128();
    let hex = "0123456789abcdef0123456789abcdef";
    let sentences: Vec<String> = memo128
        .encode(hex)
        .unwrap()
        .into_iter()
        .map(|s| format!("  {}\t\n", s))
        .collect();
    assert_eq!(memo128.decode(&sentences).unwrap(), hex);
}

#[test]
fn test_decode_errors() {
    let memo128 = test_memo128();
    let sentences = memo128.encode("000102030405060708090a0b0c0d0e0f").unwrap();

    // Wrong number of sentences
    assert!(matches!(
        memo128.decode(&sentences[..2]),
        Err(Memo128Error::ParsingError(_))
    ));

    // A sentence that does not parse
    let mut broken = sentences.clone();
    broken[1] = "test entry 1 something else".to_string();
    assert!(matches!(memo128.decode(&broken), Err(Memo128Error::ParsingError(_))));

    // A sentence that parses but breaks the checksum
    let mut tampered = sentences.clone();
    tampered[2] = "test entry 176 test entry 771 test entry 67 test entry 263 test entry 222"
        .to_string();
    assert!(matches!(memo128.decode(&tampered), Err(Memo128Error::ChecksumError)));
}

#[test]
fn test_encode_error() {
    let memo128 = test_memo128();
    assert!(matches!(
        memo128.encode("xyz"),
        Err(Memo128Error::InvalidHexInput(_))
    ));
}

#[test]
fn test_dictionary_from_lines() {
    let lines: Vec<String> = vec![
        "  alpha ".to_string(),
        "".to_string(),
        "beta".to_string(),
        "   ".to_string(),
        "gamma delta".to_string(),
    ];
    let dict = Dictionary::from_lines(&lines, 3).unwrap();
    assert_eq!(dict.entries, vec!["alpha", "beta", "gamma delta"]);
    assert_eq!(dict.get(2), Some(&"gamma delta".to_string()));
    assert_eq!(dict.get(3), None);
    // The reverse lookup maps each entry to its index, blank lines aside.
    assert_eq!(dict.reverse_lookup.len(), 3);
    assert_eq!(dict.reverse_lookup.get("alpha"), Some(&0));
    assert_eq!(dict.reverse_lookup.get("beta"), Some(&1));
    assert_eq!(dict.reverse_lookup.get("gamma delta"), Some(&2));

    assert!(matches!(
        Dictionary::from_lines(&lines, 4),
        Err(Memo128Error::InvalidDictionary(_))
    ));
    assert!(matches!(
        Dictionary::from_lines(&lines, 2),
        Err(Memo128Error::InvalidDictionary(_))
    ));
    let dup: Vec<String> = vec!["a".to_string(), " a".to_string()];
    assert!(matches!(
        Dictionary::from_lines(&dup, 2),
        Err(Memo128Error::InvalidDictionary(_))
    ));
}

#[test]
fn test_dictionary_error_messages() {
    let lines: Vec<String> = (0..12).map(|i| format!("w{}", i)).collect();
    match Dictionary::from_lines(&lines, 10) {
        Err(Memo128Error::InvalidDictionary(m)) => {
            assert_eq!(m, "Dictionary contains more than 10 entries")
        }
        other => panic!("unexpected result: {:?}", other.map(|d| d.entries)),
    }
    match Dictionary::from_lines(&lines, 130) {
        Err(Memo128Error::InvalidDictionary(m)) => {
            assert_eq!(m, "Dictionary should contain exactly 130 entries, found 12")
        }
        other => panic!("unexpected result: {:?}", other.map(|d| d.entries)),
    }
    let dup: Vec<String> = vec!["one two".to_string(), "x".to_string(), "  one two ".to_string()];
    match Dictionary::from_lines(&dup, 3) {
        Err(Memo128Error::InvalidDictionary(m)) => assert_eq!(m, "Duplicate entry found: one two"),
        other => panic!("unexpected result: {:?}", other.map(|d| d.entries)),
    }
}

#[test]
fn test_dictionary_new_and_get() {
    let dict = Dictionary::new(8);
    assert!(dict.entries.is_empty());
    assert!(dict.reverse_lookup.is_empty());
    assert_eq!(dict.get(0), None);
}

#[test]
fn test_memo128_new_rejects_wrong_sizes() {
    let result = Memo128::new(
        test_dictionary(1024),
        test_dictionary(1024),
        test_dictionary(256),
        test_dictionary(512),
        test_dictionary(255),
    );
    assert!(matches!(result, Err(Memo128Error::InvalidDictionary(_))));
}

#[test]
fn test_getters() {
    let memo128 = test_memo128();
    assert_eq!(memo128.get_character_dict().entries.len(), 1024);
    assert_eq!(memo128.get_setting_dict().entries.len(), 1024);
    assert_eq!(memo128.get_action_dict().entries.len(), 256);
    assert_eq!(memo128.get_object_dict().entries.len(), 512);
    assert_eq!(memo128.get_outcome_dict().entries.len(), 256);
    assert_eq!(memo128.get_object_dict().get(7), Some(&"test entry 7".to_string()));
}

#[test]
fn test_sentence_parsing() {
    // Create mock dictionaries with a few entries
    let mut c_dict = Dictionary::new(10);
    let mut s_dict = Dictionary::new(15);
    let mut a_dict = Dictionary::new(20);
    let mut o_dict = Dictionary::new(25);
    let mut k_dict = Dictionary::new(30);

    // Add some test entries
    for i in 0..10 {
        c_dict.entries.push(format!("character_{}", i));
        c_dict.reverse_lookup.insert(format!("character_{}", i), i);
    }

    for i in 0..15 {
        s_dict.entries.push(format!("setting_{}", i));
        s_dict.reverse_lookup.insert(format!("setting_{}", i), i);
    }

    for i in 0..20 {
        a_dict.entries.push(format!("action_{}", i));
        a_dict.reverse_lookup.insert(format!("action_{}", i), i);
    }

    for i in 0..25 {
        o_dict.entries.push(format!("object_{}", i));
        o_dict.reverse_lookup.insert(format!("object_{}", i), i);
    }

    for i in 0..30 {
        k_dict.entries.push(format!("outcome_{}", i));
        k_dict.reverse_lookup.insert(format!("outcome_{}", i), i);
    }

    // Create a test sentence from known indices
    let c_idx = 5;
    let s_idx = 10;
    let a_idx = 15;
    let o_idx = 20;
    let k_idx = 25;

    let c_phrase = &c_dict.entries[c_idx];
    let s_phrase = &s_dict.entries[s_idx];
    let a_phrase = &a_dict.entries[a_idx];
    let o_phrase = &o_dict.entries[o_idx];
    let k_phrase = &k_dict.entries[k_idx];

    let sentence = format!(
        "{} {} {} {} {}",
        c_phrase, s_phrase, a_phrase, o_phrase, k_phrase
    );

    // Parse the sentence
    let (parsed_c, parsed_s, parsed_a, parsed_o, parsed_k) =
        parse_sentence(&c_dict, &s_dict, &a_dict, &o_dict, &k_dict, &sentence).unwrap();

    // Verify the parsed indices
    assert_eq!(parsed_c, c_idx);
    assert_eq!(parsed_s, s_idx);
    assert_eq!(parsed_a, a_idx);
    assert_eq!(parsed_o, o_idx);
    assert_eq!(parsed_k, k_idx);

    // A sentence that cannot be split into the five phrases
    assert!(matches!(
        parse_sentence(&c_dict, &s_dict, &a_dict, &o_dict, &k_dict, "character_1 setting_2"),
        Err(Memo128Error::ParsingError(_))
    ));
}

#[test]
fn test_sentence_parsing_rejects_ambiguous() {
    // "a b c d e f" reads as ("a b", "c", ...) and as ("a", "b c", ...): no
    // unique parse, so a parsing error.
    let mk = |v: &[&str]| Dictionary::from_lines(&v.iter().map(|s| s.to_string()).collect::<Vec<_>>(), v.len()).unwrap();
    let c = mk(&["a b", "a"]);
    let s = mk(&["b c", "c"]);
    let a = mk(&["d"]);
    let o = mk(&["e"]);
    let k = mk(&["f"]);
    assert!(matches!(
        parse_sentence(&c, &s, &a, &o, &k, "a b c d e f"),
        Err(Memo128Error::ParsingError(_))
    ));
    // With "c" gone from the settings only one reading is left.
    let s2 = mk(&["b c", "x"]);
    assert_eq!(parse_sentence(&c, &s2, &a, &o, &k, "a b c d e f").unwrap(), (1, 0, 0, 0, 0));
}
