use beth::chainspec::{BethChainSpecParser, SUPPORTED_CHAINS};
use beth::config::{enforcer_url, sidechain_id};
use beth::mainchain::{covered_range, main_hash, print_optional_hash, MainchainRange};
use beth::order::{bytes_equal, is_lex_le, sort_ascending};
use beth::text::{decimal_text, print_hash};
use beth::words::{
    add_slot, extend_bytes, half_word_to_usize, to_array, u32_be_bytes, u64_be_bytes, u64_word,
    word_to_u64, words_equal,
};

#[test]
fn numbers_are_encoded_most_significant_byte_first() {
    assert_eq!(u64_be_bytes(0x0102_0304_0506_0708), [1, 2, 3, 4, 5, 6, 7, 8]);
    assert_eq!(u64_be_bytes(u64::MAX), [0xFF; 8]);
    assert_eq!(u32_be_bytes(0x0102_0304), [1, 2, 3, 4]);
    let mut word = [0u8; 32];
    word[24..].copy_from_slice(&[1, 2, 3, 4, 5, 6, 7, 8]);
    assert_eq!(u64_word(0x0102_0304_0506_0708), word);
    assert_eq!(word_to_u64(&word), 0x0102_0304_0506_0708);
}

#[test]
fn slots_wrap_around_and_steps_add_up() {
    assert_eq!(add_slot([0xFF; 32], 1), [0; 32]);
    assert_eq!(add_slot([0xFF; 32], u64::MAX), u64_word(u64::MAX - 1));
    let slot = [0xF7; 32];
    assert_eq!(add_slot(add_slot(slot, 1000), 24), add_slot(slot, 1024));
}

#[test]
fn words_are_cut_down_to_what_fits() {
    let mut word = u64_word(u64::MAX);
    assert_eq!(word_to_u64(&word), u64::MAX);
    assert_eq!(half_word_to_usize(&word), (u64::MAX / 2) as usize);
    word[23] = 1;
    assert_eq!(word_to_u64(&word), u64::MAX);
    assert_eq!(half_word_to_usize(&word), usize::MAX);
    assert_eq!(half_word_to_usize(&[0xFF; 32]), usize::MAX);
    assert_eq!(half_word_to_usize(&u64_word(7)), 3);
}

#[test]
fn bytes_are_joined_and_compared() {
    let mut bytes = vec![1, 2];
    extend_bytes(&mut bytes, &[3]);
    assert_eq!(bytes, vec![1, 2, 3]);
    assert_eq!(to_array::<3>(&bytes), [1, 2, 3]);
    assert!(bytes_equal(&bytes, &vec![1, 2, 3]));
    assert!(!bytes_equal(&bytes, &vec![1, 2]));
    assert!(!bytes_equal(&bytes, &vec![1, 2, 4]));
    assert!(words_equal(&[7; 32], &[7; 32]));
    assert!(!words_equal(&[7; 32], &u64_word(7)));
}

#[test]
fn byte_strings_are_ordered_lexicographically() {
    let strings: Vec<Vec<u8>> = vec![vec![], vec![0], vec![0, 9], vec![1], vec![1, 0], vec![2]];
    for (i, a) in strings.iter().enumerate() {
        for (j, b) in strings.iter().enumerate() {
            assert_eq!(is_lex_le(a, b), i <= j);
        }
    }
}

#[test]
fn sorting_keeps_every_item() {
    assert_eq!(sort_ascending::<u64>(&[3, 1, 2, 3, 0]), vec![0, 1, 2, 3, 3]);
    assert_eq!(sort_ascending::<u64>(&[]), Vec::<u64>::new());
}

#[test]
fn numbers_and_hashes_are_printed() {
    assert_eq!(decimal_text(0), "0");
    assert_eq!(decimal_text(1234567890), "1234567890");
    assert_eq!(decimal_text(u64::MAX), "18446744073709551615");
    let mut hash = [0u8; 32];
    hash[0] = 0x1F;
    hash[31] = 0xA0;
    let text = format!("0x1f{}a0", "00".repeat(30));
    assert_eq!(print_hash(&hash), text);
    assert_eq!(print_optional_hash(&Some(hash)), format!("Some({text})"));
    assert_eq!(print_optional_hash(&None), "None");
}

#[test]
fn extra_data_of_other_lengths_names_no_block() {
    assert_eq!(main_hash(&vec![4; 32]), Some([4; 32]));
    assert_eq!(main_hash(&vec![4; 31]), None);
    assert_eq!(main_hash(&vec![4; 33]), None);
    assert_eq!(
        covered_range(&vec![4; 32], &vec![5; 32]),
        Some(MainchainRange { start: Some([4; 32]), end: [5; 32] })
    );
    assert_eq!(
        covered_range(&Vec::new(), &vec![5; 32]),
        Some(MainchainRange { start: None, end: [5; 32] })
    );
    assert_eq!(covered_range(&vec![4; 32], &Vec::new()), None);
}

#[test]
fn ranges_of_successive_blocks_are_adjacent() {
    let (a, b, c) = (vec![1; 32], vec![2; 32], vec![3; 32]);
    let parent = covered_range(&a, &b).unwrap();
    let child = covered_range(&b, &c).unwrap();
    assert_eq!(child.start, Some(parent.end));
}

#[test]
fn enforcer_defaults_to_the_local_one() {
    assert_eq!(enforcer_url(None), "http://127.0.0.1:8080");
    assert_eq!(enforcer_url(Some("http://other:1".to_string())), "http://other:1");
}

#[test]
fn sidechain_slot_defaults_to_ten() {
    assert_eq!(sidechain_id(None), Ok(10));
    assert_eq!(sidechain_id(Some("255".to_string())), Ok(255));
    assert_eq!(sidechain_id(Some("+007".to_string())), Ok(7));
    assert_eq!(sidechain_id(Some("4294967295".to_string())), Ok(u32::MAX));
    for bad in ["", "+", "-1", "4294967296", " 1", "1_0", "ten", "++1", "0x1"] {
        assert!(sidechain_id(Some(bad.to_string())).is_err());
    }
}

#[test]
fn beth_is_the_default_chain() {
    assert_eq!(SUPPORTED_CHAINS, ["beth"]);
    let parse = |s: &str| -> Result<String, String> {
        BethChainSpecParser::parse(
            s,
            || Ok("embedded".to_string()),
            |other| Err(format!("asked for {other}")),
        )
    };
    assert_eq!(parse("beth"), Ok("embedded".to_string()));
    assert_eq!(parse("mainnet"), Err("asked for mainnet".to_string()));
    assert_eq!(parse("Beth"), Err("asked for Beth".to_string()));
}
