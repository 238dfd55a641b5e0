use indexing::bytes::{bytes_equal, lex_order, to_be_bytes, Order};
use indexing::document::{is_storable, write_fields};
use indexing::fields_ids_map::{fields_of, FieldsIdsMap};
use indexing::keys::lmdb_key_valid_size;
use indexing::proximity::{
    closest_proximity, compute_words_pair_proximities, positions_proximity,
};
use indexing::text::debug_bytes;
use indexing::tokenizer::{only_token, simple_tokenizer, TokenType};
use indexing::words_positions::{words_positions, WordsPositions, MAX_ATTRIBUTES, MAX_POSITION};

fn record(fields: &[&str]) -> Vec<String> {
    fields.iter().map(|field| field.to_string()).collect()
}

fn listed(words: &WordsPositions) -> Vec<(String, Vec<u32>)> {
    (0..words.len())
        .map(|i| {
            let entry = words.get(i);
            (String::from_utf8(entry.word.clone()).unwrap(), entry.positions.clone())
        })
        .collect()
}

fn pairs(fields: &[&str]) -> Vec<(String, String, u8)> {
    compute_words_pair_proximities(&words_positions(&record(fields)))
        .iter()
        .map(|pair| {
            let first = String::from_utf8(pair.first.clone()).unwrap();
            let second = String::from_utf8(pair.second.clone()).unwrap();
            (first, second, pair.proximity)
        })
        .collect()
}

#[test]
fn tokens_are_runs_of_one_type() {
    let tokens = simple_tokenizer("Hello, wor1d!");
    let expected = vec![
        (TokenType::Word, "Hello".to_string()),
        (TokenType::Separator, ", ".to_string()),
        (TokenType::Word, "wor1d".to_string()),
        (TokenType::Separator, "!".to_string()),
    ];
    assert_eq!(tokens, expected);
    let text: String = tokens.iter().map(|token| token.1.as_str()).collect();
    assert_eq!(text, "Hello, wor1d!");
    assert!(simple_tokenizer("").is_empty());
}

#[test]
fn only_words_are_kept() {
    assert_eq!(only_token((TokenType::Word, "foo")), Some("foo"));
    assert_eq!(only_token((TokenType::Separator, " ")), None);
}

#[test]
fn words_are_lowercase_and_in_order() {
    let words = words_positions(&record(&["The Zebra the", "", "zebra"]));
    let expected =
        vec![("the".to_string(), vec![0, 2]), ("zebra".to_string(), vec![1, 2000])];
    assert_eq!(listed(&words), expected);
}

#[test]
fn words_of_other_scripts_are_lowercase() {
    let words = words_positions(&record(&["\u{c9}T\u{c9}"]));
    assert_eq!(listed(&words), vec![("\u{e9}t\u{e9}".to_string(), vec![0])]);
}

#[test]
fn a_field_has_a_thousand_positions() {
    assert_eq!(MAX_POSITION, 1000);
    assert_eq!(MAX_ATTRIBUTES, 4_294_967);
    let long = "a ".repeat(1500);
    let words = words_positions(&record(&[&long, "b"]));
    let expected =
        vec![("a".to_string(), (0..1000).collect::<Vec<u32>>()), ("b".to_string(), vec![1000])];
    assert_eq!(listed(&words), expected);
}

#[test]
fn a_record_without_words_has_none() {
    assert_eq!(words_positions(&record(&["", " - "])).len(), 0);
    assert_eq!(words_positions(&Vec::new()).len(), 0);
}

#[test]
fn proximities_are_directed_and_bounded() {
    assert_eq!(positions_proximity(1, 3), 2);
    assert_eq!(positions_proximity(3, 1), 3);
    assert_eq!(positions_proximity(4, 4), 0);
    assert_eq!(positions_proximity(0, 8), 8);
    assert_eq!(positions_proximity(0, 100), 8);
    assert_eq!(positions_proximity(7, 0), 8);
    assert_eq!(positions_proximity(6, 0), 7);
    assert_eq!(positions_proximity(999, 1000), 8);
    assert_eq!(positions_proximity(u32::MAX, 4_294_967_000), 8);
}

#[test]
fn the_shortest_proximity_counts() {
    assert_eq!(closest_proximity(&vec![0, 10], &vec![5, 12]), Some(2));
    assert_eq!(closest_proximity(&vec![0], &vec![0]), None);
    assert_eq!(closest_proximity(&vec![0], &vec![8]), None);
    assert_eq!(closest_proximity(&vec![], &vec![8]), None);
}

#[test]
fn pairs_of_close_words() {
    let expected = vec![
        ("bar".to_string(), "foo".to_string(), 2),
        ("foo".to_string(), "bar".to_string(), 1),
    ];
    assert_eq!(pairs(&["foo bar"]), expected);
}

#[test]
fn a_word_is_close_to_itself_where_it_is_repeated() {
    assert_eq!(pairs(&["foo foo"]), vec![("foo".to_string(), "foo".to_string(), 1)]);
    assert_eq!(pairs(&["foo"]), Vec::new());
}

#[test]
fn words_of_two_fields_are_not_close() {
    assert_eq!(pairs(&["foo", "bar"]), Vec::new());
}

#[test]
fn words_too_far_apart_are_not_close() {
    let far = pairs(&["a b b b b b b b c"]);
    assert!(!far.contains(&("a".to_string(), "c".to_string(), 8)));
    assert!(far.iter().all(|pair| !(pair.0 == "a" && pair.1 == "c")));
    assert!(far.contains(&("a".to_string(), "b".to_string(), 1)));
    assert!(far.contains(&("b".to_string(), "a".to_string(), 2)));
}

#[test]
fn keys_of_lmdb() {
    assert!(!lmdb_key_valid_size(b""));
    assert!(lmdb_key_valid_size(b"a"));
    assert!(lmdb_key_valid_size(&[1; 511]));
    assert!(!lmdb_key_valid_size(&[1; 512]));
}

#[test]
fn byte_strings_compare_lexicographically() {
    assert_eq!(lex_order(b"ab", b"b"), Order::Less);
    assert_eq!(lex_order(b"ab", b"abc"), Order::Less);
    assert_eq!(lex_order(b"ab", b"ab"), Order::Equal);
    assert_eq!(lex_order(b"\xff", b"ab"), Order::Greater);
    assert!(bytes_equal(b"ab", b"ab"));
    assert!(!bytes_equal(b"ab", b"abc"));
    assert_eq!(to_be_bytes(0x0102_0304), vec![1, 2, 3, 4]);
    assert_eq!(lex_order(&to_be_bytes(255), &to_be_bytes(256)), Order::Less);
}

#[test]
fn fields_are_numbered_in_order() {
    let mut map = FieldsIdsMap::new();
    assert_eq!(map.insert("id"), Some(0));
    assert_eq!(map.insert("title"), Some(1));
    assert_eq!(map.insert("id"), Some(0));
    assert_eq!(map.to_json(), b"[\"id\",\"title\"]".to_vec());
}

#[test]
fn fields_have_as_many_ids_as_a_byte() {
    let many: Vec<String> = (0..257).map(|i| format!("f{}", i)).collect();
    assert!(fields_of(&many).is_none());
    let mut map = fields_of(&many[..256].to_vec()).unwrap();
    assert_eq!(map.insert("f255"), Some(255));
    assert_eq!(map.insert("one more"), None);
    let doubled: Vec<String> = many[..256].iter().chain(&many[..256]).cloned().collect();
    assert!(fields_of(&doubled).is_some());
}

#[test]
fn documents_hold_their_fields() {
    let bytes = write_fields(&record(&["ab", "", "c"]));
    assert_eq!(bytes, vec![0, 2, b'a', b'b', 1, 0, 2, 1, b'c']);
    let read: Vec<(u8, Vec<u8>)> =
        obkv::KvReader::new(&bytes).iter().map(|(key, value)| (key, value.to_vec())).collect();
    assert_eq!(read, vec![(0, b"ab".to_vec()), (1, Vec::new()), (2, b"c".to_vec())]);
}

#[test]
fn documents_hold_long_fields() {
    let long = "x".repeat(300);
    let bytes = write_fields(&record(&[&long]));
    assert_eq!(bytes[..3].to_vec(), vec![0, 0xac, 0x02]);
    assert_eq!(bytes.len(), 303);
    assert_eq!(obkv::KvReader::new(&bytes).get(0), Some(long.as_bytes()));
    let longer = "x".repeat(20_000);
    let bytes = write_fields(&record(&["a", &longer]));
    assert_eq!(obkv::KvReader::new(&bytes).get(1), Some(longer.as_bytes()));
}

#[test]
fn different_records_are_stored_differently() {
    assert_ne!(write_fields(&record(&["ab", "c"])), write_fields(&record(&["a", "bc"])));
    assert_ne!(write_fields(&record(&["a"])), write_fields(&record(&["a", ""])));
}

#[test]
fn records_of_too_many_fields_are_not_stored() {
    let most: Vec<String> = (0..256).map(|i| format!("{}", i)).collect();
    assert!(is_storable(&most));
    assert_eq!(obkv::KvReader::new(&write_fields(&most)).get(255), Some(&b"255"[..]));
    let more: Vec<String> = (0..257).map(|i| format!("{}", i)).collect();
    assert!(!is_storable(&more));
    assert!(is_storable(&Vec::new()));
}

#[test]
fn bytes_are_shown_in_decimal() {
    let all: Vec<u8> = (0..=255).collect();
    for bytes in [&[][..], &[0][..], &[7, 42, 255][..], &all[..]] {
        assert_eq!(debug_bytes(bytes), format!("{:?}", bytes));
    }
    assert_eq!(debug_bytes(&[9, 10, 100]), "[9, 10, 100]");
}
