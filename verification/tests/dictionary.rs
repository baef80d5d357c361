use std::collections::HashMap;

use shared::dictionary::Dictionary;
use shared::triple::Triple;

/// A dictionary with exactly the given entries, entered in both maps.
fn dictionary_of(entries: &[(&str, u32)], next_id: u32) -> Dictionary {
    let mut dict = Dictionary::new();
    for (text, id) in entries {
        dict.string_to_id.push((text.to_string(), *id));
        dict.id_to_string.insert(*id, text.to_string());
    }
    dict.next_id = next_id;
    dict
}

#[test]
fn new_dictionary_is_empty() {
    let dict = Dictionary::new();
    assert!(dict.string_to_id.is_empty());
    assert!(dict.id_to_string.is_empty());
    assert_eq!(dict.next_id, 0);
    assert_eq!(dict.decode(0), None);
}

#[test]
fn default_is_the_empty_dictionary() {
    let dict = Dictionary::default();
    assert_eq!(dict.next_id, 0);
    assert_eq!(dict, Dictionary::new());
}

#[test]
fn encode_assigns_codes_from_zero() {
    let mut dict = Dictionary::new();
    assert_eq!(dict.encode("Rob"), 0);
    assert_eq!(dict.encode("follows"), 1);
    assert_eq!(dict.encode("MasterCourse"), 2);
    assert_eq!(dict.next_id, 3);
}

#[test]
fn distinct_texts_get_distinct_codes() {
    let mut dict = Dictionary::new();
    let texts = ["a", "b", "ab", "ba", "", " ", "A"];
    let mut codes = Vec::new();
    for text in texts {
        codes.push(dict.encode(text));
    }
    for i in 0..codes.len() {
        for j in 0..codes.len() {
            if i != j {
                assert_ne!(codes[i], codes[j]);
            }
        }
    }
}

#[test]
fn decode_returns_the_encoded_text() {
    let mut dict = Dictionary::new();
    for text in ["KULeuven", "http://example.org/s", "", "tab\there", "unknown"] {
        let id = dict.encode(text);
        assert_eq!(dict.decode(id), Some(text));
    }
}

#[test]
fn encoding_twice_returns_the_same_code() {
    let mut dict = Dictionary::new();
    dict.encode("first");
    let once = dict.encode("Rob");
    let counter = dict.next_id;
    let twice = dict.encode("Rob");
    assert_eq!(once, 1);
    assert_eq!(twice, 1);
    assert_eq!(dict.next_id, counter);
    assert_eq!(dict.next_id, 2);
    assert_eq!(dict.string_to_id.len(), 2);
    assert_eq!(dict.id_to_string.len(), 2);
}

#[test]
fn counter_counts_distinct_texts() {
    let mut dict = Dictionary::new();
    assert_eq!(dict.next_id, 0);
    let history = ["a", "b", "a", "c", "b", "a", "d", "d"];
    let expected = [1, 2, 2, 3, 3, 3, 4, 4];
    for (text, count) in history.iter().zip(expected) {
        dict.encode(text);
        assert_eq!(dict.next_id, count);
    }
}

#[test]
fn returned_codes_decode_and_no_others() {
    let mut dict = Dictionary::new();
    let a = dict.encode("a");
    let b = dict.encode("b");
    let c = dict.encode("c");
    assert_eq!(dict.decode(a), Some("a"));
    assert_eq!(dict.decode(b), Some("b"));
    assert_eq!(dict.decode(c), Some("c"));
    assert_eq!(dict.decode(3), None);
    assert_eq!(dict.decode(42), None);
    assert_eq!(dict.decode(u32::MAX), None);
}

#[test]
fn decode_of_unknown_code_is_none() {
    let mut dict = Dictionary::new();
    assert_eq!(dict.decode(0), None);
    dict.encode("only");
    assert_eq!(dict.decode(1), None);
}

#[test]
fn decode_triple_renders_known_terms() {
    let dict = dictionary_of(&[("Rob", 7), ("follows", 3), ("MasterCourse", 9)], 10);
    let line = dict.decode_triple(&Triple { subject: 7, predicate: 3, object: 9 });
    assert_eq!(line, "Rob follows MasterCourse .");
}

#[test]
fn decode_triple_substitutes_unknown() {
    let dict = dictionary_of(&[("Rob", 7), ("follows", 3), ("MasterCourse", 9)], 10);
    let line = dict.decode_triple(&Triple { subject: 7, predicate: 3, object: 42 });
    assert_eq!(line, "Rob follows unknown .");
}

#[test]
fn decode_triple_of_unknown_codes() {
    let dict = Dictionary::new();
    let line = dict.decode_triple(&Triple { subject: 0, predicate: 1, object: 2 });
    assert_eq!(line, "unknown unknown unknown .");
}

#[test]
fn decode_triple_after_encoding() {
    let mut dict = Dictionary::new();
    let s = dict.encode("Rob");
    let p = dict.encode("follows");
    let o = dict.encode("MasterCourse");
    let line = dict.decode_triple(&Triple { subject: s, predicate: p, object: o });
    assert_eq!(line, "Rob follows MasterCourse .");
    let same = dict.decode_triple(&Triple { subject: s, predicate: s, object: s });
    assert_eq!(same, "Rob Rob Rob .");
}

#[test]
fn decode_triple_keeps_empty_terms() {
    let mut dict = Dictionary::new();
    let empty = dict.encode("");
    let line = dict.decode_triple(&Triple { subject: empty, predicate: empty, object: empty });
    assert_eq!(line, "   .");
}

#[test]
fn merge_of_disjoint_dictionaries_is_their_union() {
    let other = dictionary_of(&[("a", 0)], 1);
    let mut dict = dictionary_of(&[("b", 1)], 2);
    dict.merge(&other);
    assert_eq!(dict.decode(0), Some("a"));
    assert_eq!(dict.decode(1), Some("b"));
    assert_eq!(dict.next_id, 2);
    assert_eq!(dict.encode("a"), 0);
    assert_eq!(dict.encode("b"), 1);
    assert_eq!(dict.next_id, 2);
    assert_eq!(dict.id_to_string.len(), 2);
}

#[test]
fn merge_keeps_own_text_for_a_shared_code() {
    let other = dictionary_of(&[("x", 0)], 1);
    let mut dict = dictionary_of(&[("y", 0)], 1);
    dict.merge(&other);
    assert_eq!(dict.decode(0), Some("y"));
    assert_eq!(dict.next_id, 1);
}

#[test]
fn merge_keeps_own_code_for_a_shared_text() {
    let other = dictionary_of(&[("a", 5)], 6);
    let mut dict = dictionary_of(&[("a", 2)], 3);
    dict.merge(&other);
    assert_eq!(dict.encode("a"), 2);
    assert_eq!(dict.decode(2), Some("a"));
    assert_eq!(dict.decode(5), Some("a"));
    assert_eq!(dict.next_id, 6);
}

#[test]
fn merge_takes_the_larger_counter() {
    let mut small = dictionary_of(&[("a", 0)], 1);
    let large = dictionary_of(&[("a", 0), ("b", 1), ("c", 2)], 3);
    small.merge(&large);
    assert_eq!(small.next_id, 3);

    let mut large = dictionary_of(&[("a", 0), ("b", 1), ("c", 2)], 3);
    let small = dictionary_of(&[("a", 0)], 1);
    large.merge(&small);
    assert_eq!(large.next_id, 3);
}

#[test]
fn merge_with_empty_changes_nothing() {
    let mut dict = Dictionary::new();
    dict.encode("a");
    dict.encode("b");
    let before = dict.clone();
    dict.merge(&Dictionary::new());
    assert_eq!(dict, before);

    let mut empty = Dictionary::new();
    empty.merge(&before);
    assert_eq!(empty, before);
}

#[test]
fn merge_with_a_later_state_gives_the_later_state() {
    let mut snapshot = Dictionary::new();
    snapshot.encode("a");
    snapshot.encode("b");
    let mut later = snapshot.clone();
    later.encode("c");
    later.encode("a");
    later.encode("d");

    let mut forth = snapshot.clone();
    forth.merge(&later);
    assert_eq!(forth, later);

    let mut back = later.clone();
    back.merge(&snapshot);
    assert_eq!(back, later);
    assert_eq!(back.next_id, 4);
}

#[test]
fn merge_then_encode_continues_above_both() {
    let mut dict = dictionary_of(&[("a", 0)], 1);
    let other = dictionary_of(&[("b", 4)], 5);
    dict.merge(&other);
    assert_eq!(dict.encode("c"), 5);
    assert_eq!(dict.next_id, 6);
    assert_eq!(dict.decode(4), Some("b"));
    assert_eq!(dict.decode(5), Some("c"));
}

#[test]
fn first_entry_for_a_text_decides() {
    let mut dict = Dictionary::new();
    dict.string_to_id.push(("a".to_string(), 3));
    dict.string_to_id.push(("a".to_string(), 8));
    dict.next_id = 9;
    assert_eq!(dict.encode("a"), 3);
    assert_eq!(dict.string_to_id.len(), 2);
    assert_eq!(dict.next_id, 9);
}

#[test]
fn encode_reaches_the_last_code() {
    let mut dict = Dictionary::new();
    dict.next_id = u32::MAX - 1;
    assert_eq!(dict.encode("last"), u32::MAX - 1);
    assert_eq!(dict.next_id, u32::MAX);
    assert_eq!(dict.encode("last"), u32::MAX - 1);
    assert_eq!(dict.next_id, u32::MAX);
    assert_eq!(dict.decode(u32::MAX - 1), Some("last"));
}

#[test]
fn clone_is_equal_and_independent() {
    let mut dict = Dictionary::new();
    dict.encode("a");
    dict.encode("b");
    let mut copy = dict.clone();
    assert_eq!(copy, dict);
    assert_eq!(copy.string_to_id, dict.string_to_id);
    assert_eq!(copy.id_to_string, dict.id_to_string);
    copy.encode("c");
    assert_ne!(copy, dict);
    assert_eq!(dict.next_id, 2);
    assert_eq!(dict.decode(2), None);
}

#[test]
fn equality_ignores_the_order_of_entries() {
    let left = dictionary_of(&[("a", 0), ("b", 1)], 2);
    let right = dictionary_of(&[("b", 1), ("a", 0)], 2);
    assert_eq!(left, right);
}

#[test]
fn equality_sees_every_part() {
    let base = dictionary_of(&[("a", 0), ("b", 1)], 2);
    assert_ne!(base, dictionary_of(&[("a", 0), ("b", 1)], 3));
    assert_ne!(base, dictionary_of(&[("a", 0)], 2));
    assert_ne!(base, dictionary_of(&[("a", 0), ("b", 1), ("c", 2)], 2));
    assert_ne!(base, dictionary_of(&[("a", 1), ("b", 0)], 2));

    let mut other_text = dictionary_of(&[("a", 0), ("b", 1)], 2);
    other_text.id_to_string.insert(1, "c".to_string());
    assert_ne!(base, other_text);

    let mut other_code = dictionary_of(&[("a", 0)], 2);
    other_code.string_to_id.push(("b".to_string(), 7));
    other_code.id_to_string.insert(1, "b".to_string());
    assert_ne!(base, other_code);
}

#[test]
fn equality_goes_by_the_first_entry() {
    let plain = dictionary_of(&[("a", 0)], 1);
    let mut shadowed = dictionary_of(&[("a", 0)], 1);
    shadowed.string_to_id.push(("a".to_string(), 9));
    assert_eq!(plain, shadowed);
    assert_eq!(shadowed, plain);
}

#[test]
fn fields_are_plain_data() {
    let mut table = HashMap::new();
    table.insert(4, "d".to_string());
    let dict =
        Dictionary { string_to_id: vec![("d".to_string(), 4)], id_to_string: table, next_id: 5 };
    assert_eq!(dict.decode(4), Some("d"));
    assert_eq!(dict.decode(0), None);
}
