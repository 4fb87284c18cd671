//! Texts, ranges and indexes.

use tonel_smalltalk_language_server::index::Index;
use tonel_smalltalk_language_server::position::{range_contains, Location, Position, Range};
use tonel_smalltalk_language_server::text::{
    is_capitalized, normalize_class_name, same_text, shorten, slice_text, text_precedes, trim_text,
};

fn range(start: (u32, u32), end: (u32, u32)) -> Range {
    Range {
        start: Position { line: start.0, character: start.1 },
        end: Position { line: end.0, character: end.1 },
    }
}

#[test]
fn names_lose_their_decoration() {
    assert_eq!(normalize_class_name("#ClassName"), "ClassName");
    assert_eq!(normalize_class_name("#'ClassName'"), "ClassName");
    assert_eq!(normalize_class_name("'ClassName'"), "ClassName");
    assert_eq!(normalize_class_name("ClassName"), "ClassName");
    assert_eq!(normalize_class_name("##''a'b#''"), "a'b#");
    assert_eq!(normalize_class_name("'#a'"), "#a");
    assert_eq!(normalize_class_name("#'"), "");
    assert_eq!(normalize_class_name(""), "");
    assert_eq!(normalize_class_name("#'Größe'"), "Größe");
}

#[test]
fn capitals_are_those_of_unicode() {
    assert!(is_capitalized("Foo"));
    assert!(is_capitalized("Éclair"));
    assert!(!is_capitalized("foo"));
    assert!(!is_capitalized("éclair"));
    assert!(!is_capitalized("1Foo"));
    assert!(!is_capitalized(""));
}

#[test]
fn white_space_is_that_of_unicode() {
    assert_eq!(trim_text(" \t\u{3000}a b\n\u{a0}"), "a b");
    assert_eq!(trim_text("\u{2003}"), "");
    assert_eq!(trim_text("a"), "a");
}

#[test]
fn texts_are_cut_by_characters() {
    assert_eq!(shorten("größer", 3), "grö");
    assert_eq!(shorten("gr", 3), "gr");
    assert_eq!(shorten("", 3), "");
    assert_eq!(shorten("abc", 0), "");
}

#[test]
fn slices_keep_to_the_boundaries_of_characters() {
    assert_eq!(slice_text("größe", 0, 2), Some("gr"));
    assert_eq!(slice_text("größe", 2, 4), Some("ö"));
    assert_eq!(slice_text("größe", 2, 3), None);
    assert_eq!(slice_text("größe", 3, 4), None);
    assert_eq!(slice_text("abc", 2, 1), None);
    assert_eq!(slice_text("abc", 0, 4), None);
    assert_eq!(slice_text("abc", 3, 3), Some(""));
}

#[test]
fn texts_are_ordered_as_strings_are() {
    let texts = ["", "A", "AB", "B", "a", "ab", "é", "\u{10000}", "\u{ffff}"];
    for a in texts {
        for b in texts {
            assert_eq!(text_precedes(a, b), a <= b, "{:?} {:?}", a, b);
            assert_eq!(same_text(a, b), a == b);
        }
    }
}

#[test]
fn ranges_hold_what_lies_within() {
    let outer = range((1, 4), (3, 2));
    assert!(range_contains(&outer, &outer));
    assert!(range_contains(&outer, &range((2, 0), (2, 90))));
    assert!(range_contains(&outer, &range((1, 4), (1, 5))));
    assert!(range_contains(&outer, &range((3, 0), (3, 2))));
    assert!(!range_contains(&outer, &range((1, 3), (2, 0))));
    assert!(!range_contains(&outer, &range((0, 9), (2, 0))));
    assert!(!range_contains(&outer, &range((2, 0), (3, 3))));
    assert!(!range_contains(&outer, &range((2, 0), (4, 0))));
    let inner = range((2, 0), (2, 5));
    let innermost = range((2, 1), (2, 5));
    assert!(range_contains(&inner, &innermost));
    assert!(range_contains(&outer, &innermost));
    assert!(!range_contains(&innermost, &inner));
}

#[test]
fn locations_are_copied_whole() {
    let location = Location { uri: "file:///a".to_string(), range: range((1, 2), (3, 4)) };
    assert_eq!(location.copied(), location);
}

#[test]
fn indexes_give_back_what_was_put_in() {
    let mut index: Index<u32> = Index::new();
    assert_eq!(index.len(), 0);
    assert_eq!(index.get("a"), None);
    index.insert("a".to_string(), 1);
    index.insert("b".to_string(), 2);
    index.insert("a".to_string(), 3);
    assert_eq!(index.len(), 2);
    assert_eq!(index.get("a"), Some(&3));
    assert_eq!(index.get("b"), Some(&2));
    assert_eq!(index.get("c"), None);
    assert_eq!(*index.value_at(0) + *index.value_at(1), 5);
}

#[test]
fn indexes_let_go_of_what_is_taken_out() {
    let mut index: Index<u32> = Index::new();
    for i in 0..100u32 {
        index.insert(i.to_string(), i);
    }
    assert_eq!(index.remove("nothing"), None);
    for i in (0..100u32).step_by(3) {
        assert_eq!(index.remove(&i.to_string()), Some(i));
        assert_eq!(index.remove(&i.to_string()), None);
    }
    assert_eq!(index.len(), 66);
    for i in 0..100u32 {
        let expected = if i % 3 == 0 { None } else { Some(&i) };
        assert_eq!(index.get(&i.to_string()).copied(), expected.copied());
    }
    let mut left: Vec<u32> = (0..66).map(|i| *index.value_at(i)).collect();
    left.sort();
    assert_eq!(left, (0..100u32).filter(|i| i % 3 != 0).collect::<Vec<u32>>());
}
