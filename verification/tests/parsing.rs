//! Sources that tree-sitter parses, here with the grammars of Python and Scala.

use tonel_smalltalk_language_server::grammar::{Capture, Grammar};
use tonel_smalltalk_language_server::hover::HoverInfo;
use tonel_smalltalk_language_server::position::{Location, Position, Range};
use tonel_smalltalk_language_server::session::Session;
use tonel_smalltalk_language_server::src_tree::{ClassAtPos, SrcTree};
use tonel_smalltalk_language_server::syntax::{Point, SyntaxNode};
use tonel_smalltalk_language_server::workspace::Workspace;

const PYTHON: &str = "class Foo(Bar):\n    def größe(self):\n        return Foo + bar\n\nBaz = Foo\n";

const BROKEN: &str = "class Foo(:\n    x = = 1\n\ndef f(:\n  return (a b\n";

fn python() -> Grammar {
    Grammar::new(tree_sitter_python::LANGUAGE.into()).expect("a language that loads")
}

fn scala() -> Grammar {
    Grammar::new(tree_sitter_scala::LANGUAGE.into()).expect("a language that loads")
}

fn parsed(language: tree_sitter::Language, src: &str) -> tree_sitter::Tree {
    let mut parser = tree_sitter::Parser::new();
    parser.set_language(&language).unwrap();
    parser.parse(src, None).unwrap()
}

fn range(start: (u32, u32), end: (u32, u32)) -> Range {
    Range {
        start: Position { line: start.0, character: start.1 },
        end: Position { line: end.0, character: end.1 },
    }
}

fn node(kind: &str, depth: usize, start: usize, end: usize) -> SyntaxNode {
    SyntaxNode {
        kind: kind.to_string(),
        field: None,
        depth,
        named: true,
        missing: false,
        error: false,
        has_error: false,
        start_byte: start,
        end_byte: end,
        start: Point { row: 0, column: start },
        end: Point { row: 0, column: end },
    }
}

/// The definition of a class, as a file of its parts.
fn defining_foo() -> SrcTree {
    let src = "Class { #name: #Foo }";
    let nodes = vec![
        node("source_file", 0, 0, 21),
        node("class_definition", 1, 0, 21),
        node("ston_map", 2, 6, 21),
        node("ston_pair", 3, 8, 19),
        node("ston_key", 4, 8, 13),
        node("ston_symbol", 5, 8, 13),
        node("ston_value", 4, 15, 19),
        node("ston_symbol", 5, 15, 19),
    ];
    let capture = Capture { kind: "ston_symbol".to_string(), start_byte: 15, end_byte: 19 };
    SrcTree::from_parts(src.to_string(), nodes, Some(capture)).unwrap()
}

#[test]
fn trees_are_those_of_a_walk() {
    for src in [PYTHON, BROKEN, ""] {
        let tree = python().parse(src).syntax_tree();
        let expected = parsed(tree_sitter_python::LANGUAGE.into(), src);
        let mut cursor = expected.walk();
        let mut i = 0;
        'walk: loop {
            let node = cursor.node();
            assert_eq!(
                tree.node(i),
                &SyntaxNode {
                    kind: node.kind().to_string(),
                    field: cursor.field_name().map(|f| f.to_string()),
                    depth: cursor.depth() as usize,
                    named: node.is_named(),
                    missing: node.is_missing(),
                    error: node.is_error(),
                    has_error: node.has_error(),
                    start_byte: node.start_byte(),
                    end_byte: node.end_byte(),
                    start: Point {
                        row: node.start_position().row,
                        column: node.start_position().column,
                    },
                    end: Point {
                        row: node.end_position().row,
                        column: node.end_position().column,
                    },
                }
            );
            i += 1;
            if cursor.goto_first_child() {
                continue;
            }
            while !cursor.goto_next_sibling() {
                if !cursor.goto_parent() {
                    break 'walk;
                }
            }
        }
        assert_eq!(tree.len(), i);
    }
}

#[test]
fn trees_are_climbed_as_in_tree_sitter() {
    let tree = python().parse(PYTHON).syntax_tree();
    let expected = parsed(tree_sitter_python::LANGUAGE.into(), PYTHON);
    let mut cursor = expected.walk();
    for i in 0..tree.len() {
        cursor.goto_descendant(i);
        let node = cursor.node();
        let kinds = |list: Vec<usize>| -> Vec<String> {
            list.into_iter().map(|j| tree.node(j).kind.clone()).collect()
        };
        let children: Vec<String> = (0..node.child_count())
            .map(|k| node.child(k as u32).unwrap().kind().to_string())
            .collect();
        assert_eq!(kinds(tree.children(i)), children);
        let named: Vec<String> = (0..node.named_child_count())
            .map(|k| node.named_child(k as u32).unwrap().kind().to_string())
            .collect();
        assert_eq!(kinds(tree.named_children(i)), named);
        assert_eq!(
            tree.first_named(i).map(|j| tree.node(j).start_byte),
            node.named_child(0).map(|n| n.start_byte())
        );
        assert_eq!(
            tree.parent(i).map(|p| tree.node(p).kind.clone()),
            node.parent().map(|p| p.kind().to_string())
        );
        assert_eq!(tree.end_of(i), i + node.descendant_count());
        assert_eq!(tree.holds_field(i, "name"), node.child_by_field_name("name").is_some());
        assert_eq!(
            tree.named_of_kind(i, "identifier").map(|j| tree.node(j).start_byte),
            (0..node.named_child_count())
                .filter_map(|k| node.named_child(k as u32))
                .find(|n| n.kind() == "identifier")
                .map(|n| n.start_byte())
        );
    }
    let last = tree.len() - 1;
    let module = tree.enclosing_of_kind(last, "module");
    assert_eq!(module, Some(0));
    assert_eq!(tree.enclosing_of_kind(last, "class_definition"), None);
}

#[test]
fn points_are_looked_up_as_in_tree_sitter() {
    for src in [PYTHON, BROKEN] {
        let parse = python().parse(src);
        let tree = parse.syntax_tree();
        let expected = parsed(tree_sitter_python::LANGUAGE.into(), src);
        for row in 0..7 {
            for column in 0..30 {
                let at = tree_sitter::Point { row, column };
                let node = expected.root_node().descendant_for_point_range(at, at).unwrap();
                let i = parse.find_at(&tree, Point { row, column }).expect("a node");
                assert_eq!(tree.node(i).kind, node.kind());
                assert_eq!(tree.node(i).start_byte, node.start_byte());
                assert_eq!(tree.node(i).end_byte, node.end_byte());
            }
        }
    }
}

#[test]
fn no_name_is_captured_where_the_language_has_no_definitions_of_tonel() {
    let src = "class Foo\n";
    assert_eq!(scala().parse(src).capture_name(src), None);
    assert_eq!(python().parse(PYTHON).capture_name(PYTHON), None);
    assert_eq!(python().parse("").capture_name(""), None);
}

#[test]
fn places_come_in_the_order_of_the_source() {
    for src in [PYTHON, BROKEN] {
        let tree = SrcTree::new(src.to_string(), &python());
        for group in tree.all_class_references() {
            let starts: Vec<(u32, u32)> =
                group.ranges.iter().map(|r| (r.start.line, r.start.character)).collect();
            let mut sorted = starts.clone();
            sorted.sort();
            assert_eq!(starts, sorted);
        }
    }
}

#[test]
fn positions_resolve_to_class_names() {
    let tree = SrcTree::new(PYTHON.to_string(), &python());
    let at = |line, character| tree.class_at_position(&Position { line, character });
    assert_eq!(at(0, 6), ClassAtPos::Found("Foo".to_string()));
    assert_eq!(at(0, 8), ClassAtPos::Found("Foo".to_string()));
    // Just behind the identifier.
    assert_eq!(at(0, 9), ClassAtPos::Found("Foo".to_string()));
    assert_eq!(at(2, 21), ClassAtPos::NotUppercase("bar".to_string()));
    assert_eq!(at(1, 8), ClassAtPos::NotUppercase("größe".to_string()));
    assert_eq!(at(0, 0), ClassAtPos::NotIdentifier("class".to_string()));
    assert_eq!(at(0, 5), ClassAtPos::NotIdentifier("class".to_string()));
    assert_eq!(at(90, 0), ClassAtPos::NotIdentifier("module".to_string()));
    let pos = Position { line: 2, character: 21 };
    assert_eq!(tree.method_side_at_position(&pos), None);
    assert!(!tree.is_local_variable_at_position(&pos));
}

#[test]
fn classes_found_are_named_around_the_position() {
    for src in [PYTHON, BROKEN] {
        let tree = SrcTree::new(src.to_string(), &python());
        let mut found = 0;
        for line in 0..7 {
            for character in 0..30 {
                let pos = Position { line, character };
                if let ClassAtPos::Found(name) = tree.class_at_position(&pos) {
                    found += 1;
                    assert!(tree.find_class_references(&name).iter().any(|r| {
                        (r.start.line, r.start.character) <= (line, character)
                            && (line, character) <= (r.end.line, r.end.character)
                    }));
                }
            }
        }
        assert!(found > 0);
    }
}

#[test]
fn nodes_lie_at_the_points_of_their_text() {
    let tree = python().parse(PYTHON).syntax_tree();
    let at = |row, column| Point { row, column };
    assert!(tree.node(0).is_at(at(0, 0)));
    let foo = (0..tree.len()).find(|i| tree.is_kind(*i, "identifier")).unwrap();
    assert!(!tree.node(foo).is_at(at(0, 5)));
    assert!(tree.node(foo).is_at(at(0, 6)));
    assert!(tree.node(foo).is_at(at(0, 8)));
    assert!(!tree.node(foo).is_at(at(0, 9)));
    assert!(!tree.node(foo).is_at(at(1, 7)));
    let empty = node("}", 1, 4, 4);
    assert!(empty.is_at(at(0, 4)));
    assert!(!empty.is_at(at(0, 3)));
    assert!(!empty.is_at(at(0, 5)));
}

#[test]
fn references_are_found_in_parsed_sources() {
    let tree = SrcTree::new(PYTHON.to_string(), &python());
    assert_eq!(
        tree.find_class_references("Foo"),
        vec![range((0, 6), (0, 9)), range((2, 15), (2, 18)), range((4, 6), (4, 9))]
    );
    assert!(tree.defined_class().is_none());
    assert!(tree.class_info().is_none());
    assert!(tree.syntax_errors().is_empty());
}

#[test]
fn errors_are_reported_in_parsed_sources() {
    let tree = SrcTree::new(BROKEN.to_string(), &python());
    assert!(!tree.syntax_errors().is_empty());
}

#[test]
fn scans_take_in_every_source() {
    let mut workspace = Workspace::new();
    let sources = vec![
        ("file:///a.st".to_string(), PYTHON.to_string()),
        ("file:///b.st".to_string(), "Foo\n".to_string()),
    ];
    assert_eq!(workspace.scan(&python(), sources), 0);
    let references = workspace.find_references("Foo");
    assert_eq!(references.len(), 4);
    assert_eq!(
        references[3],
        Location { uri: "file:///b.st".to_string(), range: range((0, 0), (0, 3)) }
    );
    // What is scanned later takes the place of what was known of the same file.
    let again = vec![("file:///a.st".to_string(), "Baz\n".to_string())];
    assert_eq!(workspace.scan(&python(), again), 0);
    assert_eq!(workspace.find_references("Foo").len(), 1);
    assert_eq!(workspace.scan(&python(), Vec::new()), 0);
}

#[test]
fn requests_are_answered_by_position() {
    let mut session = Session::new();
    let grammar = python();
    let uri = "file:///a.st";
    assert!(session.on_change(&grammar, uri.to_string(), PYTHON.to_string()).is_empty());
    session.open("file:///Foo.st".to_string(), defining_foo());
    let foo = Position { line: 4, character: 7 };
    let bar = Position { line: 2, character: 22 };
    let baz = Position { line: 4, character: 1 };
    assert_eq!(
        session.goto_definition(uri, &foo),
        Some(Location { uri: "file:///Foo.st".to_string(), range: range((0, 0), (0, 21)) })
    );
    assert_eq!(session.goto_definition(uri, &bar), None);
    assert_eq!(session.goto_definition(uri, &baz), None);
    let all = session.references(uri, &foo, true).unwrap();
    assert_eq!(all.len(), 4);
    assert!(all.contains(&Location { uri: uri.to_string(), range: range((4, 6), (4, 9)) }));
    assert_eq!(session.references(uri, &foo, false).unwrap().len(), 3);
    assert_eq!(session.references(uri, &baz, false).unwrap().len(), 1);
    assert_eq!(session.references(uri, &bar, true), None);
    match session.hover(uri, &foo) {
        Some(HoverInfo::Class(info)) => assert_eq!(info.name, "Foo"),
        other => panic!("{:?}", other),
    }
    assert_eq!(session.hover(uri, &baz), None);
    assert_eq!(
        session.resolve_class_at(uri, &foo),
        (2, Some(ClassAtPos::Found("Foo".to_string())))
    );
}

#[test]
fn changes_replace_what_was_known_of_a_document() {
    let mut session = Session::new();
    let grammar = python();
    let uri = "file:///a.st";
    session.on_change(&grammar, uri.to_string(), "Foo\n".to_string());
    let errors = session.on_change(&grammar, uri.to_string(), BROKEN.to_string());
    assert!(!errors.is_empty());
    session.on_change(&grammar, uri.to_string(), "Bar\n".to_string());
    assert!(session.workspace().find_references("Foo").is_empty());
    assert_eq!(session.workspace().find_references("Bar").len(), 1);
    let pos = Position { line: 0, character: 0 };
    assert_eq!(
        session.resolve_class_at(uri, &pos),
        (1, Some(ClassAtPos::Found("Bar".to_string())))
    );
    session.close(uri);
    assert_eq!(session.resolve_class_at(uri, &pos), (0, None));
    let sources = vec![("file:///b.st".to_string(), "Bar\n".to_string())];
    assert_eq!(session.scan(&grammar, sources), 0);
    assert_eq!(session.workspace().find_references("Bar").len(), 2);
}
