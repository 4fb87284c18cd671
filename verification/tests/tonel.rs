//! Tonel sources, from the text to the answers.
//!
//! The trees are made by a small reader of the part of Tonel that the sources here use.

use tonel_smalltalk_language_server::class_info::ClassInfo;
use tonel_smalltalk_language_server::diagnostics::{Diagnostic, DiagnosticSeverity};
use tonel_smalltalk_language_server::grammar::Capture;
use tonel_smalltalk_language_server::hover::HoverInfo;
use tonel_smalltalk_language_server::owners::VarScope;
use tonel_smalltalk_language_server::position::{Location, Position, Range};
use tonel_smalltalk_language_server::session::Session;
use tonel_smalltalk_language_server::src_tree::{ClassAtPos, MethodSide, SrcTree};
use tonel_smalltalk_language_server::syntax::{Point, SyntaxNode};
use tonel_smalltalk_language_server::workspace::{is_source_file, Workspace};

struct Reader {
    src: Vec<u8>,
    pos: usize,
    end: usize,
    depth: usize,
    nodes: Vec<SyntaxNode>,
}

impl Reader {
    fn point(&self, offset: usize) -> Point {
        let before = &self.src[..offset];
        let row = before.iter().filter(|b| **b == b'\n').count();
        let line_start = before.iter().rposition(|b| *b == b'\n').map_or(0, |p| p + 1);
        Point { row, column: offset - line_start }
    }

    fn skip(&mut self) {
        while self.pos < self.src.len() && self.src[self.pos].is_ascii_whitespace() {
            self.pos += 1;
        }
    }

    fn peek(&mut self) -> u8 {
        self.skip();
        *self.src.get(self.pos).unwrap_or(&0)
    }

    fn push(&mut self, kind: &str, field: Option<&str>, named: bool, from: usize, to: usize) {
        self.nodes.push(SyntaxNode {
            kind: kind.to_string(),
            field: field.map(|f| f.to_string()),
            depth: self.depth,
            named,
            missing: false,
            error: kind == "ERROR",
            has_error: false,
            start_byte: from,
            end_byte: to,
            start: self.point(from),
            end: self.point(to),
        });
    }

    fn open(&mut self, kind: &str) -> usize {
        self.skip();
        let at = self.nodes.len();
        self.push(kind, None, true, self.pos, self.pos);
        self.depth += 1;
        at
    }

    fn close(&mut self, at: usize) {
        self.depth -= 1;
        let end = self.end.max(self.nodes[at].start_byte);
        self.nodes[at].end_byte = end;
        self.nodes[at].end = self.point(end);
    }

    fn leaf(&mut self, kind: &str, field: Option<&str>, named: bool, len: usize) {
        self.skip();
        self.push(kind, field, named, self.pos, self.pos + len);
        self.pos += len;
        self.end = self.pos;
    }

    fn literal(&mut self, text: &str) {
        self.skip();
        assert!(self.src[self.pos..].starts_with(text.as_bytes()), "expected {}", text);
        self.leaf(text, None, false, text.len());
    }

    fn word_len(&self, from: usize) -> usize {
        self.src[from..]
            .iter()
            .take_while(|b| b.is_ascii_alphanumeric() || **b == b'_')
            .count()
    }

    fn word(&mut self) -> String {
        self.skip();
        let len = self.word_len(self.pos);
        String::from_utf8(self.src[self.pos..self.pos + len].to_vec()).unwrap()
    }

    fn string_len(&self, from: usize) -> usize {
        2 + self.src[from + 1..].iter().take_while(|b| **b != b'\'').count()
    }

    fn symbol_len(&self) -> usize {
        if self.src[self.pos + 1] == b'\'' {
            1 + self.string_len(self.pos + 1)
        } else {
            1 + self.word_len(self.pos + 1)
        }
    }

    fn value(&mut self) {
        let value = self.open("ston_value");
        match self.peek() {
            b'#' => {
                let len = self.symbol_len();
                self.leaf("ston_symbol", None, true, len);
            }
            b'\'' => {
                let len = self.string_len(self.pos);
                self.leaf("string", None, true, len);
            }
            _ => {
                let list = self.open("ston_list");
                self.literal("[");
                while self.peek() != b']' {
                    self.value();
                    if self.peek() == b',' {
                        self.literal(",");
                    }
                }
                self.literal("]");
                self.close(list);
            }
        }
        self.close(value);
    }

    fn map(&mut self) {
        let map = self.open("ston_map");
        self.literal("{");
        while self.peek() == b'#' {
            let pair = self.open("ston_pair");
            let key = self.open("ston_key");
            let len = self.symbol_len();
            self.leaf("ston_symbol", None, true, len);
            self.close(key);
            self.peek();
            self.literal(":");
            self.value();
            self.close(pair);
            if self.peek() == b',' {
                self.literal(",");
            }
        }
        if self.peek() == b'}' {
            self.literal("}");
        } else {
            let at = self.end;
            self.push("}", None, false, at, at);
            self.nodes.last_mut().unwrap().missing = true;
        }
        self.close(map);
    }

    fn temporaries(&mut self) {
        let temporaries = self.open("temporaries");
        self.literal("|");
        while self.peek() != b'|' {
            let len = self.word().len();
            self.leaf("identifier", None, true, len);
        }
        self.literal("|");
        self.close(temporaries);
    }

    fn code(&mut self) {
        if self.peek() == b'|' {
            self.temporaries();
        }
        loop {
            match self.peek() {
                b']' | 0 => break,
                b'[' => {
                    let block = self.open("block");
                    self.literal("[");
                    while self.peek() == b':' {
                        let argument = self.open("block_argument");
                        self.literal(":");
                        let len = self.word().len();
                        self.leaf("identifier", None, true, len);
                        self.close(argument);
                        if self.peek() == b'|' {
                            self.literal("|");
                        }
                    }
                    self.code();
                    self.literal("]");
                    self.close(block);
                }
                b'#' => {
                    let len = self.symbol_len();
                    self.leaf("symbol", None, true, len);
                }
                b'\'' => {
                    let len = self.string_len(self.pos);
                    self.leaf("string", None, true, len);
                }
                b if b.is_ascii_digit() => {
                    let len = self.word().len();
                    self.leaf("number", None, true, len);
                }
                b if b.is_ascii_alphabetic() => {
                    let len = self.word().len();
                    if self.src.get(self.pos + len) == Some(&b':') {
                        self.leaf("keyword", None, true, len + 1);
                    } else {
                        self.leaf("identifier", None, true, len);
                    }
                }
                _ => self.leaf("operator", None, false, 1),
            }
        }
    }

    fn method(&mut self) {
        let method = self.open("method_definition");
        let reference = self.open("method_reference");
        let len = self.word().len();
        self.leaf("identifier", Some("class_name"), true, len);
        if self.peek() != b'>' {
            self.leaf("class", Some("class_side"), false, "class".len());
        }
        self.literal(">>");
        while self.peek() != b'[' {
            let len = self.word().len();
            if self.src.get(self.pos + len) == Some(&b':') {
                self.leaf("keyword", Some("selector"), true, len + 1);
                let len = self.word().len();
                self.leaf("identifier", Some("param"), true, len);
            } else {
                self.leaf("identifier", Some("selector"), true, len);
            }
        }
        self.close(reference);
        self.literal("[");
        let body = self.open("method_body");
        self.code();
        self.close(body);
        self.literal("]");
        self.close(method);
    }

    fn file(&mut self) {
        let root = self.open("source_file");
        loop {
            match self.peek() {
                0 => break,
                b if b.is_ascii_alphabetic() => {
                    let definition = self.open("definition");
                    let word = self.word();
                    if word == "Class" || word == "Trait" {
                        let kind = word.to_lowercase() + "_definition";
                        let class = self.open(&kind);
                        self.leaf(&word, None, false, word.len());
                        self.map();
                        self.close(class);
                    } else {
                        self.method();
                    }
                    self.close(definition);
                }
                _ => {
                    let error = self.open("ERROR");
                    let len = self.src[self.pos..].iter().take_while(|b| **b != b'\n').count();
                    self.leaf("ERROR", None, false, len);
                    self.close(error);
                }
            }
        }
        self.close(root);
        let ends: Vec<usize> = (0..self.nodes.len())
            .map(|i| {
                (i + 1..self.nodes.len())
                    .find(|j| self.nodes[*j].depth <= self.nodes[i].depth)
                    .unwrap_or(self.nodes.len())
            })
            .collect();
        for i in 0..ends.len() {
            let has_error = self.nodes[i..ends[i]].iter().any(|n| n.error || n.missing);
            self.nodes[i].has_error = has_error;
        }
    }
}

fn read_nodes(src: &str) -> Vec<SyntaxNode> {
    let mut reader = Reader {
        src: src.as_bytes().to_vec(),
        pos: 0,
        end: 0,
        depth: 0,
        nodes: Vec::new(),
    };
    reader.file();
    reader.nodes
}

/// What the query for definitions captures: the value of the first `#name` of a definition.
fn name_capture(src: &str, nodes: &[SyntaxNode]) -> Option<Capture> {
    (0..nodes.len().saturating_sub(4))
        .find(|i| {
            nodes[*i].kind == "ston_key"
                && &src[nodes[*i].start_byte..nodes[*i].end_byte] == "#name"
                && nodes[*i + 4].kind != "ston_list"
        })
        .map(|i| Capture {
            kind: nodes[i + 4].kind.clone(),
            start_byte: nodes[i + 4].start_byte,
            end_byte: nodes[i + 4].end_byte,
        })
}

fn read(src: &str) -> SrcTree {
    let nodes = read_nodes(src);
    let capture = name_capture(src, &nodes);
    SrcTree::from_parts(src.to_string(), nodes, capture).expect("a tree")
}

/// The last node in the order of the walk whose text holds the place; the root where there
/// is none.
fn found(nodes: &[SyntaxNode], row: usize, column: usize) -> Option<usize> {
    let point = (row, column);
    let at = nodes
        .iter()
        .rposition(|n| {
            (n.start.row, n.start.column) <= point && point < (n.end.row, n.end.column)
        })
        .unwrap_or(0);
    Some(at)
}

fn token_at(src: &str, line: usize, character: usize) -> (SrcTree, Option<usize>) {
    let nodes = read_nodes(src);
    let tree = read(src);
    let here = found(&nodes, line, character);
    let before = if character > 0 { Some(found(&nodes, line, character - 1)) } else { None };
    let token = tree.token_node(here, before);
    (tree, token)
}

fn range(start: (u32, u32), end: (u32, u32)) -> Range {
    Range {
        start: Position { line: start.0, character: start.1 },
        end: Position { line: end.0, character: end.1 },
    }
}

fn scan(workspace: &mut Workspace, files: &[(&str, &str)]) -> usize {
    let before = workspace.class_count();
    for (name, text) in files {
        workspace.update(format!("file:///tmp/{}", name), &read(text));
    }
    workspace.class_count() - before
}

fn assert_defines(src: &str, expected: &str) {
    let tree = read(src);
    let result = tree.defined_class();
    assert!(result.is_some(), "expected class definition in {}", src);
    assert_eq!(result.unwrap().0, expected);
}

// Definitions.

#[test]
fn test_class_definition_extracts_name() {
    let tree = read("Class { #name: #Foo, #superclass: #Object }");
    let result = tree.defined_class();
    assert!(result.is_some());
    let (name, _range) = result.unwrap();
    assert_eq!(name, "Foo");
}

#[test]
fn test_class_definition_with_string_name() {
    let tree = read("Class { #name : 'Foo', #superclass : 'Object' }");
    let result = tree.defined_class();
    assert!(result.is_some());
    let (name, _range) = result.unwrap();
    assert_eq!(name, "Foo");
}

#[test]
fn test_class_definition_with_quoted_symbol_name() {
    let tree = read("Class { #name : #'Foo', #superclass : #Object }");
    let result = tree.defined_class();
    assert!(result.is_some());
    let (name, _range) = result.unwrap();
    assert_eq!(name, "Foo");
}

#[test]
fn test_trait_definition_extracts_name() {
    let tree = read("Trait { #name: #MyTrait }");
    let result = tree.defined_class();
    assert!(result.is_some());
    let (name, _range) = result.unwrap();
    assert_eq!(name, "MyTrait");
}

#[test]
fn test_method_only_file_returns_none() {
    let tree = read("Foo >> bar [\n    ^42\n]");
    assert!(tree.defined_class().is_none());
}

#[test]
fn test_fixture_string_name_class() {
    assert_defines("Class {\n\t#name : 'DmError',\n\t#superclass : 'Error'\n}\n", "DmError");
}

#[test]
fn test_fixture_symbol_name_class() {
    assert_defines("Class {\n\t#name : #DmSymbolName,\n\t#superclass : #Object\n}\n", "DmSymbolName");
}

#[test]
fn test_fixture_quoted_symbol_name_class() {
    assert_defines(
        "Class {\n\t#name : #'DmQuotedSymbolName',\n\t#superclass : #Object\n}\n",
        "DmQuotedSymbolName",
    );
}

#[test]
fn definition_range_is_that_of_the_definition() {
    let src = "\nClass {\n\t#name : #Foo\n}\n\nFoo >> bar [ ^1 ]";
    let (name, at) = read(src).defined_class().unwrap();
    assert_eq!(name, "Foo");
    assert_eq!(at, range((1, 0), (3, 1)));
}

#[test]
fn definition_without_a_definition_around_the_name_is_none() {
    let nodes = vec![SyntaxNode {
        kind: "ston_symbol".to_string(),
        field: None,
        depth: 0,
        named: true,
        missing: false,
        error: false,
        has_error: false,
        start_byte: 0,
        end_byte: 4,
        start: Point { row: 0, column: 0 },
        end: Point { row: 0, column: 4 },
    }];
    let capture = Capture { kind: "ston_symbol".to_string(), start_byte: 0, end_byte: 4 };
    let tree = SrcTree::from_parts("#Foo".to_string(), nodes.clone(), Some(capture)).unwrap();
    assert!(tree.defined_class().is_none());
    let elsewhere = Capture { kind: "string".to_string(), start_byte: 0, end_byte: 4 };
    let tree = SrcTree::from_parts("#Foo".to_string(), nodes, Some(elsewhere)).unwrap();
    assert!(tree.defined_class().is_none());
}

#[test]
fn lists_that_are_no_tree_are_refused() {
    let mut nodes = read_nodes("Trait { #name: #MyTrait }");
    assert!(SrcTree::from_parts(String::new(), Vec::new(), None).is_none());
    nodes[1].depth = 2;
    assert!(SrcTree::from_parts(String::new(), nodes.clone(), None).is_none());
    nodes[1].depth = 0;
    assert!(SrcTree::from_parts(String::new(), nodes, None).is_none());
}

// References in a file.

#[test]
fn test_find_class_references_all_forms() {
    let src = "Foo >> bar [\n    | a b c |\n    a := #ClassName new.\n    b := #'ClassName' new.\n    c := 'ClassName' new.\n    ^a\n]";
    let refs = read(src).find_class_references("ClassName");
    assert_eq!(refs.len(), 3, "expected 3 references, got {:?}", refs);
    assert_eq!(
        refs,
        vec![
            range((2, 9), (2, 19)),
            range((3, 9), (3, 21)),
            range((4, 9), (4, 20)),
        ]
    );
}

#[test]
fn test_find_class_references_in_class_definition() {
    let tree = read("Class { #name: #Foo, #superclass: #Object }");
    let refs = tree.find_class_references("Foo");
    assert!(!refs.is_empty(), "expected at least one reference to Foo");
    assert_eq!(refs, vec![range((0, 15), (0, 19))]);
}

#[test]
fn test_find_class_references_no_match() {
    let tree = read("Foo >> bar [ ^#Bar new ]");
    assert!(tree.find_class_references("Baz").is_empty());
}

#[test]
fn all_references_are_grouped_by_name() {
    let tree = read("Foo >> bar [ ^#Bar new: Foo with: bar ]");
    let groups = tree.all_class_references();
    let names: Vec<&str> = groups.iter().map(|g| g.name.as_str()).collect();
    assert_eq!(names, vec!["Foo", "Bar"]);
    assert_eq!(groups[0].ranges, vec![range((0, 0), (0, 3)), range((0, 24), (0, 27))]);
    assert_eq!(groups[0].ranges, tree.find_class_references("Foo"));
    assert_eq!(groups[1].ranges, tree.find_class_references("Bar"));
}

// Diagnostics.

#[test]
fn test_syntax_errors_clean_class_definition() {
    let tree = read("Class { #name: #Foo, #superclass: #Object }");
    assert!(tree.syntax_errors().is_empty());
}

#[test]
fn test_syntax_errors_clean_fixture() {
    let tree = read("Class {\n\t#name : 'DmError',\n\t#superclass : 'Error'\n}\n");
    assert!(tree.syntax_errors().is_empty());
}

#[test]
fn test_syntax_errors_unclosed_brace() {
    let errors = read("Class { #name: #Foo, #superclass: #Object").syntax_errors();
    assert!(!errors.is_empty(), "expected at least one diagnostic");
    assert!(errors
        .iter()
        .all(|d| d.severity == Some(DiagnosticSeverity::Error)));
    assert_eq!(errors.len(), 1);
    assert_eq!(errors[0].message, "Missing '}'");
    assert_eq!(errors[0].range, range((0, 41), (0, 41)));
}

#[test]
fn test_syntax_errors_source_field() {
    let errors = read("!!!garbage!!!").syntax_errors();
    assert!(!errors.is_empty());
    for d in &errors {
        assert_eq!(d.source.as_deref(), Some("tonel-smalltalk"));
    }
    assert_eq!(
        errors,
        vec![Diagnostic {
            range: range((0, 0), (0, 13)),
            severity: Some(DiagnosticSeverity::Error),
            source: Some("tonel-smalltalk".to_string()),
            message: "Syntax error: unexpected '!!!garbage!!!'".to_string(),
        }]
    );
}

#[test]
fn long_unexpected_text_is_cut_off() {
    let long = "!".repeat(60);
    let errors = read(&long).syntax_errors();
    assert_eq!(
        errors[0].message,
        format!("Syntax error: unexpected '{}...'", "!".repeat(50))
    );
    let fitting = "!".repeat(50);
    let errors = read(&fitting).syntax_errors();
    assert_eq!(errors[0].message, format!("Syntax error: unexpected '{}'", fitting));
}

#[test]
fn error_nodes_without_text_are_syntax_errors() {
    let mut nodes = read_nodes("! ");
    for node in nodes.iter_mut().skip(1) {
        node.start_byte = 1;
        node.end_byte = 2;
    }
    let tree = SrcTree::from_parts("! ".to_string(), nodes.clone(), None).unwrap();
    assert_eq!(tree.syntax_errors()[0].message, "Syntax error");
    for node in nodes.iter_mut().skip(1) {
        node.end_byte = 9;
    }
    let tree = SrcTree::from_parts("! ".to_string(), nodes, None).unwrap();
    assert_eq!(tree.syntax_errors()[0].message, "Syntax error");
}

#[test]
fn errors_within_errors_are_not_reported() {
    let src = "!a\nFoo >> bar [ ^1 ]\n!b";
    let nodes = read_nodes(src);
    assert_eq!(nodes.iter().filter(|n| n.error).count(), 4);
    let messages: Vec<String> =
        read(src).syntax_errors().into_iter().map(|d| d.message).collect();
    assert_eq!(
        messages,
        vec!["Syntax error: unexpected '!a'", "Syntax error: unexpected '!b'"]
    );
}

#[test]
fn errors_are_not_looked_for_where_the_root_has_none() {
    let mut nodes = read_nodes("!!!");
    nodes[0].has_error = false;
    let tree = SrcTree::from_parts("!!!".to_string(), nodes, None).unwrap();
    assert!(tree.syntax_errors().is_empty());
}

// What a class is.

#[test]
fn test_class_info_basic() {
    let tree = read("Class { #name: #Foo, #superclass: #Object }");
    let info = tree.class_info().unwrap();
    assert_eq!(info.kind, "Class");
    assert_eq!(info.name, "Foo");
    assert_eq!(info.superclass.as_deref(), Some("Object"));
    assert!(info.inst_vars.is_empty());
    assert!(info.class_vars.is_empty());
    assert!(info.class_inst_vars.is_empty());
}

const GENERIC_ERROR: &str = "Class {\n\t#name : 'DmSubError',\n\t#superclass : 'DmError',\n\t#instVars : [\n\t\t'errorPrefix'\n\t]\n}\n";

#[test]
fn test_class_info_with_inst_vars() {
    let info = read(GENERIC_ERROR).class_info().unwrap();
    assert_eq!(info.kind, "Class");
    assert_eq!(info.name, "DmSubError");
    assert_eq!(info.superclass.as_deref(), Some("DmError"));
    assert!(
        info.inst_vars.contains(&"errorPrefix".to_string()),
        "expected errorPrefix in inst_vars: {:?}",
        info.inst_vars
    );
}

#[test]
fn test_class_info_trait() {
    let info = read("Trait { #name: #MyTrait }").class_info().unwrap();
    assert_eq!(info.kind, "Trait");
    assert_eq!(info.name, "MyTrait");
    assert!(info.superclass.is_none());
}

#[test]
fn test_class_info_method_file_returns_none() {
    assert!(read("Foo >> bar [ ^42 ]").class_info().is_none());
}

#[test]
fn test_class_info_with_class_inst_vars() {
    let tree = read("Class { #name: #Foo, #superclass: #Object, #classInstVars: ['x'] }");
    let info = tree.class_info().unwrap();
    assert_eq!(info.name, "Foo");
    assert_eq!(info.class_inst_vars, vec!["x".to_string()]);
}

#[test]
fn class_info_reads_every_field() {
    let tree = read(
        "Class { #name: #Foo, #superclass: '', #instVars: ['a', '', #b], #classVars: ['C'], #classInstVars: 'no', #category: 'Kernel' }",
    );
    assert_eq!(
        tree.class_info(),
        Some(ClassInfo {
            kind: "Class".to_string(),
            name: "Foo".to_string(),
            superclass: None,
            inst_vars: vec!["a".to_string(), "b".to_string()],
            class_vars: vec!["C".to_string()],
            class_inst_vars: Vec::new(),
        })
    );
}

#[test]
fn class_info_without_a_name_is_none() {
    assert!(read("Class { #superclass: #Object }").class_info().is_none());
}

#[test]
fn class_info_takes_the_last_of_equal_keys() {
    let info = read("Class { #name: #Foo, #name: #Bar }").class_info().unwrap();
    assert_eq!(info.name, "Bar");
}

#[test]
fn the_order_of_pairs_changes_nothing_of_a_class() {
    let one = read("Class { #name: #Foo, #superclass: #Bar, #instVars: ['a', 'b'], #classVars: ['C'] }");
    let other = read("Class { #classVars: ['C'], #instVars: ['a', 'b'], #superclass: #Bar, #name: #Foo }");
    assert!(one.class_info().is_some());
    assert_eq!(one.class_info(), other.class_info());
}

#[test]
fn the_class_defined_has_the_name_of_the_class_read() {
    for src in [
        "Class { #name: #Foo, #superclass: #Bar }",
        "Class { #superclass: #Bar, #name : 'Foo' }",
        "Trait { #name: #'Foo' }",
    ] {
        let tree = read(src);
        let (name, at) = tree.defined_class().unwrap();
        assert_eq!(name, tree.class_info().unwrap().name);
        assert_eq!(at, range((0, 0), (0, src.len() as u32)));
    }
}

#[test]
fn files_know_how_many_nodes_they_have() {
    let src = "Trait { #name: #MyTrait }";
    assert_eq!(read(src).node_count(), read_nodes(src).len());
}

#[test]
fn scanning_again_makes_no_class_known() {
    let files = [
        ("a.st", "Class { #name: #Foo }"),
        ("b.st", "Class { #name: #Bar }"),
        ("c.st", "Class { #name: #Foo }"),
        ("d.st", "Foo >> bar [ ^1 ]"),
    ];
    let mut workspace = Workspace::new();
    assert_eq!(scan(&mut workspace, &files), 2);
    assert_eq!(workspace.class_count(), 2);
    assert_eq!(scan(&mut workspace, &files), 0);
}

// Positions.

const TWO_SIDES: &str = "Class { #name: #Foo, #superclass: #Object }\n\nFoo class >> bar [\n    ^x\n]\n\nFoo >> baz [\n    ^x\n]";

#[test]
fn test_method_side_at_position() {
    let (tree, token) = token_at(TWO_SIDES, 3, 5);
    let class_side = tree.method_side_at_token(token);
    let (tree, token) = token_at(TWO_SIDES, 7, 5);
    let instance_side = tree.method_side_at_token(token);
    assert_eq!(class_side, Some(MethodSide::Class));
    assert_eq!(instance_side, Some(MethodSide::Instance));
}

#[test]
fn method_side_is_none_outside_a_method() {
    let (tree, token) = token_at(TWO_SIDES, 0, 16);
    assert_eq!(tree.method_side_at_token(token), None);
    assert_eq!(tree.method_side_at_token(None), None);
}

#[test]
fn test_is_local_variable_for_method_temporary() {
    let src = "Class { #name: #ClassB, #superclass: #Object }\n\nClassB >> methodA [\n    | varA |\n    varA := ClassA new.\n]";
    let (tree, token) = token_at(src, 4, 6);
    let is_local = tree.is_local_variable_token(token);
    assert!(is_local);
}

#[test]
fn test_is_local_variable_for_block_temporary() {
    let src = "Class { #name: #ClassB, #superclass: #Object }\n\nClassB class >> methodB [\n    blockA := [ | varA |\n        varA := ClassA new.\n    ].\n]";
    let (tree, token) = token_at(src, 4, 8);
    let is_local = tree.is_local_variable_token(token);
    assert!(is_local);
}

#[test]
fn locals_are_parameters_arguments_and_temporaries_of_the_scopes_around() {
    let src = "Foo >> at: key put: value [\n    | temp |\n    [ :each | each foo: key ] value: temp.\n    each := free.\n    value foo: 'temp'\n]\n\nFoo >> other [ ^temp ]";
    let local = |line, character| {
        let (tree, token) = token_at(src, line, character);
        tree.is_local_variable_token(token)
    };
    assert!(local(2, 14)); // each, in the block
    assert!(local(2, 24)); // key
    assert!(local(2, 37)); // temp
    assert!(local(4, 4)); // value
    assert!(!local(3, 4)); // each, outside the block
    assert!(!local(3, 12)); // free
    assert!(!local(4, 16)); // no identifier
    assert!(!local(7, 17)); // temp, in another method
    let (tree, _) = token_at(src, 0, 0);
    assert!(!tree.is_local_variable_token(None));
}

#[test]
fn tokens_resolve_to_class_names() {
    let src = "Foo >> bar [ ^#'Baz' foo: 'Qux' with: 42 ]";
    let at = |character| {
        let (tree, token) = token_at(src, 0, character);
        tree.class_at_token(token)
    };
    assert_eq!(at(0), ClassAtPos::Found("Foo".to_string()));
    assert_eq!(at(14), ClassAtPos::Found("Baz".to_string()));
    assert_eq!(at(27), ClassAtPos::Found("Qux".to_string()));
    assert_eq!(at(7), ClassAtPos::NotUppercase("bar".to_string()));
    assert_eq!(at(39), ClassAtPos::NotIdentifier("number".to_string()));
    assert_eq!(at(38), ClassAtPos::NotIdentifier("method_body".to_string()));
    // Just behind a token, the token counts.
    assert_eq!(at(3), ClassAtPos::Found("Foo".to_string()));
    assert_eq!(at(20), ClassAtPos::Found("Baz".to_string()));
    let (tree, _) = token_at(src, 0, 0);
    assert_eq!(tree.class_at_token(None), ClassAtPos::NotNode);
}

#[test]
fn tokens_without_readable_text_are_no_node() {
    let mut nodes = read_nodes("Foo >> bar [ ^1 ]");
    let at = nodes.iter().position(|n| n.kind == "identifier").unwrap();
    nodes[at].end_byte = 99;
    let tree = SrcTree::from_parts("Foo >> bar [ ^1 ]".to_string(), nodes, None).unwrap();
    assert_eq!(tree.class_at_token(Some(at)), ClassAtPos::NotNode);
}

#[test]
fn the_token_is_the_node_found_or_the_one_before() {
    let src = "Foo >> bar [ ^1 ]";
    let nodes = read_nodes(src);
    let tree = read(src);
    let identifier = nodes.iter().position(|n| n.kind == "identifier");
    assert_eq!(tree.token_node(identifier, Some(Some(0))), identifier);
    assert_eq!(tree.token_node(Some(0), Some(identifier)), identifier);
    assert_eq!(tree.token_node(Some(0), Some(None)), None);
    assert_eq!(tree.token_node(Some(0), None), Some(0));
    assert_eq!(tree.token_node(None, Some(identifier)), None);
}

#[test]
fn files_made_of_parts_have_no_positions() {
    let tree = read("Foo >> bar [ ^1 ]");
    let pos = Position { line: 0, character: 1 };
    assert_eq!(tree.class_at_position(&pos), ClassAtPos::NotNode);
    assert_eq!(tree.method_side_at_position(&pos), None);
    assert!(!tree.is_local_variable_at_position(&pos));
}

// The workspace.

#[test]
fn test_scan_indexes_class_files() {
    let mut workspace = Workspace::new();
    let count = scan(
        &mut workspace,
        &[
            ("Foo.st", "Class { #name: #Foo, #superclass: #Object }"),
            ("Bar.st", "Trait { #name: #Bar }"),
        ],
    );
    assert_eq!(count, 2);
    assert!(workspace.find_class("Foo").is_some());
    assert!(workspace.find_class("Bar").is_some());
    assert!(workspace.find_class("Baz").is_none());
}

#[test]
fn test_scan_ignores_method_files() {
    let mut workspace = Workspace::new();
    scan(&mut workspace, &[("method.st", "Foo >> bar [\n    ^42\n]")]);
    assert!(workspace.find_class("Foo").is_none());
}

#[test]
fn test_scan_fixture_directory() {
    let mut workspace = Workspace::new();
    let count = scan(
        &mut workspace,
        &[
            ("DmError.class.st", "Class {\n\t#name : 'DmError',\n\t#superclass : 'Error'\n}\n"),
            ("DmSymbolName.class.st", "Class {\n\t#name : #DmSymbolName\n}\n"),
            ("DmQuotedSymbolName.class.st", "Class {\n\t#name : #'DmQuotedSymbolName'\n}\n"),
            ("DmGenericError.class.st", GENERIC_ERROR),
        ],
    );
    assert!(count >= 4, "expected at least 4 classes, got {}", count);
    assert!(workspace.find_class("DmError").is_some());
    assert!(workspace.find_class("DmSymbolName").is_some());
    assert!(workspace.find_class("DmQuotedSymbolName").is_some());
}

#[test]
fn test_find_references_across_files() {
    let mut workspace = Workspace::new();
    scan(
        &mut workspace,
        &[
            ("Foo.st", "Class { #name: #Foo, #superclass: #Object }"),
            (
                "method.st",
                "SomeClass >> bar [\n    | a b c |\n    a := #Foo new.\n    b := #'Foo' new.\n    c := 'Foo' new.\n    ^a\n]",
            ),
        ],
    );
    let locations = workspace.find_references("Foo");
    // Foo.st has 1 occurrence (#Foo in #name value), method.st has 3
    assert!(
        locations.len() >= 4,
        "expected at least 4 locations, got {}",
        locations.len()
    );
    assert_eq!(locations.len(), 4);
    assert_eq!(
        locations[0],
        Location {
            uri: "file:///tmp/Foo.st".to_string(),
            range: range((0, 15), (0, 19)),
        }
    );
    assert!(locations[1..].iter().all(|l| l.uri == "file:///tmp/method.st"));
}

#[test]
fn test_update_indexes_single_document() {
    let mut workspace = Workspace::new();
    let url = "file:///tmp/Foo.st".to_string();
    let src_tree = read("Class { #name: #Foo, #superclass: #Object }");

    workspace.update(url.clone(), &src_tree);

    let result = workspace.find_class("Foo");
    assert!(result.is_some());
    let (found_url, found_range) = result.unwrap();
    assert_eq!(found_url, url);
    assert_eq!(found_range, range((0, 0), (0, 43)));
}

#[test]
fn test_find_class_info_after_scan() {
    let mut workspace = Workspace::new();
    scan(&mut workspace, &[("DmGenericError.class.st", GENERIC_ERROR)]);

    let info = workspace
        .find_class_info("DmSubError")
        .expect("DmSubError should have info");
    assert_eq!(info.kind, "Class");
    assert!(info.inst_vars.contains(&"errorPrefix".to_string()));
    assert_eq!(info.superclass.as_deref(), Some("DmError"));
    assert!(workspace.find_class_info("DmError").is_none());
}

#[test]
fn test_find_var_owners() {
    let mut workspace = Workspace::new();
    scan(
        &mut workspace,
        &[
            ("Foo.st", "Class { #name: #Foo, #superclass: #Object, #instVars: ['x'] }"),
            (
                "Bar.st",
                "Class { #name: #Bar, #superclass: #Object, #classVars: ['x'], #classInstVars: ['y'] }",
            ),
        ],
    );

    let owners = workspace.find_var_owners("x", None);
    assert_eq!(owners.len(), 2);
    let inst: Vec<_> = owners
        .iter()
        .filter(|(_, scope)| *scope == VarScope::Instance)
        .collect();
    let cls: Vec<_> = owners
        .iter()
        .filter(|(_, scope)| *scope == VarScope::ClassVariable)
        .collect();
    assert_eq!(inst.len(), 1);
    assert_eq!(cls.len(), 1);
    assert_eq!(inst[0].0, "Foo");
    assert_eq!(cls[0].0, "Bar");

    let y_owners = workspace.find_var_owners("y", None);
    assert_eq!(y_owners.len(), 1);
    assert_eq!(y_owners[0].1, VarScope::ClassInstance);
    assert!(workspace.find_var_owners("z", None).is_empty());
}

#[test]
fn test_find_var_owners_by_method_side() {
    let mut workspace = Workspace::new();
    scan(
        &mut workspace,
        &[(
            "Foo.st",
            "Class { #name: #Foo, #superclass: #Object, #instVars: ['varA'], #classInstVars: ['varA'], #classVars: ['SharedA'] }",
        )],
    );

    let instance_side = workspace.find_var_owners("varA", Some(MethodSide::Instance));
    assert_eq!(instance_side, vec![("Foo".to_string(), VarScope::Instance)]);

    let class_side = workspace.find_var_owners("varA", Some(MethodSide::Class));
    assert_eq!(
        class_side,
        vec![("Foo".to_string(), VarScope::ClassInstance)]
    );

    let shared_instance = workspace.find_var_owners("SharedA", Some(MethodSide::Instance));
    let shared_class = workspace.find_var_owners("SharedA", Some(MethodSide::Class));
    assert_eq!(
        shared_instance,
        vec![("Foo".to_string(), VarScope::ClassVariable)]
    );
    assert_eq!(
        shared_class,
        vec![("Foo".to_string(), VarScope::ClassVariable)]
    );
}

#[test]
fn owners_come_in_the_order_of_name_and_scope() {
    let mut workspace = Workspace::new();
    scan(
        &mut workspace,
        &[
            ("B.st", "Class { #name: #B, #classInstVars: ['v'], #classVars: ['v'], #instVars: ['v', 'v'] }"),
            ("C.st", "Class { #name: #C, #classVars: ['v'] }"),
            ("AB.st", "Class { #name: #AB, #classInstVars: ['v'] }"),
            ("A.st", "Class { #name: #A, #instVars: ['v'] }"),
        ],
    );
    let owners: Vec<(String, VarScope)> = workspace.find_var_owners("v", None);
    let expected = vec![
        ("A", VarScope::Instance),
        ("AB", VarScope::ClassInstance),
        ("B", VarScope::Instance),
        ("B", VarScope::ClassVariable),
        ("B", VarScope::ClassInstance),
        ("C", VarScope::ClassVariable),
    ];
    let expected: Vec<(String, VarScope)> =
        expected.into_iter().map(|(n, s)| (n.to_string(), s)).collect();
    assert_eq!(owners, expected);
}

#[test]
fn test_update_refreshes_references() {
    let mut workspace = Workspace::new();
    let url = "file:///tmp/method.st".to_string();

    let src_v1 = read("Foo >> bar [ ^#Bar new ]");
    workspace.update(url.clone(), &src_v1);
    assert!(!workspace.find_references("Bar").is_empty());
    assert!(workspace.find_references("Baz").is_empty());

    // Update the file: Bar replaced by Baz
    let src_v2 = read("Foo >> bar [ ^#Baz new ]");
    workspace.update(url.clone(), &src_v2);
    assert!(
        workspace.find_references("Bar").is_empty(),
        "stale Bar ref should be removed"
    );
    assert!(!workspace.find_references("Baz").is_empty());
}

#[test]
fn updates_of_one_file_leave_the_others_alone() {
    let mut workspace = Workspace::new();
    scan(
        &mut workspace,
        &[
            ("a.st", "Foo >> bar [ ^Bar new ]"),
            ("b.st", "Foo >> baz [ ^Bar new ]"),
            ("a.st", "Foo >> bar [ ^nil ]"),
        ],
    );
    let uris: Vec<String> =
        workspace.find_references("Bar").into_iter().map(|l| l.uri).collect();
    assert_eq!(uris, vec!["file:///tmp/b.st"]);
    let uris: Vec<String> =
        workspace.find_references("Foo").into_iter().map(|l| l.uri).collect();
    assert_eq!(uris, vec!["file:///tmp/b.st", "file:///tmp/a.st"]);
}

#[test]
fn updates_with_the_same_version_change_nothing() {
    let mut workspace = Workspace::new();
    let files = [("Foo.st", "Class { #name: #Foo, #superclass: #Bar }")];
    assert_eq!(scan(&mut workspace, &files), 1);
    let before = workspace.find_references("Bar");
    assert_eq!(scan(&mut workspace, &files), 0);
    assert_eq!(workspace.find_references("Bar"), before);
    assert_eq!(workspace.class_count(), 1);
}

#[test]
fn a_file_without_references_is_forgotten_as_one() {
    let mut workspace = Workspace::new();
    scan(&mut workspace, &[("a.st", "Foo >> bar [ ^1 ]"), ("a.st", "")]);
    assert!(workspace.find_references("Foo").is_empty());
    scan(&mut workspace, &[("a.st", "Foo >> bar [ ^1 ]")]);
    assert_eq!(workspace.find_references("Foo").len(), 1);
}

#[test]
fn classes_that_a_file_no_longer_defines_stay_known() {
    let mut workspace = Workspace::new();
    scan(
        &mut workspace,
        &[("a.st", "Class { #name: #Foo }"), ("a.st", "Class { #name: #Bar }")],
    );
    assert_eq!(workspace.class_count(), 2);
    assert_eq!(workspace.find_class("Foo").unwrap().0, "file:///tmp/a.st");
}

#[test]
fn the_order_of_files_changes_the_order_of_places_alone() {
    let a = ("a.st", "Foo >> bar [ ^Bar new ]");
    let b = ("b.st", "Class { #name: #Bar }");
    let mut ab = Workspace::new();
    scan(&mut ab, &[a, b]);
    let mut ba = Workspace::new();
    scan(&mut ba, &[b, a]);
    assert_eq!(ab.find_class("Bar"), ba.find_class("Bar"));
    let mut reversed = ba.find_references("Bar");
    reversed.reverse();
    assert_eq!(ab.find_references("Bar"), reversed);
}

#[test]
fn source_files_are_plain_files_with_the_extension_st() {
    assert!(is_source_file(true, Some("st")));
    assert!(!is_source_file(false, Some("st")));
    assert!(!is_source_file(true, Some("ST")));
    assert!(!is_source_file(true, Some("str")));
    assert!(!is_source_file(true, None));
}

// Requests.

fn found_class(name: &str) -> Option<ClassAtPos> {
    Some(ClassAtPos::Found(name.to_string()))
}

fn library() -> Workspace {
    let mut workspace = Workspace::new();
    scan(
        &mut workspace,
        &[
            ("Foo.st", "Class { #name: #Foo, #instVars: ['x'], #classVars: ['Shared'] }\n\nFoo >> bar [ ^Foo new ]"),
            ("use.st", "Qux >> baz [ ^Foo new ]"),
        ],
    );
    workspace
}

#[test]
fn definitions_are_answered_for_known_classes() {
    let workspace = library();
    assert_eq!(
        workspace.definition_for(&found_class("Foo")),
        Some(Location {
            uri: "file:///tmp/Foo.st".to_string(),
            range: range((0, 0), (0, 63)),
        })
    );
    assert_eq!(workspace.definition_for(&found_class("Qux")), None);
    assert_eq!(workspace.definition_for(&None), None);
    assert_eq!(workspace.definition_for(&Some(ClassAtPos::NotNode)), None);
    let lower = Some(ClassAtPos::NotUppercase("foo".to_string()));
    assert_eq!(workspace.definition_for(&lower), None);
    let number = Some(ClassAtPos::NotIdentifier("number".to_string()));
    assert_eq!(workspace.definition_for(&number), None);
}

#[test]
fn references_leave_the_declaration_out_unless_asked_for() {
    let workspace = library();
    let all = workspace.references_for(&found_class("Foo"), true).unwrap();
    assert_eq!(all, workspace.find_references("Foo"));
    assert_eq!(all.len(), 4);
    let others = workspace.references_for(&found_class("Foo"), false).unwrap();
    assert_eq!(others, all[1..].to_vec());
    assert_eq!(all[0].range, range((0, 15), (0, 19)));
}

#[test]
fn references_to_an_undefined_class_are_all_shown() {
    let workspace = library();
    let all = workspace.references_for(&found_class("Qux"), true).unwrap();
    assert_eq!(all.len(), 1);
    assert_eq!(workspace.references_for(&found_class("Qux"), false), Some(all));
    assert_eq!(workspace.references_for(&found_class("Nope"), false), Some(Vec::new()));
}

#[test]
fn references_are_answered_for_classes_alone() {
    let workspace = library();
    assert_eq!(workspace.references_for(&None, true), None);
    assert_eq!(workspace.references_for(&Some(ClassAtPos::NotNode), true), None);
    let lower = Some(ClassAtPos::NotUppercase("foo".to_string()));
    assert_eq!(workspace.references_for(&lower, true), None);
    let number = Some(ClassAtPos::NotIdentifier("number".to_string()));
    assert_eq!(workspace.references_for(&number, true), None);
}

#[test]
fn hovering_shows_classes_and_owners_of_variables() {
    let workspace = library();
    let found = |name: &str| ClassAtPos::Found(name.to_string());
    let lower = |name: &str| ClassAtPos::NotUppercase(name.to_string());
    assert_eq!(
        workspace.hover_for(&found("Foo"), None, false),
        workspace.find_class_info("Foo").map(HoverInfo::Class)
    );
    assert_eq!(
        workspace.hover_for(&found("Shared"), Some(MethodSide::Class), false),
        Some(HoverInfo::Variable(
            "Shared".to_string(),
            vec![("Foo".to_string(), VarScope::ClassVariable)]
        ))
    );
    assert_eq!(
        workspace.hover_for(&lower("x"), Some(MethodSide::Instance), false),
        Some(HoverInfo::Variable(
            "x".to_string(),
            vec![("Foo".to_string(), VarScope::Instance)]
        ))
    );
    assert_eq!(workspace.hover_for(&lower("x"), Some(MethodSide::Class), false), None);
    assert_eq!(workspace.hover_for(&lower("x"), Some(MethodSide::Instance), true), None);
    assert_eq!(workspace.hover_for(&lower("y"), None, false), None);
    assert_eq!(workspace.hover_for(&ClassAtPos::NotNode, None, false), None);
}

#[test]
fn hovers_are_described() {
    let info = read(
        "Class { #name: #Foo, #superclass: #Object, #instVars: ['a', 'b'], #classInstVars: ['c'] }",
    )
    .class_info()
    .unwrap();
    assert_eq!(
        HoverInfo::Class(info).describe(),
        "Class Foo\nSuperclass: Object\nInstance variables: a, b\nClass instance variables: c"
    );
    let info = read("Trait { #name: #Bar, #classVars: ['X'] }").class_info().unwrap();
    assert_eq!(HoverInfo::Class(info).describe(), "Trait Bar\nClass variables: X");
    let owners = vec![
        ("Bar".to_string(), VarScope::Instance),
        ("Bar".to_string(), VarScope::ClassVariable),
        ("Foo".to_string(), VarScope::ClassInstance),
    ];
    assert_eq!(
        HoverInfo::Variable("x".to_string(), owners).describe(),
        "x\nBar (instance variable)\nBar (class variable)\nFoo (class instance variable)"
    );
}

#[test]
fn opening_a_document_reports_and_indexes_it() {
    let mut session = Session::new();
    let uri = "file:///tmp/Foo.st";
    let clean = session.open(uri.to_string(), read("Class { #name: #Foo }"));
    assert!(clean.is_empty());
    let broken = session.open(uri.to_string(), read("Class { #name: #Foo"));
    assert_eq!(broken.len(), 1);
    assert_eq!(session.workspace().class_count(), 1);
    let pos = Position { line: 0, character: 0 };
    assert_eq!(session.resolve_class_at(uri, &pos), (1, Some(ClassAtPos::NotNode)));
    assert_eq!(session.resolve_class_at("file:///tmp/Bar.st", &pos), (1, None));
}

#[test]
fn closing_a_document_forgets_nothing_of_the_workspace() {
    let mut session = Session::new();
    let uri = "file:///tmp/Foo.st";
    session.open(uri.to_string(), read("Class { #name: #Foo }"));
    session.open("file:///tmp/b.st".to_string(), read("Foo >> bar [ ^1 ]"));
    session.close(uri);
    let pos = Position { line: 0, character: 0 };
    assert_eq!(session.resolve_class_at(uri, &pos), (1, None));
    assert_eq!(session.references(uri, &pos, true), None);
    assert_eq!(session.goto_definition(uri, &pos), None);
    assert_eq!(session.hover(uri, &pos), None);
    assert_eq!(session.workspace().find_class("Foo").unwrap().0, uri);
    assert_eq!(session.workspace().find_references("Foo").len(), 2);
    session.close(uri);
    assert_eq!(session.resolve_class_at(uri, &pos).0, 1);
}
