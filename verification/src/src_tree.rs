//! A parsed Tonel source file and what can be asked of it.

use vstd::prelude::*;
use vstd::string::*;
use vstd::utf8::encode_utf8;

use crate::class_info::{
    class_info_of, definition_from, has_key, is_definition, is_definition_kind, key_and_value,
    node_text, plain_name, plain_name_of, read_class_info, text_of,
    the_last_pair_of_a_key_counts, values_lie_in_the_definition, ClassInfo, ClassInfoView,
};
use crate::grammar::{
    capture_view, captures_a_name, first_captured, found_nodes_lie_at_the_point, is_name_place,
    nodes_of, number_found, parsed, Capture, CaptureView, Grammar, Parse,
};
use crate::position::{Position, Range};
use crate::diagnostics::{
    diagnostic_views, read_syntax_errors, syntax_errors_of, Diagnostic,
};
use crate::references::{
    class_named_by, classes_named, is_token, is_token_kind, lists_references,
    named_places_are_listed, node_range, node_to_range, ranges_naming, read_class_references,
    read_references_to, ClassReferences,
};
use crate::scopes::{declared_around, is_declared_around};
use crate::syntax::{
    enclosing, has_field, is_placed, is_walk, named_child_of_kind, named_children_of, parent_of,
    starts_in_order, views, NodeView, Point, SyntaxNode, SyntaxTree,
};
use crate::text::{capitalized, is_capitalized, text_takes_bytes};

verus! {

/// Result of resolving the token at a cursor position to a class name.
#[derive(Clone, Debug, PartialEq, Eq)]
pub enum ClassAtPos {
    NotNode,
    NotIdentifier(String),
    NotUppercase(String),
    Found(String),
}

/// What a [`ClassAtPos`] says.
pub enum ClassAtPosView {
    NotNode,
    NotIdentifier(Seq<char>),
    NotUppercase(Seq<char>),
    Found(Seq<char>),
}

impl View for ClassAtPos {
    type V = ClassAtPosView;

    open spec fn view(&self) -> ClassAtPosView {
        match self {
            ClassAtPos::NotNode => ClassAtPosView::NotNode,
            ClassAtPos::NotIdentifier(kind) => ClassAtPosView::NotIdentifier(kind@),
            ClassAtPos::NotUppercase(name) => ClassAtPosView::NotUppercase(name@),
            ClassAtPos::Found(name) => ClassAtPosView::Found(name@),
        }
    }
}

/// The side of a class that a method belongs to.
#[derive(Clone, Copy, Debug, PartialEq, Eq, Structural)]
pub enum MethodSide {
    Instance,
    Class,
}

/// A parsed source file.
pub struct SrcTree {
    src: String,
    tree: SyntaxTree,
    name_capture: Option<Capture>,
    parse: Option<Parse>,
}

/// Matches a class or trait definition and captures the value of its `#name`.
pub const DEFINITION_QUERY: &'static str =
    "[
    (class_definition (ston_map (ston_pair
        (ston_key (ston_symbol) @key (#eq? @key \"#name\"))
        (ston_value (ston_symbol) @name))))
    (class_definition (ston_map (ston_pair
        (ston_key (ston_symbol) @key (#eq? @key \"#name\"))
        (ston_value (string) @name))))
    (trait_definition (ston_map (ston_pair
        (ston_key (ston_symbol) @key (#eq? @key \"#name\"))
        (ston_value (ston_symbol) @name))))
    (trait_definition (ston_map (ston_pair
        (ston_key (ston_symbol) @key (#eq? @key \"#name\"))
        (ston_value (string) @name))))
]";

/// What a parsed source file is.
pub struct FileView {
    /// The text of the file.
    pub src: Seq<char>,
    /// The nodes of its syntax tree.
    pub nodes: Seq<NodeView>,
    /// What [`DEFINITION_QUERY`] captured as the name that the file defines.
    pub captured: Option<CaptureView>,
    /// The tree in which positions are looked up, where there is one.
    pub parse: Option<tree_sitter::Tree>,
}

impl View for SrcTree {
    type V = FileView;

    closed spec fn view(&self) -> FileView {
        FileView {
            src: self.src@,
            nodes: self.tree@,
            captured: capture_view(self.name_capture),
            parse: match self.parse {
                Some(parse) => Some(parse.tree()),
                None => None,
            },
        }
    }
}

/// What a source is when it is parsed with a language.
pub open spec fn file_of(language: tree_sitter::Language, src: Seq<char>) -> FileView {
    FileView {
        src,
        nodes: nodes_of(parsed(language, src)),
        captured: first_captured(parsed(language, src), src, DEFINITION_QUERY@, "name"@),
        parse: Some(parsed(language, src)),
    }
}

impl FileView {
    /// Whether the nodes are a tree, and that of the parse where there is one, with the
    /// places that a parse gives.
    pub open spec fn is_whole(self) -> bool {
        &&& is_walk(self.nodes)
        &&& self.parse matches Some(tree) ==> {
            &&& self.nodes == nodes_of(tree)
            &&& is_placed(self.nodes)
            &&& starts_in_order(self.nodes)
        }
    }

    /// The class or trait that the file defines, and where.
    pub open spec fn definition(self) -> Option<(Seq<char>, Range)> {
        class_defined(self.nodes, self.src, self.captured)
    }

    /// What the class or trait that the file defines is.
    pub open spec fn info(self) -> Option<ClassInfoView> {
        class_info_of(self.nodes, self.src)
    }

    /// The classes that the file names, each once.
    pub open spec fn classes(self) -> Seq<Seq<char>> {
        classes_named(self.nodes, self.src)
    }

    /// Where the file names the class `name`.
    pub open spec fn places(self, name: Seq<char>) -> Seq<Range> {
        ranges_naming(self.nodes, self.src, name)
    }
}

impl SrcTree {
    #[verifier::type_invariant]
    closed spec fn is_of_one_parse(self) -> bool {
        match self.parse {
            Some(parse) => {
                &&& self.tree@ == nodes_of(parse.tree())
                &&& is_placed(self.tree@)
                &&& starts_in_order(self.tree@)
            },
            None => true,
        }
    }

    /// Returns how many nodes the file's tree has.
    pub fn node_count(&self) -> (res: usize)
        ensures
            res == self@.nodes.len(),
            self@.is_whole(),
    {
        proof {
            use_type_invariant(self);
        }
        self.tree.len()
    }

    /// Parses a file.
    pub fn new(src: String, grammar: &Grammar) -> (res: SrcTree)
        requires
            encode_utf8(src@).len() <= u32::MAX,
        ensures
            res@ == file_of(grammar.language(), src@),
            res@.is_whole(),
            res@.captured matches Some(capture) ==> {
                &&& captures_a_name(res@.nodes, res@.src, capture)
                &&& captured_from(res@.nodes, capture, 0) is Some
            },
    {
        let parse = grammar.parse(src.as_str());
        let tree = parse.syntax_tree();
        let name_capture = parse.capture_name(src.as_str());
        proof {
            if let Some(capture) = capture_view(name_capture) {
                lemma_captured_from(tree@, capture, 0);
            }
        }
        SrcTree { src, tree, name_capture, parse: Some(parse) }
    }

    /// Makes a parsed file of its text, the nodes of its syntax tree in the order of a
    /// walk, and what [`DEFINITION_QUERY`] captured as the defined name; `None` where the
    /// nodes are no tree. Without a parse there is nothing to look positions up in: no node
    /// is found at any.
    pub fn from_parts(src: String, nodes: Vec<SyntaxNode>, name_capture: Option<Capture>) -> (res:
        Option<SrcTree>)
        ensures
            (match res {
                Some(file) => {
                    &&& is_walk(views(nodes@))
                    &&& file@.src == src@
                    &&& file@.nodes == views(nodes@)
                    &&& file@.captured == capture_view(name_capture)
                    &&& file@.parse is None
                    &&& file@.is_whole()
                },
                None => !is_walk(views(nodes@)),
            }),
    {
        match SyntaxTree::new(nodes) {
            Some(tree) => Some(SrcTree { src, tree, name_capture, parse: None }),
            None => None,
        }
    }
}

/// The first node from `from` on that a capture speaks of.
///
/// Of nodes of one kind at one place, which lie one within the other, the outermost stands
/// for all: their text is the same, and so is the definition around them.
pub open spec fn captured_from(nodes: Seq<NodeView>, capture: CaptureView, from: int) -> Option<int>
    decreases nodes.len() - from,
{
    if from >= nodes.len() {
        None
    } else if nodes[from].is_captured_by(capture) {
        Some(from)
    } else {
        captured_from(nodes, capture, from + 1)
    }
}

proof fn lemma_captured_from(nodes: Seq<NodeView>, capture: CaptureView, from: int)
    ensures
        captured_from(nodes, capture, from) is None ==> forall|i: int|
            from <= i < nodes.len() ==> !(#[trigger] nodes[i]).is_captured_by(capture),
    decreases nodes.len() - from,
{
    if from < nodes.len() {
        lemma_captured_from(nodes, capture, from + 1);
    }
}

/// The nearest of `i` and the nodes above it that defines a class or a trait.
pub open spec fn definition_around(nodes: Seq<NodeView>, i: int) -> Option<int>
    decreases i,
{
    if is_definition_kind(nodes[i].kind) {
        Some(i)
    } else {
        match parent_of(nodes, i) {
            Some(p) => if 0 <= p < i {
                definition_around(nodes, p)
            } else {
                None
            },
            None => None,
        }
    }
}

/// The class or trait that a file defines, given the node captured as its name: the plain
/// name and where the definition around it lies.
pub open spec fn class_defined(
    nodes: Seq<NodeView>,
    src: Seq<char>,
    capture: Option<CaptureView>,
) -> Option<(Seq<char>, Range)> {
    match capture {
        Some(c) => match captured_from(nodes, c, 0) {
            Some(i) => match (plain_name(src, nodes[i]), definition_around(nodes, i)) {
                (Some(name), Some(def)) => Some((name, node_range(nodes[def]))),
                _ => None,
            },
            None => None,
        },
        None => None,
    }
}

/// The node that a capture speaks of, where it is the first of its kind at its place.
proof fn lemma_captured_is(nodes: Seq<NodeView>, capture: CaptureView, from: int, value: int)
    requires
        0 <= from <= value < nodes.len(),
        nodes[value].is_captured_by(capture),
        forall|j: int| from <= j < value ==> !(#[trigger] nodes[j]).is_captured_by(capture),
    ensures
        captured_from(nodes, capture, from) == Some(value),
    decreases value - from,
{
    if from < value {
        lemma_captured_is(nodes, capture, from + 1, value);
    }
}

/// The class that a file is found to define has the name that the file is read to give it.
///
/// This holds of a file whose first definition gives a `#name`, a symbol or a string, and in
/// which that value is the only node of the captured kind where the query looks for a name,
/// and the first of its kind at its place. Whatever is captured in a file that was parsed
/// stands where the query looks for a name.
pub proof fn names_agree(
    file: FileView,
    def: int,
    map: int,
    k: int,
    value: int,
    capture: CaptureView,
)
    requires
        is_walk(file.nodes),
        definition_from(file.nodes, 0) == Some(def),
        named_child_of_kind(file.nodes, def, "ston_map"@) == Some(map),
        0 <= k < named_children_of(file.nodes, map).len(),
        key_and_value(file.nodes, file.src, named_children_of(file.nodes, map)[k]) == Some(
            ("name"@, value),
        ),
        !has_key(file.nodes, file.src, named_children_of(file.nodes, map).skip(k + 1), "name"@),
        file.nodes[value].kind == "ston_symbol"@ || file.nodes[value].kind == "string"@,
        node_text(file.src, file.nodes[value]) is Some,
        file.captured == Some(capture),
        captures_a_name(file.nodes, file.src, capture),
        forall|v: int| #[trigger]
            is_name_place(file.nodes, file.src, v) && file.nodes[v].kind == capture.kind ==> v
                == value,
        forall|j: int|
            0 <= j < value && (#[trigger] file.nodes[j]).kind == file.nodes[value].kind
                ==> file.nodes[j].start_byte != file.nodes[value].start_byte
                || file.nodes[j].end_byte != file.nodes[value].end_byte,
    ensures
        file.definition() is Some,
        file.info() is Some,
        file.definition() matches Some((name, range)) ==> {
            &&& file.info() matches Some(info) && info.name == name
            &&& range == node_range(file.nodes[def])
        },
{
    let nodes = file.nodes;
    let pairs = named_children_of(nodes, map);
    let wrapper = values_lie_in_the_definition(nodes, file.src, def, map, k, "name"@, value);
    lemma_captured_is(nodes, capture, 0, value);
    the_last_pair_of_a_key_counts(nodes, file.src, pairs, k, "name"@, value);
    reveal_strlit("ston_symbol");
    reveal_strlit("string");
    reveal_strlit("ston_value");
    reveal_strlit("ston_pair");
    reveal_strlit("ston_map");
    reveal_strlit("class_definition");
    reveal_strlit("trait_definition");
    assert("class_definition"@.len() == 16);
    assert("trait_definition"@.len() == 16);
    assert("ston_symbol"@.len() == 11 && "string"@.len() == 6);
    assert("ston_value"@.len() == 10 && "ston_pair"@.len() == 9 && "ston_map"@.len() == 8);
    assert(definition_around(nodes, map) == definition_around(nodes, def));
    assert(definition_around(nodes, pairs[k]) == definition_around(nodes, map));
    assert(definition_around(nodes, wrapper) == definition_around(nodes, pairs[k]));
    assert(definition_around(nodes, value) == definition_around(nodes, wrapper));
}

/// Returns the first node that `capture` speaks of.
fn find_captured(tree: &SyntaxTree, capture: &Capture) -> (res: Option<usize>)
    ensures
        (match res {
            Some(i) => i < tree@.len() && captured_from(tree@, capture@, 0) == Some(i as int),
            None => captured_from(tree@, capture@, 0) is None,
        }),
{
    let len = tree.len();
    let mut i: usize = 0;
    while i < len
        invariant
            len == tree@.len(),
            i <= len,
            captured_from(tree@, capture@, 0) == captured_from(tree@, capture@, i as int),
        decreases len - i,
    {
        let node = tree.node(i);
        if node.start_byte == capture.start_byte && node.end_byte == capture.end_byte
            && tree.is_kind(i, capture.kind.as_str()) {
            return Some(i);
        }
        i += 1;
    }
    None
}

/// Returns the nearest of the node at `i` and the nodes above it that defines a class or a
/// trait.
fn find_definition_around(tree: &SyntaxTree, i: usize) -> (res: Option<usize>)
    requires
        i < tree@.len(),
    ensures
        (match res {
            Some(j) => j <= i && definition_around(tree@, i as int) == Some(j as int),
            None => definition_around(tree@, i as int) is None,
        }),
{
    let mut at: usize = i;
    while !is_definition(tree, at)
        invariant
            at <= i < tree@.len(),
            definition_around(tree@, i as int) == definition_around(tree@, at as int),
        decreases at,
    {
        match tree.parent(at) {
            Some(p) => {
                at = p;
            },
            None => {
                return None;
            },
        }
    }
    Some(at)
}

/// Returns the class or trait that a file defines, given the node captured as its name.
fn read_defined_class(tree: &SyntaxTree, src: &str, capture: &Capture) -> (res: Option<
    (String, Range),
>)
    ensures
        (match res {
            Some((name, range)) => class_defined(tree@, src@, Some(capture@)) == Some(
                (name@, range),
            ),
            None => class_defined(tree@, src@, Some(capture@)) is None,
        }),
{
    let name_node = match find_captured(tree, capture) {
        Some(i) => i,
        None => {
            return None;
        },
    };
    // Walk up to find the enclosing class_definition or trait_definition node
    // in order to get its Range for go-to-definition.
    match (plain_name_of(tree, src, name_node), find_definition_around(tree, name_node)) {
        (Some(name), Some(def)) => Some((name.to_owned(), node_to_range(tree.node(def)))),
        _ => None,
    }
}

/// Of the node found at a position and the one found a column before, where there is a
/// column before, the token: the first where that is a token, else the second.
pub open spec fn token_of(
    nodes: Seq<NodeView>,
    here: Option<int>,
    before: Option<Option<int>>,
) -> Option<int> {
    match (here, before) {
        (Some(node), Some(earlier)) => if is_token_kind(nodes[node].kind) {
            here
        } else {
            earlier
        },
        _ => here,
    }
}

/// What a token is as a class name.
pub open spec fn class_of_token(
    nodes: Seq<NodeView>,
    src: Seq<char>,
    token: Option<int>,
) -> ClassAtPosView {
    match token {
        Some(i) => if !is_token_kind(nodes[i].kind) {
            ClassAtPosView::NotIdentifier(nodes[i].kind)
        } else {
            match plain_name(src, nodes[i]) {
                Some(name) => if capitalized(name) {
                    ClassAtPosView::Found(name)
                } else {
                    ClassAtPosView::NotUppercase(name)
                },
                None => ClassAtPosView::NotNode,
            }
        },
        None => ClassAtPosView::NotNode,
    }
}

/// The side of the method around a token; none outside a method and in a method without a
/// reference.
pub open spec fn side_of_token(nodes: Seq<NodeView>, token: Option<int>) -> Option<MethodSide> {
    match token {
        Some(i) => match enclosing(nodes, i, "method_definition"@) {
            Some(method) => match named_child_of_kind(nodes, method, "method_reference"@) {
                Some(reference) => if has_field(nodes, reference, "class_side"@) {
                    Some(MethodSide::Class)
                } else {
                    Some(MethodSide::Instance)
                },
                None => None,
            },
            None => None,
        },
        None => None,
    }
}

/// Whether a token is an identifier that names a local temporary or argument.
pub open spec fn is_local_token(nodes: Seq<NodeView>, src: Seq<char>, token: Option<int>) -> bool {
    match token {
        Some(i) => nodes[i].kind == "identifier"@ && match node_text(src, nodes[i]) {
            Some(name) => is_declared_around(nodes, src, i, name),
            None => false,
        },
        None => false,
    }
}

/// The number of a node, where there is one.
pub open spec fn number(node: Option<usize>) -> Option<int> {
    match node {
        Some(i) => Some(i as int),
        None => None,
    }
}

impl FileView {
    /// The node found at a point.
    pub open spec fn found(self, point: Point) -> Option<int> {
        match self.parse {
            Some(tree) => number_found(tree, point),
            None => None,
        }
    }

    /// The token at a position.
    pub open spec fn token_at(self, pos: Position) -> Option<int> {
        let here = self.found(Point { row: pos.line as usize, column: pos.character as usize });
        if pos.character > 0 {
            let before = Point { row: pos.line as usize, column: (pos.character - 1) as usize };
            token_of(self.nodes, here, Some(self.found(before)))
        } else {
            token_of(self.nodes, here, None)
        }
    }

    /// What the token at a position is as a class name.
    pub open spec fn class_at(self, pos: Position) -> ClassAtPosView {
        class_of_token(self.nodes, self.src, self.token_at(pos))
    }

    /// The side of the method around a position.
    pub open spec fn side_at(self, pos: Position) -> Option<MethodSide> {
        side_of_token(self.nodes, self.token_at(pos))
    }

    /// Whether a local temporary or argument is named at a position.
    pub open spec fn is_local_at(self, pos: Position) -> bool {
        is_local_token(self.nodes, self.src, self.token_at(pos))
    }
}

/// Whether a node lies at a position or a column before it.
pub open spec fn lies_at(node: NodeView, pos: Position) -> bool {
    ||| node.holds(Point { row: pos.line as usize, column: pos.character as usize })
    ||| pos.character > 0 && node.holds(
        Point { row: pos.line as usize, column: (pos.character - 1) as usize },
    )
}

/// The answer to what a token is as a class name is what it says: the name of a class that
/// is found is capitalized, and the token is one of the places where the file names it; the
/// name that is not upper case is not capitalized; and what is no identifier is of no kind
/// that names anything.
pub proof fn answers_about_tokens_are_right(nodes: Seq<NodeView>, src: Seq<char>, token: int)
    requires
        0 <= token < nodes.len(),
    ensures
        (match class_of_token(nodes, src, Some(token)) {
            ClassAtPosView::Found(found) => {
                &&& capitalized(found)
                &&& nodes[token].start_byte < nodes[token].end_byte
                &&& ranges_naming(nodes, src, found).contains(node_range(nodes[token]))
            },
            ClassAtPosView::NotUppercase(found) => !capitalized(found),
            ClassAtPosView::NotIdentifier(kind) => !is_token_kind(kind),
            ClassAtPosView::NotNode => true,
        }),
{
    let node = nodes[token];
    if let ClassAtPosView::Found(found) = class_of_token(nodes, src, Some(token)) {
        assert(class_named_by(src, node) == Some(found));
        named_places_are_listed(nodes, src, found, node_range(node));
        text_takes_bytes(src, node.start_byte as int, node.end_byte as int);
    }
}

/// A node with text that lies at a position or a column before it touches the position.
proof fn lemma_text_touches(node: NodeView, pos: Position)
    requires
        node.start.is_small(),
        node.end.is_small(),
        node.start.lt(node.end),
        lies_at(node, pos),
    ensures
        node_range(node).touches(pos),
{
}

/// The token at a position is one of the nodes, which is the root or lies there or a column
/// before.
pub proof fn tokens_lie_at_the_position(file: FileView, pos: Position)
    requires
        file.is_whole(),
    ensures
        file.token_at(pos) matches Some(i) ==> 0 <= i < file.nodes.len() && (i > 0 ==> lies_at(
            file.nodes[i],
            pos,
        )),
{
    let here = Point { row: pos.line as usize, column: pos.character as usize };
    let before = Point { row: pos.line as usize, column: (pos.character - 1) as usize };
    if let Some(tree) = file.parse {
        found_nodes_lie_at_the_point(tree, here);
        found_nodes_lie_at_the_point(tree, before);
    }
}

/// Where a class is found at a position, one of the places where the file names the class
/// touches the position. The one exception is a file that is a single token as a whole, whose
/// root is found from everywhere.
pub proof fn found_classes_touch_the_position(file: FileView, pos: Position, name: Seq<char>)
    requires
        file.is_whole(),
        file.class_at(pos) == ClassAtPosView::Found(name),
        file.token_at(pos) == Some(0int) ==> node_range(file.nodes[0]).touches(pos),
    ensures
        capitalized(name),
        exists|r: Range| file.places(name).contains(r) && #[trigger] r.touches(pos),
{
    let token = file.token_at(pos)->0;
    tokens_lie_at_the_position(file, pos);
    answers_about_tokens_are_right(file.nodes, file.src, token);
    if token > 0 {
        assert(file.nodes[token].start.lt(file.nodes[token].end));
        lemma_text_touches(file.nodes[token], pos);
    }
    assert(node_range(file.nodes[token]).touches(pos));
}

impl SrcTree {
    /// Returns the token, given the node found at a position and the one found a column
    /// before, where there is a column before.
    pub fn token_node(&self, here: Option<usize>, before: Option<Option<usize>>) -> (res: Option<
        usize,
    >)
        requires
            here matches Some(i) ==> i < self@.nodes.len(),
        ensures
            number(res) == token_of(
                self@.nodes,
                number(here),
                match before {
                    Some(earlier) => Some(number(earlier)),
                    None => None,
                },
            ),
    {
        match (here, before) {
            (Some(node), Some(earlier)) => if is_token(&self.tree, node) {
                here
            } else {
                earlier
            },
            _ => here,
        }
    }

    /// Returns the node found at `point`.
    fn node_at_point(&self, point: Point) -> (res: Option<usize>)
        requires
            point.is_small(),
        ensures
            number(res) == self@.found(point),
            res matches Some(i) ==> i < self@.nodes.len(),
            self@.parse is Some ==> res is Some,
    {
        proof {
            use_type_invariant(self);
        }
        match &self.parse {
            Some(parse) => parse.find_at(&self.tree, point),
            None => None,
        }
    }

    /// Returns the token at `pos`.
    fn token_node_at_position(&self, pos: &Position) -> (res: Option<usize>)
        ensures
            number(res) == self@.token_at(*pos),
            res matches Some(i) ==> i < self@.nodes.len(),
            self@.parse is Some ==> res is Some,
    {
        let point = Point { row: pos.line as usize, column: pos.character as usize };
        let here = self.node_at_point(point);
        if point.column > 0 {
            let prev = Point { row: point.row, column: point.column - 1 };
            let before = self.node_at_point(prev);
            self.token_node(here, Some(before))
        } else {
            self.token_node(here, None)
        }
    }

    /// Resolves a token to a class name (uppercase-first identifier/symbol/string).
    pub fn class_at_token(&self, token: Option<usize>) -> (res: ClassAtPos)
        requires
            token matches Some(i) ==> i < self@.nodes.len(),
        ensures
            res@ == class_of_token(self@.nodes, self@.src, number(token)),
    {
        let node = match token {
            Some(i) => i,
            None => {
                return ClassAtPos::NotNode;
            },
        };
        if !is_token(&self.tree, node) {
            return ClassAtPos::NotIdentifier(self.tree.node(node).kind.clone());
        }
        match plain_name_of(&self.tree, self.src.as_str(), node) {
            Some(name) => if is_capitalized(name) {
                ClassAtPos::Found(name.to_owned())
            } else {
                ClassAtPos::NotUppercase(name.to_owned())
            },
            None => ClassAtPos::NotNode,
        }
    }

    /// Resolves the token at `pos` to a class name (uppercase-first identifier/symbol/string).
    pub fn class_at_position(&self, pos: &Position) -> (res: ClassAtPos)
        ensures
            res@ == self@.class_at(*pos),
            self@.is_whole(),
            self@.parse is Some ==> self@.token_at(*pos) is Some,
    {
        let _ = self.node_count();
        self.class_at_token(self.token_node_at_position(pos))
    }

    /// Returns the side of the method definition around a token.
    pub fn method_side_at_token(&self, token: Option<usize>) -> (res: Option<MethodSide>)
        requires
            token matches Some(i) ==> i < self@.nodes.len(),
        ensures
            res == side_of_token(self@.nodes, number(token)),
    {
        let node = match token {
            Some(i) => i,
            None => {
                return None;
            },
        };
        match self.tree.enclosing_of_kind(node, "method_definition") {
            Some(method) => match self.tree.named_of_kind(method, "method_reference") {
                Some(reference) => if self.tree.holds_field(reference, "class_side") {
                    Some(MethodSide::Class)
                } else {
                    Some(MethodSide::Instance)
                },
                None => None,
            },
            None => None,
        }
    }

    /// Returns method side at cursor position if inside a method definition.
    pub fn method_side_at_position(&self, pos: &Position) -> (res: Option<MethodSide>)
        ensures
            res == self@.side_at(*pos),
    {
        self.method_side_at_token(self.token_node_at_position(pos))
    }

    /// Returns true when a token is an identifier that names a local temporary/argument.
    pub fn is_local_variable_token(&self, token: Option<usize>) -> (res: bool)
        requires
            token matches Some(i) ==> i < self@.nodes.len(),
        ensures
            res == is_local_token(self@.nodes, self@.src, number(token)),
    {
        let node = match token {
            Some(i) => i,
            None => {
                return false;
            },
        };
        if !self.tree.is_kind(node, "identifier") {
            return false;
        }
        let src = self.src.as_str();
        match text_of(&self.tree, src, node) {
            Some(name) => declared_around(&self.tree, src, node, name),
            None => false,
        }
    }

    /// Returns true when the identifier at `pos` is a local temporary/argument.
    pub fn is_local_variable_at_position(&self, pos: &Position) -> (res: bool)
        ensures
            res == self@.is_local_at(*pos),
    {
        self.is_local_variable_token(self.token_node_at_position(pos))
    }

    /// Returns metadata for the class or trait defined in this file, or None if none.
    pub fn class_info(&self) -> (res: Option<ClassInfo>)
        ensures
            (match res {
                Some(info) => self@.info() == Some(info@),
                None => self@.info() is None,
            }),
    {
        read_class_info(&self.tree, self.src.as_str())
    }

    /// Returns all class-name occurrences in this file, grouped by name.
    /// Covers `ClassName`, `#ClassName`, `#'ClassName'`, and `'ClassName'` forms.
    pub fn all_class_references(&self) -> (res: Vec<ClassReferences>)
        ensures
            lists_references(res@, self@.nodes, self@.src),
    {
        read_class_references(&self.tree, self.src.as_str())
    }

    /// Returns all ranges where `class_name` appears.
    pub fn find_class_references(&self, class_name: &str) -> (res: Vec<Range>)
        ensures
            res@ == self@.places(class_name@),
    {
        read_references_to(&self.tree, self.src.as_str(), class_name)
    }

    /// Returns all syntax error diagnostics derived from the parse result: ERROR nodes
    /// (unexpected tokens) and MISSING nodes (absent expected tokens).
    pub fn syntax_errors(&self) -> (res: Vec<Diagnostic>)
        ensures
            diagnostic_views(res@) == syntax_errors_of(self@.nodes, self@.src),
    {
        read_syntax_errors(&self.tree, self.src.as_str())
    }

    /// Returns the class or trait name defined in this file and the range of its
    /// definition node, or None if this file does not contain a definition.
    pub fn defined_class(&self) -> (res: Option<(String, Range)>)
        ensures
            (match res {
                Some((name, range)) => self@.definition() == Some((name@, range)),
                None => self@.definition() is None,
            }),
    {
        match &self.name_capture {
            Some(capture) => read_defined_class(&self.tree, self.src.as_str(), capture),
            None => None,
        }
    }
}

} // verus!
