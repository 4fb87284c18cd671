//! Parsing: what the tree-sitter library does for this one.

use tree_sitter::StreamingIterator;
use vstd::prelude::*;
use vstd::string::*;
use vstd::utf8::encode_utf8;

use crate::class_info::node_text;
use crate::src_tree::DEFINITION_QUERY;
use crate::syntax::{
    is_child, is_placed, is_walk, spans_within, starts_in_order, views, NodeView, Point,
    SyntaxNode, SyntaxTree,
};

verus! {

/// A grammar that tree-sitter can parse with.
#[verifier::external_type_specification]
#[verifier::external_body]
pub struct ExLanguage(tree_sitter::Language);

/// The tree that tree-sitter makes of a source.
#[verifier::external_type_specification]
#[verifier::external_body]
pub struct ExTree(tree_sitter::Tree);

/// Whether a parser takes the language: whether `tree_sitter::Parser::set_language`
/// returns `Ok` for it.
pub uninterp spec fn loads(language: tree_sitter::Language) -> bool;

/// What `tree_sitter::Parser::parse` makes of a source with no earlier tree.
pub uninterp spec fn parsed(language: tree_sitter::Language, src: Seq<char>) -> tree_sitter::Tree;

/// The nodes that a tree holds, in the order in which a `tree_sitter::TreeCursor` numbers
/// them from its root.
pub uninterp spec fn nodes_of(tree: tree_sitter::Tree) -> Seq<NodeView>;

/// Whether the node with that number is the one that
/// `tree_sitter::Node::descendant_for_point_range` finds from the root for the range that
/// starts and ends at the point.
pub uninterp spec fn is_found(
    tree: tree_sitter::Tree,
    row: usize,
    column: usize,
    index: usize,
) -> bool;

/// A node that a query captured: its kind and where its text lies.
#[derive(Clone, Debug, PartialEq, Eq)]
pub struct Capture {
    pub kind: String,
    pub start_byte: usize,
    pub end_byte: usize,
}

/// What a [`Capture`] says.
pub struct CaptureView {
    pub kind: Seq<char>,
    pub start_byte: usize,
    pub end_byte: usize,
}

impl View for Capture {
    type V = CaptureView;

    open spec fn view(&self) -> CaptureView {
        CaptureView { kind: self.kind@, start_byte: self.start_byte, end_byte: self.end_byte }
    }
}

/// What a capture says, where there is one.
pub open spec fn capture_view(capture: Option<Capture>) -> Option<CaptureView> {
    match capture {
        Some(c) => Some(c@),
        None => None,
    }
}

impl NodeView {
    /// Whether a capture speaks of this node: whether the kind and the place are the same.
    pub open spec fn is_captured_by(self, capture: CaptureView) -> bool {
        self.kind == capture.kind && self.start_byte == capture.start_byte && self.end_byte
            == capture.end_byte
    }
}

/// Whether `value` stands two levels below `pair`, behind a node that reads `#name` and
/// stands two levels below it too.
pub open spec fn follows_name_key(
    nodes: Seq<NodeView>,
    src: Seq<char>,
    pair: int,
    value: int,
) -> bool {
    exists|key_wrapper: int, key: int, wrapper: int|
        {
            &&& is_child(nodes, pair, key_wrapper)
            &&& #[trigger] is_child(nodes, key_wrapper, key)
            &&& node_text(src, nodes[key]) == Some("#name"@)
            &&& is_child(nodes, pair, wrapper)
            &&& key_wrapper < wrapper
            &&& #[trigger] is_child(nodes, wrapper, value)
        }
}

/// Whether `value` stands where [`DEFINITION_QUERY`] looks for a name.
pub open spec fn is_name_place(nodes: Seq<NodeView>, src: Seq<char>, value: int) -> bool {
    exists|pair: int| #[trigger] follows_name_key(nodes, src, pair, value)
}

/// Whether a capture speaks of a node that stands where [`DEFINITION_QUERY`] looks for a
/// name.
pub open spec fn captures_a_name(
    nodes: Seq<NodeView>,
    src: Seq<char>,
    capture: CaptureView,
) -> bool {
    exists|value: int| #[trigger]
        is_name_place(nodes, src, value) && nodes[value].is_captured_by(capture)
}

/// The node that the query captures under `name` in the match of the first capture that
/// `tree_sitter::QueryCursor::captures` comes to in the whole tree; none where the query
/// does not compile for the tree's language, where nothing matches, or where that match
/// captures nothing under the name. It is told of [`DEFINITION_QUERY`] alone.
pub uninterp spec fn first_captured(
    tree: tree_sitter::Tree,
    src: Seq<char>,
    query: Seq<char>,
    name: Seq<char>,
) -> Option<CaptureView>;

/// Calls `tree_sitter::Parser::set_language`, which takes a language whose version of the
/// parser tables is one that this tree-sitter knows; the answer depends on the language
/// alone.
#[verifier::external_body]
fn language_loads(language: &tree_sitter::Language) -> (res: bool)
    ensures
        res == loads(*language),
{
    tree_sitter::Parser::new().set_language(language).is_ok()
}

/// Calls `tree_sitter::Parser::parse` on a new parser that was given the language, so that
/// the tree depends on the language and the source alone.
///
/// A parser that has a language and that nothing interrupts always returns a tree. A tree
/// has a root; a walk goes at most one level down at each step; and no node's text runs
/// beyond the source, whose offsets tree-sitter counts in 32 bits. Rows and columns are
/// counted in 32 bits too, and each character that is read moves the place on by a row or by
/// its bytes, so that what takes bytes ends behind where it starts. A node starts where its
/// first child does, and each child at or behind the end of the one before, so that the
/// places where nodes start never fall back along a walk.
#[verifier::external_body]
fn parse_source(language: &tree_sitter::Language, src: &str) -> (res: tree_sitter::Tree)
    requires
        loads(*language),
        encode_utf8(src@).len() <= u32::MAX,
    ensures
        res == parsed(*language, src@),
        is_walk(nodes_of(res)),
        spans_within(nodes_of(res), encode_utf8(src@).len()),
        is_placed(nodes_of(res)),
        starts_in_order(nodes_of(res)),
{
    let mut parser = tree_sitter::Parser::new();
    parser.set_language(language).expect("language does not load");
    parser.parse(src, None).expect("parser returned no tree")
}

/// Calls `tree_sitter::Node::descendant_count` on the root, which counts the nodes of the
/// tree, the root included.
#[verifier::external_body]
fn node_count(tree: &tree_sitter::Tree) -> (res: usize)
    ensures
        res == nodes_of(*tree).len(),
{
    tree.root_node().descendant_count()
}

/// Calls `tree_sitter::TreeCursor::goto_descendant` on a cursor at the root, which moves it
/// to the node with that number, and hands out what the node and the cursor say there.
#[verifier::external_body]
fn node_at(tree: &tree_sitter::Tree, index: usize) -> (res: SyntaxNode)
    requires
        index < nodes_of(*tree).len(),
    ensures
        res@ == nodes_of(*tree)[index as int],
{
    let mut cursor = tree.walk();
    cursor.goto_descendant(index);
    let node = cursor.node();
    let (start, end) = (node.start_position(), node.end_position());
    SyntaxNode {
        kind: node.kind().to_string(), field: cursor.field_name().map(|f| f.to_string()),
        depth: cursor.depth() as usize, named: node.is_named(), missing: node.is_missing(),
        error: node.is_error(), has_error: node.has_error(),
        start_byte: node.start_byte(), end_byte: node.end_byte(),
        start: Point { row: start.row, column: start.column },
        end: Point { row: end.row, column: end.column },
    }
}

/// Whether a node can be found at a point: the root and the nodes that lie there can.
pub open spec fn is_candidate(nodes: Seq<NodeView>, point: Point, i: int) -> bool {
    0 <= i < nodes.len() && (i == 0 || nodes[i].holds(point))
}

/// Calls `tree_sitter::Node::descendant_for_point_range` on the root for the point alone,
/// and tells whether the node found is the one that a cursor reaches under `index`.
///
/// Which node is found depends on the shape of the tree and the point alone. Some node is
/// found at every point: the search starts at the root, ends at the last node that a walk
/// meets, and goes down only into nodes that lie at the point. The contract does
/// not say which of the nodes there is found: beside those that a walk meets, the search goes
/// by nodes that the grammar hides. tree-sitter takes the point in 32 bits.
#[verifier::external_body]
fn found_at(tree: &tree_sitter::Tree, point: Point, index: usize) -> (res: bool)
    requires
        index < nodes_of(*tree).len(),
        point.is_small(),
    ensures
        res == is_found(*tree, point.row, point.column, index),
        res && index > 0 ==> nodes_of(*tree)[index as int].holds(point),
        !res ==> exists|i: usize|
            is_candidate(nodes_of(*tree), point, i as int) && #[trigger] is_found(
                *tree,
                point.row,
                point.column,
                i,
            ),
{
    let at = tree_sitter::Point { row: point.row, column: point.column };
    let mut cursor = tree.walk();
    cursor.goto_descendant(index);
    tree.root_node().descendant_for_point_range(at, at) == Some(cursor.node())
}

/// Calls `tree_sitter::Query::new` and `tree_sitter::QueryCursor::captures` on the whole
/// tree, and hands out the kind and the place of the node that the first match to come has
/// under `name`.
///
/// The cursor reads the text of the nodes that the query's predicates speak of, which is
/// why all of it has to lie in `src`. Not every query can be compiled without harm; the one
/// that is used here can.
///
/// What the query captures as the name is one of the nodes that a walk meets, below a
/// wrapper, below a node that has the key `#name` below an earlier wrapper. The contract says
/// no more: of which kinds these nodes are, and whether anything is captured at all, depends
/// on the language, in which a kind that the query names may be absent or stand for a group
/// of kinds, and where a match may be handed out before all of it is captured if the grammar
/// leaves no doubt of the rest.
#[verifier::external_body]
fn first_capture(tree: &tree_sitter::Tree, src: &str, query: &str, name: &str) -> (res: Option<
    Capture,
>)
    requires
        spans_within(nodes_of(*tree), encode_utf8(src@).len()),
        query@ == DEFINITION_QUERY@,
        name@ == "name"@,
    ensures
        capture_view(res) == first_captured(*tree, src@, query@, name@),
        (match res {
            Some(capture) => captures_a_name(nodes_of(*tree), src@, capture@),
            None => true,
        }),
{
    let compiled = tree_sitter::Query::new(&tree.language(), query).ok()?;
    let index = compiled.capture_index_for_name(name)?;
    let mut cursor = tree_sitter::QueryCursor::new();
    let mut captures = cursor.captures(&compiled, tree.root_node(), src.as_bytes());
    let (found, _) = captures.next()?;
    let node = found.nodes_for_capture_index(index).next()?;
    let kind = node.kind().to_string();
    Some(Capture { kind, start_byte: node.start_byte(), end_byte: node.end_byte() })
}

/// The number of the first node from `from` on that is found at a point.
pub open spec fn number_found_from(tree: tree_sitter::Tree, point: Point, from: int) -> Option<int>
    decreases nodes_of(tree).len() - from,
{
    if from >= nodes_of(tree).len() {
        None
    } else if is_candidate(nodes_of(tree), point, from) && is_found(
        tree,
        point.row,
        point.column,
        from as usize,
    ) {
        Some(from)
    } else {
        number_found_from(tree, point, from + 1)
    }
}

/// The number of the node found at a point.
pub open spec fn number_found(tree: tree_sitter::Tree, point: Point) -> Option<int> {
    number_found_from(tree, point, 0)
}

/// The number found at a point is that of a node, which is the root or lies at the point.
pub proof fn found_nodes_lie_at_the_point(tree: tree_sitter::Tree, point: Point)
    ensures
        number_found(tree, point) matches Some(i) ==> {
            &&& 0 <= i < nodes_of(tree).len()
            &&& is_found(tree, point.row, point.column, i as usize)
            &&& i > 0 ==> nodes_of(tree)[i].holds(point)
        },
{
    lemma_number_found_from(tree, point, 0);
}

proof fn lemma_number_found_from(tree: tree_sitter::Tree, point: Point, from: int)
    ensures
        number_found_from(tree, point, from) matches Some(i) ==> {
            &&& from <= i < nodes_of(tree).len()
            &&& is_found(tree, point.row, point.column, i as usize)
            &&& is_candidate(nodes_of(tree), point, i)
        },
        number_found_from(tree, point, from) is None ==> forall|i: usize|
            from <= i && is_candidate(nodes_of(tree), point, i as int) ==> !(#[trigger] is_found(
                tree,
                point.row,
                point.column,
                i,
            )),
    decreases nodes_of(tree).len() - from,
{
    if from < nodes_of(tree).len() {
        lemma_number_found_from(tree, point, from + 1);
    }
}

/// A language that is known to load.
pub struct Grammar {
    language: tree_sitter::Language,
}

impl Grammar {
    #[verifier::type_invariant]
    closed spec fn is_loadable(self) -> bool {
        loads(self.language)
    }

    /// The language itself.
    pub closed spec fn language(self) -> tree_sitter::Language {
        self.language
    }

    /// Takes a language; `None` where tree-sitter does not take it.
    pub fn new(language: tree_sitter::Language) -> (res: Option<Grammar>)
        ensures
            (match res {
                Some(grammar) => loads(language) && grammar.language() == language,
                None => !loads(language),
            }),
    {
        if language_loads(&language) {
            Some(Grammar { language })
        } else {
            None
        }
    }

    /// Parses a source.
    pub fn parse(&self, src: &str) -> (res: Parse)
        requires
            encode_utf8(src@).len() <= u32::MAX,
        ensures
            res.tree() == parsed(self.language(), src@),
            spans_within(nodes_of(res.tree()), encode_utf8(src@).len()),
    {
        proof {
            use_type_invariant(self);
        }
        Parse { tree: parse_source(&self.language, src) }
    }
}

/// What parsing a source gave.
pub struct Parse {
    tree: tree_sitter::Tree,
}

impl Parse {
    #[verifier::type_invariant]
    closed spec fn is_whole(self) -> bool {
        &&& is_walk(nodes_of(self.tree))
        &&& is_placed(nodes_of(self.tree))
        &&& starts_in_order(nodes_of(self.tree))
    }

    /// The tree itself.
    pub closed spec fn tree(self) -> tree_sitter::Tree {
        self.tree
    }

    /// Returns the tree as plain values.
    pub fn syntax_tree(&self) -> (res: SyntaxTree)
        ensures
            res@ == nodes_of(self.tree()),
            is_walk(res@),
            is_placed(res@),
            starts_in_order(res@),
    {
        proof {
            use_type_invariant(self);
        }
        let count = node_count(&self.tree);
        let mut nodes: Vec<SyntaxNode> = Vec::new();
        let mut i: usize = 0;
        while i < count
            invariant
                count == nodes_of(self.tree).len(),
                i <= count,
                views(nodes@) =~= nodes_of(self.tree).take(i as int),
            decreases count - i,
        {
            let ghost before = nodes@;
            let node = node_at(&self.tree, i);
            nodes.push(node);
            assert(views(nodes@) =~= views(before).push(node@));
            i += 1;
        }
        assert(views(nodes@) =~= nodes_of(self.tree));
        SyntaxTree::new(nodes).unwrap()
    }

    /// Returns the number of the node found at `point`, given the tree as plain values.
    pub fn find_at(&self, tree: &SyntaxTree, point: Point) -> (res: Option<usize>)
        requires
            tree@ == nodes_of(self.tree()),
            point.is_small(),
        ensures
            (match res {
                Some(i) => i < nodes_of(self.tree()).len() && number_found(self.tree(), point)
                    == Some(i as int),
                None => false,
            }),
    {
        let count = tree.len();
        let mut i: usize = 0;
        while i < count
            invariant
                tree@ == nodes_of(self.tree),
                point.is_small(),
                count == tree@.len(),
                i <= count,
                number_found(self.tree, point) == number_found_from(self.tree, point, i as int),
                i > 0 ==> exists|k: usize|
                    is_candidate(nodes_of(self.tree), point, k as int) && #[trigger] is_found(
                        self.tree,
                        point.row,
                        point.column,
                        k,
                    ),
            decreases count - i,
        {
            if (i == 0 || tree.node(i).is_at(point)) && found_at(&self.tree, point, i) {
                return Some(i);
            }
            i += 1;
        }
        proof {
            lemma_number_found_from(self.tree, point, 0);
        }
        None
    }

    /// Returns the node that [`DEFINITION_QUERY`] captures as the name that a file defines.
    pub fn capture_name(&self, src: &str) -> (res: Option<Capture>)
        requires
            spans_within(nodes_of(self.tree()), encode_utf8(src@).len()),
        ensures
            capture_view(res) == first_captured(self.tree(), src@, DEFINITION_QUERY@, "name"@),
            (match res {
                Some(capture) => captures_a_name(nodes_of(self.tree()), src@, capture@),
                None => true,
            }),
    {
        first_capture(&self.tree, src, DEFINITION_QUERY, "name")
    }
}

} // verus!
