//! Syntax trees as plain values.
//!
//! A tree is the list of its nodes in the order in which a walk from the root meets them,
//! each node before its children. How deep each node lies below the root fixes the shape.

use vstd::prelude::*;

use crate::text::same_text;

verus! {

/// A place in a source text: a zero-based row and the byte offset in it.
#[derive(Clone, Copy, Debug, PartialEq, Eq, Structural)]
pub struct Point {
    pub row: usize,
    pub column: usize,
}

impl Point {
    /// Whether this point comes before `other`.
    pub open spec fn lt(self, other: Point) -> bool {
        self.row < other.row || (self.row == other.row && self.column < other.column)
    }

    /// Tells whether this point comes before `other`.
    fn is_before(&self, other: &Point) -> (res: bool)
        ensures
            res == self.lt(*other),
    {
        self.row < other.row || (self.row == other.row && self.column < other.column)
    }

    /// Whether the row and the column can be told in 32 bits.
    pub open spec fn is_small(self) -> bool {
        self.row <= u32::MAX && self.column <= u32::MAX
    }
}

/// A node of a syntax tree.
#[derive(Clone, Debug, PartialEq, Eq)]
pub struct SyntaxNode {
    /// The name of the node's type in the grammar.
    pub kind: String,
    /// The field under which the parent holds the node, where it has one.
    pub field: Option<String>,
    /// How many nodes lie above this one.
    pub depth: usize,
    /// Whether the grammar names the node's type, as against a literal token.
    pub named: bool,
    /// Whether the parser put the node in for a token that is absent.
    pub missing: bool,
    /// Whether the node holds what the parser could not make sense of.
    pub error: bool,
    /// Whether there is a syntax error in the node or below it.
    pub has_error: bool,
    /// The byte offset where the node's text starts.
    pub start_byte: usize,
    /// The byte offset where the node's text ends.
    pub end_byte: usize,
    /// The place where the node's text starts.
    pub start: Point,
    /// The place where the node's text ends.
    pub end: Point,
}

/// What a [`SyntaxNode`] says.
pub struct NodeView {
    pub kind: Seq<char>,
    pub field: Option<Seq<char>>,
    pub depth: usize,
    pub named: bool,
    pub missing: bool,
    pub error: bool,
    pub has_error: bool,
    pub start_byte: usize,
    pub end_byte: usize,
    pub start: Point,
    pub end: Point,
}

impl View for SyntaxNode {
    type V = NodeView;

    open spec fn view(&self) -> NodeView {
        NodeView {
            kind: self.kind@,
            field: match self.field {
                Some(name) => Some(name@),
                None => None,
            },
            depth: self.depth,
            named: self.named,
            missing: self.missing,
            error: self.error,
            has_error: self.has_error,
            start_byte: self.start_byte,
            end_byte: self.end_byte,
            start: self.start,
            end: self.end,
        }
    }
}

impl NodeView {
    /// Whether the node lies at the point: its text starts there or before and ends behind
    /// it, or it has no text and lies just there.
    pub open spec fn holds(self, point: Point) -> bool {
        !point.lt(self.start) && (point.lt(self.end) || (self.start == self.end && point
            == self.end))
    }
}

impl SyntaxNode {
    /// Tells whether the node lies at the point.
    pub fn is_at(&self, point: Point) -> (res: bool)
        ensures
            res == self@.holds(point),
    {
        !point.is_before(&self.start) && (point.is_before(&self.end) || (self.start == self.end
            && point == self.end))
    }
}

/// Whether the places of the nodes can be told in 32 bits, and the text of every node that
/// takes any bytes ends behind where it starts.
pub open spec fn is_placed(nodes: Seq<NodeView>) -> bool {
    forall|i: int|
        0 <= i < nodes.len() ==> {
            &&& (#[trigger] nodes[i]).start.is_small()
            &&& nodes[i].end.is_small()
            &&& nodes[i].start_byte < nodes[i].end_byte ==> nodes[i].start.lt(nodes[i].end)
        }
}

/// Whether no node starts before one that a walk meets earlier.
#[verifier::opaque]
pub open spec fn starts_in_order(nodes: Seq<NodeView>) -> bool {
    forall|i: int, j: int|
        0 <= i <= j < nodes.len() ==> !(#[trigger] nodes[j]).start.lt((#[trigger] nodes[i]).start)
}

/// Whether a list of nodes is a tree in the order of a walk: one root, and each later node
/// at most one level below the node before it.
pub open spec fn is_walk(nodes: Seq<NodeView>) -> bool {
    &&& nodes.len() > 0
    &&& nodes[0].depth == 0
    &&& forall|i: int| 0 < i < nodes.len() ==> 0 < (#[trigger] nodes[i]).depth <= nodes[i
        - 1].depth + 1
}

/// Whether every node's text lies in a source of `len` bytes.
pub open spec fn spans_within(nodes: Seq<NodeView>, len: nat) -> bool {
    forall|i: int|
        0 <= i < nodes.len() ==> (#[trigger] nodes[i]).start_byte <= nodes[i].end_byte <= len
}

/// The first node from `from` on that does not lie below a node at `depth`.
pub open spec fn next_outside(nodes: Seq<NodeView>, depth: usize, from: int) -> int
    decreases nodes.len() - from,
{
    if from >= nodes.len() {
        nodes.len() as int
    } else if nodes[from].depth <= depth {
        from
    } else {
        next_outside(nodes, depth, from + 1)
    }
}

/// Where the nodes below `i` end.
pub open spec fn subtree_end(nodes: Seq<NodeView>, i: int) -> int {
    next_outside(nodes, nodes[i].depth, i + 1)
}

/// Whether `j` is a child of `i`.
pub open spec fn is_child(nodes: Seq<NodeView>, i: int, j: int) -> bool {
    &&& 0 <= i < j < nodes.len()
    &&& nodes[j].depth == nodes[i].depth + 1
    &&& forall|k: int| i < k < j ==> nodes[i].depth < (#[trigger] nodes[k]).depth
}

/// Whether `j` is a named child of `i`.
pub open spec fn is_named_child(nodes: Seq<NodeView>, i: int, j: int) -> bool {
    is_child(nodes, i, j) && nodes[j].named
}

/// The last node before `from` that is less deep than `depth`.
pub open spec fn last_above(nodes: Seq<NodeView>, depth: usize, from: int) -> Option<int>
    decreases from,
{
    if from <= 0 {
        None
    } else if nodes[from - 1].depth < depth {
        Some(from - 1)
    } else {
        last_above(nodes, depth, from - 1)
    }
}

/// The parent of `i`, where it has one.
pub open spec fn parent_of(nodes: Seq<NodeView>, i: int) -> Option<int> {
    last_above(nodes, nodes[i].depth, i)
}

proof fn lemma_last_above(nodes: Seq<NodeView>, depth: usize, from: int)
    requires
        from <= nodes.len(),
    ensures
        match last_above(nodes, depth, from) {
            Some(p) => {
                &&& 0 <= p < from
                &&& nodes[p].depth < depth
                &&& forall|k: int| p < k < from ==> depth <= (#[trigger] nodes[k]).depth
            },
            None => forall|k: int| 0 <= k < from ==> depth <= (#[trigger] nodes[k]).depth,
        },
    decreases from,
{
    if from > 0 && nodes[from - 1].depth >= depth {
        lemma_last_above(nodes, depth, from - 1);
    }
}

proof fn lemma_next_outside(nodes: Seq<NodeView>, depth: usize, from: int)
    requires
        0 <= from <= nodes.len(),
    ensures
        from <= next_outside(nodes, depth, from) <= nodes.len(),
        forall|k: int| from <= k < next_outside(nodes, depth, from) ==> depth < (
        #[trigger] nodes[k]).depth,
        next_outside(nodes, depth, from) < nodes.len() ==> nodes[next_outside(
            nodes,
            depth,
            from,
        )].depth <= depth,
    decreases nodes.len() - from,
{
    if from < nodes.len() && nodes[from].depth > depth {
        lemma_next_outside(nodes, depth, from + 1);
    }
}

/// The nodes below a node follow it without a gap, and those below one of them end no later
/// than its own.
pub proof fn subtrees_are_nested(nodes: Seq<NodeView>, i: int, j: int)
    requires
        0 <= i < nodes.len(),
    ensures
        i < subtree_end(nodes, i) <= nodes.len(),
        i < j < subtree_end(nodes, i) ==> nodes[i].depth < nodes[j].depth && subtree_end(nodes, j)
            <= subtree_end(nodes, i),
{
    lemma_next_outside(nodes, nodes[i].depth, i + 1);
    if i < j < subtree_end(nodes, i) {
        lemma_next_outside(nodes, nodes[j].depth, j + 1);
    }
}

/// Being the parent and being a child are the same bond seen from its two ends.
pub proof fn parent_and_child_agree(nodes: Seq<NodeView>, i: int, j: int)
    requires
        is_walk(nodes),
        0 <= j < nodes.len(),
    ensures
        parent_of(nodes, j) == Some(i) <==> is_child(nodes, i, j),
{
    lemma_last_above(nodes, nodes[j].depth, j);
    if parent_of(nodes, j) == Some(i) {
        if i + 1 < j {
            assert(nodes[i + 1].depth <= nodes[i + 1 - 1].depth + 1);
        } else {
            assert(nodes[j].depth <= nodes[j - 1].depth + 1);
        }
        assert(nodes[j].depth == nodes[i].depth + 1);
    }
    if is_child(nodes, i, j) {
        let p = parent_of(nodes, j);
        if p is Some && p->0 != i {
            if p->0 < i {
                assert(nodes[i].depth >= nodes[j].depth);
            } else {
                assert(nodes[i].depth < nodes[p->0].depth);
            }
        }
        if p is None {
            assert(nodes[j].depth <= nodes[i].depth);
        }
    }
}

/// Every node but the root has a parent, which comes before it; the root has none.
pub proof fn only_the_root_has_no_parent(nodes: Seq<NodeView>, i: int)
    requires
        is_walk(nodes),
        0 <= i < nodes.len(),
    ensures
        parent_of(nodes, i) is None <==> i == 0,
        parent_of(nodes, i) matches Some(p) ==> 0 <= p < i,
{
    lemma_last_above(nodes, nodes[i].depth, i);
}

/// The children of `i` from `from` on, in order; only the named ones where `named_only`.
pub open spec fn children_from(
    nodes: Seq<NodeView>,
    i: int,
    from: int,
    named_only: bool,
) -> Seq<int>
    decreases nodes.len() - from,
{
    if from >= nodes.len() || nodes[from].depth <= nodes[i].depth {
        Seq::empty()
    } else {
        let rest = children_from(nodes, i, from + 1, named_only);
        if nodes[from].depth == nodes[i].depth + 1 && (named_only ==> nodes[from].named) {
            seq![from] + rest
        } else {
            rest
        }
    }
}

/// The children of `i`, in order.
pub open spec fn children_of(nodes: Seq<NodeView>, i: int) -> Seq<int> {
    children_from(nodes, i, i + 1, false)
}

/// The named children of `i`, in order.
pub open spec fn named_children_of(nodes: Seq<NodeView>, i: int) -> Seq<int> {
    children_from(nodes, i, i + 1, true)
}

proof fn lemma_children_from(nodes: Seq<NodeView>, i: int, from: int, named_only: bool)
    requires
        0 <= i < from <= nodes.len(),
        forall|k: int| i < k < from ==> nodes[i].depth < (#[trigger] nodes[k]).depth,
    ensures
        forall|j: int| #[trigger]
            children_from(nodes, i, from, named_only).contains(j) <==> from <= j && is_child(
                nodes,
                i,
                j,
            ) && (named_only ==> nodes[j].named),
    decreases nodes.len() - from,
{
    let list = children_from(nodes, i, from, named_only);
    if from >= nodes.len() || nodes[from].depth <= nodes[i].depth {
        assert forall|j: int| from <= j implies !is_child(nodes, i, j) by {
            if is_child(nodes, i, j) {
                if j > from {
                    assert(nodes[i].depth < nodes[from].depth);
                }
            }
        }
    } else {
        lemma_children_from(nodes, i, from + 1, named_only);
        let rest = children_from(nodes, i, from + 1, named_only);
        assert forall|j: int| #[trigger] list.contains(j) <==> from <= j && is_child(nodes, i, j)
            && (named_only ==> nodes[j].named) by {
            if nodes[from].depth == nodes[i].depth + 1 && (named_only ==> nodes[from].named) {
                assert(list == seq![from] + rest);
                if list.contains(j) {
                    let k = choose|k: int| 0 <= k < list.len() && list[k] == j;
                    if k > 0 {
                        assert(rest[k - 1] == j);
                        assert(rest.contains(j));
                    }
                }
                if rest.contains(j) {
                    let k = choose|k: int| 0 <= k < rest.len() && rest[k] == j;
                    assert(list[k + 1] == j);
                }
                if j == from {
                    assert(list[0] == j);
                }
            } else {
                assert(list == rest);
            }
            assert(rest.contains(j) <==> from + 1 <= j && is_child(nodes, i, j) && (named_only
                ==> nodes[j].named));
        }
    }
}

/// The list of a node's children holds its children and no other node.
pub proof fn children_are_listed(nodes: Seq<NodeView>, i: int, j: int)
    requires
        0 <= i < nodes.len(),
    ensures
        children_of(nodes, i).contains(j) <==> is_child(nodes, i, j),
        named_children_of(nodes, i).contains(j) <==> is_named_child(nodes, i, j),
{
    lemma_children_from(nodes, i, i + 1, false);
    lemma_children_from(nodes, i, i + 1, true);
}

/// The first node of a list that is of `kind`.
pub open spec fn first_of_kind(nodes: Seq<NodeView>, list: Seq<int>, kind: Seq<char>) -> Option<
    int,
>
    decreases list.len(),
{
    if list.len() == 0 {
        None
    } else if nodes[list[0]].kind == kind {
        Some(list[0])
    } else {
        first_of_kind(nodes, list.drop_first(), kind)
    }
}

/// The first named child of `i` that is of `kind`.
pub open spec fn named_child_of_kind(nodes: Seq<NodeView>, i: int, kind: Seq<char>) -> Option<
    int,
> {
    first_of_kind(nodes, named_children_of(nodes, i), kind)
}

/// The first named child of `i`.
pub open spec fn first_named_child(nodes: Seq<NodeView>, i: int) -> Option<int> {
    let list = named_children_of(nodes, i);
    if list.len() == 0 {
        None
    } else {
        Some(list[0])
    }
}

/// The child of a kind that is found is a named child of that kind, and the first named child
/// is a named child.
pub proof fn children_found_are_children(nodes: Seq<NodeView>, i: int, kind: Seq<char>)
    requires
        0 <= i < nodes.len(),
    ensures
        named_child_of_kind(nodes, i, kind) matches Some(j) ==> is_named_child(nodes, i, j)
            && nodes[j].kind == kind,
        first_named_child(nodes, i) matches Some(j) ==> is_named_child(nodes, i, j),
{
    let list = named_children_of(nodes, i);
    lemma_first_of_kind(nodes, list, kind);
    if let Some(j) = named_child_of_kind(nodes, i, kind) {
        children_are_listed(nodes, i, j);
    }
    if list.len() > 0 {
        assert(list.contains(list[0]));
        children_are_listed(nodes, i, list[0]);
    }
}

proof fn lemma_first_of_kind(nodes: Seq<NodeView>, list: Seq<int>, kind: Seq<char>)
    ensures
        first_of_kind(nodes, list, kind) matches Some(j) ==> list.contains(j) && nodes[j].kind
            == kind,
    decreases list.len(),
{
    if list.len() > 0 {
        let rest = list.drop_first();
        lemma_first_of_kind(nodes, rest, kind);
        assert(list.contains(list[0]));
        if let Some(j) = first_of_kind(nodes, rest, kind) {
            let k = choose|k: int| 0 <= k < rest.len() && rest[k] == j;
            assert(list[k + 1] == j);
        }
    }
}

/// Whether `i` holds a child under the field `field`.
pub open spec fn has_field(nodes: Seq<NodeView>, i: int, field: Seq<char>) -> bool {
    exists|j: int| #[trigger] is_child(nodes, i, j) && nodes[j].field == Some(field)
}

/// The nearest of `i` and the nodes above it that is of `kind`.
pub open spec fn enclosing(nodes: Seq<NodeView>, i: int, kind: Seq<char>) -> Option<int>
    decreases i,
{
    if i < 0 || nodes[i].kind == kind {
        if i < 0 {
            None
        } else {
            Some(i)
        }
    } else {
        match parent_of(nodes, i) {
            Some(p) => if 0 <= p < i {
                enclosing(nodes, p, kind)
            } else {
                None
            },
            None => None,
        }
    }
}

/// Whether `a` is `i` or a node above it.
pub open spec fn is_around(nodes: Seq<NodeView>, a: int, i: int) -> bool {
    0 <= a <= i < subtree_end(nodes, a)
}

/// What is around a node is the node itself and what is around its parent; around the root
/// there is the root alone.
pub proof fn around_goes_by_parents(nodes: Seq<NodeView>, a: int, i: int)
    requires
        is_walk(nodes),
        0 <= i < nodes.len(),
    ensures
        is_around(nodes, a, i) <==> a == i || match parent_of(nodes, i) {
            Some(p) => is_around(nodes, a, p),
            None => false,
        },
{
    lemma_last_above(nodes, nodes[i].depth, i);
    lemma_next_outside(nodes, nodes[i].depth, i + 1);
    if 0 <= a < i {
        let end = subtree_end(nodes, a);
        lemma_next_outside(nodes, nodes[a].depth, a + 1);
        match parent_of(nodes, i) {
            Some(p) => {
                if i < end {
                    assert(nodes[a].depth < nodes[i].depth);
                }
                if a <= p < end && end <= i {
                    assert(nodes[end].depth >= nodes[i].depth);
                    if a < p {
                        assert(nodes[a].depth < nodes[p].depth);
                    }
                }
            },
            None => {
                assert(nodes[a].depth >= nodes[i].depth);
            },
        }
    }
}

/// The enclosing node of a kind is a node around of that kind, and no other node of the kind
/// is around and further in; there is none exactly where no node around is of the kind.
pub proof fn enclosing_is_the_nearest(nodes: Seq<NodeView>, i: int, kind: Seq<char>, a: int)
    requires
        is_walk(nodes),
        0 <= i < nodes.len(),
    ensures
        (match enclosing(nodes, i, kind) {
            Some(m) => is_around(nodes, m, i) && nodes[m].kind == kind && (is_around(nodes, a, i)
                && nodes[a].kind == kind ==> a <= m),
            None => is_around(nodes, a, i) ==> nodes[a].kind != kind,
        }),
    decreases i,
{
    around_goes_by_parents(nodes, a, i);
    around_goes_by_parents(nodes, i, i);
    only_the_root_has_no_parent(nodes, i);
    if nodes[i].kind != kind {
        if let Some(p) = parent_of(nodes, i) {
            enclosing_is_the_nearest(nodes, p, kind, a);
            if let Some(m) = enclosing(nodes, p, kind) {
                around_goes_by_parents(nodes, m, i);
            }
        }
    }
}

/// A list of indices as numbers.
pub open spec fn indices(list: Seq<usize>) -> Seq<int> {
    list.map_values(|i: usize| i as int)
}

/// A syntax tree.
pub struct SyntaxTree {
    nodes: Vec<SyntaxNode>,
}

impl View for SyntaxTree {
    type V = Seq<NodeView>;

    closed spec fn view(&self) -> Seq<NodeView> {
        views(self.nodes@)
    }
}

/// What each node of a list says.
pub open spec fn views(nodes: Seq<SyntaxNode>) -> Seq<NodeView> {
    nodes.map_values(|n: SyntaxNode| n@)
}

impl SyntaxTree {
    #[verifier::type_invariant]
    closed spec fn is_tree(self) -> bool {
        is_walk(self@)
    }

    /// Makes a tree of its nodes in the order of a walk; `None` where they are no tree.
    pub fn new(nodes: Vec<SyntaxNode>) -> (res: Option<SyntaxTree>)
        ensures
            (match res {
                Some(tree) => is_walk(views(nodes@)) && tree@ == views(nodes@),
                None => !is_walk(views(nodes@)),
            }),
    {
        if nodes.len() == 0 || nodes[0].depth != 0 {
            return None;
        }
        let ghost all = views(nodes@);
        let mut i: usize = 1;
        while i < nodes.len()
            invariant
                all == views(nodes@),
                1 <= i <= nodes@.len(),
                all[0].depth == 0,
                forall|k: int| 0 < k < i ==> 0 < (#[trigger] all[k]).depth <= all[k - 1].depth + 1,
            decreases nodes@.len() - i,
        {
            assert(all[i as int] == nodes@[i as int]@);
            assert(all[i - 1] == nodes@[i - 1]@);
            if nodes[i].depth == 0 || nodes[i].depth - 1 > nodes[i - 1].depth {
                return None;
            }
            i += 1;
        }
        Some(SyntaxTree { nodes })
    }

    /// Returns how many nodes the tree has.
    pub fn len(&self) -> (res: usize)
        ensures
            res == self@.len(),
            is_walk(self@),
    {
        proof {
            use_type_invariant(self);
        }
        self.nodes.len()
    }

    /// Returns the node at `i`.
    pub fn node(&self, i: usize) -> (res: &SyntaxNode)
        requires
            i < self@.len(),
        ensures
            res@ == self@[i as int],
    {
        &self.nodes[i]
    }

    /// Tells whether the node at `i` is of `kind`.
    pub fn is_kind(&self, i: usize, kind: &str) -> (res: bool)
        requires
            i < self@.len(),
        ensures
            res == (self@[i as int].kind == kind@),
    {
        same_text(self.nodes[i].kind.as_str(), kind)
    }

    /// Returns the parent of the node at `i`.
    pub fn parent(&self, i: usize) -> (res: Option<usize>)
        requires
            i < self@.len(),
        ensures
            (match res {
                Some(p) => p < i && parent_of(self@, i as int) == Some(p as int),
                None => parent_of(self@, i as int) is None,
            }),
    {
        let depth = self.nodes[i].depth;
        let mut from: usize = i;
        while from > 0
            invariant
                from <= i < self@.len(),
                self@ == views(self.nodes@),
                depth == self@[i as int].depth,
                parent_of(self@, i as int) == last_above(self@, depth, from as int),
            decreases from,
        {
            assert(self@[from - 1] == self.nodes@[from - 1]@);
            if self.nodes[from - 1].depth < depth {
                return Some(from - 1);
            }
            from -= 1;
        }
        None
    }

    /// Returns where the nodes below the node at `i` end.
    pub fn end_of(&self, i: usize) -> (res: usize)
        requires
            i < self@.len(),
        ensures
            res == subtree_end(self@, i as int),
            i < res <= self@.len(),
    {
        let depth = self.nodes[i].depth;
        assert(i < self.nodes.len());
        let mut from: usize = i + 1;
        while from < self.nodes.len() && self.nodes[from].depth > depth
            invariant
                i < from <= self@.len(),
                self@ == views(self.nodes@),
                depth == self@[i as int].depth,
                subtree_end(self@, i as int) == next_outside(self@, depth, from as int),
            decreases self@.len() - from,
        {
            assert(self@[from as int] == self.nodes@[from as int]@);
            from += 1;
        }
        proof {
            if from < self@.len() {
                assert(self@[from as int] == self.nodes@[from as int]@);
            }
        }
        from
    }

    /// Returns the children of the node at `i`, only the named ones where `named_only`.
    fn collect_children(&self, i: usize, named_only: bool) -> (res: Vec<usize>)
        requires
            i < self@.len(),
        ensures
            indices(res@) == children_from(self@, i as int, i + 1, named_only),
            forall|k: int| 0 <= k < res@.len() ==> i < #[trigger] res@[k] < self@.len(),
            forall|k: int|
                0 <= k < res@.len() ==> is_child(self@, i as int, #[trigger] res@[k] as int),
    {
        let depth = self.nodes[i].depth;
        let mut res: Vec<usize> = Vec::new();
        assert(i < self.nodes.len());
        let mut from: usize = i + 1;
        assert(indices(res@) =~= Seq::<int>::empty());
        while from < self.nodes.len() && self.nodes[from].depth > depth
            invariant
                i < from <= self@.len(),
                self@ == views(self.nodes@),
                depth == self@[i as int].depth,
                children_from(self@, i as int, i + 1, named_only) =~= indices(res@)
                    + children_from(self@, i as int, from as int, named_only),
            decreases self@.len() - from,
        {
            assert(self@[from as int] == self.nodes@[from as int]@);
            let node = &self.nodes[from];
            let ghost before = indices(res@);
            if node.depth - 1 == depth && (!named_only || node.named) {
                res.push(from);
                assert(indices(res@) =~= before + seq![from as int]);
            }
            from += 1;
        }
        proof {
            if from < self@.len() {
                assert(self@[from as int] == self.nodes@[from as int]@);
            }
            assert(children_from(self@, i as int, from as int, named_only) =~= Seq::<int>::empty());
            lemma_children_from(self@, i as int, i + 1, named_only);
            assert forall|k: int| 0 <= k < res@.len() implies is_child(
                self@,
                i as int,
                #[trigger] res@[k] as int,
            ) by {
                assert(indices(res@)[k] == res@[k]);
                assert(children_from(self@, i as int, i + 1, named_only).contains(
                    res@[k] as int,
                ));
            }
        }
        res
    }

    /// Returns the children of the node at `i`, in order.
    pub fn children(&self, i: usize) -> (res: Vec<usize>)
        requires
            i < self@.len(),
        ensures
            indices(res@) == children_of(self@, i as int),
            forall|k: int| 0 <= k < res@.len() ==> i < #[trigger] res@[k] < self@.len(),
    {
        self.collect_children(i, false)
    }

    /// Returns the named children of the node at `i`, in order.
    pub fn named_children(&self, i: usize) -> (res: Vec<usize>)
        requires
            i < self@.len(),
        ensures
            indices(res@) == named_children_of(self@, i as int),
            forall|k: int| 0 <= k < res@.len() ==> i < #[trigger] res@[k] < self@.len(),
    {
        self.collect_children(i, true)
    }

    /// Returns the first named child of the node at `i`.
    pub fn first_named(&self, i: usize) -> (res: Option<usize>)
        requires
            i < self@.len(),
        ensures
            (match res {
                Some(j) => i < j < self@.len() && first_named_child(self@, i as int) == Some(
                    j as int,
                ),
                None => first_named_child(self@, i as int) is None,
            }),
    {
        let list = self.named_children(i);
        if list.len() == 0 {
            None
        } else {
            assert(indices(list@)[0] == list@[0]);
            Some(list[0])
        }
    }

    /// Returns the first named child of the node at `i` that is of `kind`.
    pub fn named_of_kind(&self, i: usize, kind: &str) -> (res: Option<usize>)
        requires
            i < self@.len(),
        ensures
            (match res {
                Some(j) => i < j < self@.len() && named_child_of_kind(self@, i as int, kind@)
                    == Some(j as int),
                None => named_child_of_kind(self@, i as int, kind@) is None,
            }),
    {
        let list = self.named_children(i);
        let ghost all = indices(list@);
        let mut k: usize = 0;
        assert(all.skip(0) =~= all);
        while k < list.len()
            invariant
                k <= list@.len(),
                all == indices(list@),
                all == named_children_of(self@, i as int),
                forall|m: int| 0 <= m < list@.len() ==> i < #[trigger] list@[m] < self@.len(),
                first_of_kind(self@, all, kind@) == first_of_kind(self@, all.skip(k as int), kind@),
            decreases list@.len() - k,
        {
            assert(all[k as int] == list@[k as int]);
            assert(all.skip(k as int)[0] == all[k as int]);
            if self.is_kind(list[k], kind) {
                return Some(list[k]);
            }
            assert(all.skip(k as int).drop_first() =~= all.skip(k + 1));
            k += 1;
        }
        None
    }

    /// Tells whether the node at `i` holds a child under the field `field`.
    pub fn holds_field(&self, i: usize, field: &str) -> (res: bool)
        requires
            i < self@.len(),
        ensures
            res == has_field(self@, i as int, field@),
    {
        let list = self.children(i);
        let ghost all = indices(list@);
        let mut k: usize = 0;
        while k < list.len()
            invariant
                i < self@.len(),
                k <= list@.len(),
                all == indices(list@),
                all == children_of(self@, i as int),
                forall|m: int| 0 <= m < list@.len() ==> i < #[trigger] list@[m] < self@.len(),
                forall|m: int| 0 <= m < k ==> self@[#[trigger] all[m]].field != Some(field@),
            decreases list@.len() - k,
        {
            assert(all[k as int] == list@[k as int]);
            if self.is_under_field(list[k], field) {
                proof {
                    assert(children_of(self@, i as int).contains(all[k as int]));
                    children_are_listed(self@, i as int, all[k as int]);
                }
                return true;
            }
            k += 1;
        }
        proof {
            assert forall|j: int| #[trigger] is_child(self@, i as int, j) implies self@[j].field
                != Some(field@) by {
                children_are_listed(self@, i as int, j);
                let m = choose|m: int| 0 <= m < all.len() && all[m] == j;
                assert(self@[all[m]].field != Some(field@));
            }
        }
        false
    }

    /// Tells whether its parent holds the node at `i` under the field `field`.
    pub fn is_under_field(&self, i: usize, field: &str) -> (res: bool)
        requires
            i < self@.len(),
        ensures
            res == (self@[i as int].field == Some(field@)),
    {
        match &self.nodes[i].field {
            Some(name) => same_text(name.as_str(), field),
            None => false,
        }
    }

    /// Returns the nearest of the node at `i` and the nodes above it that is of `kind`.
    pub fn enclosing_of_kind(&self, i: usize, kind: &str) -> (res: Option<usize>)
        requires
            i < self@.len(),
        ensures
            (match res {
                Some(j) => j <= i && enclosing(self@, i as int, kind@) == Some(j as int),
                None => enclosing(self@, i as int, kind@) is None,
            }),
    {
        let mut at: usize = i;
        while !self.is_kind(at, kind)
            invariant
                at <= i < self@.len(),
                enclosing(self@, i as int, kind@) == enclosing(self@, at as int, kind@),
            decreases at,
        {
            match self.parent(at) {
                Some(p) => {
                    at = p;
                },
                None => {
                    return None;
                },
            }
        }
        Some(at)
    }
}

} // verus!
