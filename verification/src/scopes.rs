//! Which names the blocks and methods of a file declare.

use vstd::prelude::*;

use crate::class_info::{node_text, text_of};
use crate::syntax::{
    around_goes_by_parents, children_are_listed, children_of, indices, is_around, is_child,
    is_named_child, is_walk, named_children_of, only_the_root_has_no_parent, parent_of, NodeView,
    SyntaxTree,
};
use crate::text::same_text;

verus! {

/// Whether the identifier `name` stands in the node, at it or below it, reached through
/// named nodes.
pub open spec fn has_identifier(
    nodes: Seq<NodeView>,
    src: Seq<char>,
    i: int,
    name: Seq<char>,
) -> bool
    decreases nodes.len() - i,
{
    if nodes[i].kind == "identifier"@ {
        node_text(src, nodes[i]) == Some(name)
    } else {
        exists|j: int| #[trigger]
            is_named_child(nodes, i, j) && has_identifier(nodes, src, j, name)
    }
}

/// Whether a block declares `name` as an argument or a temporary.
pub open spec fn block_declares(
    nodes: Seq<NodeView>,
    src: Seq<char>,
    block: int,
    name: Seq<char>,
) -> bool {
    exists|j: int| #[trigger]
        is_named_child(nodes, block, j) && (nodes[j].kind == "block_argument"@ || nodes[j].kind
            == "temporaries"@) && has_identifier(nodes, src, j, name)
}

/// Whether a method's reference, the head of the method, has `name` as a parameter.
pub open spec fn reference_declares(
    nodes: Seq<NodeView>,
    src: Seq<char>,
    reference: int,
    name: Seq<char>,
) -> bool {
    exists|p: int| #[trigger]
        is_child(nodes, reference, p) && nodes[p].field == Some("param"@) && has_identifier(
            nodes,
            src,
            p,
            name,
        )
}

/// Whether a method's body declares `name` as a temporary.
pub open spec fn body_declares(
    nodes: Seq<NodeView>,
    src: Seq<char>,
    body: int,
    name: Seq<char>,
) -> bool {
    exists|b: int| #[trigger]
        is_named_child(nodes, body, b) && nodes[b].kind == "temporaries"@ && has_identifier(
            nodes,
            src,
            b,
            name,
        )
}

/// Whether a method declares `name` as a parameter or a temporary.
pub open spec fn method_declares(
    nodes: Seq<NodeView>,
    src: Seq<char>,
    method: int,
    name: Seq<char>,
) -> bool {
    exists|j: int| #[trigger]
        is_named_child(nodes, method, j) && ((nodes[j].kind == "method_reference"@
            && reference_declares(nodes, src, j, name)) || (nodes[j].kind == "method_body"@
            && body_declares(nodes, src, j, name)))
}

/// Whether `name`, used in the node `i`, is declared by one of the blocks around it or by
/// the method around it.
pub open spec fn is_declared_around(
    nodes: Seq<NodeView>,
    src: Seq<char>,
    i: int,
    name: Seq<char>,
) -> bool
    decreases i,
{
    if nodes[i].kind == "block"@ && block_declares(nodes, src, i, name) {
        true
    } else if nodes[i].kind == "method_definition"@ {
        method_declares(nodes, src, i, name)
    } else {
        match parent_of(nodes, i) {
            Some(p) => 0 <= p < i && is_declared_around(nodes, src, p, name),
            None => false,
        }
    }
}

/// Tells whether the identifier `name` stands at or below the node at `i`.
fn node_has_identifier_named(tree: &SyntaxTree, src: &str, i: usize, name: &str) -> (res: bool)
    requires
        i < tree@.len(),
    ensures
        res == has_identifier(tree@, src@, i as int, name@),
    decreases tree@.len() - i,
{
    if tree.is_kind(i, "identifier") {
        return match text_of(tree, src, i) {
            Some(text) => same_text(text, name),
            None => false,
        };
    }
    let list = tree.named_children(i);
    let ghost all = indices(list@);
    let mut k: usize = 0;
    while k < list.len()
        invariant
            i < tree@.len(),
            k <= list@.len(),
            tree@[i as int].kind != "identifier"@,
            all == indices(list@),
            all == named_children_of(tree@, i as int),
            forall|m: int| 0 <= m < list@.len() ==> i < #[trigger] list@[m] < tree@.len(),
            forall|m: int| 0 <= m < k ==> !has_identifier(tree@, src@, #[trigger] all[m], name@),
        decreases list@.len() - k,
    {
        assert(all[k as int] == list@[k as int]);
        if node_has_identifier_named(tree, src, list[k], name) {
            proof {
                assert(all.contains(all[k as int]));
                children_are_listed(tree@, i as int, all[k as int]);
            }
            return true;
        }
        k += 1;
    }
    proof {
        assert forall|j: int| #[trigger] is_named_child(tree@, i as int, j) implies !has_identifier(
            tree@,
            src@,
            j,
            name@,
        ) by {
            children_are_listed(tree@, i as int, j);
            let m = choose|m: int| 0 <= m < all.len() && all[m] == j;
            assert(!has_identifier(tree@, src@, all[m], name@));
        }
    }
    false
}

/// Tells whether the block at `block` declares `name`.
fn block_declares_identifier(tree: &SyntaxTree, src: &str, block: usize, name: &str) -> (res: bool)
    requires
        block < tree@.len(),
    ensures
        res == block_declares(tree@, src@, block as int, name@),
{
    let list = tree.named_children(block);
    let ghost all = indices(list@);
    let ghost declares = |j: int|
        (tree@[j].kind == "block_argument"@ || tree@[j].kind == "temporaries"@)
            && has_identifier(tree@, src@, j, name@);
    let mut k: usize = 0;
    while k < list.len()
        invariant
            block < tree@.len(),
            k <= list@.len(),
            all == indices(list@),
            all == named_children_of(tree@, block as int),
            forall|j: int| #[trigger]
                declares(j) == ((tree@[j].kind == "block_argument"@ || tree@[j].kind
                    == "temporaries"@) && has_identifier(tree@, src@, j, name@)),
            forall|m: int| 0 <= m < list@.len() ==> block < #[trigger] list@[m] < tree@.len(),
            forall|m: int| 0 <= m < k ==> !declares(#[trigger] all[m]),
        decreases list@.len() - k,
    {
        assert(all[k as int] == list@[k as int]);
        let child = list[k];
        if (tree.is_kind(child, "block_argument") || tree.is_kind(child, "temporaries"))
            && node_has_identifier_named(tree, src, child, name) {
            proof {
                assert(all.contains(all[k as int]));
                children_are_listed(tree@, block as int, all[k as int]);
            }
            return true;
        }
        assert(!declares(all[k as int]));
        k += 1;
    }
    proof {
        assert forall|j: int| #[trigger] is_named_child(tree@, block as int, j) implies !declares(
            j,
        ) by {
            children_are_listed(tree@, block as int, j);
            let m = choose|m: int| 0 <= m < all.len() && all[m] == j;
            assert(!declares(all[m]));
        }
    }
    false
}

/// Tells whether the reference at `reference` has `name` as a parameter.
fn reference_declares_identifier(
    tree: &SyntaxTree,
    src: &str,
    reference: usize,
    name: &str,
) -> (res: bool)
    requires
        reference < tree@.len(),
    ensures
        res == reference_declares(tree@, src@, reference as int, name@),
{
    let list = tree.children(reference);
    let ghost all = indices(list@);
    let ghost declares = |j: int|
        tree@[j].field == Some("param"@) && has_identifier(tree@, src@, j, name@);
    let mut k: usize = 0;
    while k < list.len()
        invariant
            reference < tree@.len(),
            k <= list@.len(),
            all == indices(list@),
            all == children_of(tree@, reference as int),
            forall|j: int| #[trigger]
                declares(j) == (tree@[j].field == Some("param"@) && has_identifier(
                    tree@,
                    src@,
                    j,
                    name@,
                )),
            forall|m: int| 0 <= m < list@.len() ==> reference < #[trigger] list@[m] < tree@.len(),
            forall|m: int| 0 <= m < k ==> !declares(#[trigger] all[m]),
        decreases list@.len() - k,
    {
        assert(all[k as int] == list@[k as int]);
        if tree.is_under_field(list[k], "param") && node_has_identifier_named(
            tree,
            src,
            list[k],
            name,
        ) {
            proof {
                assert(all.contains(all[k as int]));
                children_are_listed(tree@, reference as int, all[k as int]);
            }
            return true;
        }
        assert(!declares(all[k as int]));
        k += 1;
    }
    proof {
        assert forall|j: int| #[trigger] is_child(tree@, reference as int, j) implies !declares(
            j,
        ) by {
            children_are_listed(tree@, reference as int, j);
            let m = choose|m: int| 0 <= m < all.len() && all[m] == j;
            assert(!declares(all[m]));
        }
    }
    false
}

/// Tells whether the body at `body` declares `name` as a temporary.
fn body_declares_identifier(tree: &SyntaxTree, src: &str, body: usize, name: &str) -> (res: bool)
    requires
        body < tree@.len(),
    ensures
        res == body_declares(tree@, src@, body as int, name@),
{
    let list = tree.named_children(body);
    let ghost all = indices(list@);
    let ghost declares = |j: int|
        tree@[j].kind == "temporaries"@ && has_identifier(tree@, src@, j, name@);
    let mut k: usize = 0;
    while k < list.len()
        invariant
            body < tree@.len(),
            k <= list@.len(),
            all == indices(list@),
            all == named_children_of(tree@, body as int),
            forall|j: int| #[trigger]
                declares(j) == (tree@[j].kind == "temporaries"@ && has_identifier(
                    tree@,
                    src@,
                    j,
                    name@,
                )),
            forall|m: int| 0 <= m < list@.len() ==> body < #[trigger] list@[m] < tree@.len(),
            forall|m: int| 0 <= m < k ==> !declares(#[trigger] all[m]),
        decreases list@.len() - k,
    {
        assert(all[k as int] == list@[k as int]);
        if tree.is_kind(list[k], "temporaries") && node_has_identifier_named(
            tree,
            src,
            list[k],
            name,
        ) {
            proof {
                assert(all.contains(all[k as int]));
                children_are_listed(tree@, body as int, all[k as int]);
            }
            return true;
        }
        assert(!declares(all[k as int]));
        k += 1;
    }
    proof {
        assert forall|j: int| #[trigger] is_named_child(tree@, body as int, j) implies !declares(
            j,
        ) by {
            children_are_listed(tree@, body as int, j);
            let m = choose|m: int| 0 <= m < all.len() && all[m] == j;
            assert(!declares(all[m]));
        }
    }
    false
}

/// Tells whether the method at `method` declares `name`.
fn method_declares_identifier(
    tree: &SyntaxTree,
    src: &str,
    method: usize,
    name: &str,
) -> (res: bool)
    requires
        method < tree@.len(),
    ensures
        res == method_declares(tree@, src@, method as int, name@),
{
    let list = tree.named_children(method);
    let ghost all = indices(list@);
    let ghost declares = |j: int|
        (tree@[j].kind == "method_reference"@ && reference_declares(tree@, src@, j, name@)) || (
        tree@[j].kind == "method_body"@ && body_declares(tree@, src@, j, name@));
    let mut k: usize = 0;
    while k < list.len()
        invariant
            method < tree@.len(),
            k <= list@.len(),
            all == indices(list@),
            all == named_children_of(tree@, method as int),
            forall|j: int| #[trigger]
                declares(j) == ((tree@[j].kind == "method_reference"@ && reference_declares(
                    tree@,
                    src@,
                    j,
                    name@,
                )) || (tree@[j].kind == "method_body"@ && body_declares(tree@, src@, j, name@))),
            forall|m: int| 0 <= m < list@.len() ==> method < #[trigger] list@[m] < tree@.len(),
            forall|m: int| 0 <= m < k ==> !declares(#[trigger] all[m]),
        decreases list@.len() - k,
    {
        assert(all[k as int] == list@[k as int]);
        let child = list[k];
        let found = (tree.is_kind(child, "method_reference") && reference_declares_identifier(
            tree,
            src,
            child,
            name,
        )) || (tree.is_kind(child, "method_body") && body_declares_identifier(
            tree,
            src,
            child,
            name,
        ));
        if found {
            proof {
                assert(all.contains(all[k as int]));
                children_are_listed(tree@, method as int, all[k as int]);
            }
            return true;
        }
        assert(!declares(all[k as int]));
        k += 1;
    }
    proof {
        assert forall|j: int| #[trigger] is_named_child(tree@, method as int, j) implies !declares(
            j,
        ) by {
            children_are_listed(tree@, method as int, j);
            let m = choose|m: int| 0 <= m < all.len() && all[m] == j;
            assert(!declares(all[m]));
        }
    }
    false
}

/// Tells whether `name`, used in the node at `i`, is declared by a block or the method
/// around it.
pub fn declared_around(tree: &SyntaxTree, src: &str, i: usize, name: &str) -> (res: bool)
    requires
        i < tree@.len(),
    ensures
        res == is_declared_around(tree@, src@, i as int, name@),
{
    // Check nearest block scopes first (shadowing-aware, nearest wins).
    let mut at: usize = i;
    loop
        invariant
            at <= i < tree@.len(),
            is_declared_around(tree@, src@, i as int, name@) == is_declared_around(
                tree@,
                src@,
                at as int,
                name@,
            ),
        decreases at,
    {
        if tree.is_kind(at, "block") && block_declares_identifier(tree, src, at, name) {
            return true;
        }
        if tree.is_kind(at, "method_definition") {
            return method_declares_identifier(tree, src, at, name);
        }
        match tree.parent(at) {
            Some(p) => {
                at = p;
            },
            None => {
                return false;
            },
        }
    }
}

/// Whether `a` is a scope around `i` that declares `name` and that `i` can see into: a block
/// or the method itself, with no method in between.
pub open spec fn is_declaring_scope(
    nodes: Seq<NodeView>,
    src: Seq<char>,
    a: int,
    i: int,
    name: Seq<char>,
) -> bool {
    &&& is_around(nodes, a, i)
    &&& forall|m: int|
        a < m && #[trigger] is_around(nodes, m, i) ==> nodes[m].kind != "method_definition"@
    &&& (nodes[a].kind == "block"@ && block_declares(nodes, src, a, name)) || (nodes[a].kind
        == "method_definition"@ && method_declares(nodes, src, a, name))
}

/// A name is local exactly where a block around it, within its method, or the method
/// declares it.
pub proof fn locals_are_declared_in_a_scope(
    nodes: Seq<NodeView>,
    src: Seq<char>,
    i: int,
    name: Seq<char>,
)
    requires
        is_walk(nodes),
        0 <= i < nodes.len(),
    ensures
        is_declared_around(nodes, src, i, name) <==> exists|a: int| #[trigger]
            is_declaring_scope(nodes, src, a, i, name),
    decreases i,
{
    only_the_root_has_no_parent(nodes, i);
    around_goes_by_parents(nodes, i, i);
    assert forall|m: int| #[trigger] is_around(nodes, m, i) implies m <= i by {}
    if nodes[i].kind == "block"@ && block_declares(nodes, src, i, name) {
        assert(is_declaring_scope(nodes, src, i, i, name));
    } else if nodes[i].kind == "method_definition"@ {
        if method_declares(nodes, src, i, name) {
            assert(is_declaring_scope(nodes, src, i, i, name));
        }
        assert forall|a: int| a != i implies !#[trigger] is_declaring_scope(
            nodes,
            src,
            a,
            i,
            name,
        ) by {
            if is_declaring_scope(nodes, src, a, i, name) {
                assert(is_around(nodes, i, i));
            }
        }
    } else {
        match parent_of(nodes, i) {
            Some(p) => {
                locals_are_declared_in_a_scope(nodes, src, p, name);
                assert forall|a: int| #[trigger]
                    is_declaring_scope(nodes, src, a, i, name) <==> is_declaring_scope(
                        nodes,
                        src,
                        a,
                        p,
                        name,
                    ) by {
                    around_goes_by_parents(nodes, a, i);
                    if is_declaring_scope(nodes, src, a, i, name) {
                        assert forall|m: int| a < m && #[trigger] is_around(
                            nodes,
                            m,
                            p,
                        ) implies nodes[m].kind != "method_definition"@ by {
                            around_goes_by_parents(nodes, m, i);
                            assert(is_around(nodes, m, i));
                        }
                    }
                    if is_declaring_scope(nodes, src, a, p, name) {
                        assert forall|m: int| a < m && #[trigger] is_around(
                            nodes,
                            m,
                            i,
                        ) implies nodes[m].kind != "method_definition"@ by {
                            around_goes_by_parents(nodes, m, i);
                            if m != i {
                                assert(is_around(nodes, m, p));
                            }
                        }
                    }
                }
                if is_declared_around(nodes, src, p, name) {
                    let a = choose|a: int| #[trigger] is_declaring_scope(nodes, src, a, p, name);
                    assert(is_declaring_scope(nodes, src, a, i, name));
                }
            },
            None => {
                assert forall|a: int| !#[trigger] is_declaring_scope(nodes, src, a, i, name) by {
                    around_goes_by_parents(nodes, a, i);
                }
            },
        }
    }
}

} // verus!
