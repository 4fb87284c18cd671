//! Occurrences of class names in a file.

use vstd::prelude::*;

use crate::class_info::{node_text, plain_name, plain_name_of};
use crate::position::{Position, Range};
use crate::syntax::{is_placed, starts_in_order, NodeView, SyntaxNode, SyntaxTree};
use crate::text::{
    capitalized, is_capitalized, is_plain_name, same_text, written_forms_of_a_name,
};

verus! {

/// Whether nodes of the kind are tokens that can name a class or a variable.
pub open spec fn is_token_kind(kind: Seq<char>) -> bool {
    kind == "identifier"@ || kind == "string"@ || kind == "symbol"@ || kind == "ston_symbol"@
}

/// Tells whether the node at `i` is a token that can name a class or a variable.
pub fn is_token(tree: &SyntaxTree, i: usize) -> (res: bool)
    requires
        i < tree@.len(),
    ensures
        res == is_token_kind(tree@[i as int].kind),
{
    tree.is_kind(i, "identifier") || tree.is_kind(i, "string") || tree.is_kind(i, "symbol")
        || tree.is_kind(i, "ston_symbol")
}

/// Where a node's text lies, in the editor's terms.
pub open spec fn node_range(node: NodeView) -> Range {
    Range {
        start: Position { line: node.start.row as u32, character: node.start.column as u32 },
        end: Position { line: node.end.row as u32, character: node.end.column as u32 },
    }
}

/// Returns where the node's text lies, in the editor's terms.
pub fn node_to_range(node: &SyntaxNode) -> (res: Range)
    ensures
        res == node_range(node@),
{
    Range {
        start: Position { line: node.start.row as u32, character: node.start.column as u32 },
        end: Position { line: node.end.row as u32, character: node.end.column as u32 },
    }
}

/// The occurrences of one class name in a file.
#[derive(Clone, Debug, PartialEq, Eq)]
pub struct ClassReferences {
    pub name: String,
    pub ranges: Vec<Range>,
}

/// The class names of a list.
pub open spec fn reference_names(list: Seq<ClassReferences>) -> Seq<Seq<char>> {
    list.map_values(|r: ClassReferences| r.name@)
}

/// The class that a node names, where it names one.
pub open spec fn class_named_by(src: Seq<char>, node: NodeView) -> Option<Seq<char>> {
    if !is_token_kind(node.kind) {
        None
    } else {
        match plain_name(src, node) {
            Some(name) => if capitalized(name) {
                Some(name)
            } else {
                None
            },
            None => None,
        }
    }
}

/// Returns the class that the node at `i` names, where it names one.
fn class_named<'a>(tree: &SyntaxTree, src: &'a str, i: usize) -> (res: Option<&'a str>)
    requires
        i < tree@.len(),
    ensures
        (match res {
            Some(name) => class_named_by(src@, tree@[i as int]) == Some(name@),
            None => class_named_by(src@, tree@[i as int]) is None,
        }),
{
    if !is_token(tree, i) {
        return None;
    }
    match plain_name_of(tree, src, i) {
        Some(name) => if is_capitalized(name) {
            Some(name)
        } else {
            None
        },
        None => None,
    }
}

/// Where the nodes of a list name the class `name`, in order.
pub open spec fn ranges_naming(nodes: Seq<NodeView>, src: Seq<char>, name: Seq<char>) -> Seq<Range>
    decreases nodes.len(),
{
    if nodes.len() == 0 {
        Seq::empty()
    } else {
        let before = ranges_naming(nodes.drop_last(), src, name);
        if class_named_by(src, nodes.last()) == Some(name) {
            before.push(node_range(nodes.last()))
        } else {
            before
        }
    }
}

/// The classes that the nodes of a list name, each once, in the order in which they are
/// first named.
pub open spec fn classes_named(nodes: Seq<NodeView>, src: Seq<char>) -> Seq<Seq<char>>
    decreases nodes.len(),
{
    if nodes.len() == 0 {
        Seq::empty()
    } else {
        let before = classes_named(nodes.drop_last(), src);
        match class_named_by(src, nodes.last()) {
            Some(name) => if before.contains(name) {
                before
            } else {
                before.push(name)
            },
            None => before,
        }
    }
}

/// Whether `list` gives the classes that `nodes` name, each with all places.
pub open spec fn lists_references(
    list: Seq<ClassReferences>,
    nodes: Seq<NodeView>,
    src: Seq<char>,
) -> bool {
    &&& reference_names(list) == classes_named(nodes, src)
    &&& forall|k: int|
        0 <= k < list.len() ==> (#[trigger] list[k]).ranges@ == ranges_naming(
            nodes,
            src,
            list[k].name@,
        )
}

/// A class is listed exactly where some node names it.
pub proof fn listed_classes_are_named(nodes: Seq<NodeView>, src: Seq<char>, name: Seq<char>)
    ensures
        classes_named(nodes, src).contains(name) <==> ranges_naming(nodes, src, name).len() > 0,
    decreases nodes.len(),
{
    if nodes.len() > 0 {
        let before = classes_named(nodes.drop_last(), src);
        listed_classes_are_named(nodes.drop_last(), src, name);
        if let Some(last) = class_named_by(src, nodes.last()) {
            if !before.contains(last) {
                let after = before.push(last);
                if before.contains(name) {
                    let k = choose|k: int| 0 <= k < before.len() && before[k] == name;
                    assert(after[k] == name);
                }
                assert(after[before.len() as int] == last);
                if after.contains(name) && name != last {
                    let k = choose|k: int| 0 <= k < after.len() && after[k] == name;
                    assert(before[k] == name);
                }
            }
        }
    }
}

/// No class is listed twice.
pub proof fn listed_classes_are_distinct(nodes: Seq<NodeView>, src: Seq<char>)
    ensures
        classes_named(nodes, src).no_duplicates(),
    decreases nodes.len(),
{
    if nodes.len() > 0 {
        listed_classes_are_distinct(nodes.drop_last(), src);
    }
}

/// Every place where a class is named is the place of a node that names it, and the other
/// way round.
pub proof fn named_places_are_listed(
    nodes: Seq<NodeView>,
    src: Seq<char>,
    name: Seq<char>,
    r: Range,
)
    ensures
        ranges_naming(nodes, src, name).contains(r) <==> exists|i: int|
            0 <= i < nodes.len() && class_named_by(src, #[trigger] nodes[i]) == Some(name)
                && node_range(nodes[i]) == r,
    decreases nodes.len(),
{
    if nodes.len() > 0 {
        let rest = nodes.drop_last();
        let before = ranges_naming(rest, src, name);
        let after = ranges_naming(nodes, src, name);
        named_places_are_listed(rest, src, name, r);
        assert forall|i: int| 0 <= i < rest.len() implies rest[i] == #[trigger] nodes[i] by {}
        if before.contains(r) {
            let i = choose|i: int|
                0 <= i < rest.len() && class_named_by(src, #[trigger] rest[i]) == Some(name)
                    && node_range(rest[i]) == r;
            assert(class_named_by(src, nodes[i]) == Some(name));
            let k = choose|k: int| 0 <= k < before.len() && before[k] == r;
            assert(after[k] == r);
        }
        if class_named_by(src, nodes.last()) == Some(name) {
            assert(after.last() == node_range(nodes.last()));
            assert(nodes[nodes.len() - 1] == nodes.last());
        }
        if after.contains(r) {
            let k = choose|k: int| 0 <= k < after.len() && after[k] == r;
            if k < before.len() {
                assert(before[k] == r);
            }
        }
        if exists|i: int|
            0 <= i < nodes.len() && class_named_by(src, #[trigger] nodes[i]) == Some(name)
                && node_range(nodes[i]) == r {
            let i = choose|i: int|
                0 <= i < nodes.len() && class_named_by(src, #[trigger] nodes[i]) == Some(name)
                    && node_range(nodes[i]) == r;
            if i < rest.len() {
                assert(class_named_by(src, rest[i]) == Some(name));
            }
        }
    }
}

/// The places where a class is named come in the order in which they start.
pub proof fn places_come_in_order(
    nodes: Seq<NodeView>,
    src: Seq<char>,
    name: Seq<char>,
    a: int,
    b: int,
)
    requires
        is_placed(nodes),
        starts_in_order(nodes),
        0 <= a <= b < ranges_naming(nodes, src, name).len(),
    ensures
        ranges_naming(nodes, src, name)[a].start.le(ranges_naming(nodes, src, name)[b].start),
    decreases nodes.len(),
{
    reveal(starts_in_order);
    let rest = nodes.drop_last();
    let before = ranges_naming(rest, src, name);
    assert forall|i: int| 0 <= i < rest.len() implies rest[i] == #[trigger] nodes[i] by {}
    if b < before.len() {
        assert forall|i: int, j: int| 0 <= i <= j < rest.len() implies !(
        #[trigger] rest[j]).start.lt((#[trigger] rest[i]).start) by {
            assert(rest[i] == nodes[i] && rest[j] == nodes[j]);
        }
        assert forall|i: int| 0 <= i < rest.len() implies {
            &&& (#[trigger] rest[i]).start.is_small()
            &&& rest[i].end.is_small()
            &&& rest[i].start_byte < rest[i].end_byte ==> rest[i].start.lt(rest[i].end)
        } by {
            assert(rest[i] == nodes[i]);
        }
        places_come_in_order(rest, src, name, a, b);
    } else if a < before.len() {
        assert(before.contains(before[a]));
        named_places_are_listed(rest, src, name, before[a]);
        let i = choose|i: int|
            0 <= i < rest.len() && class_named_by(src, #[trigger] rest[i]) == Some(name)
                && node_range(rest[i]) == before[a];
        assert(rest[i] == nodes[i]);
        assert(nodes[nodes.len() - 1] == nodes.last());
        assert(!nodes[nodes.len() - 1].start.lt(nodes[i].start));
    }
}

/// A class name counts as a reference to the class in every form that it may be written in:
/// bare, as a symbol, quoted, and as a quoted symbol.
pub proof fn every_written_form_is_a_reference(
    nodes: Seq<NodeView>,
    src: Seq<char>,
    i: int,
    name: Seq<char>,
)
    requires
        0 <= i < nodes.len(),
        is_token_kind(nodes[i].kind),
        is_plain_name(name),
        capitalized(name),
        ({
            let quoted = seq!['\''] + name.push('\'');
            ||| node_text(src, nodes[i]) == Some(name)
            ||| node_text(src, nodes[i]) == Some(seq!['#'] + name)
            ||| node_text(src, nodes[i]) == Some(quoted)
            ||| node_text(src, nodes[i]) == Some(seq!['#'] + quoted)
        }),
    ensures
        ranges_naming(nodes, src, name).contains(node_range(nodes[i])),
{
    written_forms_of_a_name(name);
    assert(class_named_by(src, nodes[i]) == Some(name));
    named_places_are_listed(nodes, src, name, node_range(nodes[i]));
}

/// Returns the place of `name` in a list of references.
fn position_of(list: &Vec<ClassReferences>, name: &str) -> (res: Option<usize>)
    ensures
        (match res {
            Some(k) => k < list@.len() && list@[k as int].name@ == name@,
            None => !reference_names(list@).contains(name@),
        }),
{
    let mut k: usize = 0;
    while k < list.len()
        invariant
            k <= list@.len(),
            forall|m: int| 0 <= m < k ==> (#[trigger] list@[m]).name@ != name@,
        decreases list@.len() - k,
    {
        if same_text(list[k].name.as_str(), name) {
            return Some(k);
        }
        k += 1;
    }
    proof {
        let names = reference_names(list@);
        assert forall|m: int| 0 <= m < names.len() implies names[m] != name@ by {
            assert(names[m] == list@[m].name@);
        }
    }
    None
}

/// Returns all class-name occurrences in a file, grouped by name.
pub fn read_class_references(tree: &SyntaxTree, src: &str) -> (res: Vec<ClassReferences>)
    ensures
        lists_references(res@, tree@, src@),
{
    let mut res: Vec<ClassReferences> = Vec::new();
    let len = tree.len();
    let mut i: usize = 0;
    assert(reference_names(res@) =~= Seq::<Seq<char>>::empty());
    assert(tree@.take(0) =~= Seq::<NodeView>::empty());
    while i < len
        invariant
            len == tree@.len(),
            i <= len,
            lists_references(res@, tree@.take(i as int), src@),
        decreases len - i,
    {
        let ghost seen = tree@.take(i as int);
        let ghost next = tree@.take(i + 1);
        let ghost before = res@;
        proof {
            assert(next.drop_last() =~= seen);
            assert(next.last() == tree@[i as int]);
        }
        if let Some(name) = class_named(tree, src, i) {
            let range = node_to_range(tree.node(i));
            match position_of(&res, name) {
                Some(k) => {
                    res[k].ranges.push(range);
                    proof {
                        assert(reference_names(before)[k as int] == name@);
                        assert(reference_names(res@) =~= reference_names(before));
                        listed_classes_are_distinct(seen, src@);
                        assert forall|m: int| 0 <= m < res@.len() implies (
                        #[trigger] res@[m]).ranges@ == ranges_naming(next, src@, res@[m].name@) by {
                            assert(reference_names(before)[m] == before[m].name@);
                            if m != k {
                                assert(res@[m] == before[m]);
                            }
                        }
                    }
                },
                None => {
                    let mut ranges: Vec<Range> = Vec::new();
                    ranges.push(range);
                    let group = ClassReferences { name: name.to_owned(), ranges };
                    res.push(group);
                    proof {
                        assert(reference_names(res@) =~= reference_names(before).push(name@));
                        listed_classes_are_named(seen, src@, name@);
                        assert(ranges_naming(seen, src@, name@) =~= Seq::<Range>::empty());
                        assert forall|m: int| 0 <= m < res@.len() implies (
                        #[trigger] res@[m]).ranges@ == ranges_naming(next, src@, res@[m].name@) by {
                            if m < before.len() {
                                assert(res@[m] == before[m]);
                                assert(reference_names(before)[m] == before[m].name@);
                                assert(reference_names(before).contains(before[m].name@));
                            } else {
                                assert(group.ranges@ =~= Seq::<Range>::empty().push(range));
                            }
                        }
                    }
                },
            }
        }
        i += 1;
    }
    assert(tree@.take(len as int) =~= tree@);
    res
}

/// Returns all places in a file where the class `name` is named.
pub fn read_references_to(tree: &SyntaxTree, src: &str, name: &str) -> (res: Vec<Range>)
    ensures
        res@ == ranges_naming(tree@, src@, name@),
{
    let mut all = read_class_references(tree, src);
    match position_of(&all, name) {
        Some(k) => all.swap_remove(k).ranges,
        None => {
            let none: Vec<Range> = Vec::new();
            proof {
                listed_classes_are_named(tree@, src@, name@);
                assert(none@ =~= ranges_naming(tree@, src@, name@));
            }
            none
        },
    }
}

} // verus!
