//! What holds of the answers that a file gives, said of the nodes of its tree, their fields
//! and their texts.

use vstd::prelude::*;

use crate::class_info::{
    class_info_of, definition_from, fields_of, fields_without_a_key_are_empty, is_on_named_path,
    item_names, key_and_value, lemma_keys_differ, list_names, ClassInfo,
};
use crate::diagnostics::{
    diagnostic_views, errors_from, finding, is_exposed, is_reported, syntax_errors_of, Diagnostic,
    DiagnosticSeverity,
};
use crate::grammar::{
    capture_view, first_captured, is_found, nodes_of, number_found, number_found_from, parsed,
    Capture, CaptureView,
};
use crate::position::{Position, Range};
use crate::references::{
    class_named_by, classes_named, listed_classes_are_distinct, listed_classes_are_named,
    lists_references, named_places_are_listed, node_range, ranges_naming, reference_names,
    ClassReferences,
};
use crate::scopes::{
    has_identifier, is_declared_around, is_declaring_scope, locals_are_declared_in_a_scope,
};
use crate::src_tree::{
    captured_from, class_defined, class_of_token, definition_around, file_of, is_local_token,
    number, side_of_token, token_of, ClassAtPos, ClassAtPosView, FileView, MethodSide,
    DEFINITION_QUERY,
};
use crate::syntax::{
    around_goes_by_parents, children_found_are_children, enclosing, enclosing_is_the_nearest,
    first_named_child, indices, is_around, is_child, is_named_child, is_walk, named_child_of_kind,
    named_children_of, only_the_root_has_no_parent, parent_of, subtree_end, subtrees_are_nested,
    views, NodeView, Point, SyntaxNode,
};
use crate::text::{is_upper_case, normalized, text_between, trimmed};
use crate::tree_laws::{fields_are_held_by_children, what_lies_below_is_deeper};

verus! {

/// A node names a class exactly where it is an identifier, a string, a symbol or a STON symbol
/// whose text, without its decoration, starts with an upper-case character; the class is the
/// one of that name.
pub proof fn tokens_name_classes(src: Seq<char>, node: NodeView, name: Seq<char>)
    ensures
        class_named_by(src, node) == Some(name) <==> {
            &&& node.kind == "identifier"@ || node.kind == "string"@ || node.kind == "symbol"@
                || node.kind == "ston_symbol"@
            &&& match text_between(src, node.start_byte as int, node.end_byte as int) {
                Some(raw) => normalized(raw) == name,
                None => false,
            }
            &&& name.len() > 0
            &&& is_upper_case(name[0])
        },
{
}

/// The places where a class is named are the places of exactly the nodes that name it, one
/// for each, in the order of the walk: the answer gives the numbers of these nodes.
pub proof fn places_are_those_of_the_naming_nodes(
    nodes: Seq<NodeView>,
    src: Seq<char>,
    name: Seq<char>,
) -> (at: Seq<int>)
    ensures
        ranges_naming(nodes, src, name).len() == at.len(),
        forall|a: int, b: int| 0 <= a < b < at.len() ==> #[trigger] at[a] < #[trigger] at[b],
        forall|i: int| #[trigger]
            at.contains(i) <==> {
                &&& 0 <= i < nodes.len()
                &&& nodes[i].kind == "identifier"@ || nodes[i].kind == "string"@ || nodes[i].kind
                    == "symbol"@ || nodes[i].kind == "ston_symbol"@
                &&& match text_between(
                    src,
                    nodes[i].start_byte as int,
                    nodes[i].end_byte as int,
                ) {
                    Some(raw) => normalized(raw) == name,
                    None => false,
                }
                &&& name.len() > 0
                &&& is_upper_case(name[0])
            },
        forall|k: int|
            0 <= k < at.len() ==> {
                let range = #[trigger] ranges_naming(nodes, src, name)[k];
                let node = nodes[at[k]];
                &&& range.start.line == node.start.row as u32
                &&& range.start.character == node.start.column as u32
                &&& range.end.line == node.end.row as u32
                &&& range.end.character == node.end.column as u32
            },
    decreases nodes.len(),
{
    if nodes.len() == 0 {
        Seq::empty()
    } else {
        let rest = nodes.drop_last();
        let last = nodes.len() - 1;
        let before = places_are_those_of_the_naming_nodes(rest, src, name);
        assert forall|i: int| 0 <= i < rest.len() implies rest[i] == #[trigger] nodes[i] by {}
        tokens_name_classes(src, nodes[last], name);
        assert forall|k: int| 0 <= k < before.len() implies 0 <= #[trigger] before[k]
            < last by {
            assert(before.contains(before[k]));
        }
        if class_named_by(src, nodes.last()) == Some(name) {
            let at = before.push(last);
            assert forall|i: int| #[trigger] at.contains(i) <==> before.contains(i) || i
                == last by {
                if before.contains(i) {
                    let k = choose|k: int| 0 <= k < before.len() && before[k] == i;
                    assert(at[k] == i);
                }
                assert(at[before.len() as int] == last);
            }
            assert forall|k: int| 0 <= k < at.len() implies {
                let range = #[trigger] ranges_naming(nodes, src, name)[k];
                let node = nodes[at[k]];
                &&& range.start.line == node.start.row as u32
                &&& range.start.character == node.start.column as u32
                &&& range.end.line == node.end.row as u32
                &&& range.end.character == node.end.column as u32
            } by {
                if k < before.len() {
                    assert(ranges_naming(nodes, src, name)[k] == ranges_naming(rest, src, name)[k]);
                    assert(at[k] == before[k]);
                }
            }
            at
        } else {
            assert forall|k: int| 0 <= k < before.len() implies {
                let range = #[trigger] ranges_naming(nodes, src, name)[k];
                let node = nodes[before[k]];
                &&& range.start.line == node.start.row as u32
                &&& range.start.character == node.start.column as u32
                &&& range.end.line == node.end.row as u32
                &&& range.end.character == node.end.column as u32
            } by {
                assert(ranges_naming(nodes, src, name)[k] == ranges_naming(rest, src, name)[k]);
            }
            before
        }
    }
}

/// The references of a file are grouped without loss: every class that some node names has
/// one group, no two groups have the same name, and each group holds as many places as nodes
/// name the class, each the place of such a node.
pub proof fn references_are_grouped_without_loss(
    list: Seq<ClassReferences>,
    nodes: Seq<NodeView>,
    src: Seq<char>,
    i: int,
    name: Seq<char>,
)
    requires
        lists_references(list, nodes, src),
        0 <= i < nodes.len(),
        nodes[i].kind == "identifier"@ || nodes[i].kind == "string"@ || nodes[i].kind == "symbol"@
            || nodes[i].kind == "ston_symbol"@,
        text_between(src, nodes[i].start_byte as int, nodes[i].end_byte as int) matches Some(raw)
            && normalized(raw) == name,
        name.len() > 0,
        is_upper_case(name[0]),
    ensures
        exists|g: int|
            {
                &&& 0 <= g < list.len()
                &&& (#[trigger] list[g]).name@ == name
                &&& list[g].ranges@ == ranges_naming(nodes, src, name)
                &&& list[g].ranges@.contains(
                    Range {
                        start: Position {
                            line: nodes[i].start.row as u32,
                            character: nodes[i].start.column as u32,
                        },
                        end: Position {
                            line: nodes[i].end.row as u32,
                            character: nodes[i].end.column as u32,
                        },
                    },
                )
                &&& forall|h: int|
                    0 <= h < list.len() && h != g ==> (#[trigger] list[h]).name@ != name
            },
{
    tokens_name_classes(src, nodes[i], name);
    named_places_are_listed(nodes, src, name, node_range(nodes[i]));
    listed_classes_are_named(nodes, src, name);
    listed_classes_are_distinct(nodes, src);
    let names = reference_names(list);
    let places = ranges_naming(nodes, src, name);
    assert(places.contains(node_range(nodes[i])));
    assert(places.len() > 0) by {
        let k = choose|k: int| 0 <= k < places.len() && places[k] == node_range(nodes[i]);
    }
    let g = choose|g: int| 0 <= g < names.len() && names[g] == name;
    assert(list[g].name@ == name);
    assert forall|h: int| 0 <= h < list.len() && h != g implies (#[trigger] list[h]).name@
        != name by {
        assert(names[h] == list[h].name@);
    }
}

/// No group is without places: each holds the place of a node that names its class.
pub proof fn groups_are_not_empty(
    list: Seq<ClassReferences>,
    nodes: Seq<NodeView>,
    src: Seq<char>,
    g: int,
)
    requires
        lists_references(list, nodes, src),
        0 <= g < list.len(),
    ensures
        list[g].ranges@.len() > 0,
        list[g].ranges@ == ranges_naming(nodes, src, list[g].name@),
{
    let names = reference_names(list);
    assert(names[g] == list[g].name@);
    assert(classes_named(nodes, src).contains(names[g]));
    listed_classes_are_named(nodes, src, list[g].name@);
}

proof fn lemma_first_named(nodes: Seq<NodeView>, src: Seq<char>, g: int, h: int) -> (at: int)
    requires
        0 <= g < h < classes_named(nodes, src).len(),
    ensures
        0 <= at < nodes.len(),
        class_named_by(src, nodes[at]) == Some(classes_named(nodes, src)[g]),
        forall|j: int|
            0 <= j <= at ==> class_named_by(src, #[trigger] nodes[j]) != Some(
                classes_named(nodes, src)[h],
            ),
    decreases nodes.len(),
{
    let rest = nodes.drop_last();
    let before = classes_named(rest, src);
    assert forall|j: int| 0 <= j < rest.len() implies rest[j] == #[trigger] nodes[j] by {}
    if h < before.len() {
        lemma_first_named(rest, src, g, h)
    } else {
        let name = classes_named(nodes, src)[h];
        listed_classes_are_named(rest, src, before[g]);
        listed_classes_are_named(rest, src, name);
        assert(before.contains(before[g]));
        let places = ranges_naming(rest, src, before[g]);
        named_places_are_listed(rest, src, before[g], places[0]);
        let at = choose|i: int|
            0 <= i < rest.len() && class_named_by(src, #[trigger] rest[i]) == Some(before[g])
                && node_range(rest[i]) == places[0];
        assert forall|j: int| 0 <= j <= at implies class_named_by(src, #[trigger] nodes[j]) != Some(
            name,
        ) by {
            if class_named_by(src, rest[j]) == Some(name) {
                named_places_are_listed(rest, src, name, node_range(rest[j]));
                let named = ranges_naming(rest, src, name);
                let k = choose|k: int| 0 <= k < named.len() && named[k] == node_range(rest[j]);
            }
        }
        at
    }
}

/// Groups stand in the order in which their classes are first named: of two, some node names
/// the class of the first before any names that of the second.
pub proof fn groups_stand_in_the_order_of_naming(
    list: Seq<ClassReferences>,
    nodes: Seq<NodeView>,
    src: Seq<char>,
    g: int,
    h: int,
) -> (at: int)
    requires
        lists_references(list, nodes, src),
        0 <= g < h < list.len(),
    ensures
        0 <= at < nodes.len(),
        class_named_by(src, nodes[at]) == Some(list[g].name@),
        forall|j: int|
            0 <= j <= at ==> class_named_by(src, #[trigger] nodes[j]) != Some(list[h].name@),
{
    let names = reference_names(list);
    assert(names[g] == list[g].name@);
    assert(names[h] == list[h].name@);
    lemma_first_named(nodes, src, g, h)
}

proof fn lemma_reported_at(nodes: Seq<NodeView>, src: Seq<char>, from: int) -> (at: Seq<int>)
    requires
        0 <= from,
        is_exposed(nodes, from),
    ensures
        errors_from(nodes, src, from).len() == at.len(),
        forall|a: int, b: int| 0 <= a < b < at.len() ==> #[trigger] at[a] < #[trigger] at[b],
        forall|i: int| #[trigger] at.contains(i) <==> from <= i && is_reported(nodes, i),
        forall|k: int|
            0 <= k < at.len() ==> #[trigger] errors_from(nodes, src, from)[k] == finding(
                src,
                nodes[at[k]],
            ),
    decreases nodes.len() - from,
{
    if from >= nodes.len() {
        Seq::empty()
    } else {
        let list = errors_from(nodes, src, from);
        let is_error = nodes[from].error && !nodes[from].missing;
        let next = if is_error {
            subtree_end(nodes, from)
        } else {
            from + 1
        };
        subtrees_are_nested(nodes, from, from);
        assert(is_exposed(nodes, next)) by {
            assert forall|j: int| 0 <= j < next && (#[trigger] nodes[j]).error
                && !nodes[j].missing implies subtree_end(nodes, j) <= next by {
                if j > from {
                    subtrees_are_nested(nodes, from, j);
                }
            }
        }
        let after = lemma_reported_at(nodes, src, next);
        let rest = errors_from(nodes, src, next);
        assert forall|i: int| from < i < next implies !#[trigger] is_reported(nodes, i) by {
            if is_reported(nodes, i) {
                assert(nodes[from].error);
            }
        }
        assert forall|k: int| 0 <= k < after.len() implies next <= #[trigger] after[k] by {
            assert(after.contains(after[k]));
        }
        if nodes[from].missing || nodes[from].error {
            assert(is_reported(nodes, from));
            assert(list =~= seq![finding(src, nodes[from])] + rest);
            let at = seq![from] + after;
            assert forall|i: int| #[trigger] at.contains(i) <==> i == from || after.contains(i) by {
                assert(at[0] == from);
                if after.contains(i) {
                    let k = choose|k: int| 0 <= k < after.len() && after[k] == i;
                    assert(at[k + 1] == i);
                }
                if at.contains(i) && i != from {
                    let k = choose|k: int| 0 <= k < at.len() && at[k] == i;
                    assert(after[k - 1] == i);
                }
            }
            assert forall|k: int| 0 <= k < at.len() implies #[trigger] list[k] == finding(
                src,
                nodes[at[k]],
            ) by {
                if k > 0 {
                    assert(rest[k - 1] == finding(src, nodes[after[k - 1]]));
                }
            }
            at
        } else {
            assert(!is_reported(nodes, from));
            assert(list == rest);
            after
        }
    }
}

/// The diagnostics of a file whose root holds an error are one for each absent token and each
/// error that lies below no other error, in the order of the walk: the answer gives the
/// numbers of these nodes. Each diagnostic lies where its node does, is an error of this
/// server, and says what is absent or what was not expected. A file whose root holds no error
/// has none.
pub proof fn diagnostics_lie_where_the_errors_are(
    list: Seq<Diagnostic>,
    nodes: Seq<NodeView>,
    src: Seq<char>,
) -> (at: Seq<int>)
    requires
        nodes.len() > 0,
        diagnostic_views(list) == syntax_errors_of(nodes, src),
    ensures
        list.len() == at.len(),
        forall|a: int, b: int| 0 <= a < b < at.len() ==> #[trigger] at[a] < #[trigger] at[b],
        forall|i: int| #[trigger]
            at.contains(i) <==> {
                &&& nodes[0].has_error
                &&& 0 <= i < nodes.len()
                &&& nodes[i].missing || nodes[i].error
                &&& forall|j: int|
                    0 <= j < i && (#[trigger] nodes[j]).error && !nodes[j].missing ==> exists|
                        k: int,
                    |
                        j < k <= i && (#[trigger] nodes[k]).depth <= nodes[j].depth
            },
        forall|k: int|
            0 <= k < list.len() ==> {
                let node = nodes[at[k]];
                let range = (#[trigger] list[k]).range;
                &&& range.start.line == node.start.row as u32
                &&& range.start.character == node.start.column as u32
                &&& range.end.line == node.end.row as u32
                &&& range.end.character == node.end.column as u32
            },
        forall|k: int|
            0 <= k < list.len() ==> (#[trigger] list[k]).severity == Some(
                DiagnosticSeverity::Error,
            ) && (list[k].source matches Some(source) && source@ == "tonel-smalltalk"@),
        forall|k: int|
            0 <= k < list.len() ==> {
                let node = nodes[at[k]];
                let raw = match text_between(src, node.start_byte as int, node.end_byte as int) {
                    Some(text) => trimmed(text),
                    None => Seq::empty(),
                };
                (#[trigger] list[k]).message@ == if node.missing {
                    "Missing '"@ + node.kind + "'"@
                } else if raw.len() == 0 {
                    "Syntax error"@
                } else if raw.len() <= 50 {
                    "Syntax error: unexpected '"@ + raw + ""@ + "'"@
                } else {
                    "Syntax error: unexpected '"@ + raw.take(50) + "..."@ + "'"@
                }
            },
{
    let views = diagnostic_views(list);
    let at = if nodes[0].has_error {
        lemma_reported_at(nodes, src, 0)
    } else {
        Seq::empty()
    };
    assert(list.len() == views.len());
    assert(trimmed(Seq::empty()) =~= Seq::empty());
    assert forall|k: int| 0 <= k < list.len() implies list[k]@ == finding(
        src,
        nodes[#[trigger] at[k]],
    ) by {
        assert(views[k] == list[k]@);
        assert(views[k] == errors_from(nodes, src, 0)[k]);
    }
    assert forall|i: int| 0 <= i < nodes.len() implies (is_exposed(nodes, i) <==> (forall|j: int|
        0 <= j < i && (#[trigger] nodes[j]).error && !nodes[j].missing ==> exists|k: int|
            j < k <= i && (#[trigger] nodes[k]).depth <= nodes[j].depth)) by {
        lemma_exposed(nodes, i);
    }
    assert forall|k: int| 0 <= k < list.len() implies list[k]@ == #[trigger] views[k] && views[k]
        == finding(src, nodes[at[k]]) by {
        assert(list[k]@ == finding(src, nodes[at[k]]));
    }
    assert forall|k: int| 0 <= k < list.len() implies (#[trigger] list[k])@ == finding(
        src,
        nodes[at[k]],
    ) by {
        assert(views[k] == list[k]@);
    }
    at
}

proof fn lemma_exposed(nodes: Seq<NodeView>, i: int)
    requires
        0 <= i < nodes.len(),
    ensures
        is_exposed(nodes, i) <==> (forall|j: int|
            0 <= j < i && (#[trigger] nodes[j]).error && !nodes[j].missing ==> exists|k: int|
                j < k <= i && (#[trigger] nodes[k]).depth <= nodes[j].depth),
{
    assert forall|j: int| 0 <= j < i implies (subtree_end(nodes, j) <= i <==> exists|k: int|
        j < k <= i && (#[trigger] nodes[k]).depth <= (#[trigger] nodes[j]).depth) by {
        what_lies_below_is_deeper(nodes, j, i);
        if subtree_end(nodes, j) <= i {
            assert(nodes[subtree_end(nodes, j)].depth <= nodes[j].depth);
        }
    }
}

/// The definition that a file is read for is the first class or trait definition that lies
/// below named nodes alone, the root aside.
pub proof fn definitions_are_read_in_order(nodes: Seq<NodeView>, d: int)
    requires
        is_walk(nodes),
        0 <= d < nodes.len(),
    ensures
        definition_from(nodes, 0) == Some(d) <==> {
            &&& nodes[d].kind == "class_definition"@ || nodes[d].kind == "trait_definition"@
            &&& forall|a: int| 0 < a && #[trigger] is_around(nodes, a, d) ==> nodes[a].named
            &&& forall|e: int|
                0 <= e < d && ((#[trigger] nodes[e]).kind == "class_definition"@ || nodes[e].kind
                    == "trait_definition"@) ==> exists|a: int|
                    0 < a && #[trigger] is_around(nodes, a, e) && !nodes[a].named
        },
{
    lemma_definition_at(nodes, 0);
    lemma_named_path(nodes, d);
    match definition_from(nodes, 0) {
        Some(f) => {
            lemma_named_path(nodes, f);
            if f == d {
                assert forall|e: int| 0 <= e < d && ((#[trigger] nodes[e]).kind
                    == "class_definition"@ || nodes[e].kind == "trait_definition"@) implies exists|
                    a: int,
                |
                    0 < a && #[trigger] is_around(nodes, a, e) && !nodes[a].named by {
                    lemma_named_path(nodes, e);
                }
            } else if f < d {
                assert(nodes[f].kind == nodes[f].kind);
            }
        },
        None => {},
    }
}

proof fn lemma_definition_at(nodes: Seq<NodeView>, from: int)
    requires
        0 <= from,
    ensures
        match definition_from(nodes, from) {
            Some(d) => {
                &&& from <= d < nodes.len()
                &&& nodes[d].kind == "class_definition"@ || nodes[d].kind == "trait_definition"@
                &&& is_on_named_path(nodes, d)
                &&& forall|e: int|
                    from <= e < d ==> !(((#[trigger] nodes[e]).kind == "class_definition"@
                        || nodes[e].kind == "trait_definition"@) && is_on_named_path(nodes, e))
            },
            None => forall|e: int|
                from <= e < nodes.len() ==> !(((#[trigger] nodes[e]).kind == "class_definition"@
                    || nodes[e].kind == "trait_definition"@) && is_on_named_path(nodes, e)),
        },
    decreases nodes.len() - from,
{
    if from < nodes.len() {
        lemma_definition_at(nodes, from + 1);
    }
}

proof fn lemma_named_path(nodes: Seq<NodeView>, i: int)
    requires
        is_walk(nodes),
        0 <= i < nodes.len(),
    ensures
        is_on_named_path(nodes, i) <==> forall|a: int|
            0 < a && #[trigger] is_around(nodes, a, i) ==> nodes[a].named,
    decreases i,
{
    only_the_root_has_no_parent(nodes, i);
    around_goes_by_parents(nodes, i, i);
    if i == 0 {
        assert forall|a: int| 0 < a implies !#[trigger] is_around(nodes, a, 0) by {}
    } else {
        let p = parent_of(nodes, i)->0;
        lemma_named_path(nodes, p);
        assert forall|a: int| #[trigger] is_around(nodes, a, i) <==> a == i || is_around(
            nodes,
            a,
            p,
        ) by {
            around_goes_by_parents(nodes, a, i);
        }
        if is_on_named_path(nodes, i) {
            assert forall|a: int| 0 < a && #[trigger] is_around(
                nodes,
                a,
                i,
            ) implies nodes[a].named by {
                if a != i {
                    assert(is_around(nodes, a, p));
                }
            }
        } else if nodes[i].named {
            let a = choose|a: int| 0 < a && #[trigger] is_around(nodes, a, p) && !nodes[a].named;
            assert(is_around(nodes, a, i));
        }
    }
}

/// A pair of a definition has the key that the first named node of its `ston_key` reads, and
/// the value that is the first named node of its `ston_value`.
pub proof fn pairs_have_a_key_and_a_value(
    nodes: Seq<NodeView>,
    src: Seq<char>,
    pair: int,
    key: Seq<char>,
    value: int,
)
    ensures
        key_and_value(nodes, src, pair) == Some((key, value)) <==> {
            &&& nodes[pair].kind == "ston_pair"@
            &&& named_child_of_kind(nodes, pair, "ston_key"@) matches Some(key_node)
            &&& named_child_of_kind(nodes, pair, "ston_value"@) matches Some(wrapper)
            &&& first_named_child(nodes, wrapper) == Some(value)
            &&& key == match first_named_child(nodes, key_node) {
                Some(symbol) => match text_between(
                    src,
                    nodes[symbol].start_byte as int,
                    nodes[symbol].end_byte as int,
                ) {
                    Some(raw) => normalized(raw),
                    None => Seq::empty(),
                },
                None => Seq::empty(),
            }
        },
{
}

proof fn lemma_items_at(nodes: Seq<NodeView>, src: Seq<char>, items: Seq<int>) -> (at: Seq<int>)
    ensures
        item_names(nodes, src, items).len() == at.len(),
        forall|a: int, b: int| 0 <= a < b < at.len() ==> #[trigger] at[a] < #[trigger] at[b],
        forall|m: int| #[trigger] at.contains(m) ==> 0 <= m < items.len(),
        forall|m: int| #![trigger at.contains(m)] 0 <= m < items.len() ==> {
            let item = if nodes[items[m]].kind == "ston_value"@ {
                first_named_child(nodes, items[m])
            } else {
                Some(items[m])
            };
            at.contains(m) <==> match item {
                Some(i) => match text_between(
                    src,
                    nodes[i].start_byte as int,
                    nodes[i].end_byte as int,
                ) {
                    Some(raw) => normalized(raw).len() > 0,
                    None => false,
                },
                None => false,
            }
        },
        forall|k: int| #![trigger at[k]] 0 <= k < at.len() ==> {
            let item = if nodes[items[at[k]]].kind == "ston_value"@ {
                first_named_child(nodes, items[at[k]])
            } else {
                Some(items[at[k]])
            };
            match item {
                Some(i) => match text_between(
                    src,
                    nodes[i].start_byte as int,
                    nodes[i].end_byte as int,
                ) {
                    Some(raw) => item_names(nodes, src, items)[k] == normalized(raw),
                    None => false,
                },
                None => false,
            }
        },
    decreases items.len(),
{
    if items.len() == 0 {
        Seq::empty()
    } else {
        let rest = items.drop_last();
        let last = items.len() - 1;
        let before = lemma_items_at(nodes, src, rest);
        let names = item_names(nodes, src, items);
        let old_names = item_names(nodes, src, rest);
        assert forall|m: int| 0 <= m < rest.len() implies rest[m] == #[trigger] items[m] by {}
        assert forall|k: int| 0 <= k < before.len() implies 0 <= #[trigger] before[k] < last by {
            assert(before.contains(before[k]));
        }
        let at = if names.len() == old_names.len() {
            before
        } else {
            before.push(last)
        };
        assert forall|m: int| #[trigger] at.contains(m) <==> before.contains(m) || (m == last
            && names.len() != old_names.len()) by {
            if before.contains(m) {
                let k = choose|k: int| 0 <= k < before.len() && before[k] == m;
                assert(at[k] == m);
            }
            if names.len() != old_names.len() {
                assert(at[before.len() as int] == last);
            }
        }
        assert(!before.contains(last));
        assert forall|k: int| 0 <= k < before.len() implies #[trigger] names[k] == old_names[k]
            && at[k] == before[k] by {}
        assert forall|m: int| #![trigger at.contains(m)] 0 <= m < items.len() implies {
            let item = if nodes[items[m]].kind == "ston_value"@ {
                first_named_child(nodes, items[m])
            } else {
                Some(items[m])
            };
            at.contains(m) <==> match item {
                Some(i) => match text_between(
                    src,
                    nodes[i].start_byte as int,
                    nodes[i].end_byte as int,
                ) {
                    Some(raw) => normalized(raw).len() > 0,
                    None => false,
                },
                None => false,
            }
        } by {
            if m < last {
                assert(rest[m] == items[m]);
                assert(at.contains(m) <==> before.contains(m));
            }
        }
        assert forall|k: int| #![trigger at[k]] 0 <= k < at.len() implies {
            let item = if nodes[items[at[k]]].kind == "ston_value"@ {
                first_named_child(nodes, items[at[k]])
            } else {
                Some(items[at[k]])
            };
            match item {
                Some(i) => match text_between(
                    src,
                    nodes[i].start_byte as int,
                    nodes[i].end_byte as int,
                ) {
                    Some(raw) => item_names(nodes, src, items)[k] == normalized(raw),
                    None => false,
                },
                None => false,
            }
        } by {
            if k < before.len() {
                assert(old_names[k] == names[k]);
                assert(rest[before[k]] == items[before[k]]);
            }
        }
        at
    }
}

/// The names in a list are those that its items read, in order, one for each item that reads a
/// name that is not empty: the answer gives the places of these items among the named children.
/// An item is what a `ston_value` wraps, or the child itself. What is no list has no names.
pub proof fn lists_name_what_their_items_read(
    nodes: Seq<NodeView>,
    src: Seq<char>,
    list: int,
) -> (at: Seq<int>)
    ensures
        list_names(nodes, src, list).len() == at.len(),
        nodes[list].kind != "ston_list"@ ==> at.len() == 0,
        forall|a: int, b: int| 0 <= a < b < at.len() ==> #[trigger] at[a] < #[trigger] at[b],
        forall|m: int| #[trigger] at.contains(m) ==> 0 <= m < named_children_of(nodes, list).len(),
        nodes[list].kind == "ston_list"@ ==> forall|m: int| #![trigger at.contains(m)] 0 <= m
            < named_children_of(nodes, list).len() ==> {
            let child = named_children_of(nodes, list)[m];
            let item = if nodes[child].kind == "ston_value"@ {
                first_named_child(nodes, child)
            } else {
                Some(child)
            };
            at.contains(m) <==> match item {
                Some(i) => match text_between(
                    src,
                    nodes[i].start_byte as int,
                    nodes[i].end_byte as int,
                ) {
                    Some(raw) => normalized(raw).len() > 0,
                    None => false,
                },
                None => false,
            }
        },
        forall|k: int| #![trigger at[k]] 0 <= k < at.len() ==> {
            let child = named_children_of(nodes, list)[at[k]];
            let item = if nodes[child].kind == "ston_value"@ {
                first_named_child(nodes, child)
            } else {
                Some(child)
            };
            match item {
                Some(i) => match text_between(
                    src,
                    nodes[i].start_byte as int,
                    nodes[i].end_byte as int,
                ) {
                    Some(raw) => list_names(nodes, src, list)[k] == normalized(raw),
                    None => false,
                },
                None => false,
            }
        },
{
    if nodes[list].kind == "ston_list"@ {
        let at = lemma_items_at(nodes, src, named_children_of(nodes, list));
        assert forall|k: int| #![trigger at[k]] 0 <= k < at.len() implies {
            let child = named_children_of(nodes, list)[at[k]];
            let item = if nodes[child].kind == "ston_value"@ {
                first_named_child(nodes, child)
            } else {
                Some(child)
            };
            match item {
                Some(i) => match text_between(
                    src,
                    nodes[i].start_byte as int,
                    nodes[i].end_byte as int,
                ) {
                    Some(raw) => list_names(nodes, src, list)[k] == normalized(raw),
                    None => false,
                },
                None => false,
            }
        } by {
            let item = at[k];
        }
        at
    } else {
        Seq::empty()
    }
}

proof fn lemma_last_pair(
    nodes: Seq<NodeView>,
    src: Seq<char>,
    pairs: Seq<int>,
    k: int,
    key: Seq<char>,
    value: int,
)
    requires
        0 <= k < pairs.len(),
        key_and_value(nodes, src, pairs[k]) == Some((key, value)),
    ensures
        key == "instVars"@ && (forall|m: int|
            k < m < pairs.len() ==> !((#[trigger] key_and_value(nodes, src, pairs[m])) matches Some(
                (other, _),
            ) && other == key)) ==> fields_of(nodes, src, pairs).inst_vars == list_names(
            nodes,
            src,
            value,
        ),
        key == "classVars"@ && (forall|m: int|
            k < m < pairs.len() ==> !((#[trigger] key_and_value(nodes, src, pairs[m])) matches Some(
                (other, _),
            ) && other == key)) ==> fields_of(nodes, src, pairs).class_vars == list_names(
            nodes,
            src,
            value,
        ),
        key == "classInstVars"@ && (forall|m: int|
            k < m < pairs.len() ==> !((#[trigger] key_and_value(nodes, src, pairs[m])) matches Some(
                (other, _),
            ) && other == key)) ==> fields_of(nodes, src, pairs).class_inst_vars == list_names(
            nodes,
            src,
            value,
        ),
        key == "name"@ ==> match text_between(
            src,
            nodes[value].start_byte as int,
            nodes[value].end_byte as int,
        ) {
            Some(raw) => (forall|m: int|
                k < m < pairs.len() ==> match #[trigger] key_and_value(nodes, src, pairs[m]) {
                    Some((other, later)) => other == key ==> match text_between(
                        src,
                        nodes[later].start_byte as int,
                        nodes[later].end_byte as int,
                    ) {
                        Some(text) => false,
                        None => true,
                    },
                    None => true,
                }) ==> fields_of(nodes, src, pairs).name == Some(normalized(raw)),
            None => true,
        },
        key == "superclass"@ ==> match text_between(
            src,
            nodes[value].start_byte as int,
            nodes[value].end_byte as int,
        ) {
            Some(raw) => normalized(raw).len() > 0 && (forall|m: int|
                k < m < pairs.len() ==> match #[trigger] key_and_value(nodes, src, pairs[m]) {
                    Some((other, later)) => other == key ==> match text_between(
                        src,
                        nodes[later].start_byte as int,
                        nodes[later].end_byte as int,
                    ) {
                        Some(text) => normalized(text).len() == 0,
                        None => true,
                    },
                    None => true,
                }) ==> fields_of(nodes, src, pairs).superclass == Some(normalized(raw)),
            None => true,
        },
    decreases pairs.len(),
{
    lemma_keys_differ();
    let rest = pairs.drop_last();
    let last = pairs.len() - 1;
    assert forall|m: int| 0 <= m < rest.len() implies rest[m] == #[trigger] pairs[m] by {}
    if k < last {
        lemma_last_pair(nodes, src, rest, k, key, value);
        assert forall|m: int| k < m < rest.len() implies #[trigger] key_and_value(
            nodes,
            src,
            rest[m],
        ) == key_and_value(nodes, src, pairs[m]) by {}
        assert(pairs[last] == pairs.last());
        let late = key_and_value(nodes, src, pairs[last]);
    }
}

/// What is told of a class is what the pairs of its definition say: a list of variables what
/// the last pair with its key says, the name what the last pair with a readable name says, the
/// superclass what the last pair with a name that is not empty says; and the kind is that of
/// the definition.
pub proof fn class_info_tells_what_the_pairs_say(
    nodes: Seq<NodeView>,
    src: Seq<char>,
    def: int,
    map: int,
    pairs: Seq<int>,
    k: int,
    key: Seq<char>,
    value: int,
    told: ClassInfo,
)
    requires
        definition_from(nodes, 0) == Some(def),
        named_child_of_kind(nodes, def, "ston_map"@) == Some(map),
        pairs == named_children_of(nodes, map),
        0 <= k < pairs.len(),
        key_and_value(nodes, src, pairs[k]) == Some((key, value)),
        class_info_of(nodes, src) == Some(told@),
    ensures
        told.kind@ == (if nodes[def].kind == "class_definition"@ {
            "Class"@
        } else {
            "Trait"@
        }),
        key == "instVars"@ && (forall|m: int|
            k < m < pairs.len() ==> !((#[trigger] key_and_value(nodes, src, pairs[m])) matches Some(
                (other, _),
            ) && other == key)) ==> told.inst_vars@.map_values(|s: String| s@) == list_names(
            nodes,
            src,
            value,
        ),
        key == "classVars"@ && (forall|m: int|
            k < m < pairs.len() ==> !((#[trigger] key_and_value(nodes, src, pairs[m])) matches Some(
                (other, _),
            ) && other == key)) ==> told.class_vars@.map_values(|s: String| s@) == list_names(
            nodes,
            src,
            value,
        ),
        key == "classInstVars"@ && (forall|m: int|
            k < m < pairs.len() ==> !((#[trigger] key_and_value(nodes, src, pairs[m])) matches Some(
                (other, _),
            ) && other == key)) ==> told.class_inst_vars@.map_values(|s: String| s@) == list_names(
            nodes,
            src,
            value,
        ),
        key == "name"@ ==> match text_between(
            src,
            nodes[value].start_byte as int,
            nodes[value].end_byte as int,
        ) {
            Some(raw) => (forall|m: int|
                k < m < pairs.len() ==> match #[trigger] key_and_value(nodes, src, pairs[m]) {
                    Some((other, later)) => other == key ==> match text_between(
                        src,
                        nodes[later].start_byte as int,
                        nodes[later].end_byte as int,
                    ) {
                        Some(text) => false,
                        None => true,
                    },
                    None => true,
                }) ==> told.name@ == normalized(raw),
            None => true,
        },
        key == "superclass"@ ==> match text_between(
            src,
            nodes[value].start_byte as int,
            nodes[value].end_byte as int,
        ) {
            Some(raw) => normalized(raw).len() > 0 && (forall|m: int|
                k < m < pairs.len() ==> match #[trigger] key_and_value(nodes, src, pairs[m]) {
                    Some((other, later)) => other == key ==> match text_between(
                        src,
                        nodes[later].start_byte as int,
                        nodes[later].end_byte as int,
                    ) {
                        Some(text) => normalized(text).len() == 0,
                        None => true,
                    },
                    None => true,
                }) ==> (told.superclass matches Some(s) && s@ == normalized(raw)),
            None => true,
        },
{
    lemma_last_pair(nodes, src, pairs, k, key, value);
}

/// Nothing is told of a class without a readable name, of a definition without a map, or
/// without a definition; and a field that no pair speaks of is empty.
pub proof fn class_info_tells_nothing_else(
    nodes: Seq<NodeView>,
    src: Seq<char>,
    def: int,
    map: int,
    pairs: Seq<int>,
)
    requires
        definition_from(nodes, 0) == Some(def),
        named_child_of_kind(nodes, def, "ston_map"@) == Some(map),
        pairs == named_children_of(nodes, map),
    ensures
        class_info_of(nodes, src) is Some <==> exists|k: int|
            0 <= k < pairs.len() && match #[trigger] key_and_value(nodes, src, pairs[k]) {
                Some((key, value)) => key == "name"@ && text_between(
                    src,
                    nodes[value].start_byte as int,
                    nodes[value].end_byte as int,
                ) is Some,
                None => false,
            },
        class_info_of(nodes, src) matches Some(info) ==> {
            &&& (forall|k: int|
                0 <= k < pairs.len() ==> match #[trigger] key_and_value(nodes, src, pairs[k]) {
                    Some((key, value)) => key == "superclass"@ ==> match text_between(
                        src,
                        nodes[value].start_byte as int,
                        nodes[value].end_byte as int,
                    ) {
                        Some(raw) => normalized(raw).len() == 0,
                        None => true,
                    },
                    None => true,
                }) ==> info.superclass is None
            &&& (forall|k: int|
                0 <= k < pairs.len() ==> !((#[trigger] key_and_value(
                    nodes,
                    src,
                    pairs[k],
                )) matches Some((key, _)) && key == "instVars"@)) ==> info.inst_vars.len() == 0
            &&& (forall|k: int|
                0 <= k < pairs.len() ==> !((#[trigger] key_and_value(
                    nodes,
                    src,
                    pairs[k],
                )) matches Some((key, _)) && key == "classVars"@)) ==> info.class_vars.len() == 0
            &&& (forall|k: int|
                0 <= k < pairs.len() ==> !((#[trigger] key_and_value(
                    nodes,
                    src,
                    pairs[k],
                )) matches Some((key, _)) && key == "classInstVars"@))
                ==> info.class_inst_vars.len() == 0
        },
{
    fields_without_a_key_are_empty(nodes, src, pairs);
    lemma_unset_names(nodes, src, pairs);
}

proof fn lemma_unset_names(nodes: Seq<NodeView>, src: Seq<char>, pairs: Seq<int>)
    ensures
        fields_of(nodes, src, pairs).name is Some <==> exists|k: int|
            0 <= k < pairs.len() && match #[trigger] key_and_value(nodes, src, pairs[k]) {
                Some((key, value)) => key == "name"@ && text_between(
                    src,
                    nodes[value].start_byte as int,
                    nodes[value].end_byte as int,
                ) is Some,
                None => false,
            },
        (forall|k: int|
            0 <= k < pairs.len() ==> match #[trigger] key_and_value(nodes, src, pairs[k]) {
                Some((key, value)) => key == "superclass"@ ==> match text_between(
                    src,
                    nodes[value].start_byte as int,
                    nodes[value].end_byte as int,
                ) {
                    Some(raw) => normalized(raw).len() == 0,
                    None => true,
                },
                None => true,
            }) ==> fields_of(nodes, src, pairs).superclass is None,
    decreases pairs.len(),
{
    lemma_keys_differ();
    if pairs.len() > 0 {
        let rest = pairs.drop_last();
        let last = pairs.len() - 1;
        lemma_unset_names(nodes, src, rest);
        assert forall|m: int| 0 <= m < rest.len() implies rest[m] == #[trigger] pairs[m] by {}
        assert(pairs[last] == pairs.last());
        let late = key_and_value(nodes, src, pairs[last]);
        if fields_of(nodes, src, rest).name is Some {
            let k = choose|k: int|
                0 <= k < rest.len() && match #[trigger] key_and_value(nodes, src, rest[k]) {
                    Some((key, value)) => key == "name"@ && text_between(
                        src,
                        nodes[value].start_byte as int,
                        nodes[value].end_byte as int,
                    ) is Some,
                    None => false,
                };
            let found = key_and_value(nodes, src, pairs[k]);
        }
        if exists|k: int|
            0 <= k < pairs.len() && match #[trigger] key_and_value(nodes, src, pairs[k]) {
                Some((key, value)) => key == "name"@ && text_between(
                    src,
                    nodes[value].start_byte as int,
                    nodes[value].end_byte as int,
                ) is Some,
                None => false,
            } {
            let k = choose|k: int|
                0 <= k < pairs.len() && match #[trigger] key_and_value(nodes, src, pairs[k]) {
                    Some((key, value)) => key == "name"@ && text_between(
                        src,
                        nodes[value].start_byte as int,
                        nodes[value].end_byte as int,
                    ) is Some,
                    None => false,
                };
            if k < last {
                let found = key_and_value(nodes, src, rest[k]);
            }
        }
        if forall|k: int|
            0 <= k < pairs.len() ==> match #[trigger] key_and_value(nodes, src, pairs[k]) {
                Some((key, value)) => key == "superclass"@ ==> match text_between(
                    src,
                    nodes[value].start_byte as int,
                    nodes[value].end_byte as int,
                ) {
                    Some(raw) => normalized(raw).len() == 0,
                    None => true,
                },
                None => true,
            } {
            assert forall|k: int| 0 <= k < rest.len() implies match #[trigger] key_and_value(
                nodes,
                src,
                rest[k],
            ) {
                Some((key, value)) => key == "superclass"@ ==> match text_between(
                    src,
                    nodes[value].start_byte as int,
                    nodes[value].end_byte as int,
                ) {
                    Some(raw) => normalized(raw).len() == 0,
                    None => true,
                },
                None => true,
            } by {
                let same = key_and_value(nodes, src, pairs[k]);
            }
        }
    }
}

/// Nothing is told where there is no definition, or where the definition has no map.
pub proof fn nothing_is_told_without_a_definition(nodes: Seq<NodeView>, src: Seq<char>)
    ensures
        definition_from(nodes, 0) is None ==> class_info_of(nodes, src) is None,
        definition_from(nodes, 0) matches Some(def) ==> named_child_of_kind(
            nodes,
            def,
            "ston_map"@,
        ) is None ==> class_info_of(nodes, src) is None,
{
}

/// What is told of a class says what it holds.
pub proof fn class_infos_say_what_they_hold(info: ClassInfo)
    ensures
        info@.kind == info.kind@,
        info@.name == info.name@,
        info@.superclass == (match info.superclass {
            Some(name) => Some(name@),
            None => None,
        }),
        info@.inst_vars == info.inst_vars@.map_values(|s: String| s@),
        info@.class_vars == info.class_vars@.map_values(|s: String| s@),
        info@.class_inst_vars == info.class_inst_vars@.map_values(|s: String| s@),
{
}

proof fn lemma_child_toward(nodes: Seq<NodeView>, i: int, d: int) -> (j: int)
    requires
        is_walk(nodes),
        is_around(nodes, i, d),
        i < d < nodes.len(),
    ensures
        is_child(nodes, i, j),
        is_around(nodes, j, d),
    decreases d,
{
    what_lies_below_is_deeper(nodes, i, d);
    what_lies_below_is_deeper(nodes, d, d);
    assert(nodes[d].depth > nodes[i].depth);
    if nodes[d].depth == nodes[i].depth + 1 {
        d
    } else {
        assert(nodes[i + 1].depth <= nodes[i + 1 - 1].depth + 1);
        assert(i + 1 < d);
        what_lies_below_is_deeper(nodes, i, d - 1);
        let j = lemma_child_toward(nodes, i, d - 1);
        what_lies_below_is_deeper(nodes, j, d - 1);
        what_lies_below_is_deeper(nodes, j, d);
        j
    }
}

proof fn lemma_below_a_child(nodes: Seq<NodeView>, i: int, j: int, d: int)
    requires
        is_child(nodes, i, j),
        is_around(nodes, j, d),
    ensures
        is_around(nodes, i, d),
        forall|a: int| i < a && #[trigger] is_around(nodes, a, d) ==> j <= a,
{
    what_lies_below_is_deeper(nodes, i, d);
    what_lies_below_is_deeper(nodes, j, d);
    assert forall|a: int| i < a && #[trigger] is_around(nodes, a, d) implies j <= a by {
        if a < j {
            what_lies_below_is_deeper(nodes, a, d);
            assert(nodes[j].depth > nodes[a].depth);
        }
    }
}

/// Where an identifier that is found in a node stands.
#[verifier::spinoff_prover]
proof fn lemma_identifier_found(
    nodes: Seq<NodeView>,
    src: Seq<char>,
    i: int,
    name: Seq<char>,
) -> (d: int)
    requires
        is_walk(nodes),
        0 <= i < nodes.len(),
        has_identifier(nodes, src, i, name),
    ensures
        is_around(nodes, i, d),
        nodes[d].kind == "identifier"@,
        text_between(src, nodes[d].start_byte as int, nodes[d].end_byte as int) == Some(name),
        forall|a: int| i < a && #[trigger] is_around(nodes, a, d) ==> nodes[a].named,
        forall|a: int|
            i <= a < d && #[trigger] is_around(nodes, a, d) ==> nodes[a].kind != "identifier"@,
    decreases nodes.len() - i,
{
    what_lies_below_is_deeper(nodes, i, i);
    if nodes[i].kind == "identifier"@ {
        i
    } else {
        let j = choose|j: int| #[trigger]
            is_named_child(nodes, i, j) && has_identifier(nodes, src, j, name);
        let d = lemma_identifier_found(nodes, src, j, name);
        lemma_below_a_child(nodes, i, j, d);
        assert forall|a: int| i < a && #[trigger] is_around(nodes, a, d) implies nodes[a].named by {
            assert(j <= a);
        }
        assert forall|a: int| i <= a < d && #[trigger] is_around(nodes, a, d) implies nodes[a].kind
            != "identifier"@ by {
            if i < a {
                assert(j <= a);
            }
        }
        d
    }
}

/// An identifier below a node, through named nodes and no identifier, is found in it.
#[verifier::spinoff_prover]
proof fn lemma_identifier_below(
    nodes: Seq<NodeView>,
    src: Seq<char>,
    i: int,
    name: Seq<char>,
    d: int,
)
    requires
        is_walk(nodes),
        0 <= i < nodes.len(),
        is_around(nodes, i, d),
        nodes[d].kind == "identifier"@,
        text_between(src, nodes[d].start_byte as int, nodes[d].end_byte as int) == Some(name),
        forall|a: int| i < a && #[trigger] is_around(nodes, a, d) ==> nodes[a].named,
        forall|a: int|
            i <= a < d && #[trigger] is_around(nodes, a, d) ==> nodes[a].kind != "identifier"@,
    ensures
        has_identifier(nodes, src, i, name),
    decreases nodes.len() - i,
{
    if i < d {
        what_lies_below_is_deeper(nodes, i, d);
        let j = lemma_child_toward(nodes, i, d);
        lemma_identifier_below(nodes, src, j, name, d);
        assert(nodes[i].kind != "identifier"@);
        assert(is_named_child(nodes, i, j));
    }
}

/// An identifier is found in a node exactly where the node, or one that lies below it through
/// named nodes and no identifier, is an identifier that reads so.
pub proof fn identifiers_are_found_below(
    nodes: Seq<NodeView>,
    src: Seq<char>,
    i: int,
    name: Seq<char>,
)
    requires
        is_walk(nodes),
        0 <= i < nodes.len(),
    ensures
        has_identifier(nodes, src, i, name) <==> exists|d: int|
            {
                &&& #[trigger] is_around(nodes, i, d)
                &&& nodes[d].kind == "identifier"@
                &&& text_between(src, nodes[d].start_byte as int, nodes[d].end_byte as int)
                    == Some(name)
                &&& forall|a: int| i < a && #[trigger] is_around(nodes, a, d) ==> nodes[a].named
                &&& forall|a: int|
                    i <= a < d && #[trigger] is_around(nodes, a, d) ==> nodes[a].kind
                        != "identifier"@
            },
{
    if has_identifier(nodes, src, i, name) {
        let d = lemma_identifier_found(nodes, src, i, name);
        assert(is_around(nodes, i, d));
    }
    if exists|d: int|
        {
            &&& #[trigger] is_around(nodes, i, d)
            &&& nodes[d].kind == "identifier"@
            &&& text_between(src, nodes[d].start_byte as int, nodes[d].end_byte as int)
                == Some(name)
            &&& forall|a: int| i < a && #[trigger] is_around(nodes, a, d) ==> nodes[a].named
            &&& forall|a: int|
                i <= a < d && #[trigger] is_around(nodes, a, d) ==> nodes[a].kind
                    != "identifier"@
        } {
        let d = choose|d: int|
            {
                &&& #[trigger] is_around(nodes, i, d)
                &&& nodes[d].kind == "identifier"@
                &&& text_between(src, nodes[d].start_byte as int, nodes[d].end_byte as int)
                    == Some(name)
                &&& forall|a: int| i < a && #[trigger] is_around(nodes, a, d) ==> nodes[a].named
                &&& forall|a: int|
                    i <= a < d && #[trigger] is_around(nodes, a, d) ==> nodes[a].kind
                        != "identifier"@
            };
        lemma_identifier_below(nodes, src, i, name, d);
    }
}

/// A name is local at a node exactly where a node around it, with no method in between, is a
/// block with the name among its arguments or temporaries, or a method with the name among the
/// parameters of its reference or the temporaries of its body.
pub proof fn locals_are_declared_around(
    nodes: Seq<NodeView>,
    src: Seq<char>,
    i: int,
    name: Seq<char>,
)
    requires
        is_walk(nodes),
        0 <= i < nodes.len(),
    ensures
        is_declared_around(nodes, src, i, name) <==> exists|a: int|
            {
                &&& #[trigger] is_around(nodes, a, i)
                &&& forall|m: int|
                    a < m && #[trigger] is_around(nodes, m, i) ==> nodes[m].kind
                        != "method_definition"@
                &&& (nodes[a].kind == "block"@ && exists|j: int|
                    {
                        &&& #[trigger] is_named_child(nodes, a, j)
                        &&& nodes[j].kind == "block_argument"@ || nodes[j].kind == "temporaries"@
                        &&& has_identifier(nodes, src, j, name)
                    }) || (nodes[a].kind == "method_definition"@ && exists|j: int|
                    {
                        &&& #[trigger] is_named_child(nodes, a, j)
                        &&& (nodes[j].kind == "method_reference"@ && exists|p: int|
                            {
                                &&& #[trigger] is_child(nodes, j, p)
                                &&& nodes[p].field == Some("param"@)
                                &&& has_identifier(nodes, src, p, name)
                            }) || (nodes[j].kind == "method_body"@ && exists|t: int|
                            {
                                &&& #[trigger] is_named_child(nodes, j, t)
                                &&& nodes[t].kind == "temporaries"@
                                &&& has_identifier(nodes, src, t, name)
                            })
                    })
            },
{
    locals_are_declared_in_a_scope(nodes, src, i, name);
    if is_declared_around(nodes, src, i, name) {
        let a = choose|a: int| #[trigger] is_declaring_scope(nodes, src, a, i, name);
        assert(is_around(nodes, a, i));
    } else {
        assert forall|a: int| !#[trigger] is_declaring_scope(nodes, src, a, i, name) by {}
        assert forall|a: int| #[trigger] is_around(nodes, a, i) implies !is_declaring_scope(
            nodes,
            src,
            a,
            i,
            name,
        ) by {}
    }
}

/// What is found at a position is the node there, where it is an identifier, a string, a symbol
/// or a STON symbol, and otherwise the node a column before, where there is a column before.
pub proof fn tokens_are_preferred(
    nodes: Seq<NodeView>,
    here: Option<int>,
    before: Option<Option<int>>,
)
    ensures
        here is None ==> token_of(nodes, here, before) is None,
        before is None ==> token_of(nodes, here, before) == here,
        here matches Some(i) ==> before matches Some(earlier) ==> token_of(nodes, here, before) == (
        if nodes[i].kind == "identifier"@ || nodes[i].kind == "string"@ || nodes[i].kind
            == "symbol"@ || nodes[i].kind == "ston_symbol"@ {
            here
        } else {
            earlier
        }),
{
}

/// The answer to what a token is as a class name: for an identifier, a string, a symbol or a
/// STON symbol that can be read, its text without decoration, found where that starts with an
/// upper-case character and not upper case otherwise; for a node of another kind, that kind;
/// and no node for one that cannot be read and for none.
pub proof fn tokens_resolve_by_kind_and_text(
    nodes: Seq<NodeView>,
    src: Seq<char>,
    i: int,
    answer: ClassAtPos,
)
    requires
        answer@ == class_of_token(nodes, src, Some(i)),
    ensures
        ({
            let is_token = nodes[i].kind == "identifier"@ || nodes[i].kind == "string"@
                || nodes[i].kind == "symbol"@ || nodes[i].kind == "ston_symbol"@;
            if !is_token {
                answer matches ClassAtPos::NotIdentifier(kind) && kind@ == nodes[i].kind
            } else {
                match text_between(src, nodes[i].start_byte as int, nodes[i].end_byte as int) {
                    Some(raw) => if normalized(raw).len() > 0 && is_upper_case(normalized(raw)[0]) {
                        answer matches ClassAtPos::Found(name) && name@ == normalized(raw)
                    } else {
                        answer matches ClassAtPos::NotUppercase(name) && name@ == normalized(raw)
                    },
                    None => answer is NotNode,
                }
            }
        }),
        class_of_token(nodes, src, None) is NotNode,
{
}

/// Every node that names a class resolves to that class, and no other node does to any.
pub proof fn naming_nodes_are_found(nodes: Seq<NodeView>, src: Seq<char>, i: int, name: Seq<char>)
    ensures
        class_of_token(nodes, src, Some(i)) == ClassAtPosView::Found(name) <==> class_named_by(
            src,
            nodes[i],
        ) == Some(name),
{
}

/// The side of a token is that of the nearest method around it: the class side where the
/// method's first reference holds a child under `class_side`, the instance side where it holds
/// none; no side outside a method, in one without a reference, and for no token.
pub proof fn sides_are_those_of_the_method(nodes: Seq<NodeView>, i: int)
    requires
        is_walk(nodes),
        0 <= i < nodes.len(),
    ensures
        side_of_token(nodes, None) is None,
        match enclosing(nodes, i, "method_definition"@) {
            Some(method) => match named_child_of_kind(nodes, method, "method_reference"@) {
                Some(reference) => if exists|j: int|
                    {
                        &&& reference < j < nodes.len()
                        &&& (#[trigger] nodes[j]).depth == nodes[reference].depth + 1
                        &&& forall|k: int|
                            reference < k < j ==> (#[trigger] nodes[k]).depth
                                > nodes[reference].depth
                        &&& nodes[j].field == Some("class_side"@)
                    } {
                    side_of_token(nodes, Some(i)) == Some(MethodSide::Class)
                } else {
                    side_of_token(nodes, Some(i)) == Some(MethodSide::Instance)
                },
                None => side_of_token(nodes, Some(i)) is None,
            },
            None => side_of_token(nodes, Some(i)) is None,
        },
{
    enclosing_is_the_nearest(nodes, i, "method_definition"@, i);
    if let Some(method) = enclosing(nodes, i, "method_definition"@) {
        children_found_are_children(nodes, method, "method_reference"@);
        if let Some(reference) = named_child_of_kind(nodes, method, "method_reference"@) {
            fields_are_held_by_children(nodes, reference, "class_side"@);
        }
    }
}

/// A token is local exactly where it is an identifier whose text is declared around it.
pub proof fn local_tokens_are_declared(nodes: Seq<NodeView>, src: Seq<char>, i: int)
    ensures
        !is_local_token(nodes, src, None),
        is_local_token(nodes, src, Some(i)) <==> {
            &&& nodes[i].kind == "identifier"@
            &&& match text_between(src, nodes[i].start_byte as int, nodes[i].end_byte as int) {
                Some(name) => is_declared_around(nodes, src, i, name),
                None => false,
            }
        },
{
}

proof fn lemma_definition_nearest(nodes: Seq<NodeView>, i: int)
    requires
        is_walk(nodes),
        0 <= i < nodes.len(),
    ensures
        match definition_around(nodes, i) {
            Some(m) => is_around(nodes, m, i) && 0 <= m <= i && (nodes[m].kind
                == "class_definition"@ || nodes[m].kind == "trait_definition"@) && forall|n: int|
                m < n && #[trigger] is_around(nodes, n, i) ==> nodes[n].kind != "class_definition"@
                    && nodes[n].kind != "trait_definition"@,
            None => forall|n: int| #[trigger]
                is_around(nodes, n, i) ==> nodes[n].kind != "class_definition"@ && nodes[n].kind
                    != "trait_definition"@,
        },
    decreases i,
{
    only_the_root_has_no_parent(nodes, i);
    around_goes_by_parents(nodes, i, i);
    if nodes[i].kind != "class_definition"@ && nodes[i].kind != "trait_definition"@ {
        assert forall|n: int| #[trigger] is_around(nodes, n, i) implies n == i || (parent_of(
            nodes,
            i,
        ) matches Some(p) && is_around(nodes, n, p)) by {
            around_goes_by_parents(nodes, n, i);
        }
        if let Some(p) = parent_of(nodes, i) {
            lemma_definition_nearest(nodes, p);
            if let Some(m) = definition_around(nodes, p) {
                around_goes_by_parents(nodes, m, i);
            }
        }
    }
}

proof fn lemma_captured_at(nodes: Seq<NodeView>, capture: CaptureView, from: int)
    requires
        0 <= from,
    ensures
        match captured_from(nodes, capture, from) {
            Some(i) => {
                &&& from <= i < nodes.len()
                &&& nodes[i].kind == capture.kind
                &&& nodes[i].start_byte == capture.start_byte
                &&& nodes[i].end_byte == capture.end_byte
                &&& forall|j: int|
                    from <= j < i ==> !((#[trigger] nodes[j]).kind == capture.kind
                        && nodes[j].start_byte == capture.start_byte && nodes[j].end_byte
                        == capture.end_byte)
            },
            None => forall|j: int|
                from <= j < nodes.len() ==> !((#[trigger] nodes[j]).kind == capture.kind
                    && nodes[j].start_byte == capture.start_byte && nodes[j].end_byte
                    == capture.end_byte),
        },
    decreases nodes.len() - from,
{
    if from < nodes.len() {
        lemma_captured_at(nodes, capture, from + 1);
    }
}

/// A file is found to define a class where the node captured as its name, the first of its kind
/// at its place, can be read and lies in a class or trait definition: the name is the text
/// without decoration, and the place that of the nearest such definition.
pub proof fn definitions_lie_around_the_name(
    nodes: Seq<NodeView>,
    src: Seq<char>,
    capture: CaptureView,
    i: int,
    def: int,
    raw: Seq<char>,
)
    requires
        is_walk(nodes),
        0 <= def <= i < nodes.len(),
        nodes[i].kind == capture.kind,
        nodes[i].start_byte == capture.start_byte,
        nodes[i].end_byte == capture.end_byte,
        forall|j: int|
            0 <= j < i ==> !((#[trigger] nodes[j]).kind == capture.kind && nodes[j].start_byte
                == capture.start_byte && nodes[j].end_byte == capture.end_byte),
        text_between(src, nodes[i].start_byte as int, nodes[i].end_byte as int) == Some(raw),
        nodes[def].kind == "class_definition"@ || nodes[def].kind == "trait_definition"@,
        is_around(nodes, def, i),
        forall|n: int|
            def < n && #[trigger] is_around(nodes, n, i) ==> nodes[n].kind != "class_definition"@
                && nodes[n].kind != "trait_definition"@,
    ensures
        class_defined(nodes, src, Some(capture)) == Some(
            (
                normalized(raw),
                Range {
                    start: Position {
                        line: nodes[def].start.row as u32,
                        character: nodes[def].start.column as u32,
                    },
                    end: Position {
                        line: nodes[def].end.row as u32,
                        character: nodes[def].end.column as u32,
                    },
                },
            ),
        ),
{
    lemma_captured_at(nodes, capture, 0);
    lemma_definition_nearest(nodes, i);
    let f = captured_from(nodes, capture, 0)->0;
    if f != i {
        assert(nodes[i].kind == capture.kind);
        assert(nodes[f].kind == capture.kind);
    }
    let d = definition_around(nodes, i)->0;
    if d != def {
        assert(is_around(nodes, d, i));
        assert(is_around(nodes, def, i));
    }
}

/// A file is found to define nothing where no name was captured, where no node is of the kind
/// and at the place of the capture, where the first that is cannot be read, and where it lies
/// in no class or trait definition.
pub proof fn nothing_is_defined_otherwise(
    nodes: Seq<NodeView>,
    src: Seq<char>,
    capture: Option<CaptureView>,
)
    requires
        is_walk(nodes),
    ensures
        class_defined(nodes, src, capture) is Some ==> exists|i: int, def: int|
            {
                &&& capture matches Some(c)
                &&& #[trigger] is_around(nodes, def, i)
                &&& nodes[i].kind == c.kind
                &&& nodes[i].start_byte == c.start_byte
                &&& nodes[i].end_byte == c.end_byte
                &&& forall|j: int|
                    0 <= j < i ==> !((#[trigger] nodes[j]).kind == c.kind && nodes[j].start_byte
                        == c.start_byte && nodes[j].end_byte == c.end_byte)
                &&& text_between(
                    src,
                    nodes[i].start_byte as int,
                    nodes[i].end_byte as int,
                ) is Some
                &&& nodes[def].kind == "class_definition"@ || nodes[def].kind
                    == "trait_definition"@
            },
{
    if class_defined(nodes, src, capture) is Some {
        let c = capture->0;
        lemma_captured_at(nodes, c, 0);
        let i = captured_from(nodes, c, 0)->0;
        lemma_definition_nearest(nodes, i);
        let def = definition_around(nodes, i)->0;
        assert(is_around(nodes, def, i));
    }
}

/// A file is asked by what it holds: for its definition by what was captured, for its class by
/// its nodes, for places by its nodes; and at a position by the nodes found there and, behind
/// the first column, a column before.
pub proof fn files_are_asked_by_what_they_hold(file: FileView, pos: Position, name: Seq<char>)
    ensures
        file.definition() == class_defined(file.nodes, file.src, file.captured),
        file.info() == class_info_of(file.nodes, file.src),
        file.places(name) == ranges_naming(file.nodes, file.src, name),
        file.classes().contains(name) <==> ranges_naming(file.nodes, file.src, name).len() > 0,
        file.classes().no_duplicates(),
        file.token_at(pos) == token_of(
            file.nodes,
            match file.parse {
                Some(tree) => number_found(
                    tree,
                    Point { row: pos.line as usize, column: pos.character as usize },
                ),
                None => None,
            },
            if pos.character == 0 {
                None
            } else {
                Some(
                    match file.parse {
                        Some(tree) => number_found(
                            tree,
                            Point { row: pos.line as usize, column: (pos.character - 1) as usize },
                        ),
                        None => None,
                    },
                )
            },
        ),
        file.class_at(pos) == class_of_token(file.nodes, file.src, file.token_at(pos)),
        file.side_at(pos) == side_of_token(file.nodes, file.token_at(pos)),
        file.is_local_at(pos) == is_local_token(file.nodes, file.src, file.token_at(pos)),
{
    listed_classes_are_named(file.nodes, file.src, name);
    listed_classes_are_distinct(file.nodes, file.src);
}

/// A source is parsed whole: the file has its text, the nodes of its tree, what the query for
/// definitions captured as the name, and the tree for its positions.
pub proof fn files_hold_the_parse(language: tree_sitter::Language, src: Seq<char>)
    ensures
        file_of(language, src).src == src,
        file_of(language, src).nodes == nodes_of(parsed(language, src)),
        file_of(language, src).captured == first_captured(
            parsed(language, src),
            src,
            DEFINITION_QUERY@,
            "name"@,
        ),
        file_of(language, src).parse == Some(parsed(language, src)),
{
}

proof fn lemma_number_at(tree: tree_sitter::Tree, point: Point, from: int)
    requires
        0 <= from,
    ensures
        match number_found_from(tree, point, from) {
            Some(i) => {
                &&& from <= i < nodes_of(tree).len()
                &&& i == 0 || nodes_of(tree)[i].holds(point)
                &&& is_found(tree, point.row, point.column, i as usize)
                &&& forall|j: int|
                    from <= j < i ==> !((j == 0 || (#[trigger] nodes_of(tree)[j]).holds(point))
                        && is_found(tree, point.row, point.column, j as usize))
            },
            None => forall|j: int|
                from <= j < nodes_of(tree).len() ==> !((j == 0 || (
                #[trigger] nodes_of(tree)[j]).holds(point)) && is_found(
                    tree,
                    point.row,
                    point.column,
                    j as usize,
                )),
        },
    decreases nodes_of(tree).len() - from,
{
    if from < nodes_of(tree).len() {
        lemma_number_at(tree, point, from + 1);
    }
}

/// What is found at a point is the first of the nodes there, and of the root, that tree-sitter
/// finds at it; nothing exactly where it finds none of them.
pub proof fn points_give_what_tree_sitter_finds(tree: tree_sitter::Tree, point: Point)
    ensures
        match number_found(tree, point) {
            Some(i) => {
                &&& 0 <= i < nodes_of(tree).len()
                &&& i == 0 || nodes_of(tree)[i].holds(point)
                &&& is_found(tree, point.row, point.column, i as usize)
                &&& forall|j: int|
                    0 <= j < i ==> !((j == 0 || (#[trigger] nodes_of(tree)[j]).holds(point))
                        && is_found(tree, point.row, point.column, j as usize))
            },
            None => forall|j: int|
                0 <= j < nodes_of(tree).len() ==> !((j == 0 || (
                #[trigger] nodes_of(tree)[j]).holds(point)) && is_found(
                    tree,
                    point.row,
                    point.column,
                    j as usize,
                )),
        },
{
    lemma_number_at(tree, point, 0);
}

/// What a capture, the number of a node and a list of nodes or of numbers say is what they
/// hold.
pub proof fn captures_and_numbers_say_what_they_hold(
    capture: Capture,
    number_of: usize,
    nodes: Seq<SyntaxNode>,
    list: Seq<usize>,
    k: int,
)
    ensures
        capture_view(None) is None,
        capture_view(Some(capture)) matches Some(view) && view.kind == capture.kind@
            && view.start_byte == capture.start_byte && view.end_byte == capture.end_byte,
        number(None) is None,
        number(Some(number_of)) == Some(number_of as int),
        views(nodes).len() == nodes.len(),
        0 <= k < nodes.len() ==> views(nodes)[k] == nodes[k]@,
        indices(list).len() == list.len(),
        0 <= k < list.len() ==> indices(list)[k] == list[k],
{
}

/// The query for definitions asks for a class or a trait whose map has the key `#name`, and
/// for its value, a symbol or a string: one alternative for each of the four, and no other.
#[verifier::spinoff_prover]
pub proof fn definitions_of_classes_and_traits_are_asked_for()
    ensures
        ({
            let alternative = |kind: Seq<char>, value: Seq<char>|
                "    ("@ + kind + " (ston_map (ston_pair\n"@
                    + "        (ston_key (ston_symbol) @key (#eq? @key \"#name\"))\n"@
                    + "        (ston_value ("@ + value + ") @name))))\n"@;
            DEFINITION_QUERY@ == "[\n"@ + alternative("class_definition"@, "ston_symbol"@)
                + alternative("class_definition"@, "string"@) + alternative(
                "trait_definition"@,
                "ston_symbol"@,
            ) + alternative("trait_definition"@, "string"@) + "]"@
        }),
{
    reveal_strlit("[
    (class_definition (ston_map (ston_pair
        (ston_key (ston_symbol) @key (#eq? @key \"#name\"))
        (ston_value (ston_symbol) @name))))
    (class_definition (ston_map (ston_pair
        (ston_key (ston_symbol) @key (#eq? @key \"#name\"))
        (ston_value (string) @name))))
    (trait_definition (ston_map (ston_pair
        (ston_key (ston_symbol) @key (#eq? @key \"#name\"))
        (ston_value (ston_symbol) @name))))
    (trait_definition (ston_map (ston_pair
        (ston_key (ston_symbol) @key (#eq? @key \"#name\"))
        (ston_value (string) @name))))
]");
    reveal_strlit("    (");
    reveal_strlit(" (ston_map (ston_pair\n");
    reveal_strlit("        (ston_key (ston_symbol) @key (#eq? @key \"#name\"))\n");
    reveal_strlit("        (ston_value (");
    reveal_strlit(") @name))))\n");
    reveal_strlit("[\n");
    reveal_strlit("]");
    reveal_strlit("class_definition");
    reveal_strlit("trait_definition");
    reveal_strlit("ston_symbol");
    reveal_strlit("string");
}

} // verus!
