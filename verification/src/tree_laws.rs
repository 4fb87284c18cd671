//! What holds of texts, ranges and trees, said of their characters, numbers and fields.

use vstd::prelude::*;
use vstd::utf8::*;

use crate::position::{Location, Position, Range};
use crate::syntax::{
    around_goes_by_parents, children_are_listed, children_from, children_of, enclosing,
    first_named_child, first_of_kind, has_field, is_around, is_child, is_named_child, is_walk,
    named_child_of_kind, named_children_of, next_outside, only_the_root_has_no_parent,
    parent_and_child_agree, parent_of, subtree_end, NodeView, Point, SyntaxNode,
};
use crate::text::{
    capitalized, is_upper_case, is_white_space, normalized, shortened, strip_back, strip_front,
    text_between, text_le, trimmed, CharClass,
};

verus! {

/// A text is read from a source between two offsets exactly where its bytes are the bytes of
/// the source between them.
pub proof fn texts_are_read_by_their_bytes(src: Seq<char>, start: int, end: int, text: Seq<char>)
    ensures
        text_between(src, start, end) == Some(text) <==> 0 <= start <= end <= encode_utf8(src).len()
            && encode_utf8(text) == encode_utf8(src).subrange(start, end),
{
    let bytes = encode_utf8(src).subrange(start, end);
    encode_utf8_decode_utf8(text);
    encode_utf8_valid_utf8(text);
    if valid_utf8(bytes) {
        decode_utf8_encode_utf8(bytes);
    }
}

proof fn lemma_front(s: Seq<char>, class: CharClass) -> (n: int)
    ensures
        0 <= n <= s.len(),
        strip_front(s, class) == s.skip(n),
        forall|k: int| 0 <= k < n ==> class.has(#[trigger] s[k]),
        n < s.len() ==> !class.has(s[n]),
    decreases s.len(),
{
    if s.len() > 0 && class.has(s[0]) {
        let rest = s.drop_first();
        let m = lemma_front(rest, class);
        assert(rest.skip(m) =~= s.skip(m + 1));
        assert forall|k: int| 0 <= k < m + 1 implies class.has(#[trigger] s[k]) by {
            if k > 0 {
                assert(rest[k - 1] == s[k]);
            }
        }
        m + 1
    } else {
        assert(s.skip(0) =~= s);
        0
    }
}

proof fn lemma_back(s: Seq<char>, class: CharClass) -> (n: int)
    ensures
        0 <= n <= s.len(),
        strip_back(s, class) == s.take(n),
        forall|k: int| n <= k < s.len() ==> class.has(#[trigger] s[k]),
        n > 0 ==> !class.has(s[n - 1]),
    decreases s.len(),
{
    if s.len() > 0 && class.has(s.last()) {
        let rest = s.drop_last();
        let m = lemma_back(rest, class);
        assert(rest.take(m) =~= s.take(m));
        assert forall|k: int| m <= k < s.len() implies class.has(#[trigger] s[k]) by {
            if k < rest.len() {
                assert(rest[k] == s[k]);
            }
        }
        m
    } else {
        assert(s.take(s.len() as int) =~= s);
        s.len() as int
    }
}

/// A name loses its leading hashes, then the quotes in front and behind, and nothing else:
/// the characters up to the first number are all the leading hashes, those up to the second
/// and from the third on are quotes, and what is left between has no quote at its ends.
pub proof fn names_lose_their_decoration_alone(raw: Seq<char>) -> (cut: (int, int, int))
    ensures
        0 <= cut.0 <= cut.1 <= cut.2 <= raw.len(),
        forall|k: int| 0 <= k < cut.0 ==> #[trigger] raw[k] == '#',
        cut.0 < raw.len() ==> raw[cut.0] != '#',
        forall|k: int| cut.0 <= k < cut.1 ==> #[trigger] raw[k] == '\'',
        forall|k: int| cut.2 <= k < raw.len() ==> #[trigger] raw[k] == '\'',
        normalized(raw) == raw.subrange(cut.1, cut.2),
        cut.1 < cut.2 ==> raw[cut.1] != '\'' && raw[cut.2 - 1] != '\'',
        cut.1 == cut.2 ==> cut.1 == raw.len(),
{
    let hash = CharClass::Just('#');
    let quote = CharClass::Just('\'');
    let h = lemma_front(raw, hash);
    let symbol = raw.skip(h);
    let q = lemma_front(symbol, quote);
    let opened = symbol.skip(q);
    let n = lemma_back(opened, quote);
    let i = h + q;
    let j = i + n;
    assert forall|k: int| 0 <= k < h implies #[trigger] raw[k] == '#' by {
        assert(hash.has(raw[k]));
    }
    assert forall|k: int| h <= k < i implies #[trigger] raw[k] == '\'' by {
        assert(quote.has(symbol[k - h]));
    }
    assert forall|k: int| j <= k < raw.len() implies #[trigger] raw[k] == '\'' by {
        assert(quote.has(opened[k - i]));
    }
    assert(opened.take(n) =~= raw.subrange(i, j));
    if i < j {
        assert(!quote.has(opened[n - 1]));
        assert(!quote.has(symbol[q]));
    } else if i < raw.len() {
        assert(quote.has(opened[0]));
        assert(!quote.has(symbol[q]));
    }
    (h, i, j)
}

/// A text loses the white space at its ends and nothing else.
pub proof fn texts_lose_outer_white_space_alone(raw: Seq<char>) -> (cut: (int, int))
    ensures
        0 <= cut.0 <= cut.1 <= raw.len(),
        forall|k: int| 0 <= k < cut.0 ==> is_white_space(#[trigger] raw[k]),
        forall|k: int| cut.1 <= k < raw.len() ==> is_white_space(#[trigger] raw[k]),
        trimmed(raw) == raw.subrange(cut.0, cut.1),
        cut.0 < cut.1 ==> !is_white_space(raw[cut.0]) && !is_white_space(raw[cut.1 - 1]),
        cut.0 == cut.1 ==> cut.0 == raw.len(),
{
    let class = CharClass::WhiteSpace;
    let i = lemma_front(raw, class);
    let rest = raw.skip(i);
    let n = lemma_back(rest, class);
    assert forall|k: int| 0 <= k < i implies is_white_space(#[trigger] raw[k]) by {
        assert(class.has(raw[k]));
    }
    assert forall|k: int| i + n <= k < raw.len() implies is_white_space(#[trigger] raw[k]) by {
        assert(class.has(rest[k - i]));
    }
    assert(rest.take(n) =~= raw.subrange(i, i + n));
    if n > 0 {
        assert(!class.has(rest[n - 1]));
        assert(!class.has(raw[i]));
    } else if i < raw.len() {
        assert(class.has(rest[0]));
        assert(!class.has(raw[i]));
    }
    (i, i + n)
}

/// A text is capitalized where its first character is an upper-case one; an empty text is
/// not.
pub proof fn capitals_stand_in_front(s: Seq<char>)
    ensures
        s.len() == 0 ==> !capitalized(s),
        s.len() > 0 ==> (capitalized(s) <==> is_upper_case(s[0])),
{
}

/// A text is cut to the first `count` characters, and left alone where it has no more.
pub proof fn texts_are_cut_behind(s: Seq<char>, count: int)
    requires
        0 <= count,
    ensures
        shortened(s, count).len() == (if s.len() < count {
            s.len() as int
        } else {
            count
        }),
        forall|k: int| 0 <= k < shortened(s, count).len() ==> shortened(s, count)[k] == s[k],
{
}

/// One text precedes another exactly where it is the beginning of the other, or has the
/// lower character at the first place where the two differ.
pub proof fn texts_are_ordered_by_their_first_difference(a: Seq<char>, b: Seq<char>)
    ensures
        text_le(a, b) <==> exists|k: int|
            {
                &&& 0 <= k <= a.len()
                &&& k <= b.len()
                &&& #[trigger] a.take(k) == b.take(k)
                &&& k == a.len() || (k < b.len() && a[k] < b[k])
            },
    decreases a.len(),
{
    if a.len() == 0 {
        assert(a.take(0) =~= b.take(0));
    } else if b.len() == 0 {
    } else if a[0] != b[0] {
        if a[0] < b[0] {
            assert(a.take(0) =~= b.take(0));
        }
        assert forall|k: int| 0 < k <= a.len() && k <= b.len() implies #[trigger] a.take(k)
            != b.take(k) by {
            assert(a.take(k)[0] == a[0]);
            assert(b.take(k)[0] == b[0]);
        }
    } else {
        let x = a.drop_first();
        let y = b.drop_first();
        texts_are_ordered_by_their_first_difference(x, y);
        if text_le(a, b) {
            let k = choose|k: int|
                {
                    &&& 0 <= k <= x.len()
                    &&& k <= y.len()
                    &&& #[trigger] x.take(k) == y.take(k)
                    &&& k == x.len() || (k < y.len() && x[k] < y[k])
                };
            assert(a.take(k + 1) =~= seq![a[0]] + x.take(k));
            assert(b.take(k + 1) =~= seq![b[0]] + y.take(k));
            assert(k < x.len() ==> x[k] == a[k + 1]);
            assert(k < y.len() ==> y[k] == b[k + 1]);
        }
        if exists|k: int|
            {
                &&& 0 <= k <= a.len()
                &&& k <= b.len()
                &&& #[trigger] a.take(k) == b.take(k)
                &&& k == a.len() || (k < b.len() && a[k] < b[k])
            } {
            let k = choose|k: int|
                {
                    &&& 0 <= k <= a.len()
                    &&& k <= b.len()
                    &&& #[trigger] a.take(k) == b.take(k)
                    &&& k == a.len() || (k < b.len() && a[k] < b[k])
                };
            assert(k > 0);
            assert(x.take(k - 1) =~= a.take(k).drop_first());
            assert(y.take(k - 1) =~= b.take(k).drop_first());
            assert(k - 1 < x.len() ==> x[k - 1] == a[k]);
            assert(k - 1 < y.len() ==> y[k - 1] == b[k]);
        }
    }
}

/// A range holds another exactly where it starts on an earlier line, or on the same line no
/// later, and ends on a later line, or on the same line no earlier.
pub proof fn ranges_hold_by_line_and_character(outer: Range, inner: Range)
    ensures
        outer.covers(inner) <==> {
            &&& outer.start.line < inner.start.line || (outer.start.line == inner.start.line
                && outer.start.character <= inner.start.character)
            &&& inner.end.line < outer.end.line || (inner.end.line == outer.end.line
                && inner.end.character <= outer.end.character)
        },
{
}

/// A range touches a position that is neither before its start nor behind its end.
pub proof fn ranges_touch_by_line_and_character(range: Range, pos: Position)
    ensures
        range.touches(pos) <==> {
            &&& range.start.line < pos.line || (range.start.line == pos.line
                && range.start.character <= pos.character)
            &&& pos.line < range.end.line || (pos.line == range.end.line && pos.character
                <= range.end.character)
        },
{
}

/// A location says its URL and its range.
pub proof fn locations_say_what_they_hold(location: Location)
    ensures
        location@.uri == location.uri@,
        location@.range == location.range,
{
}

/// A node says what it holds.
pub proof fn nodes_say_what_they_hold(node: SyntaxNode)
    ensures
        node@.kind == node.kind@,
        node@.field == (match node.field {
            Some(name) => Some(name@),
            None => None,
        }),
        node@.depth == node.depth,
        node@.named == node.named,
        node@.missing == node.missing,
        node@.error == node.error,
        node@.has_error == node.has_error,
        node@.start_byte == node.start_byte,
        node@.end_byte == node.end_byte,
        node@.start == node.start,
        node@.end == node.end,
{
}

/// A node lies at a point that is not before its start and is before its end; a node without
/// an extent lies at its own place.
pub proof fn nodes_lie_where_their_text_is(node: NodeView, point: Point)
    ensures
        node.holds(point) <==> {
            let (row, column) = (point.row, point.column);
            &&& node.start.row < row || (node.start.row == row && node.start.column <= column)
            &&& (row < node.end.row || (row == node.end.row && column < node.end.column)) || (
            node.start == node.end && node.end.row == row && node.end.column == column)
        },
{
}

/// Nodes are a tree exactly where the first one alone is at the top, and each other one is at
/// most one level below the one before it.
pub proof fn trees_go_down_a_level_at_a_time(nodes: Seq<NodeView>)
    ensures
        is_walk(nodes) <==> {
            &&& nodes.len() > 0
            &&& forall|i: int|
                0 <= i < nodes.len() ==> ((#[trigger] nodes[i]).depth == 0 <==> i == 0)
            &&& forall|i: int|
                1 <= i < nodes.len() ==> (#[trigger] nodes[i]).depth <= nodes[i - 1].depth + 1
        },
{
    if nodes.len() > 0 && (forall|i: int|
        0 <= i < nodes.len() ==> ((#[trigger] nodes[i]).depth == 0 <==> i == 0)) && (forall|i: int|
        1 <= i < nodes.len() ==> (#[trigger] nodes[i]).depth <= nodes[i - 1].depth + 1) {
        assert(nodes[0].depth == 0);
    }
}

/// A node is a child of another exactly where it comes later, one level deeper, with nothing
/// but deeper nodes than the other in between; and that other is then its parent.
pub proof fn children_are_one_level_deeper(nodes: Seq<NodeView>, i: int, j: int)
    requires
        is_walk(nodes),
        0 <= i < nodes.len(),
        0 <= j < nodes.len(),
    ensures
        is_child(nodes, i, j) <==> {
            &&& i < j
            &&& nodes[j].depth == nodes[i].depth + 1
            &&& forall|k: int| i < k < j ==> (#[trigger] nodes[k]).depth > nodes[i].depth
        },
        parent_of(nodes, j) == Some(i) <==> {
            &&& i < j
            &&& nodes[j].depth == nodes[i].depth + 1
            &&& forall|k: int| i < k < j ==> (#[trigger] nodes[k]).depth > nodes[i].depth
        },
        is_named_child(nodes, i, j) <==> {
            &&& i < j
            &&& nodes[j].depth == nodes[i].depth + 1
            &&& forall|k: int| i < k < j ==> (#[trigger] nodes[k]).depth > nodes[i].depth
            &&& nodes[j].named
        },
{
    parent_and_child_agree(nodes, i, j);
}

proof fn lemma_children_ascend(nodes: Seq<NodeView>, i: int, from: int, named_only: bool)
    ensures
        forall|a: int|
            0 <= a < children_from(nodes, i, from, named_only).len() ==> from <= #[trigger]
                children_from(nodes, i, from, named_only)[a],
        forall|a: int, b: int|
            0 <= a < b < children_from(nodes, i, from, named_only).len() ==> #[trigger]
                children_from(nodes, i, from, named_only)[a] < #[trigger] children_from(
                nodes,
                i,
                from,
                named_only,
            )[b],
    decreases nodes.len() - from,
{
    if from < nodes.len() && nodes[from].depth > nodes[i].depth {
        lemma_children_ascend(nodes, i, from + 1, named_only);
        let rest = children_from(nodes, i, from + 1, named_only);
        let list = children_from(nodes, i, from, named_only);
        if nodes[from].depth == nodes[i].depth + 1 && (named_only ==> nodes[from].named) {
            assert(list == seq![from] + rest);
            assert forall|a: int| 0 < a < list.len() implies #[trigger] list[a] == rest[a - 1] by {}
        }
    }
}

/// The children of a node are listed in the order of the walk, all of them and nothing else;
/// among the named children only those that are named.
pub proof fn children_are_listed_in_order(nodes: Seq<NodeView>, i: int, j: int, a: int, b: int)
    requires
        is_walk(nodes),
        0 <= i < nodes.len(),
        0 <= j < nodes.len(),
    ensures
        children_of(nodes, i).contains(j) <==> {
            &&& i < j
            &&& nodes[j].depth == nodes[i].depth + 1
            &&& forall|k: int| i < k < j ==> (#[trigger] nodes[k]).depth > nodes[i].depth
        },
        named_children_of(nodes, i).contains(j) <==> {
            &&& i < j
            &&& nodes[j].depth == nodes[i].depth + 1
            &&& forall|k: int| i < k < j ==> (#[trigger] nodes[k]).depth > nodes[i].depth
            &&& nodes[j].named
        },
        0 <= a < b < children_of(nodes, i).len() ==> children_of(nodes, i)[a] < children_of(
            nodes,
            i,
        )[b],
        0 <= a < b < named_children_of(nodes, i).len() ==> named_children_of(nodes, i)[a]
            < named_children_of(nodes, i)[b],
{
    children_are_listed(nodes, i, j);
    lemma_children_ascend(nodes, i, i + 1, false);
    lemma_children_ascend(nodes, i, i + 1, true);
}

proof fn lemma_first_of_kind_at(nodes: Seq<NodeView>, list: Seq<int>, kind: Seq<char>) -> (at: int)
    ensures
        match first_of_kind(nodes, list, kind) {
            Some(j) => 0 <= at < list.len() && list[at] == j && nodes[j].kind == kind && forall|
                a: int,
            |
                0 <= a < at ==> nodes[#[trigger] list[a]].kind != kind,
            None => forall|a: int| 0 <= a < list.len() ==> nodes[#[trigger] list[a]].kind != kind,
        },
    decreases list.len(),
{
    if list.len() == 0 || nodes[list[0]].kind == kind {
        0
    } else {
        let rest = list.drop_first();
        let at = lemma_first_of_kind_at(nodes, rest, kind);
        assert forall|a: int| 0 < a < list.len() implies rest[a - 1] == #[trigger] list[a] by {}
        at + 1
    }
}

/// The child of a kind is the first named child that is of the kind, and the first named child
/// is the first named one; there is none exactly where no child is such.
pub proof fn first_children_come_first(nodes: Seq<NodeView>, i: int, kind: Seq<char>, j: int)
    requires
        is_walk(nodes),
        0 <= i < nodes.len(),
        i < j < nodes.len(),
        nodes[j].depth == nodes[i].depth + 1,
        forall|k: int| i < k < j ==> (#[trigger] nodes[k]).depth > nodes[i].depth,
        nodes[j].named,
    ensures
        first_named_child(nodes, i) matches Some(m) && m <= j && nodes[m].named && nodes[m].depth
            == nodes[i].depth + 1,
        nodes[j].kind == kind ==> (named_child_of_kind(nodes, i, kind) matches Some(m) && m <= j
            && nodes[m].kind == kind && nodes[m].named && nodes[m].depth == nodes[i].depth + 1),
{
    let list = named_children_of(nodes, i);
    children_are_listed(nodes, i, j);
    lemma_children_ascend(nodes, i, i + 1, true);
    let b = choose|b: int| 0 <= b < list.len() && list[b] == j;
    assert(list.contains(list[0]));
    children_are_listed(nodes, i, list[0]);
    let at = lemma_first_of_kind_at(nodes, list, kind);
    assert(nodes[list[b]].kind == nodes[j].kind);
    if nodes[j].kind == kind {
        let m = named_child_of_kind(nodes, i, kind)->0;
        assert(list.contains(list[at]));
        children_are_listed(nodes, i, m);
        if at > b {
            assert(nodes[list[b]].kind != kind);
        }
    }
}

/// What is found as the child of a kind, or as the first named child, is a named child, of
/// that kind, and comes before every other such child.
pub proof fn children_found_are_first(nodes: Seq<NodeView>, i: int, kind: Seq<char>, j: int)
    requires
        is_walk(nodes),
        0 <= i < nodes.len(),
    ensures
        named_child_of_kind(nodes, i, kind) == Some(j) ==> {
            &&& i < j < nodes.len()
            &&& nodes[j].depth == nodes[i].depth + 1
            &&& forall|k: int| i < k < j ==> (#[trigger] nodes[k]).depth > nodes[i].depth
            &&& nodes[j].named
            &&& nodes[j].kind == kind
        },
        first_named_child(nodes, i) == Some(j) ==> {
            &&& i < j < nodes.len()
            &&& nodes[j].depth == nodes[i].depth + 1
            &&& forall|k: int| i < k < j ==> (#[trigger] nodes[k]).depth > nodes[i].depth
            &&& nodes[j].named
        },
{
    let list = named_children_of(nodes, i);
    let at = lemma_first_of_kind_at(nodes, list, kind);
    if named_child_of_kind(nodes, i, kind) == Some(j) {
        assert(list.contains(list[at]));
        children_are_listed(nodes, i, j);
    }
    if first_named_child(nodes, i) == Some(j) {
        assert(list.contains(list[0]));
        children_are_listed(nodes, i, j);
    }
}

/// A node holds a field exactly where one of its children is held under that field.
pub proof fn fields_are_held_by_children(nodes: Seq<NodeView>, i: int, field: Seq<char>)
    requires
        is_walk(nodes),
        0 <= i < nodes.len(),
    ensures
        has_field(nodes, i, field) <==> exists|j: int|
            {
                &&& i < j < nodes.len()
                &&& (#[trigger] nodes[j]).depth == nodes[i].depth + 1
                &&& forall|k: int| i < k < j ==> (#[trigger] nodes[k]).depth > nodes[i].depth
                &&& nodes[j].field == Some(field)
            },
{
    if has_field(nodes, i, field) {
        let j = choose|j: int| #[trigger] is_child(nodes, i, j) && nodes[j].field == Some(field);
        assert(nodes[j].field == Some(field));
    }
    if exists|j: int|
        {
            &&& i < j < nodes.len()
            &&& (#[trigger] nodes[j]).depth == nodes[i].depth + 1
            &&& forall|k: int| i < k < j ==> (#[trigger] nodes[k]).depth > nodes[i].depth
            &&& nodes[j].field == Some(field)
        } {
        let j = choose|j: int|
            {
                &&& i < j < nodes.len()
                &&& (#[trigger] nodes[j]).depth == nodes[i].depth + 1
                &&& forall|k: int| i < k < j ==> (#[trigger] nodes[k]).depth > nodes[i].depth
                &&& nodes[j].field == Some(field)
            };
        assert(is_child(nodes, i, j));
    }
}

proof fn lemma_outside_at(nodes: Seq<NodeView>, depth: usize, from: int)
    requires
        0 <= from <= nodes.len(),
    ensures
        from <= next_outside(nodes, depth, from) <= nodes.len(),
        forall|k: int|
            from <= k < next_outside(nodes, depth, from) ==> (#[trigger] nodes[k]).depth > depth,
        next_outside(nodes, depth, from) < nodes.len() ==> nodes[next_outside(
            nodes,
            depth,
            from,
        )].depth <= depth,
    decreases nodes.len() - from,
{
    if from < nodes.len() && nodes[from].depth > depth {
        lemma_outside_at(nodes, depth, from + 1);
    }
}

/// The nodes below a node are those behind it that are deeper, up to the first that is not; a
/// node is around another exactly where it is the same or the other is one of these.
pub proof fn what_lies_below_is_deeper(nodes: Seq<NodeView>, a: int, i: int)
    requires
        0 <= a < nodes.len(),
    ensures
        a < subtree_end(nodes, a) <= nodes.len(),
        forall|k: int| a < k < subtree_end(nodes, a) ==> (#[trigger] nodes[k]).depth
            > nodes[a].depth,
        subtree_end(nodes, a) < nodes.len() ==> nodes[subtree_end(nodes, a)].depth
            <= nodes[a].depth,
        is_around(nodes, a, i) <==> a <= i < nodes.len() && forall|k: int|
            a < k <= i ==> (#[trigger] nodes[k]).depth > nodes[a].depth,
{
    lemma_outside_at(nodes, nodes[a].depth, a + 1);
    if a <= i < nodes.len() && (forall|k: int|
        a < k <= i ==> (#[trigger] nodes[k]).depth > nodes[a].depth) {
        if subtree_end(nodes, a) <= i {
            assert(nodes[subtree_end(nodes, a)].depth > nodes[a].depth);
        }
    }
}

/// The enclosing node of a kind is the last of the nodes around, the node itself among them,
/// that is of the kind.
pub proof fn enclosing_nodes_are_nearest(nodes: Seq<NodeView>, i: int, kind: Seq<char>, m: int)
    requires
        is_walk(nodes),
        0 <= m <= i < nodes.len(),
    ensures
        enclosing(nodes, i, kind) == Some(m) <==> {
            &&& nodes[m].kind == kind
            &&& forall|k: int| m < k <= i ==> (#[trigger] nodes[k]).depth > nodes[m].depth
            &&& forall|n: int|
                m < n <= i && (#[trigger] nodes[n]).kind == kind ==> exists|k: int|
                    n < k <= i && (#[trigger] nodes[k]).depth <= nodes[n].depth
        },
{
    lemma_enclosing(nodes, i, kind);
    what_lies_below_is_deeper(nodes, m, i);
    match enclosing(nodes, i, kind) {
        Some(e) => {
            what_lies_below_is_deeper(nodes, e, i);
            if e == m {
                assert forall|n: int| m < n <= i && (#[trigger] nodes[n]).kind
                    == kind implies exists|k: int|
                    n < k <= i && (#[trigger] nodes[k]).depth <= nodes[n].depth by {
                    what_lies_below_is_deeper(nodes, n, i);
                }
            } else if m < e {
                assert(nodes[e].kind == kind);
            } else {
                assert(!is_around(nodes, m, i) || nodes[m].kind != kind);
            }
        },
        None => {
            assert(!is_around(nodes, m, i) || nodes[m].kind != kind);
        },
    }
}

proof fn lemma_enclosing(nodes: Seq<NodeView>, i: int, kind: Seq<char>)
    requires
        is_walk(nodes),
        0 <= i < nodes.len(),
    ensures
        match enclosing(nodes, i, kind) {
            Some(m) => is_around(nodes, m, i) && 0 <= m <= i && nodes[m].kind == kind && forall|
                n: int,
            |
                m < n && #[trigger] is_around(nodes, n, i) ==> nodes[n].kind != kind,
            None => forall|n: int| #[trigger] is_around(nodes, n, i) ==> nodes[n].kind != kind,
        },
    decreases i,
{
    only_the_root_has_no_parent(nodes, i);
    around_goes_by_parents(nodes, i, i);
    if nodes[i].kind != kind {
        assert forall|n: int| #[trigger] is_around(nodes, n, i) implies n == i || (parent_of(
            nodes,
            i,
        ) matches Some(p) && is_around(nodes, n, p)) by {
            around_goes_by_parents(nodes, n, i);
        }
        if let Some(p) = parent_of(nodes, i) {
            lemma_enclosing(nodes, p, kind);
            if let Some(m) = enclosing(nodes, p, kind) {
                around_goes_by_parents(nodes, m, i);
            }
        }
    }
}

} // verus!
