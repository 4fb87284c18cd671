//! What a class or trait definition says of the class.

use vstd::prelude::*;

use crate::syntax::{
    children_are_listed, children_found_are_children, first_named_child, indices, is_walk,
    named_child_of_kind, named_children_of, parent_and_child_agree, parent_of, NodeView,
    SyntaxTree,
};
use crate::text::{normalize_class_name, normalized, same_text, slice_text, text_between};

verus! {

/// Metadata extracted from a class or trait definition file.
#[derive(Clone, Debug, PartialEq, Eq)]
pub struct ClassInfo {
    /// "Class" or "Trait".
    pub kind: String,
    pub name: String,
    pub superclass: Option<String>,
    pub inst_vars: Vec<String>,
    pub class_vars: Vec<String>,
    pub class_inst_vars: Vec<String>,
}

/// What a [`ClassInfo`] says.
pub struct ClassInfoView {
    pub kind: Seq<char>,
    pub name: Seq<char>,
    pub superclass: Option<Seq<char>>,
    pub inst_vars: Seq<Seq<char>>,
    pub class_vars: Seq<Seq<char>>,
    pub class_inst_vars: Seq<Seq<char>>,
}

/// The texts of a list.
pub open spec fn texts(list: Seq<String>) -> Seq<Seq<char>> {
    list.map_values(|s: String| s@)
}

/// The text, where there is one.
pub open spec fn optional_text(s: Option<String>) -> Option<Seq<char>> {
    match s {
        Some(text) => Some(text@),
        None => None,
    }
}

impl View for ClassInfo {
    type V = ClassInfoView;

    open spec fn view(&self) -> ClassInfoView {
        ClassInfoView {
            kind: self.kind@,
            name: self.name@,
            superclass: optional_text(self.superclass),
            inst_vars: texts(self.inst_vars@),
            class_vars: texts(self.class_vars@),
            class_inst_vars: texts(self.class_inst_vars@),
        }
    }
}

/// Returns a list of the same texts.
pub fn copy_texts(list: &Vec<String>) -> (res: Vec<String>)
    ensures
        texts(res@) == texts(list@),
{
    let mut res: Vec<String> = Vec::new();
    let mut i: usize = 0;
    while i < list.len()
        invariant
            i <= list@.len(),
            texts(res@) =~= texts(list@).take(i as int),
        decreases list@.len() - i,
    {
        let ghost before = res@;
        let text = list[i].clone();
        res.push(text);
        assert(texts(res@) =~= texts(before).push(text@));
        i += 1;
    }
    assert(texts(list@).take(list@.len() as int) =~= texts(list@));
    res
}

impl ClassInfo {
    /// Returns metadata that says the same.
    pub fn copied(&self) -> (res: ClassInfo)
        ensures
            res@ == self@,
    {
        ClassInfo {
            kind: self.kind.clone(),
            name: self.name.clone(),
            superclass: match &self.superclass {
                Some(text) => Some(text.clone()),
                None => None,
            },
            inst_vars: copy_texts(&self.inst_vars),
            class_vars: copy_texts(&self.class_vars),
            class_inst_vars: copy_texts(&self.class_inst_vars),
        }
    }
}

/// The text of a node.
pub open spec fn node_text(src: Seq<char>, node: NodeView) -> Option<Seq<char>> {
    text_between(src, node.start_byte as int, node.end_byte as int)
}

/// Returns the text of the node at `i`.
pub fn text_of<'a>(tree: &SyntaxTree, src: &'a str, i: usize) -> (res: Option<&'a str>)
    requires
        i < tree@.len(),
    ensures
        (match res {
            Some(text) => node_text(src@, tree@[i as int]) == Some(text@),
            None => node_text(src@, tree@[i as int]) is None,
        }),
{
    let node = tree.node(i);
    slice_text(src, node.start_byte, node.end_byte)
}

/// The plain name that a node's text stands for.
pub open spec fn plain_name(src: Seq<char>, node: NodeView) -> Option<Seq<char>> {
    match node_text(src, node) {
        Some(raw) => Some(normalized(raw)),
        None => None,
    }
}

/// Returns the plain name that the text of the node at `i` stands for.
pub fn plain_name_of<'a>(tree: &SyntaxTree, src: &'a str, i: usize) -> (res: Option<&'a str>)
    requires
        i < tree@.len(),
    ensures
        (match res {
            Some(text) => plain_name(src@, tree@[i as int]) == Some(text@),
            None => plain_name(src@, tree@[i as int]) is None,
        }),
{
    match text_of(tree, src, i) {
        Some(raw) => Some(normalize_class_name(raw)),
        None => None,
    }
}

/// Whether nodes of the kind define a class or a trait.
pub open spec fn is_definition_kind(kind: Seq<char>) -> bool {
    kind == "class_definition"@ || kind == "trait_definition"@
}

/// Tells whether the node at `i` defines a class or a trait.
pub fn is_definition(tree: &SyntaxTree, i: usize) -> (res: bool)
    requires
        i < tree@.len(),
    ensures
        res == is_definition_kind(tree@[i as int].kind),
{
    tree.is_kind(i, "class_definition") || tree.is_kind(i, "trait_definition")
}

/// Whether all nodes on the way from the root down to `i` are named.
pub open spec fn is_on_named_path(nodes: Seq<NodeView>, i: int) -> bool
    decreases i,
{
    i == 0 || (nodes[i].named && match parent_of(nodes, i) {
        Some(p) => 0 <= p < i && is_on_named_path(nodes, p),
        None => false,
    })
}

/// Tells whether all nodes on the way from the root down to `i` are named.
fn on_named_path(tree: &SyntaxTree, i: usize) -> (res: bool)
    requires
        i < tree@.len(),
    ensures
        res == is_on_named_path(tree@, i as int),
{
    let mut at: usize = i;
    while at > 0
        invariant
            at < tree@.len(),
            is_on_named_path(tree@, i as int) == is_on_named_path(tree@, at as int),
        decreases at,
    {
        if !tree.node(at).named {
            return false;
        }
        match tree.parent(at) {
            Some(p) => {
                at = p;
            },
            None => {
                return false;
            },
        }
    }
    true
}

/// The first definition from `from` on that a walk over named nodes comes to.
pub open spec fn definition_from(nodes: Seq<NodeView>, from: int) -> Option<int>
    decreases nodes.len() - from,
{
    if from >= nodes.len() {
        None
    } else if is_definition_kind(nodes[from].kind) && is_on_named_path(nodes, from) {
        Some(from)
    } else {
        definition_from(nodes, from + 1)
    }
}

/// Finds the first `class_definition` or `trait_definition` node in a walk over named
/// nodes.
fn find_class_or_trait_node(tree: &SyntaxTree) -> (res: Option<usize>)
    ensures
        (match res {
            Some(i) => i < tree@.len() && definition_from(tree@, 0) == Some(i as int),
            None => definition_from(tree@, 0) is None,
        }),
{
    let mut i: usize = 0;
    let len = tree.len();
    while i < len
        invariant
            len == tree@.len(),
            i <= len,
            definition_from(tree@, 0) == definition_from(tree@, i as int),
        decreases len - i,
    {
        if is_definition(tree, i) && on_named_path(tree, i) {
            return Some(i);
        }
        i += 1;
    }
    None
}

/// The definition found is one.
proof fn lemma_definition_from(nodes: Seq<NodeView>, from: int)
    requires
        0 <= from,
    ensures
        definition_from(nodes, from) matches Some(def) ==> from <= def < nodes.len()
            && is_definition_kind(nodes[def].kind),
    decreases nodes.len() - from,
{
    if from < nodes.len() {
        lemma_definition_from(nodes, from + 1);
    }
}

/// The node that stands for an item of a list: what a `ston_value` wraps, or the item.
pub open spec fn list_item(nodes: Seq<NodeView>, i: int) -> Option<int> {
    if nodes[i].kind == "ston_value"@ {
        first_named_child(nodes, i)
    } else {
        Some(i)
    }
}

/// The name that an item of a list stands for, where it is not empty.
pub open spec fn list_item_name(nodes: Seq<NodeView>, src: Seq<char>, i: int) -> Option<Seq<char>> {
    match list_item(nodes, i) {
        Some(item) => match plain_name(src, nodes[item]) {
            Some(name) => if name.len() == 0 {
                None
            } else {
                Some(name)
            },
            None => None,
        },
        None => None,
    }
}

/// The names that the items stand for, in order.
pub open spec fn item_names(nodes: Seq<NodeView>, src: Seq<char>, items: Seq<int>) -> Seq<
    Seq<char>,
>
    decreases items.len(),
{
    if items.len() == 0 {
        Seq::empty()
    } else {
        let before = item_names(nodes, src, items.drop_last());
        match list_item_name(nodes, src, items.last()) {
            Some(name) => before.push(name),
            None => before,
        }
    }
}

/// The names in a `ston_list`; none where the node is no list.
pub open spec fn list_names(nodes: Seq<NodeView>, src: Seq<char>, i: int) -> Seq<Seq<char>> {
    if nodes[i].kind == "ston_list"@ {
        item_names(nodes, src, named_children_of(nodes, i))
    } else {
        Seq::empty()
    }
}

/// Extracts string values from a `ston_list` node (e.g., instVars list).
/// Tree: ston_list → ston_value → (string | ston_symbol | identifier)
fn extract_ston_array_strings(tree: &SyntaxTree, src: &str, i: usize) -> (res: Vec<String>)
    requires
        i < tree@.len(),
    ensures
        texts(res@) == list_names(tree@, src@, i as int),
{
    let mut res: Vec<String> = Vec::new();
    assert(texts(res@) =~= Seq::<Seq<char>>::empty());
    if !tree.is_kind(i, "ston_list") {
        return res;
    }
    let items = tree.named_children(i);
    let ghost all = indices(items@);
    let mut k: usize = 0;
    assert(all.take(0) =~= Seq::<int>::empty());
    while k < items.len()
        invariant
            k <= items@.len(),
            all == indices(items@),
            forall|m: int| 0 <= m < items@.len() ==> i < #[trigger] items@[m] < tree@.len(),
            texts(res@) =~= item_names(tree@, src@, all.take(k as int)),
        decreases items@.len() - k,
    {
        let ghost before = res@;
        assert(all[k as int] == items@[k as int]);
        assert(all.take(k + 1).drop_last() =~= all.take(k as int));
        let item = if tree.is_kind(items[k], "ston_value") {
            tree.first_named(items[k])
        } else {
            Some(items[k])
        };
        if let Some(j) = item {
            if let Some(name) = plain_name_of(tree, src, j) {
                if !name.is_empty() {
                    let owned = name.to_owned();
                    res.push(owned);
                    assert(texts(res@) =~= texts(before).push(owned@));
                }
            }
        }
        k += 1;
    }
    assert(all.take(all.len() as int) =~= all);
    res
}

/// What the pairs of a definition say so far.
struct ClassFields {
    name: Option<String>,
    superclass: Option<String>,
    inst_vars: Vec<String>,
    class_vars: Vec<String>,
    class_inst_vars: Vec<String>,
}

/// What the pairs of a definition say so far, as values.
pub struct ClassFieldsView {
    pub name: Option<Seq<char>>,
    pub superclass: Option<Seq<char>>,
    pub inst_vars: Seq<Seq<char>>,
    pub class_vars: Seq<Seq<char>>,
    pub class_inst_vars: Seq<Seq<char>>,
}

impl View for ClassFields {
    type V = ClassFieldsView;

    closed spec fn view(&self) -> ClassFieldsView {
        ClassFieldsView {
            name: optional_text(self.name),
            superclass: optional_text(self.superclass),
            inst_vars: texts(self.inst_vars@),
            class_vars: texts(self.class_vars@),
            class_inst_vars: texts(self.class_inst_vars@),
        }
    }
}

/// The key of a pair: the plain name in its `ston_key`, empty where there is none.
pub open spec fn key_name(nodes: Seq<NodeView>, src: Seq<char>, key: int) -> Seq<char> {
    match first_named_child(nodes, key) {
        Some(symbol) => match plain_name(src, nodes[symbol]) {
            Some(name) => name,
            None => Seq::empty(),
        },
        None => Seq::empty(),
    }
}

/// What the fields are after the value of `key`: a later value replaces an earlier one,
/// but for a value without text and for a superclass without a name.
pub open spec fn with_field(
    nodes: Seq<NodeView>,
    src: Seq<char>,
    fields: ClassFieldsView,
    key: Seq<char>,
    value: int,
) -> ClassFieldsView {
    let name = plain_name(src, nodes[value]);
    if key == "name"@ {
        if name is Some {
            ClassFieldsView { name, ..fields }
        } else {
            fields
        }
    } else if key == "superclass"@ {
        if name is Some && name->0.len() > 0 {
            ClassFieldsView { superclass: name, ..fields }
        } else {
            fields
        }
    } else if key == "instVars"@ {
        ClassFieldsView { inst_vars: list_names(nodes, src, value), ..fields }
    } else if key == "classVars"@ {
        ClassFieldsView { class_vars: list_names(nodes, src, value), ..fields }
    } else if key == "classInstVars"@ {
        ClassFieldsView { class_inst_vars: list_names(nodes, src, value), ..fields }
    } else {
        fields
    }
}

/// The key and the value of a pair of a definition's map; none where the node is no pair or
/// lacks either.
pub open spec fn key_and_value(nodes: Seq<NodeView>, src: Seq<char>, pair: int) -> Option<
    (Seq<char>, int),
> {
    if nodes[pair].kind != "ston_pair"@ {
        None
    } else {
        match (
            named_child_of_kind(nodes, pair, "ston_key"@),
            named_child_of_kind(nodes, pair, "ston_value"@),
        ) {
            (Some(key), Some(wrapper)) => match first_named_child(nodes, wrapper) {
                Some(value) => Some((key_name(nodes, src, key), value)),
                None => None,
            },
            _ => None,
        }
    }
}

/// What the fields are after a node of a definition's map.
pub open spec fn with_pair(
    nodes: Seq<NodeView>,
    src: Seq<char>,
    fields: ClassFieldsView,
    pair: int,
) -> ClassFieldsView {
    match key_and_value(nodes, src, pair) {
        Some((key, value)) => with_field(nodes, src, fields, key, value),
        None => fields,
    }
}

/// What the fields are after the nodes of a definition's map, in order.
pub open spec fn fields_of(nodes: Seq<NodeView>, src: Seq<char>, pairs: Seq<int>) -> ClassFieldsView
    decreases pairs.len(),
{
    if pairs.len() == 0 {
        ClassFieldsView {
            name: None,
            superclass: None,
            inst_vars: Seq::empty(),
            class_vars: Seq::empty(),
            class_inst_vars: Seq::empty(),
        }
    } else {
        with_pair(nodes, src, fields_of(nodes, src, pairs.drop_last()), pairs.last())
    }
}

/// What the class or trait that the tree defines is; `None` where the tree defines none
/// or gives it no name.
pub open spec fn class_info_of(nodes: Seq<NodeView>, src: Seq<char>) -> Option<ClassInfoView> {
    match definition_from(nodes, 0) {
        Some(def) => match named_child_of_kind(nodes, def, "ston_map"@) {
            Some(map) => {
                let fields = fields_of(nodes, src, named_children_of(nodes, map));
                match fields.name {
                    Some(name) => Some(
                        ClassInfoView {
                            kind: if nodes[def].kind == "class_definition"@ {
                                "Class"@
                            } else {
                                "Trait"@
                            },
                            name,
                            superclass: fields.superclass,
                            inst_vars: fields.inst_vars,
                            class_vars: fields.class_vars,
                            class_inst_vars: fields.class_inst_vars,
                        },
                    ),
                    None => None,
                }
            },
            None => None,
        },
        None => None,
    }
}

/// Whether some pair of the list has the key.
pub open spec fn has_key(
    nodes: Seq<NodeView>,
    src: Seq<char>,
    pairs: Seq<int>,
    key: Seq<char>,
) -> bool {
    exists|k: int|
        0 <= k < pairs.len() && (#[trigger] key_and_value(nodes, src, pairs[k]) matches Some(
            (found, _),
        ) && found == key)
}

/// The keys that are told apart differ.
pub proof fn lemma_keys_differ()
    ensures
        "name"@ != "superclass"@,
        "name"@ != "instVars"@,
        "name"@ != "classVars"@,
        "name"@ != "classInstVars"@,
        "superclass"@ != "instVars"@,
        "superclass"@ != "classVars"@,
        "superclass"@ != "classInstVars"@,
        "instVars"@ != "classVars"@,
        "instVars"@ != "classInstVars"@,
        "classVars"@ != "classInstVars"@,
{
    reveal_strlit("name");
    reveal_strlit("superclass");
    reveal_strlit("instVars");
    reveal_strlit("classVars");
    reveal_strlit("classInstVars");
    assert("name"@.len() == 4);
    assert("superclass"@.len() == 10);
    assert("instVars"@.len() == 8);
    assert("classVars"@.len() == 9);
    assert("classInstVars"@.len() == 13);
}

/// The value of a key counts where no later pair has the same key: a list of variables in
/// any case, a name where it can be read, a superclass where it has a name.
pub proof fn the_last_pair_of_a_key_counts(
    nodes: Seq<NodeView>,
    src: Seq<char>,
    pairs: Seq<int>,
    k: int,
    key: Seq<char>,
    value: int,
)
    requires
        0 <= k < pairs.len(),
        key_and_value(nodes, src, pairs[k]) == Some((key, value)),
        !has_key(nodes, src, pairs.skip(k + 1), key),
    ensures
        ({
            let fields = fields_of(nodes, src, pairs);
            let name = plain_name(src, nodes[value]);
            &&& key == "name"@ && name is Some ==> fields.name == name
            &&& key == "superclass"@ && name is Some && name->0.len() > 0 ==> fields.superclass
                == name
            &&& key == "instVars"@ ==> fields.inst_vars == list_names(nodes, src, value)
            &&& key == "classVars"@ ==> fields.class_vars == list_names(nodes, src, value)
            &&& key == "classInstVars"@ ==> fields.class_inst_vars == list_names(
                nodes,
                src,
                value,
            )
        }),
    decreases pairs.len(),
{
    lemma_keys_differ();
    let last = pairs.len() - 1;
    if k < last {
        let rest = pairs.drop_last();
        assert(!has_key(nodes, src, rest.skip(k + 1), key)) by {
            if has_key(nodes, src, rest.skip(k + 1), key) {
                let m = choose|m: int|
                    0 <= m < rest.skip(k + 1).len() && (#[trigger] key_and_value(
                        nodes,
                        src,
                        rest.skip(k + 1)[m],
                    ) matches Some((found, _)) && found == key);
                assert(pairs.skip(k + 1)[m] == rest.skip(k + 1)[m]);
                assert(has_key(nodes, src, pairs.skip(k + 1), key));
            }
        }
        the_last_pair_of_a_key_counts(nodes, src, rest, k, key, value);
        assert(pairs.skip(k + 1)[last - k - 1] == pairs.last());
        assert(key_and_value(nodes, src, pairs.last()) matches Some((found, _)) ==> found != key);
    }
}

/// A field whose key no pair has stays empty.
pub proof fn fields_without_a_key_are_empty(nodes: Seq<NodeView>, src: Seq<char>, pairs: Seq<int>)
    ensures
        ({
            let fields = fields_of(nodes, src, pairs);
            &&& !has_key(nodes, src, pairs, "name"@) ==> fields.name is None
            &&& !has_key(nodes, src, pairs, "superclass"@) ==> fields.superclass is None
            &&& !has_key(nodes, src, pairs, "instVars"@) ==> fields.inst_vars.len() == 0
            &&& !has_key(nodes, src, pairs, "classVars"@) ==> fields.class_vars.len() == 0
            &&& !has_key(nodes, src, pairs, "classInstVars"@) ==> fields.class_inst_vars.len()
                == 0
        }),
    decreases pairs.len(),
{
    lemma_keys_differ();
    if pairs.len() > 0 {
        let rest = pairs.drop_last();
        fields_without_a_key_are_empty(nodes, src, rest);
        assert forall|key: Seq<char>| #[trigger] has_key(nodes, src, rest, key) implies has_key(
            nodes,
            src,
            pairs,
            key,
        ) by {
            let m = choose|m: int|
                0 <= m < rest.len() && (#[trigger] key_and_value(nodes, src, rest[m]) matches Some(
                    (found, _),
                ) && found == key);
            assert(pairs[m] == rest[m]);
        }
        if let Some((key, _)) = key_and_value(nodes, src, pairs.last()) {
            assert(pairs[pairs.len() - 1] == pairs.last());
            assert(has_key(nodes, src, pairs, key));
        }
    }
}

/// Where the value of a pair lies: four levels below the definition, with nothing but the
/// pair and its map in between.
pub proof fn values_lie_in_the_definition(
    nodes: Seq<NodeView>,
    src: Seq<char>,
    def: int,
    map: int,
    k: int,
    key: Seq<char>,
    value: int,
) -> (wrapper: int)
    requires
        is_walk(nodes),
        definition_from(nodes, 0) == Some(def),
        named_child_of_kind(nodes, def, "ston_map"@) == Some(map),
        0 <= k < named_children_of(nodes, map).len(),
        key_and_value(nodes, src, named_children_of(nodes, map)[k]) == Some((key, value)),
    ensures
        0 <= def < map < named_children_of(nodes, map)[k] < wrapper < value < nodes.len(),
        parent_of(nodes, value) == Some(wrapper),
        nodes[wrapper].kind == "ston_value"@,
        parent_of(nodes, wrapper) == Some(named_children_of(nodes, map)[k]),
        nodes[named_children_of(nodes, map)[k]].kind == "ston_pair"@,
        parent_of(nodes, named_children_of(nodes, map)[k]) == Some(map),
        nodes[map].kind == "ston_map"@,
        parent_of(nodes, map) == Some(def),
        is_definition_kind(nodes[def].kind),
{
    lemma_definition_from(nodes, 0);
    children_found_are_children(nodes, def, "ston_map"@);
    parent_and_child_agree(nodes, def, map);
    let pairs = named_children_of(nodes, map);
    let pair = pairs[k];
    assert(pairs.contains(pair));
    children_are_listed(nodes, map, pair);
    parent_and_child_agree(nodes, map, pair);
    let wrapper = named_child_of_kind(nodes, pair, "ston_value"@)->0;
    children_found_are_children(nodes, pair, "ston_value"@);
    parent_and_child_agree(nodes, pair, wrapper);
    children_found_are_children(nodes, wrapper, "ston_value"@);
    parent_and_child_agree(nodes, wrapper, value);
    wrapper
}

/// What a pair of a definition's map says: its key, and its value read as a name and as a
/// list of names.
pub open spec fn pair_says(nodes: Seq<NodeView>, src: Seq<char>, pair: int) -> Option<
    (Seq<char>, Option<Seq<char>>, Seq<Seq<char>>),
> {
    match key_and_value(nodes, src, pair) {
        Some((key, value)) => Some(
            (key, plain_name(src, nodes[value]), list_names(nodes, src, value)),
        ),
        None => None,
    }
}

/// Whether some pair of the list says `said`.
pub open spec fn is_said(
    nodes: Seq<NodeView>,
    src: Seq<char>,
    pairs: Seq<int>,
    said: (Seq<char>, Option<Seq<char>>, Seq<Seq<char>>),
) -> bool {
    exists|k: int| 0 <= k < pairs.len() && #[trigger] pair_says(nodes, src, pairs[k]) == Some(said)
}

/// Whether no two pairs of the list have the same key.
pub open spec fn keys_are_distinct(nodes: Seq<NodeView>, src: Seq<char>, pairs: Seq<int>) -> bool {
    forall|k: int, m: int|
        0 <= k < m < pairs.len() && (#[trigger] key_and_value(nodes, src, pairs[k])) is Some
            && (#[trigger] key_and_value(nodes, src, pairs[m])) is Some ==> key_and_value(
            nodes,
            src,
            pairs[k],
        ).unwrap().0 != key_and_value(nodes, src, pairs[m]).unwrap().0
}

/// What a field is, given the pair with its key, where no other pair has that key.
proof fn lemma_field_of_a_pair(nodes: Seq<NodeView>, src: Seq<char>, pairs: Seq<int>, k: int)
    requires
        0 <= k < pairs.len(),
        keys_are_distinct(nodes, src, pairs),
    ensures
        pair_says(nodes, src, pairs[k]) matches Some((key, name, names)) ==> {
            let fields = fields_of(nodes, src, pairs);
            &&& key == "name"@ ==> fields.name == name
            &&& key == "superclass"@ ==> fields.superclass == if name is Some && name->0.len()
                > 0 {
                name
            } else {
                None
            }
            &&& key == "instVars"@ ==> fields.inst_vars == names
            &&& key == "classVars"@ ==> fields.class_vars == names
            &&& key == "classInstVars"@ ==> fields.class_inst_vars == names
        },
    decreases pairs.len(),
{
    if let Some((key, value)) = key_and_value(nodes, src, pairs[k]) {
        lemma_keys_differ();
        let rest = pairs.drop_last();
        let last = pairs.len() - 1;
        assert(keys_are_distinct(nodes, src, rest)) by {
            assert forall|j: int, m: int|
                0 <= j < m < rest.len() && (#[trigger] key_and_value(nodes, src, rest[j])) is Some
                    && (#[trigger] key_and_value(nodes, src, rest[m])) is Some
                implies key_and_value(nodes, src, rest[j]).unwrap().0 != key_and_value(
                nodes,
                src,
                rest[m],
            ).unwrap().0 by {
                assert(rest[j] == pairs[j] && rest[m] == pairs[m]);
            }
        }
        if k < last {
            assert(rest[k] == pairs[k]);
            lemma_field_of_a_pair(nodes, src, rest, k);
            if key_and_value(nodes, src, pairs[last]) is Some {
                assert(key_and_value(nodes, src, pairs[last]).unwrap().0 != key);
            }
        } else {
            fields_without_a_key_are_empty(nodes, src, rest);
            assert(!has_key(nodes, src, rest, key)) by {
                if has_key(nodes, src, rest, key) {
                    let m = choose|m: int|
                        0 <= m < rest.len() && (#[trigger] key_and_value(
                            nodes,
                            src,
                            rest[m],
                        ) matches Some((found, _)) && found == key);
                    assert(rest[m] == pairs[m]);
                    assert(key_and_value(nodes, src, pairs[m]).unwrap().0 != key_and_value(
                        nodes,
                        src,
                        pairs[k],
                    ).unwrap().0);
                }
            }
        }
    }
}

/// The pair with a key, where there is one.
proof fn lemma_pair_of_a_key(
    nodes: Seq<NodeView>,
    src: Seq<char>,
    pairs: Seq<int>,
    key: Seq<char>,
) -> (k: int)
    ensures
        has_key(nodes, src, pairs, key) ==> 0 <= k < pairs.len() && pair_says(
            nodes,
            src,
            pairs[k],
        ) is Some && pair_says(nodes, src, pairs[k]).unwrap().0 == key,
{
    choose|k: int|
        0 <= k < pairs.len() && (#[trigger] key_and_value(nodes, src, pairs[k]) matches Some(
            (found, _),
        ) && found == key)
}

/// Where two lists of pairs with distinct keys say the same, a key of the first is one of
/// the second, with the same value.
proof fn lemma_same_key(
    nodes_a: Seq<NodeView>,
    src_a: Seq<char>,
    pairs_a: Seq<int>,
    nodes_b: Seq<NodeView>,
    src_b: Seq<char>,
    pairs_b: Seq<int>,
    key: Seq<char>,
)
    requires
        keys_are_distinct(nodes_a, src_a, pairs_a),
        keys_are_distinct(nodes_b, src_b, pairs_b),
        forall|said: (Seq<char>, Option<Seq<char>>, Seq<Seq<char>>)|
            #![trigger is_said(nodes_a, src_a, pairs_a, said)]
            #![trigger is_said(nodes_b, src_b, pairs_b, said)]
            is_said(nodes_a, src_a, pairs_a, said) <==> is_said(nodes_b, src_b, pairs_b, said),
    ensures
        ({
            let a = fields_of(nodes_a, src_a, pairs_a);
            let b = fields_of(nodes_b, src_b, pairs_b);
            &&& key == "name"@ ==> a.name == b.name
            &&& key == "superclass"@ ==> a.superclass == b.superclass
            &&& key == "instVars"@ ==> a.inst_vars == b.inst_vars
            &&& key == "classVars"@ ==> a.class_vars == b.class_vars
            &&& key == "classInstVars"@ ==> a.class_inst_vars == b.class_inst_vars
        }),
{
    fields_without_a_key_are_empty(nodes_a, src_a, pairs_a);
    fields_without_a_key_are_empty(nodes_b, src_b, pairs_b);
    if has_key(nodes_a, src_a, pairs_a, key) {
        let k = lemma_pair_of_a_key(nodes_a, src_a, pairs_a, key);
        let said = pair_says(nodes_a, src_a, pairs_a[k]).unwrap();
        assert(is_said(nodes_a, src_a, pairs_a, said));
        let m = choose|m: int|
            0 <= m < pairs_b.len() && #[trigger] pair_says(nodes_b, src_b, pairs_b[m]) == Some(
                said,
            );
        lemma_field_of_a_pair(nodes_a, src_a, pairs_a, k);
        lemma_field_of_a_pair(nodes_b, src_b, pairs_b, m);
    } else if has_key(nodes_b, src_b, pairs_b, key) {
        let m = lemma_pair_of_a_key(nodes_b, src_b, pairs_b, key);
        let said = pair_says(nodes_b, src_b, pairs_b[m]).unwrap();
        assert(is_said(nodes_b, src_b, pairs_b, said));
        let k = choose|k: int|
            0 <= k < pairs_a.len() && #[trigger] pair_says(nodes_a, src_a, pairs_a[k]) == Some(
                said,
            );
        assert(key_and_value(nodes_a, src_a, pairs_a[k]) is Some);
        assert(has_key(nodes_a, src_a, pairs_a, key));
    } else {
        let a = fields_of(nodes_a, src_a, pairs_a);
        let b = fields_of(nodes_b, src_b, pairs_b);
        if key == "instVars"@ {
            assert(a.inst_vars =~= b.inst_vars);
        }
        if key == "classVars"@ {
            assert(a.class_vars =~= b.class_vars);
        }
        if key == "classInstVars"@ {
            assert(a.class_inst_vars =~= b.class_inst_vars);
        }
    }
}

/// The order of the pairs of a definition makes no difference where no key is there twice:
/// two files that define a class, or both a trait, by pairs that say the same tell the same
/// of it.
pub proof fn the_order_of_pairs_makes_no_difference(
    nodes_a: Seq<NodeView>,
    src_a: Seq<char>,
    def_a: int,
    map_a: int,
    nodes_b: Seq<NodeView>,
    src_b: Seq<char>,
    def_b: int,
    map_b: int,
)
    requires
        definition_from(nodes_a, 0) == Some(def_a),
        definition_from(nodes_b, 0) == Some(def_b),
        nodes_a[def_a].kind == nodes_b[def_b].kind,
        named_child_of_kind(nodes_a, def_a, "ston_map"@) == Some(map_a),
        named_child_of_kind(nodes_b, def_b, "ston_map"@) == Some(map_b),
        keys_are_distinct(nodes_a, src_a, named_children_of(nodes_a, map_a)),
        keys_are_distinct(nodes_b, src_b, named_children_of(nodes_b, map_b)),
        forall|said: (Seq<char>, Option<Seq<char>>, Seq<Seq<char>>)|
            #![trigger is_said(nodes_a, src_a, named_children_of(nodes_a, map_a), said)]
            #![trigger is_said(nodes_b, src_b, named_children_of(nodes_b, map_b), said)]
            is_said(nodes_a, src_a, named_children_of(nodes_a, map_a), said) <==> is_said(
                nodes_b,
                src_b,
                named_children_of(nodes_b, map_b),
                said,
            ),
    ensures
        class_info_of(nodes_a, src_a) == class_info_of(nodes_b, src_b),
{
    let pairs_a = named_children_of(nodes_a, map_a);
    let pairs_b = named_children_of(nodes_b, map_b);
    lemma_same_key(nodes_a, src_a, pairs_a, nodes_b, src_b, pairs_b, "name"@);
    lemma_same_key(nodes_a, src_a, pairs_a, nodes_b, src_b, pairs_b, "superclass"@);
    lemma_same_key(nodes_a, src_a, pairs_a, nodes_b, src_b, pairs_b, "instVars"@);
    lemma_same_key(nodes_a, src_a, pairs_a, nodes_b, src_b, pairs_b, "classVars"@);
    lemma_same_key(nodes_a, src_a, pairs_a, nodes_b, src_b, pairs_b, "classInstVars"@);
}

impl ClassFields {
    /// Takes in the value of `key`.
    fn take_field(&mut self, tree: &SyntaxTree, src: &str, key: &str, value: usize)
        requires
            value < tree@.len(),
        ensures
            final(self)@ == with_field(tree@, src@, old(self)@, key@, value as int),
    {
        if same_text(key, "name") {
            if let Some(name) = plain_name_of(tree, src, value) {
                self.name = Some(name.to_owned());
            }
        } else if same_text(key, "superclass") {
            if let Some(name) = plain_name_of(tree, src, value) {
                if !name.is_empty() {
                    self.superclass = Some(name.to_owned());
                }
            }
        } else if same_text(key, "instVars") {
            self.inst_vars = extract_ston_array_strings(tree, src, value);
        } else if same_text(key, "classVars") {
            self.class_vars = extract_ston_array_strings(tree, src, value);
        } else if same_text(key, "classInstVars") {
            self.class_inst_vars = extract_ston_array_strings(tree, src, value);
        }
    }

    /// Takes in a node of a definition's map.
    fn take_pair(&mut self, tree: &SyntaxTree, src: &str, pair: usize)
        requires
            pair < tree@.len(),
        ensures
            final(self)@ == with_pair(tree@, src@, old(self)@, pair as int),
    {
        if !tree.is_kind(pair, "ston_pair") {
            return;
        }
        let key_node = tree.named_of_kind(pair, "ston_key");
        let value_node = tree.named_of_kind(pair, "ston_value");
        if let (Some(kn), Some(vn)) = (key_node, value_node) {
            let symbol = match tree.first_named(kn) {
                Some(s) => plain_name_of(tree, src, s),
                None => None,
            };
            let key = match symbol {
                Some(name) => name,
                None => {
                    proof {
                        reveal_strlit("");
                        assert(""@ =~= Seq::<char>::empty());
                    }
                    ""
                },
            };
            if let Some(value) = tree.first_named(vn) {
                self.take_field(tree, src, key, value);
            }
        }
    }
}

/// Returns metadata for the class or trait that the tree defines, or `None` if none.
pub fn read_class_info(tree: &SyntaxTree, src: &str) -> (res: Option<ClassInfo>)
    ensures
        (match res {
            Some(info) => class_info_of(tree@, src@) == Some(info@),
            None => class_info_of(tree@, src@) is None,
        }),
{
    // Tree: source_file → definition → class_definition/trait_definition
    let def = match find_class_or_trait_node(tree) {
        Some(i) => i,
        None => {
            return None;
        },
    };
    let kind = if tree.is_kind(def, "class_definition") {
        "Class"
    } else {
        "Trait"
    };
    let map = match tree.named_of_kind(def, "ston_map") {
        Some(i) => i,
        None => {
            return None;
        },
    };
    let pairs = tree.named_children(map);
    let ghost all = indices(pairs@);
    let mut fields = ClassFields {
        name: None,
        superclass: None,
        inst_vars: Vec::new(),
        class_vars: Vec::new(),
        class_inst_vars: Vec::new(),
    };
    proof {
        assert(all.take(0) =~= Seq::<int>::empty());
        assert(fields@.inst_vars =~= Seq::<Seq<char>>::empty());
        assert(fields@.class_vars =~= Seq::<Seq<char>>::empty());
        assert(fields@.class_inst_vars =~= Seq::<Seq<char>>::empty());
    }
    let mut k: usize = 0;
    while k < pairs.len()
        invariant
            k <= pairs@.len(),
            all == indices(pairs@),
            forall|m: int| 0 <= m < pairs@.len() ==> map < #[trigger] pairs@[m] < tree@.len(),
            fields@ == fields_of(tree@, src@, all.take(k as int)),
        decreases pairs@.len() - k,
    {
        assert(all[k as int] == pairs@[k as int]);
        assert(all.take(k + 1).drop_last() =~= all.take(k as int));
        fields.take_pair(tree, src, pairs[k]);
        k += 1;
    }
    assert(all.take(all.len() as int) =~= all);
    match fields.name {
        Some(name) => Some(
            ClassInfo {
                kind: kind.to_owned(),
                name,
                superclass: fields.superclass,
                inst_vars: fields.inst_vars,
                class_vars: fields.class_vars,
                class_inst_vars: fields.class_inst_vars,
            },
        ),
        None => None,
    }
}

} // verus!
