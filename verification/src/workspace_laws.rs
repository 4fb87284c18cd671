//! What holds of the answers that a workspace and a session give, said of the sources that
//! were taken in, of the lists of each class and of the ends of each range.

use vstd::prelude::*;

use crate::class_info::{texts, ClassInfo, ClassInfoView};
use crate::hover::{hover_shows, hover_text, joined, owners_text, HoverInfo};
use crate::owners::{
    holds_var, info_views, listed_owners_hold_the_variable, lists_owners, owner_le, owner_views,
    owning_among, VarScope,
};
use crate::position::{Location, LocationView, Position, Range};
use crate::references::{listed_classes_are_distinct, listed_classes_are_named};
use crate::session::{
    class_at_view, declarations_are_left_out, definition_answer, document_views, is_within,
    outside_definition, references_answer, references_shown, SessionView,
};
use crate::src_tree::{file_of, ClassAtPos, ClassAtPosView, FileView, MethodSide, SrcTree};
use crate::text::text_le;
use crate::workspace::{
    class_views, definitions_are_found_again, in_file, infos_are_found_again, located,
    location_views, name_views, outside_file, reference_views, source_views,
    update_gives_these_places, update_replaces_the_places_of_a_file, WorkspaceView,
};

verus! {

/// A class owns its instance variables, from no side and from the instance side; its class
/// variables, from every side; and its class instance variables, from no side and from the
/// class side: under its name, in that scope, it is among the owners of each.
pub proof fn classes_own_the_variables_they_list(
    owners: Seq<(String, VarScope)>,
    infos: Map<Seq<char>, ClassInfoView>,
    var: Seq<char>,
    side: Option<MethodSide>,
    key: Seq<char>,
    k: int,
)
    requires
        infos.dom().finite(),
        lists_owners(owner_views(owners), infos, var, side),
        infos.contains_key(key),
    ensures
        0 <= k < infos[key].inst_vars.len() && infos[key].inst_vars[k] == var && (side is None
            || side == Some(MethodSide::Instance)) ==> exists|j: int|
            0 <= j < owners.len() && (#[trigger] owners[j]).0@ == infos[key].name && owners[j].1
                == VarScope::Instance,
        0 <= k < infos[key].class_vars.len() && infos[key].class_vars[k] == var ==> exists|j: int|
            0 <= j < owners.len() && (#[trigger] owners[j]).0@ == infos[key].name && owners[j].1
                == VarScope::ClassVariable,
        0 <= k < infos[key].class_inst_vars.len() && infos[key].class_inst_vars[k] == var && (
        side is None || side == Some(MethodSide::Class)) ==> exists|j: int|
            0 <= j < owners.len() && (#[trigger] owners[j]).0@ == infos[key].name && owners[j].1
                == VarScope::ClassInstance,
{
    let list = owner_views(owners);
    let name = infos[key].name;
    if 0 <= k < infos[key].inst_vars.len() && infos[key].inst_vars[k] == var && (side is None
        || side == Some(MethodSide::Instance)) {
        let owner = (name, VarScope::Instance);
        assert(holds_var(infos[key], var, side, owner.1));
        listed_owners_hold_the_variable(list, infos, var, side, owner);
        let j = choose|j: int| 0 <= j < list.len() && list[j] == owner;
        assert(list[j] == (owners[j].0@, owners[j].1));
    }
    if 0 <= k < infos[key].class_vars.len() && infos[key].class_vars[k] == var {
        let owner = (name, VarScope::ClassVariable);
        assert(holds_var(infos[key], var, side, owner.1));
        listed_owners_hold_the_variable(list, infos, var, side, owner);
        let j = choose|j: int| 0 <= j < list.len() && list[j] == owner;
        assert(list[j] == (owners[j].0@, owners[j].1));
    }
    if 0 <= k < infos[key].class_inst_vars.len() && infos[key].class_inst_vars[k] == var && (
    side is None || side == Some(MethodSide::Class)) {
        let owner = (name, VarScope::ClassInstance);
        assert(holds_var(infos[key], var, side, owner.1));
        listed_owners_hold_the_variable(list, infos, var, side, owner);
        let j = choose|j: int| 0 <= j < list.len() && list[j] == owner;
        assert(list[j] == (owners[j].0@, owners[j].1));
    }
}

/// Only a class that lists the variable in the scope is among its owners, and only where the
/// side sees the scope: the answer gives the class and the place of the variable in its list.
pub proof fn owners_list_the_variable(
    owners: Seq<(String, VarScope)>,
    infos: Map<Seq<char>, ClassInfoView>,
    var: Seq<char>,
    side: Option<MethodSide>,
    j: int,
) -> (at: (Seq<char>, int))
    requires
        infos.dom().finite(),
        lists_owners(owner_views(owners), infos, var, side),
        0 <= j < owners.len(),
    ensures
        infos.contains_key(at.0),
        infos[at.0].name == owners[j].0@,
        match owners[j].1 {
            VarScope::Instance => side != Some(MethodSide::Class) && 0 <= at.1
                < infos[at.0].inst_vars.len() && infos[at.0].inst_vars[at.1] == var,
            VarScope::ClassVariable => 0 <= at.1 < infos[at.0].class_vars.len()
                && infos[at.0].class_vars[at.1] == var,
            VarScope::ClassInstance => side != Some(MethodSide::Instance) && 0 <= at.1
                < infos[at.0].class_inst_vars.len() && infos[at.0].class_inst_vars[at.1] == var,
        },
{
    let list = owner_views(owners);
    let owner = (owners[j].0@, owners[j].1);
    assert(list[j] == owner);
    listed_owners_hold_the_variable(list, infos, var, side, owner);
    let key = choose|key: Seq<char>| #[trigger]
        infos.contains_key(key) && infos[key].name == owner.0 && holds_var(
            infos[key],
            var,
            side,
            owner.1,
        );
    let k = match owner.1 {
        VarScope::Instance => choose|k: int|
            0 <= k < infos[key].inst_vars.len() && infos[key].inst_vars[k] == var,
        VarScope::ClassVariable => choose|k: int|
            0 <= k < infos[key].class_vars.len() && infos[key].class_vars[k] == var,
        VarScope::ClassInstance => choose|k: int|
            0 <= k < infos[key].class_inst_vars.len() && infos[key].class_inst_vars[k] == var,
    };
    (key, k)
}

/// An owner is listed once for each class of its name that lists the variable in its scope,
/// however often that class lists it.
pub proof fn owners_are_listed_once_for_each_class(
    owners: Seq<(Seq<char>, VarScope)>,
    infos: Map<Seq<char>, ClassInfoView>,
    var: Seq<char>,
    side: Option<MethodSide>,
    name: Seq<char>,
)
    requires
        lists_owners(owners, infos, var, side),
    ensures
        owners.to_multiset().count((name, VarScope::Instance)) == if side == Some(
            MethodSide::Class,
        ) {
            0
        } else {
            infos.dom().filter(
                |key: Seq<char>| infos[key].name == name && infos[key].inst_vars.contains(var),
            ).len()
        },
        owners.to_multiset().count((name, VarScope::ClassVariable)) == infos.dom().filter(
            |key: Seq<char>| infos[key].name == name && infos[key].class_vars.contains(var),
        ).len(),
        owners.to_multiset().count((name, VarScope::ClassInstance)) == if side == Some(
            MethodSide::Instance,
        ) {
            0
        } else {
            infos.dom().filter(
                |key: Seq<char>|
                    infos[key].name == name && infos[key].class_inst_vars.contains(var),
            ).len()
        },
{
    let instance = (name, VarScope::Instance);
    let class_variable = (name, VarScope::ClassVariable);
    let class_instance = (name, VarScope::ClassInstance);
    assert(owners.to_multiset().count(instance) == owning_among(
        infos.dom(),
        infos,
        var,
        side,
        instance,
    ).len());
    assert(owners.to_multiset().count(class_variable) == owning_among(
        infos.dom(),
        infos,
        var,
        side,
        class_variable,
    ).len());
    assert(owners.to_multiset().count(class_instance) == owning_among(
        infos.dom(),
        infos,
        var,
        side,
        class_instance,
    ).len());
    if side == Some(MethodSide::Class) {
        assert(owning_among(infos.dom(), infos, var, side, instance) =~= Set::<Seq<char>>::empty());
    } else {
        assert(owning_among(infos.dom(), infos, var, side, instance) =~= infos.dom().filter(
            |key: Seq<char>| infos[key].name == name && infos[key].inst_vars.contains(var),
        ));
    }
    assert(owning_among(infos.dom(), infos, var, side, class_variable) =~= infos.dom().filter(
        |key: Seq<char>| infos[key].name == name && infos[key].class_vars.contains(var),
    ));
    if side == Some(MethodSide::Instance) {
        assert(owning_among(infos.dom(), infos, var, side, class_instance) =~= Set::<
            Seq<char>,
        >::empty());
    } else {
        assert(owning_among(infos.dom(), infos, var, side, class_instance) =~= infos.dom().filter(
            |key: Seq<char>| infos[key].name == name && infos[key].class_inst_vars.contains(var),
        ));
    }
}

/// Owners are listed by name, and those of one name by scope: instance variables first, then
/// class variables, then class instance variables.
pub proof fn owners_are_listed_by_name_and_scope(
    owners: Seq<(String, VarScope)>,
    infos: Map<Seq<char>, ClassInfoView>,
    var: Seq<char>,
    side: Option<MethodSide>,
    i: int,
    j: int,
)
    requires
        lists_owners(owner_views(owners), infos, var, side),
        0 <= i < j < owners.len(),
    ensures
        owners[i].0@ != owners[j].0@ ==> text_le(owners[i].0@, owners[j].0@),
        owners[i].0@ == owners[j].0@ ==> match owners[i].1 {
            VarScope::Instance => true,
            VarScope::ClassVariable => owners[j].1 != VarScope::Instance,
            VarScope::ClassInstance => owners[j].1 == VarScope::ClassInstance,
        },
{
    let list = owner_views(owners);
    let le = |a: (Seq<char>, VarScope), b: (Seq<char>, VarScope)| owner_le(a, b);
    assert(list[i] == (owners[i].0@, owners[i].1));
    assert(list[j] == (owners[j].0@, owners[j].1));
    assert(le(list[i], list[j]));
}

/// What an index, a list of sources or a list of locations says is what its values say, each
/// under its own name or in its own place.
pub proof fn indexes_say_what_they_hold(
    classes: Map<Seq<char>, (String, Range)>,
    infos: Map<Seq<char>, ClassInfo>,
    references: Map<Seq<char>, Vec<Location>>,
    files: Map<Seq<char>, Vec<String>>,
    documents: Map<Seq<char>, SrcTree>,
    key: Seq<char>,
)
    ensures
        class_views(classes).contains_key(key) <==> classes.contains_key(key),
        classes.contains_key(key) ==> class_views(classes)[key] == (
            classes[key].0@,
            classes[key].1,
        ),
        info_views(infos).contains_key(key) <==> infos.contains_key(key),
        infos.contains_key(key) ==> info_views(infos)[key] == infos[key]@,
        reference_views(references).contains_key(key) <==> references.contains_key(key),
        references.contains_key(key) ==> reference_views(references)[key] == location_views(
            references[key]@,
        ),
        name_views(files).contains_key(key) <==> files.contains_key(key),
        files.contains_key(key) ==> name_views(files)[key] == texts(files[key]@),
        document_views(documents).contains_key(key) <==> documents.contains_key(key),
        documents.contains_key(key) ==> document_views(documents)[key] == documents[key]@,
{
}

/// The lists are as long as what they are made of, and say in each place what stands there.
pub proof fn lists_say_what_they_hold(
    locations: Seq<Location>,
    sources: Seq<(String, String)>,
    owners: Seq<(String, VarScope)>,
    url: Seq<char>,
    ranges: Seq<Range>,
)
    ensures
        location_views(locations).len() == locations.len(),
        forall|k: int|
            #![trigger locations[k]]
            0 <= k < locations.len() ==> location_views(locations)[k].uri == locations[k].uri@
                && location_views(locations)[k].range == locations[k].range,
        source_views(sources).len() == sources.len(),
        forall|k: int|
            #![trigger sources[k]]
            0 <= k < sources.len() ==> source_views(sources)[k] == (sources[k].0@, sources[k].1@),
        owner_views(owners).len() == owners.len(),
        forall|k: int|
            #![trigger owners[k]]
            0 <= k < owners.len() ==> owner_views(owners)[k] == (owners[k].0@, owners[k].1),
        located(url, ranges).len() == ranges.len(),
        forall|k: int|
            #![trigger ranges[k]]
            0 <= k < ranges.len() ==> located(url, ranges)[k].uri == url && located(
                url,
                ranges,
            )[k].range == ranges[k],
{
}

/// What a filter keeps of a list, by the numbers of what it keeps.
proof fn lemma_filtered(list: Seq<LocationView>, keep: spec_fn(LocationView) -> bool) -> (at: Seq<
    int,
>)
    ensures
        at.len() == list.filter(keep).len(),
        forall|k: int|
            #![trigger at[k]]
            0 <= k < at.len() ==> 0 <= at[k] < list.len() && keep(list[at[k]]) && list.filter(
                keep,
            )[k] == list[at[k]],
        forall|k: int, l: int| 0 <= k < l < at.len() ==> at[k] < at[l],
        forall|i: int|
            #![trigger list[i]]
            0 <= i < list.len() && keep(list[i]) ==> at.contains(i),
    decreases list.len(),
{
    reveal(Seq::filter);
    if list.len() == 0 {
        Seq::empty()
    } else {
        let rest = list.drop_last();
        let before = lemma_filtered(rest, keep);
        let last = list.len() - 1;
        let at = if keep(list.last()) {
            before.push(last)
        } else {
            before
        };
        let out = list.filter(keep);
        assert forall|k: int| #![trigger at[k]] 0 <= k < at.len() implies 0 <= at[k] < list.len()
            && keep(list[at[k]]) && out[k] == list[at[k]] by {
            if k < before.len() {
                assert(at[k] == before[k]);
                assert(rest[before[k]] == list[before[k]]);
                assert(out[k] == rest.filter(keep)[k]);
            }
        }
        assert forall|i: int|
            #![trigger list[i]]
            0 <= i < list.len() && keep(list[i]) implies at.contains(i) by {
            if i < last {
                assert(rest[i] == list[i]);
                let k = choose|k: int| 0 <= k < before.len() && before[k] == i;
                assert(at[k] == i);
            } else {
                assert(at[before.len() as int] == i);
            }
        }
        at
    }
}

/// The locations of a file are those of its URL and no other, and the locations outside it
/// are the rest, both in the order of the list: the answers give their numbers.
pub proof fn places_are_told_apart_by_their_file(list: Seq<LocationView>, url: Seq<char>) -> (at: (
    Seq<int>,
    Seq<int>,
))
    ensures
        at.0.len() == in_file(list, url).len(),
        at.1.len() == outside_file(list, url).len(),
        forall|k: int|
            #![trigger at.0[k]]
            0 <= k < at.0.len() ==> 0 <= at.0[k] < list.len() && in_file(list, url)[k]
                == list[at.0[k]],
        forall|k: int|
            #![trigger at.1[k]]
            0 <= k < at.1.len() ==> 0 <= at.1[k] < list.len() && outside_file(list, url)[k]
                == list[at.1[k]],
        forall|k: int, l: int| 0 <= k < l < at.0.len() ==> at.0[k] < at.0[l],
        forall|k: int, l: int| 0 <= k < l < at.1.len() ==> at.1[k] < at.1[l],
        forall|i: int|
            #![trigger list[i]]
            0 <= i < list.len() ==> (at.0.contains(i) <==> list[i].uri == url) && (at.1.contains(
                i,
            ) <==> list[i].uri != url),
{
    let inside = |l: LocationView| l.uri == url;
    let outside = |l: LocationView| l.uri != url;
    let within = lemma_filtered(list, inside);
    let without = lemma_filtered(list, outside);
    assert forall|i: int| #![trigger list[i]] 0 <= i < list.len() implies (within.contains(i)
        <==> list[i].uri == url) && (without.contains(i) <==> list[i].uri != url) by {
        if within.contains(i) {
            let k = choose|k: int| 0 <= k < within.len() && within[k] == i;
            assert(inside(list[within[k]]));
        }
        if without.contains(i) {
            let k = choose|k: int| 0 <= k < without.len() && without[k] == i;
            assert(outside(list[without[k]]));
        }
        if list[i].uri == url {
            assert(inside(list[i]));
        } else {
            assert(outside(list[i]));
        }
    }
    (within, without)
}

/// A class has the places that the workspace has for its name, and none where it has no list.
pub proof fn places_are_looked_up_by_name(w: WorkspaceView, name: Seq<char>)
    ensures
        w.references.contains_key(name) ==> w.references_to(name) == w.references[name],
        !w.references.contains_key(name) ==> w.references_to(name).len() == 0,
        WorkspaceView::empty().references_to(name).len() == 0,
        !WorkspaceView::empty().classes.contains_key(name),
        !WorkspaceView::empty().infos.contains_key(name),
        !WorkspaceView::empty().files.contains_key(name),
{
}

/// Once a file has been taken in, it is listed with exactly the classes that it names
/// somewhere, and not at all where it names none; every other file is listed as before.
pub proof fn files_are_listed_with_the_classes_they_name(
    w: WorkspaceView,
    url: Seq<char>,
    file: FileView,
    other: Seq<char>,
    name: Seq<char>,
)
    ensures
        w.updated(url, file).lists(url, name) <==> file.places(name).len() > 0,
        w.updated(url, file).files.contains_key(url) ==> w.updated(url, file).files[url].len() > 0
            && w.updated(url, file).files[url].no_duplicates(),
        other != url ==> (w.updated(url, file).files.contains_key(other)
            <==> w.files.contains_key(other)) && w.updated(url, file).files[other]
            == w.files[other] && (w.updated(url, file).lists(other, name) <==> w.lists(
            other,
            name,
        )),
{
    listed_classes_are_named(file.nodes, file.src, name);
    listed_classes_are_distinct(file.nodes, file.src);
}

/// Once the sources have been read, the places known in a file that no later source gives
/// again are those of the file as it was read.
pub proof fn scan_gives_the_places_of_a_source(
    w: WorkspaceView,
    language: tree_sitter::Language,
    sources: Seq<(Seq<char>, Seq<char>)>,
    i: int,
    name: Seq<char>,
)
    requires
        0 <= i < sources.len(),
        forall|j: int| i < j < sources.len() ==> (#[trigger] sources[j]).0 != sources[i].0,
    ensures
        in_file(w.scanned(language, sources).references_to(name), sources[i].0) == located(
            sources[i].0,
            file_of(language, sources[i].1).places(name),
        ),
    decreases sources.len(),
{
    let rest = sources.drop_last();
    let last = sources.last();
    let before = w.scanned(language, rest);
    let url = sources[i].0;
    update_replaces_the_places_of_a_file(before, last.0, file_of(language, last.1), name, url);
    if i < rest.len() {
        assert forall|j: int| i < j < rest.len() implies (#[trigger] rest[j]).0 != rest[i].0 by {
            assert(rest[j] == sources[j]);
        }
        scan_gives_the_places_of_a_source(w, language, rest, i, name);
        assert(sources[sources.len() - 1].0 != url);
    }
}

/// Once sources with different URLs have been read, the places known in each of them, of
/// every class, are exactly those where the source names the class.
pub proof fn scan_gives_the_places_of_every_source(
    w: WorkspaceView,
    language: tree_sitter::Language,
    sources: Seq<(Seq<char>, Seq<char>)>,
)
    requires
        forall|i: int, j: int|
            0 <= i < j < sources.len() ==> (#[trigger] sources[i]).0 != (#[trigger] sources[j]).0,
    ensures
        forall|i: int, name: Seq<char>|
            #![trigger sources[i], w.scanned(language, sources).references_to(name)]
            0 <= i < sources.len() ==> in_file(
                w.scanned(language, sources).references_to(name),
                sources[i].0,
            ) == located(sources[i].0, file_of(language, sources[i].1).places(name)),
{
    assert forall|i: int, name: Seq<char>|
        #![trigger sources[i], w.scanned(language, sources).references_to(name)]
        0 <= i < sources.len() implies in_file(
        w.scanned(language, sources).references_to(name),
        sources[i].0,
    ) == located(sources[i].0, file_of(language, sources[i].1).places(name)) by {
        scan_gives_the_places_of_a_source(w, language, sources, i, name);
    }
}

/// A class is named in a file of the scan, as the answer to a request for its places says,
/// exactly where the source names it: of the places listed, those with the URL of the source
/// have the ranges of the places that the source gives, one for each, in their order.
pub proof fn scanned_places_are_listed(
    w: WorkspaceView,
    language: tree_sitter::Language,
    sources: Seq<(Seq<char>, Seq<char>)>,
    i: int,
    name: Seq<char>,
    list: Seq<Location>,
) -> (at: Seq<int>)
    requires
        0 <= i < sources.len(),
        forall|j: int| i < j < sources.len() ==> (#[trigger] sources[j]).0 != sources[i].0,
        location_views(list) == w.scanned(language, sources).references_to(name),
    ensures
        at.len() == file_of(language, sources[i].1).places(name).len(),
        forall|k: int|
            #![trigger at[k]]
            0 <= k < at.len() ==> 0 <= at[k] < list.len() && list[at[k]].range == file_of(
                language,
                sources[i].1,
            ).places(name)[k],
        forall|k: int, l: int| 0 <= k < l < at.len() ==> at[k] < at[l],
        forall|m: int|
            #![trigger list[m]]
            0 <= m < list.len() ==> (at.contains(m) <==> list[m].uri@ == sources[i].0),
{
    let url = sources[i].0;
    let all = location_views(list);
    let ranges = file_of(language, sources[i].1).places(name);
    scan_gives_the_places_of_a_source(w, language, sources, i, name);
    let (at, _) = places_are_told_apart_by_their_file(all, url);
    assert forall|k: int| #![trigger at[k]] 0 <= k < at.len() implies 0 <= at[k] < list.len()
        && list[at[k]].range == ranges[k] by {
        assert(in_file(all, url)[k] == located(url, ranges)[k]);
        assert(all[at[k]] == list[at[k]]@);
    }
    assert forall|m: int| #![trigger list[m]] 0 <= m < list.len() implies (at.contains(m)
        <==> list[m].uri@ == url) by {
        assert(all[m] == list[m]@);
    }
    at
}

/// Once the sources have been read, a class that a source defines, and no later one, is
/// defined there, and what is known of it is what that source says of it.
pub proof fn scan_gives_what_a_source_says(
    w: WorkspaceView,
    language: tree_sitter::Language,
    sources: Seq<(Seq<char>, Seq<char>)>,
    i: int,
    name: Seq<char>,
    range: Range,
)
    requires
        0 <= i < sources.len(),
        file_of(language, sources[i].1).definition() == Some((name, range)),
        forall|j: int|
            i < j < sources.len() ==> match file_of(
                language,
                (#[trigger] sources[j]).1,
            ).definition() {
                Some((later, _)) => later != name,
                None => true,
            },
    ensures
        w.scanned(language, sources).classes.contains_key(name),
        w.scanned(language, sources).classes[name].0 == sources[i].0,
        w.scanned(language, sources).classes[name].1 == range,
        match file_of(language, sources[i].1).info() {
            Some(info) => w.scanned(language, sources).infos.contains_key(name) && w.scanned(
                language,
                sources,
            ).infos[name] == info,
            None => true,
        },
    decreases sources.len(),
{
    let rest = sources.drop_last();
    let last = sources.last();
    let before = w.scanned(language, rest);
    definitions_are_found_again(before, last.0, file_of(language, last.1), name);
    infos_are_found_again(before, last.0, file_of(language, last.1), name);
    if i < rest.len() {
        assert forall|j: int| i < j < rest.len() implies match file_of(
            language,
            (#[trigger] rest[j]).1,
        ).definition() {
            Some((later, _)) => later != name,
            None => true,
        } by {
            assert(rest[j] == sources[j]);
        }
        scan_gives_what_a_source_says(w, language, rest, i, name, range);
        assert(sources[sources.len() - 1] == last);
    }
}

/// Once the sources have been read, every source that defines a class, and no later one does,
/// has given the place of the class and what it is.
pub proof fn scan_gives_what_every_source_says(
    w: WorkspaceView,
    language: tree_sitter::Language,
    sources: Seq<(Seq<char>, Seq<char>)>,
)
    ensures
        forall|i: int|
            #![trigger sources[i]]
            0 <= i < sources.len() ==> match file_of(language, sources[i].1).definition() {
                Some((name, range)) => {
                    ||| exists|j: int|
                        i < j < sources.len() && match file_of(
                            language,
                            (#[trigger] sources[j]).1,
                        ).definition() {
                            Some((later, _)) => later == name,
                            None => false,
                        }
                    ||| {
                        &&& w.scanned(language, sources).classes.contains_pair(
                            name,
                            (sources[i].0, range),
                        )
                        &&& match file_of(language, sources[i].1).info() {
                            Some(info) => w.scanned(language, sources).infos.contains_pair(
                                name,
                                info,
                            ),
                            None => true,
                        }
                    }
                },
                None => true,
            },
{
    let after = w.scanned(language, sources);
    assert forall|i: int| #![trigger sources[i]] 0 <= i < sources.len() implies match file_of(
        language,
        sources[i].1,
    ).definition() {
        Some((name, range)) => {
            ||| exists|j: int|
                i < j < sources.len() && match file_of(
                    language,
                    (#[trigger] sources[j]).1,
                ).definition() {
                    Some((later, _)) => later == name,
                    None => false,
                }
            ||| {
                &&& after.classes.contains_pair(name, (sources[i].0, range))
                &&& match file_of(language, sources[i].1).info() {
                    Some(info) => after.infos.contains_pair(name, info),
                    None => true,
                }
            }
        },
        None => true,
    } by {
        if let Some((name, range)) = file_of(language, sources[i].1).definition() {
            if forall|j: int|
                i < j < sources.len() ==> match file_of(
                    language,
                    (#[trigger] sources[j]).1,
                ).definition() {
                    Some((later, _)) => later != name,
                    None => true,
                } {
                scan_gives_what_a_source_says(w, language, sources, i, name, range);
                assert(after.classes[name] == (sources[i].0, range));
            }
        }
    }
}

/// A scan leaves alone what its sources do not speak of: the places in a file that is not
/// among them, and the place and the nature of a class that none of them defines.
pub proof fn scan_leaves_the_rest_alone(
    w: WorkspaceView,
    language: tree_sitter::Language,
    sources: Seq<(Seq<char>, Seq<char>)>,
    url: Seq<char>,
    name: Seq<char>,
)
    ensures
        (forall|j: int| 0 <= j < sources.len() ==> (#[trigger] sources[j]).0 != url) ==> in_file(
            w.scanned(language, sources).references_to(name),
            url,
        ) == in_file(w.references_to(name), url),
        (forall|j: int|
            0 <= j < sources.len() ==> match file_of(
                language,
                (#[trigger] sources[j]).1,
            ).definition() {
                Some((defined, _)) => defined != name,
                None => true,
            }) ==> {
            &&& w.scanned(language, sources).classes.contains_key(name)
                <==> w.classes.contains_key(name)
            &&& w.scanned(language, sources).classes[name] == w.classes[name]
            &&& w.scanned(language, sources).infos.contains_key(name) <==> w.infos.contains_key(
                name,
            )
            &&& w.scanned(language, sources).infos[name] == w.infos[name]
        },
    decreases sources.len(),
{
    if sources.len() > 0 {
        let rest = sources.drop_last();
        let last = sources.last();
        let before = w.scanned(language, rest);
        let file = file_of(language, last.1);
        assert(sources[sources.len() - 1] == last);
        assert forall|j: int| 0 <= j < rest.len() implies #[trigger] rest[j] == sources[j] by {}
        scan_leaves_the_rest_alone(w, language, rest, url, name);
        update_replaces_the_places_of_a_file(before, last.0, file, name, url);
        definitions_are_found_again(before, last.0, file, name);
        infos_are_found_again(before, last.0, file, name);
        if forall|j: int| 0 <= j < sources.len() ==> (#[trigger] sources[j]).0 != url {
            assert forall|j: int| 0 <= j < rest.len() implies (#[trigger] rest[j]).0 != url by {
                assert(rest[j] == sources[j]);
            }
        }
        if forall|j: int|
            0 <= j < sources.len() ==> match file_of(
                language,
                (#[trigger] sources[j]).1,
            ).definition() {
                Some((defined, _)) => defined != name,
                None => true,
            } {
            assert forall|j: int| 0 <= j < rest.len() implies match file_of(
                language,
                (#[trigger] rest[j]).1,
            ).definition() {
                Some((defined, _)) => defined != name,
                None => true,
            } by {
                assert(rest[j] == sources[j]);
            }
        }
    }
}

/// Of the places of a class, the sources read last stand last: behind those that were known
/// outside the files of the scan, the places of each source follow in the order of the list.
pub proof fn scanned_places_stand_in_order(
    w: WorkspaceView,
    language: tree_sitter::Language,
    sources: Seq<(Seq<char>, Seq<char>)>,
    url: Seq<char>,
    src: Seq<char>,
    name: Seq<char>,
)
    ensures
        w.scanned(language, Seq::empty()).references_to(name) == w.references_to(name),
        w.scanned(language, sources.push((url, src))).references_to(name) == outside_file(
            w.scanned(language, sources).references_to(name),
            url,
        ) + located(url, file_of(language, src).places(name)),
{
    let more = sources.push((url, src));
    assert(more.drop_last() =~= sources);
    assert(more.last() == (url, src));
    update_gives_these_places(w.scanned(language, sources), url, file_of(language, src), name);
}

/// To read one source more is to take its file in after the others.
pub proof fn scans_take_in_one_source_after_another(
    w: WorkspaceView,
    language: tree_sitter::Language,
    sources: Seq<(Seq<char>, Seq<char>)>,
    url: Seq<char>,
    src: Seq<char>,
)
    ensures
        w.scanned(language, Seq::empty()) == w,
        w.scanned(language, sources.push((url, src))) == w.scanned(language, sources).updated(
            url,
            file_of(language, src),
        ),
{
    let more = sources.push((url, src));
    assert(more.drop_last() =~= sources);
    assert(more.last() == (url, src));
}

/// Without the declaration, no place is shown that lies in the defining file and neither
/// starts before the definition nor ends behind it, and every other place is shown.
pub proof fn no_place_within_the_definition_is_shown(
    w: WorkspaceView,
    name: Seq<char>,
    l: LocationView,
)
    requires
        w.classes.contains_key(name),
    ensures
        ({
            let definition = w.classes[name].1;
            let shown = references_shown(w, name, false);
            if l.uri == w.classes[name].0 && definition.start.le(l.range.start)
                && l.range.end.le(definition.end) {
                !shown.contains(l)
            } else {
                shown.contains(l) <==> w.references_to(name).contains(l)
            }
        }),
{
    declarations_are_left_out(w, name, l);
}

/// Positions come one after the other by line, and in a line by character.
pub proof fn positions_are_ordered_by_line_and_character(a: Position, b: Position)
    ensures
        a.le(b) <==> a.line < b.line || (a.line == b.line && a.character <= b.character),
{
}

/// The answer to a request for references without the declaration shows the places of the
/// class, in their order, but for those in the defining file that start, by line and then by
/// character, where the definition does or later, and end where it does or earlier. Where it
/// is not known where the class is defined, it shows them all. What comes back gives the
/// numbers of the places shown.
pub proof fn references_are_shown_outside_the_definition(
    w: WorkspaceView,
    at_position: ClassAtPos,
    name: Seq<char>,
    all: Seq<Location>,
    shown: Seq<Location>,
) -> (at: Seq<int>)
    requires
        at_position matches ClassAtPos::Found(found) && found@ == name,
        location_views(all) == w.references_to(name),
        references_answer(w, class_at_view(Some(at_position)), false) == Some(
            location_views(shown),
        ),
    ensures
        at.len() == shown.len(),
        forall|k: int|
            #![trigger at[k]]
            0 <= k < at.len() ==> 0 <= at[k] < all.len() && shown[k].uri@ == all[at[k]].uri@
                && shown[k].range == all[at[k]].range,
        forall|k: int, l: int| 0 <= k < l < at.len() ==> at[k] < at[l],
        forall|m: int|
            #![trigger all[m]]
            0 <= m < all.len() ==> (at.contains(m) <==> !(w.classes.contains_key(name)
                && all[m].uri@ == w.classes[name].0 && (w.classes[name].1.start.line
                < all[m].range.start.line || (w.classes[name].1.start.line
                == all[m].range.start.line && w.classes[name].1.start.character
                <= all[m].range.start.character)) && (all[m].range.end.line
                < w.classes[name].1.end.line || (all[m].range.end.line
                == w.classes[name].1.end.line && all[m].range.end.character
                <= w.classes[name].1.end.character)))),
{
    let places = location_views(all);
    let answer = location_views(shown);
    let place = w.classes[name];
    let keep = |l: LocationView| !is_within(l, place);
    assert forall|m: int| 0 <= m < all.len() implies #[trigger] places[m] == all[m]@ by {}
    assert forall|m: int| 0 <= m < shown.len() implies #[trigger] answer[m] == shown[m]@ by {}
    if w.classes.contains_key(name) {
        let at = lemma_filtered(places, keep);
        assert(answer == outside_definition(places, place));
        assert(answer == places.filter(keep));
        assert forall|k: int|
            #![trigger at[k]]
            0 <= k < at.len() implies 0 <= at[k] < all.len() && shown[k].uri@ == all[at[k]].uri@
            && shown[k].range == all[at[k]].range by {
            assert(answer[k] == places[at[k]]);
        }
        assert forall|m: int| #![trigger all[m]] 0 <= m < all.len() implies (at.contains(m)
            <==> !(w.classes.contains_key(name) && all[m].uri@ == w.classes[name].0 && (
        w.classes[name].1.start.line < all[m].range.start.line || (w.classes[name].1.start.line
            == all[m].range.start.line && w.classes[name].1.start.character
            <= all[m].range.start.character)) && (all[m].range.end.line
            < w.classes[name].1.end.line || (all[m].range.end.line == w.classes[name].1.end.line
            && all[m].range.end.character <= w.classes[name].1.end.character)))) by {
            assert(places[m] == all[m]@);
            if at.contains(m) {
                let k = choose|k: int| 0 <= k < at.len() && at[k] == m;
                assert(keep(places[at[k]]));
            } else {
                assert(!keep(places[m]));
            }
        }
        at
    } else {
        let at = Seq::new(all.len(), |k: int| k);
        assert(answer == places);
        assert(shown.len() == answer.len());
        assert forall|k: int|
            #![trigger at[k]]
            0 <= k < at.len() implies 0 <= at[k] < all.len() && shown[k].uri@ == all[at[k]].uri@
            && shown[k].range == all[at[k]].range by {
            assert(answer[k] == places[k]);
        }
        assert forall|m: int| #![trigger all[m]] 0 <= m < all.len() implies at.contains(m) by {
            assert(at[m] == m);
        }
        at
    }
}

/// What is at a position is told as it was found.
pub proof fn what_is_at_a_position_is_told(at_position: ClassAtPos)
    ensures
        class_at_view(None) is None,
        match (at_position, class_at_view(Some(at_position))) {
            (ClassAtPos::NotNode, Some(ClassAtPosView::NotNode)) => true,
            (ClassAtPos::NotIdentifier(kind), Some(ClassAtPosView::NotIdentifier(told))) => told
                == kind@,
            (ClassAtPos::NotUppercase(name), Some(ClassAtPosView::NotUppercase(told))) => told
                == name@,
            (ClassAtPos::Found(name), Some(ClassAtPosView::Found(told))) => told == name@,
            _ => false,
        },
{
}

/// Only the name of a class is answered: with the declaration by every place of the class,
/// and with its definition where that is known.
pub proof fn only_classes_are_answered(
    w: WorkspaceView,
    at_position: Option<ClassAtPos>,
    include_declaration: bool,
)
    ensures
        match at_position {
            Some(ClassAtPos::Found(name)) => {
                &&& references_answer(w, class_at_view(at_position), include_declaration) is Some
                &&& references_answer(w, class_at_view(at_position), true) == Some(
                    w.references_to(name@),
                )
                &&& match definition_answer(w, class_at_view(at_position)) {
                    Some(location) => {
                        &&& w.classes.contains_key(name@)
                        &&& location.uri == w.classes[name@].0
                        &&& location.range == w.classes[name@].1
                    },
                    None => !w.classes.contains_key(name@),
                }
            },
            _ => {
                &&& references_answer(w, class_at_view(at_position), include_declaration) is None
                &&& definition_answer(w, class_at_view(at_position)) is None
            },
        },
{
}

/// A document that is opened is held as it is and taken in by the workspace; the others stay
/// as they were, and so they do where one is closed. What is at a position is asked of the
/// document, and of none that is not held.
pub proof fn documents_are_held_while_open(
    s: SessionView,
    uri: Seq<char>,
    file: FileView,
    other: Seq<char>,
    pos: Position,
)
    ensures
        s.opened(uri, file).workspace == s.workspace.updated(uri, file),
        s.opened(uri, file).class_at(uri, pos) == Some(file.class_at(pos)),
        s.opened(uri, file).documents.contains_key(uri),
        s.opened(uri, file).documents[uri] == file,
        s.closed(uri).workspace == s.workspace,
        s.closed(uri).class_at(uri, pos) is None,
        !s.closed(uri).documents.contains_key(uri),
        s.class_at(uri, pos) is Some <==> s.documents.contains_key(uri),
        other != uri ==> {
            &&& s.opened(uri, file).class_at(other, pos) == s.class_at(other, pos)
            &&& s.closed(uri).class_at(other, pos) == s.class_at(other, pos)
            &&& s.opened(uri, file).documents.contains_key(other) <==> s.documents.contains_key(
                other,
            )
            &&& s.opened(uri, file).documents[other] == s.documents[other]
            &&& s.closed(uri).documents.contains_key(other) <==> s.documents.contains_key(other)
            &&& s.closed(uri).documents[other] == s.documents[other]
        },
{
}

/// Hovering over a local variable, and over what is no name, shows nothing.
pub proof fn hovers_over_locals_show_nothing(
    hover: Option<HoverInfo>,
    w: WorkspaceView,
    at_position: ClassAtPos,
    side: Option<MethodSide>,
    is_local: bool,
)
    requires
        hover_shows(hover, w, at_position@, side, is_local),
    ensures
        is_local ==> hover is None,
        at_position is NotNode ==> hover is None,
        at_position is NotIdentifier ==> hover is None,
{
}

/// Hovering over the name of a class that is known, where it names no local variable, shows
/// the class: its kind, name and superclass and the variables that it lists, each in order.
pub proof fn hovers_over_classes_show_the_class(
    hover: Option<HoverInfo>,
    w: WorkspaceView,
    name: String,
    side: Option<MethodSide>,
)
    requires
        hover_shows(hover, w, ClassAtPos::Found(name)@, side, false),
        w.infos.contains_key(name@),
    ensures
        match hover {
            Some(HoverInfo::Class(info)) => {
                &&& info.kind@ == w.infos[name@].kind
                &&& info.name@ == w.infos[name@].name
                &&& match info.superclass {
                    Some(superclass) => w.infos[name@].superclass == Some(superclass@),
                    None => w.infos[name@].superclass is None,
                }
                &&& info.inst_vars@.len() == w.infos[name@].inst_vars.len()
                &&& forall|k: int|
                    #![trigger info.inst_vars@[k]]
                    0 <= k < info.inst_vars@.len() ==> info.inst_vars@[k]@
                        == w.infos[name@].inst_vars[k]
                &&& info.class_vars@.len() == w.infos[name@].class_vars.len()
                &&& forall|k: int|
                    #![trigger info.class_vars@[k]]
                    0 <= k < info.class_vars@.len() ==> info.class_vars@[k]@
                        == w.infos[name@].class_vars[k]
                &&& info.class_inst_vars@.len() == w.infos[name@].class_inst_vars.len()
                &&& forall|k: int|
                    #![trigger info.class_inst_vars@[k]]
                    0 <= k < info.class_inst_vars@.len() ==> info.class_inst_vars@[k]@
                        == w.infos[name@].class_inst_vars[k]
            },
            _ => false,
        },
{
    let info = hover->0->Class_0;
    assert(texts(info.inst_vars@) == w.infos[name@].inst_vars);
    assert(texts(info.class_vars@) == w.infos[name@].class_vars);
    assert(texts(info.class_inst_vars@) == w.infos[name@].class_inst_vars);
}

/// Hovering over any other name, where it names no local variable, shows the variable with
/// its owners, where some class lists it in a scope that is seen from the side, and nothing
/// where none does.
pub proof fn hovers_over_variables_show_their_owners(
    hover: Option<HoverInfo>,
    w: WorkspaceView,
    at_position: ClassAtPos,
    name: Seq<char>,
    side: Option<MethodSide>,
)
    requires
        w.infos.dom().finite(),
        hover_shows(hover, w, at_position@, side, false),
        match at_position {
            ClassAtPos::Found(found) => found@ == name && !w.infos.contains_key(name),
            ClassAtPos::NotUppercase(found) => found@ == name,
            _ => false,
        },
    ensures
        match hover {
            Some(HoverInfo::Variable(var, owners)) => {
                &&& var@ == name
                &&& owners@.len() > 0
                &&& lists_owners(owner_views(owners@), w.infos, name, side)
            },
            Some(HoverInfo::Class(_)) => false,
            None => forall|key: Seq<char>| #[trigger]
                w.infos.contains_key(key) ==> {
                    &&& side == Some(MethodSide::Class) || !w.infos[key].inst_vars.contains(name)
                    &&& !w.infos[key].class_vars.contains(name)
                    &&& side == Some(MethodSide::Instance)
                        || !w.infos[key].class_inst_vars.contains(name)
                },
        },
{
    if hover is None {
        let none = Seq::<(String, VarScope)>::empty();
        assert(owner_views(none) =~= Seq::<(Seq<char>, VarScope)>::empty());
        assert forall|key: Seq<char>| #[trigger] w.infos.contains_key(key) implies {
            &&& side == Some(MethodSide::Class) || !w.infos[key].inst_vars.contains(name)
            &&& !w.infos[key].class_vars.contains(name)
            &&& side == Some(MethodSide::Instance) || !w.infos[key].class_inst_vars.contains(name)
        } by {
            let info = w.infos[key];
            if side != Some(MethodSide::Class) && info.inst_vars.contains(name) {
                let k = choose|k: int| 0 <= k < info.inst_vars.len() && info.inst_vars[k] == name;
                classes_own_the_variables_they_list(none, w.infos, name, side, key, k);
            }
            if info.class_vars.contains(name) {
                let k = choose|k: int| 0 <= k < info.class_vars.len() && info.class_vars[k] == name;
                classes_own_the_variables_they_list(none, w.infos, name, side, key, k);
            }
            if side != Some(MethodSide::Instance) && info.class_inst_vars.contains(name) {
                let k = choose|k: int|
                    0 <= k < info.class_inst_vars.len() && info.class_inst_vars[k] == name;
                classes_own_the_variables_they_list(none, w.infos, name, side, key, k);
            }
        }
    }
}

/// Names stand in a row with a comma and a space between each and the next, and nothing in
/// front of the first or behind the last.
pub proof fn names_are_joined_by_commas(names: Seq<Seq<char>>, name: Seq<char>)
    ensures
        joined(Seq::empty()).len() == 0,
        joined(seq![name]) == name,
        names.len() > 0 ==> joined(names.push(name)) == joined(names) + seq![',', ' '] + name,
{
    reveal_strlit("");
    reveal_strlit(", ");
    let more = names.push(name);
    assert(more.drop_last() =~= names);
    assert(", "@ =~= seq![',', ' ']);
}

/// A class is told of by its kind and its name, and then a line each for its superclass, its
/// instance variables, its class variables and its class instance variables, where it has
/// any.
pub proof fn classes_are_told_line_by_line(info: ClassInfo)
    ensures
        hover_text(HoverInfo::Class(info)) == info.kind@ + " "@ + info.name@ + (
        match info.superclass {
            Some(superclass) => "\nSuperclass: "@ + superclass@,
            None => Seq::empty(),
        }) + (if info.inst_vars@.len() == 0 {
            Seq::empty()
        } else {
            "\nInstance variables: "@ + joined(texts(info.inst_vars@))
        }) + (if info.class_vars@.len() == 0 {
            Seq::empty()
        } else {
            "\nClass variables: "@ + joined(texts(info.class_vars@))
        }) + (if info.class_inst_vars@.len() == 0 {
            Seq::empty()
        } else {
            "\nClass instance variables: "@ + joined(texts(info.class_inst_vars@))
        }),
{
    reveal_strlit("");
    assert(""@ =~= Seq::<char>::empty());
}

/// A variable is told of by its name and then a line for each owner, in order: the name of
/// the class and the words for the scope.
pub proof fn variables_are_told_owner_by_owner(
    var: String,
    owners: Vec<(String, VarScope)>,
    list: Seq<(Seq<char>, VarScope)>,
    name: Seq<char>,
)
    ensures
        hover_text(HoverInfo::Variable(var, owners)) == var@ + owners_text(owner_views(owners@)),
        owners_text(Seq::empty()).len() == 0,
        owners_text(list.push((name, VarScope::Instance))) == owners_text(list) + "\n"@ + name
            + " (instance variable)"@,
        owners_text(list.push((name, VarScope::ClassVariable))) == owners_text(list) + "\n"@ + name
            + " (class variable)"@,
        owners_text(list.push((name, VarScope::ClassInstance))) == owners_text(list) + "\n"@ + name
            + " (class instance variable)"@,
{
    reveal_strlit("");
    assert(list.push((name, VarScope::Instance)).drop_last() =~= list);
    assert(list.push((name, VarScope::ClassVariable)).drop_last() =~= list);
    assert(list.push((name, VarScope::ClassInstance)).drop_last() =~= list);
}

} // verus!
