//! What is known of all files of a workspace: where each class is defined, what it is, and
//! where it is named.

use vstd::prelude::*;
use vstd::utf8::encode_utf8;

use crate::class_info::{texts, ClassInfo, ClassInfoView};
use crate::grammar::Grammar;
use crate::index::Index;
use crate::owners::{info_views, lists_owners, owner_views, owners_in, VarScope};
use crate::position::{Location, LocationView, Range};
use crate::references::{
    listed_classes_are_distinct, listed_classes_are_named, reference_names, ClassReferences,
};
use crate::src_tree::{file_of, FileView, MethodSide, SrcTree};
use crate::text::same_text;

verus! {

/// Tells whether a file of a workspace is a source file: whether it is a plain file with
/// the extension `st`.
pub fn is_source_file(is_file: bool, extension: Option<&str>) -> (res: bool)
    ensures
        res == (is_file && match extension {
            Some(e) => e@ == "st"@,
            None => false,
        }),
{
    match extension {
        Some(e) => is_file && same_text(e, "st"),
        None => false,
    }
}

/// What each location of a list says.
pub open spec fn location_views(list: Seq<Location>) -> Seq<LocationView> {
    list.map_values(|l: Location| l@)
}

/// The ranges of a file as locations.
pub open spec fn located(url: Seq<char>, ranges: Seq<Range>) -> Seq<LocationView> {
    ranges.map_values(|r: Range| LocationView { uri: url, range: r })
}

/// The locations of a list that lie in the file at `url`.
pub open spec fn in_file(list: Seq<LocationView>, url: Seq<char>) -> Seq<LocationView> {
    list.filter(|l: LocationView| l.uri == url)
}

/// The locations of a list that lie outside the file at `url`.
pub open spec fn outside_file(list: Seq<LocationView>, url: Seq<char>) -> Seq<LocationView> {
    list.filter(|l: LocationView| l.uri != url)
}

/// What a workspace knows.
#[verifier::ext_equal]
pub struct WorkspaceView {
    /// The file that defines each class, and where in it.
    pub classes: Map<Seq<char>, (Seq<char>, Range)>,
    /// What each class is.
    pub infos: Map<Seq<char>, ClassInfoView>,
    /// Where each class is named.
    pub references: Map<Seq<char>, Seq<LocationView>>,
    /// The classes that each file names.
    pub files: Map<Seq<char>, Seq<Seq<char>>>,
}

impl WorkspaceView {
    /// A workspace of which nothing is known.
    pub open spec fn empty() -> WorkspaceView {
        WorkspaceView {
            classes: Map::empty(),
            infos: Map::empty(),
            references: Map::empty(),
            files: Map::empty(),
        }
    }

    /// Where the class `name` is named.
    pub open spec fn references_to(self, name: Seq<char>) -> Seq<LocationView> {
        if self.references.contains_key(name) {
            self.references[name]
        } else {
            Seq::empty()
        }
    }

    /// Whether the file at `url` is known to name the class `name`.
    pub open spec fn lists(self, url: Seq<char>, name: Seq<char>) -> bool {
        self.files.contains_key(url) && self.files[url].contains(name)
    }

    /// Whether some known place where the class `name` is named lies in the file at `url`.
    pub open spec fn mentions(self, url: Seq<char>, name: Seq<char>) -> bool {
        exists|k: int|
            0 <= k < self.references_to(name).len() && (#[trigger] self.references_to(
                name,
            )[k]).uri == url
    }

    /// Whether the list of the classes that each file names tells exactly which files the
    /// places of each class lie in, so that the places of a file can be found again.
    pub open spec fn tracks_files(self) -> bool {
        forall|url: Seq<char>, name: Seq<char>| #[trigger]
            self.lists(url, name) <==> self.mentions(url, name)
    }

    /// Whether finitely many things are known, and the lists of classes are right.
    pub open spec fn wf(self) -> bool {
        &&& self.tracks_files()
        &&& self.classes.dom().finite()
        &&& self.infos.dom().finite()
        &&& self.references.dom().finite()
        &&& self.files.dom().finite()
    }

    /// What is known once the file at `url` has become `file`.
    ///
    /// The class that it defines is defined there. What names classes in the file is
    /// replaced by what names them now. Nothing else changes; above all, a class that the
    /// file no longer defines stays known.
    pub open spec fn updated(self, url: Seq<char>, file: FileView) -> WorkspaceView {
        WorkspaceView {
            classes: match file.definition() {
                Some((name, range)) => self.classes.insert(name, (url, range)),
                None => self.classes,
            },
            infos: match (file.definition(), file.info()) {
                (Some((name, _)), Some(info)) => self.infos.insert(name, info),
                _ => self.infos,
            },
            references: Map::new(
                |name: Seq<char>|
                    self.references.contains_key(name) || file.classes().contains(name),
                |name: Seq<char>|
                    outside_file(self.references_to(name), url) + located(url, file.places(name)),
            ),
            files: if file.classes().len() > 0 {
                self.files.insert(url, file.classes())
            } else {
                self.files.remove(url)
            },
        }
    }

    /// What is known once the sources have been read, one after the other, each a file's
    /// URL and its text.
    pub open spec fn scanned(
        self,
        language: tree_sitter::Language,
        sources: Seq<(Seq<char>, Seq<char>)>,
    ) -> WorkspaceView
        decreases sources.len(),
    {
        if sources.len() == 0 {
            self
        } else {
            let last = sources.last();
            self.scanned(language, sources.drop_last()).updated(last.0, file_of(language, last.1))
        }
    }
}

/// What is taken out of a list and left in it.
proof fn lemma_outside(list: Seq<LocationView>, url: Seq<char>)
    ensures
        outside_file(outside_file(list, url), url) == outside_file(list, url),
        forall|k: int|
            0 <= k < outside_file(list, url).len() ==> (#[trigger] outside_file(
                list,
                url,
            )[k]).uri != url && list.contains(outside_file(list, url)[k]),
        forall|k: int|
            0 <= k < list.len() && (#[trigger] list[k]).uri != url ==> outside_file(
                list,
                url,
            ).contains(list[k]),
        (forall|k: int| 0 <= k < list.len() ==> (#[trigger] list[k]).uri != url) ==> outside_file(
            list,
            url,
        ) == list,
    decreases list.len(),
{
    reveal(Seq::filter);
    let out = outside_file(list, url);
    if list.len() > 0 {
        let rest = list.drop_last();
        let before = outside_file(rest, url);
        lemma_outside(rest, url);
        assert forall|k: int| 0 <= k < out.len() implies (#[trigger] out[k]).uri != url
            && list.contains(out[k]) by {
            if k < before.len() {
                assert(before[k] == out[k]);
                let m = choose|m: int| 0 <= m < rest.len() && rest[m] == before[k];
                assert(list[m] == out[k]);
            } else {
                assert(list[list.len() - 1] == out[k]);
            }
        }
        assert forall|k: int| 0 <= k < list.len() && (#[trigger] list[k]).uri
            != url implies out.contains(list[k]) by {
            if k < rest.len() {
                assert(rest[k] == list[k]);
                let m = choose|m: int| 0 <= m < before.len() && before[m] == rest[k];
                assert(out[m] == list[k]);
            } else {
                assert(out[out.len() - 1] == list[k]);
            }
        }
        if list.last().uri != url {
            assert(out.drop_last() =~= before);
        }
        if forall|k: int| 0 <= k < list.len() ==> (#[trigger] list[k]).uri != url {
            assert forall|k: int| 0 <= k < rest.len() implies (#[trigger] rest[k]).uri != url by {
                assert(rest[k] == list[k]);
            }
            assert(list[list.len() - 1].uri != url);
            assert(out =~= list);
        }
    }
}

/// What each place of a class index says.
pub open spec fn class_views(classes: Map<Seq<char>, (String, Range)>) -> Map<
    Seq<char>,
    (Seq<char>, Range),
> {
    classes.map_values(|c: (String, Range)| (c.0@, c.1))
}

/// What each list of an index of references says.
pub open spec fn reference_views(references: Map<Seq<char>, Vec<Location>>) -> Map<
    Seq<char>,
    Seq<LocationView>,
> {
    references.map_values(|list: Vec<Location>| location_views(list@))
}

/// What each list of an index of names says.
pub open spec fn name_views(files: Map<Seq<char>, Vec<String>>) -> Map<Seq<char>, Seq<Seq<char>>> {
    files.map_values(|list: Vec<String>| texts(list@))
}

/// Returns the locations of a list that lie outside the file at `url`.
fn retain_outside(list: &Vec<Location>, url: &str) -> (res: Vec<Location>)
    ensures
        location_views(res@) == outside_file(location_views(list@), url@),
{
    let mut res: Vec<Location> = Vec::new();
    let ghost all = location_views(list@);
    let mut i: usize = 0;
    proof {
        reveal(Seq::filter);
        assert(location_views(res@) =~= outside_file(all.take(0), url@));
    }
    while i < list.len()
        invariant
            i <= list@.len(),
            all == location_views(list@),
            location_views(res@) == outside_file(all.take(i as int), url@),
        decreases list@.len() - i,
    {
        let ghost before = res@;
        proof {
            reveal(Seq::filter);
            assert(all.take(i + 1).drop_last() =~= all.take(i as int));
            assert(all.take(i + 1).last() == list@[i as int]@);
        }
        if !same_text(list[i].uri.as_str(), url) {
            let location = list[i].copied();
            res.push(location);
            assert(location_views(res@) =~= location_views(before).push(location@));
        }
        i += 1;
    }
    assert(all.take(list@.len() as int) =~= all);
    res
}

/// Returns the ranges of the file at `url` as locations, behind those of `list`.
fn append_located(list: &Vec<Location>, url: &str, ranges: &Vec<Range>) -> (res: Vec<Location>)
    ensures
        location_views(res@) == location_views(list@) + located(url@, ranges@),
{
    let mut res: Vec<Location> = copy_locations(list);
    let mut i: usize = 0;
    assert(located(url@, ranges@.take(0)) =~= Seq::<LocationView>::empty());
    assert(location_views(res@) =~= location_views(list@) + located(url@, ranges@.take(0)));
    while i < ranges.len()
        invariant
            i <= ranges@.len(),
            location_views(res@) == location_views(list@) + located(
                url@,
                ranges@.take(i as int),
            ),
        decreases ranges@.len() - i,
    {
        let ghost before = res@;
        let location = Location { uri: url.to_owned(), range: ranges[i] };
        res.push(location);
        assert(location_views(res@) =~= location_views(before).push(location@));
        assert(located(url@, ranges@.take(i + 1)) =~= located(url@, ranges@.take(i as int)).push(
            location@,
        ));
        i += 1;
    }
    assert(ranges@.take(ranges@.len() as int) =~= ranges@);
    res
}

/// Returns locations that say the same.
fn copy_locations(list: &Vec<Location>) -> (res: Vec<Location>)
    ensures
        location_views(res@) == location_views(list@),
{
    let mut res: Vec<Location> = Vec::new();
    let mut i: usize = 0;
    while i < list.len()
        invariant
            i <= list@.len(),
            location_views(res@) =~= location_views(list@).take(i as int),
        decreases list@.len() - i,
    {
        let ghost before = res@;
        let location = list[i].copied();
        res.push(location);
        assert(location_views(res@) =~= location_views(before).push(location@));
        i += 1;
    }
    assert(location_views(res@) =~= location_views(list@));
    res
}

/// The references without those of the file at `url` to the classes named.
spec fn cleared(
    references: Map<Seq<char>, Seq<LocationView>>,
    names: Seq<Seq<char>>,
    url: Seq<char>,
) -> Map<Seq<char>, Seq<LocationView>> {
    references.map_entries(
        |name: Seq<char>, list: Seq<LocationView>|
            if names.contains(name) {
                outside_file(list, url)
            } else {
                list
            },
    )
}

/// The locations that the references have for the class `name`.
spec fn locations_of(references: Map<Seq<char>, Seq<LocationView>>, name: Seq<char>) -> Seq<
    LocationView,
> {
    if references.contains_key(name) {
        references[name]
    } else {
        Seq::empty()
    }
}

/// The references with those of the file at `url` behind them.
spec fn extended(
    references: Map<Seq<char>, Seq<LocationView>>,
    groups: Seq<ClassReferences>,
    url: Seq<char>,
) -> Map<Seq<char>, Seq<LocationView>>
    decreases groups.len(),
{
    if groups.len() == 0 {
        references
    } else {
        let last = groups.last();
        let before = extended(references, groups.drop_last(), url);
        before.insert(
            last.name@,
            locations_of(before, last.name@) + located(url, last.ranges@),
        )
    }
}

/// Takes the references of the file at `url` to the classes named out of the index.
fn clear_places(references: &mut Index<Vec<Location>>, names: &Vec<String>, url: &str)
    requires
        old(references).wf(),
    ensures
        final(references).wf(),
        reference_views(final(references)@) == cleared(
            reference_views(old(references)@),
            texts(names@),
            url@,
        ),
{
    let ghost first = reference_views(references@);
    let ghost all = texts(names@);
    let mut i: usize = 0;
    assert(cleared(first, all.take(0), url@) =~= first);
    while i < names.len()
        invariant
            i <= names@.len(),
            all == texts(names@),
            references.wf(),
            reference_views(references@) == cleared(first, all.take(i as int), url@),
        decreases names@.len() - i,
    {
        let ghost before = reference_views(references@);
        let ghost name = names@[i as int]@;
        proof {
            let seen = all.take(i as int);
            let next = all.take(i + 1);
            assert(next =~= seen.push(name));
            assert forall|n: Seq<char>| #[trigger] next.contains(n) <==> seen.contains(n) || n
                == name by {
                if seen.contains(n) {
                    let k = choose|k: int| 0 <= k < seen.len() && seen[k] == n;
                    assert(next[k] == n);
                }
                assert(next[i as int] == name);
                if next.contains(n) && n != name {
                    let k = choose|k: int| 0 <= k < next.len() && next[k] == n;
                    assert(seen[k] == n);
                }
            }
            if first.contains_key(name) {
                lemma_outside(first[name], url@);
            }
        }
        if let Some(list) = references.get(names[i].as_str()) {
            let kept = retain_outside(list, url);
            assert(location_views(list@) == before[name]);
            references.insert(names[i].clone(), kept);
            assert(reference_views(references@) =~= before.insert(
                name,
                location_views(kept@),
            ));
        }
        proof {
            let after = reference_views(references@);
            let goal = cleared(first, all.take(i + 1), url@);
            assert forall|n: Seq<char>| after.contains_key(n) implies #[trigger] after[n]
                == goal[n] by {
                assert(before.contains_key(n));
                assert(first.contains_key(n));
                assert(before[n] == if all.take(i as int).contains(n) {
                    outside_file(first[n], url@)
                } else {
                    first[n]
                });
            }
            assert(after =~= goal);
        }
        i += 1;
    }
    assert(all.take(names@.len() as int) =~= all);
}

/// Puts the references of the file at `url` into the index.
fn add_places(references: &mut Index<Vec<Location>>, groups: &Vec<ClassReferences>, url: &str)
    requires
        old(references).wf(),
    ensures
        final(references).wf(),
        reference_views(final(references)@) == extended(
            reference_views(old(references)@),
            groups@,
            url@,
        ),
{
    let ghost first = reference_views(references@);
    let mut i: usize = 0;
    assert(groups@.take(0) =~= Seq::<ClassReferences>::empty());
    while i < groups.len()
        invariant
            i <= groups@.len(),
            references.wf(),
            reference_views(references@) == extended(first, groups@.take(i as int), url@),
        decreases groups@.len() - i,
    {
        let ghost before = reference_views(references@);
        let name = groups[i].name.as_str();
        let list = match references.get(name) {
            Some(list) => append_located(list, url, &groups[i].ranges),
            None => {
                let none: Vec<Location> = Vec::new();
                assert(location_views(none@) =~= Seq::<LocationView>::empty());
                append_located(&none, url, &groups[i].ranges)
            },
        };
        references.insert(groups[i].name.clone(), list);
        proof {
            assert(reference_views(references@) =~= before.insert(name@, location_views(list@)));
            assert(groups@.take(i + 1).drop_last() =~= groups@.take(i as int));
        }
        i += 1;
    }
    assert(groups@.take(groups@.len() as int) =~= groups@);
}

/// What the references of a file add for one class.
proof fn lemma_extended(
    references: Map<Seq<char>, Seq<LocationView>>,
    groups: Seq<ClassReferences>,
    url: Seq<char>,
    name: Seq<char>,
)
    requires
        reference_names(groups).no_duplicates(),
    ensures
        extended(references, groups, url).contains_key(name) <==> references.contains_key(name)
            || reference_names(groups).contains(name),
        !reference_names(groups).contains(name) ==> locations_of(
            extended(references, groups, url),
            name,
        ) == locations_of(references, name),
        forall|k: int|
            0 <= k < groups.len() && (#[trigger] groups[k]).name@ == name ==> locations_of(
                extended(references, groups, url),
                name,
            ) == locations_of(references, name) + located(url, groups[k].ranges@),
    decreases groups.len(),
{
    if groups.len() > 0 {
        let rest = groups.drop_last();
        let names = reference_names(groups);
        let before = reference_names(rest);
        assert(before =~= names.drop_last());
        lemma_extended(references, rest, url, name);
        assert(names[groups.len() - 1] == groups.last().name@);
        if before.contains(name) {
            let m = choose|m: int| 0 <= m < before.len() && before[m] == name;
            assert(names[m] == name);
        }
        if names.contains(name) && groups.last().name@ != name {
            let m = choose|m: int| 0 <= m < names.len() && names[m] == name;
            assert(before[m] == name);
        }
        assert forall|k: int| 0 <= k < groups.len() && (#[trigger] groups[k]).name@
            == name implies locations_of(extended(references, groups, url), name)
            == locations_of(references, name) + located(url, groups[k].ranges@) by {
            assert(names[k] == name);
            if k < rest.len() {
                assert(rest[k] == groups[k]);
            } else if before.contains(name) {
                let m = choose|m: int| 0 <= m < before.len() && before[m] == name;
                assert(names[m] == names[k]);
            }
        }
    }
}

/// Returns the class names of a list.
fn group_names(groups: &Vec<ClassReferences>) -> (res: Vec<String>)
    ensures
        texts(res@) == reference_names(groups@),
{
    let mut res: Vec<String> = Vec::new();
    let mut i: usize = 0;
    while i < groups.len()
        invariant
            i <= groups@.len(),
            texts(res@) =~= reference_names(groups@).take(i as int),
        decreases groups@.len() - i,
    {
        let ghost before = res@;
        let name = groups[i].name.clone();
        res.push(name);
        assert(texts(res@) =~= texts(before).push(name@));
        i += 1;
    }
    assert(texts(res@) =~= reference_names(groups@));
    res
}

/// Once a file has been taken in, the lists of classes still tell exactly which files the
/// places of each class lie in, and what is known is still finite.
pub proof fn update_keeps_track(w: WorkspaceView, url: Seq<char>, file: FileView)
    requires
        w.wf(),
    ensures
        w.updated(url, file).wf(),
{
    let after = w.updated(url, file);
    assert forall|u: Seq<char>, name: Seq<char>| #[trigger]
        after.lists(u, name) <==> after.mentions(u, name) by {
        listed_classes_are_named(file.nodes, file.src, name);
        let old_list = w.references_to(name);
        let kept = outside_file(old_list, url);
        let new = located(url, file.places(name));
        assert(after.references_to(name) =~= kept + new) by {
            if !w.references.contains_key(name) {
                reveal(Seq::filter);
                assert(kept =~= Seq::<LocationView>::empty());
                if !file.classes().contains(name) {
                    assert(new =~= Seq::<LocationView>::empty());
                }
            }
        }
        lemma_outside(old_list, url);
        assert(w.lists(u, name) <==> w.mentions(u, name));
        let list = kept + new;
        if u == url {
            if after.lists(u, name) {
                assert(new[0].uri == url);
                assert(list[kept.len() as int] == new[0]);
            }
            if after.mentions(u, name) {
                let k = choose|k: int| 0 <= k < list.len() && (#[trigger] list[k]).uri == url;
                if k < kept.len() {
                    assert(list[k] == kept[k]);
                    assert(kept[k].uri != url);
                }
            }
        } else {
            assert(after.lists(u, name) == w.lists(u, name));
            if w.mentions(u, name) {
                let k = choose|k: int| 0 <= k < old_list.len() && (#[trigger] old_list[k]).uri == u;
                assert(kept.contains(old_list[k]));
                let m = choose|m: int| 0 <= m < kept.len() && kept[m] == old_list[k];
                assert(list[m] == old_list[k]);
            }
            if after.mentions(u, name) {
                let k = choose|k: int| 0 <= k < list.len() && (#[trigger] list[k]).uri == u;
                assert(k < kept.len()) by {
                    if k >= kept.len() {
                        assert(list[k] == new[k - kept.len()]);
                    }
                }
                assert(old_list.contains(kept[k]));
                let m = choose|m: int| 0 <= m < old_list.len() && old_list[m] == kept[k];
                assert(old_list[m].uri == u);
            }
        }
    }
    assert(after.references.dom() =~= w.references.dom().union(file.classes().to_set()));
    vstd::seq_lib::seq_to_set_is_finite(file.classes());
}

/// What is known of the files of a workspace.
pub struct Workspace {
    /// Maps class name -> (URL of the defining file, range of the definition)
    class_index: Index<(String, Range)>,
    /// Maps class name -> class info (hover metadata)
    class_info_index: Index<ClassInfo>,
    /// Maps class name -> all locations where that name appears across the workspace
    references_index: Index<Vec<Location>>,
    /// Maps file URL -> class names referenced in that file (for incremental update)
    file_refs: Index<Vec<String>>,
}

impl View for Workspace {
    type V = WorkspaceView;

    closed spec fn view(&self) -> WorkspaceView {
        WorkspaceView {
            classes: class_views(self.class_index@),
            infos: info_views(self.class_info_index@),
            references: reference_views(self.references_index@),
            files: name_views(self.file_refs@),
        }
    }
}

impl Workspace {
    /// Whether the indexes are whole and the lists of classes are right.
    pub closed spec fn wf(self) -> bool {
        &&& self.class_index.wf()
        &&& self.class_info_index.wf()
        &&& self.references_index.wf()
        &&& self.file_refs.wf()
        &&& self@.tracks_files()
    }

    /// What is known is finite, and the lists of classes are right.
    pub proof fn view_is_wf(&self)
        requires
            self.wf(),
        ensures
            self@.wf(),
    {
        self.class_index.keys_are_the_domain();
        self.class_info_index.keys_are_the_domain();
        self.references_index.keys_are_the_domain();
        self.file_refs.keys_are_the_domain();
        assert(self@.classes.dom() =~= self.class_index@.dom());
        assert(self@.infos.dom() =~= self.class_info_index@.dom());
        assert(self@.references.dom() =~= self.references_index@.dom());
        assert(self@.files.dom() =~= self.file_refs@.dom());
    }

    /// Makes a workspace of which nothing is known.
    pub fn new() -> (res: Workspace)
        ensures
            res.wf(),
            res@ == WorkspaceView::empty(),
    {
        let res = Workspace {
            class_index: Index::new(),
            class_info_index: Index::new(),
            references_index: Index::new(),
            file_refs: Index::new(),
        };
        assert(res@ =~= WorkspaceView::empty());
        res
    }

    /// Updates the indexes for a single document (call when one is opened or changed).
    pub fn update(&mut self, url: String, src_tree: &SrcTree)
        requires
            old(self).wf(),
        ensures
            final(self).wf(),
            final(self)@ == old(self)@.updated(url@, src_tree@),
    {
        let ghost w = self@;
        let ghost file = src_tree@;
        let ghost goal = w.updated(url@, file);
        proof {
            self.view_is_wf();
            update_keeps_track(w, url@, file);
        }
        if let Some((class_name, range)) = src_tree.defined_class() {
            self.class_index.insert(class_name.clone(), (url.clone(), range));
            if let Some(info) = src_tree.class_info() {
                self.class_info_index.insert(class_name, info);
            }
        }
        assert(self@.classes =~= goal.classes);
        assert(self@.infos =~= goal.infos);

        // Remove stale references from this file.
        match self.file_refs.remove(url.as_str()) {
            Some(old_classes) => {
                clear_places(&mut self.references_index, &old_classes, url.as_str());
                assert(w.files[url@] == texts(old_classes@));
            },
            None => {},
        }
        let ghost kept = self@.references;
        assert(self@.files =~= w.files.remove(url@));
        assert forall|name: Seq<char>| #[trigger] locations_of(kept, name) == outside_file(
            w.references_to(name),
            url@,
        ) && (kept.contains_key(name) <==> w.references.contains_key(name)) by {
            lemma_outside(w.references_to(name), url@);
            assert(w.lists(url@, name) <==> w.mentions(url@, name));
            if !w.references.contains_key(name) {
                reveal(Seq::filter);
                assert(outside_file(w.references_to(name), url@) =~= Seq::<LocationView>::empty());
            }
        }

        // Add new references from this file.
        let all_refs = src_tree.all_class_references();
        add_places(&mut self.references_index, &all_refs, url.as_str());
        proof {
            let names = reference_names(all_refs@);
            listed_classes_are_distinct(file.nodes, file.src);
            assert forall|name: Seq<char>|
                (self@.references.contains_key(name) <==> #[trigger] goal.references.contains_key(
                    name,
                )) && locations_of(self@.references, name) == locations_of(
                    goal.references,
                    name,
                ) by {
                lemma_extended(kept, all_refs@, url@, name);
                listed_classes_are_named(file.nodes, file.src, name);
                assert(locations_of(kept, name) == outside_file(w.references_to(name), url@));
                if names.contains(name) {
                    let k = choose|k: int| 0 <= k < names.len() && names[k] == name;
                    assert(all_refs@[k].name@ == name);
                } else {
                    assert(located(url@, file.places(name)) =~= Seq::<LocationView>::empty());
                    assert(outside_file(w.references_to(name), url@) + located(
                        url@,
                        file.places(name),
                    ) =~= outside_file(w.references_to(name), url@));
                }
            }
            assert forall|name: Seq<char>| #[trigger]
                self@.references.contains_key(name) implies self@.references[name]
                == goal.references[name] by {
                assert(goal.references.contains_key(name));
                assert(locations_of(self@.references, name) == locations_of(
                    goal.references,
                    name,
                ));
            }
            assert forall|name: Seq<char>| #[trigger]
                self@.references.contains_key(name) <==> goal.references.contains_key(name) by {
                let known = goal.references.contains_key(name);
            }
            assert(self@.references =~= goal.references);
        }
        if all_refs.len() > 0 {
            let referenced = group_names(&all_refs);
            self.file_refs.insert(url, referenced);
        }
        assert(self@.files =~= goal.files);
        assert(self@ =~= goal);
    }

    /// Takes in the source files found under the workspace's root, each given by its URL and
    /// its text. Returns the number of classes that became known.
    pub fn scan(&mut self, grammar: &Grammar, sources: Vec<(String, String)>) -> (res: usize)
        requires
            old(self).wf(),
            forall|i: int|
                0 <= i < sources@.len() ==> encode_utf8((#[trigger] sources@[i]).1@).len()
                    <= u32::MAX,
        ensures
            final(self).wf(),
            final(self)@ == old(self)@.scanned(grammar.language(), source_views(sources@)),
            res == final(self)@.classes.dom().len() - old(self)@.classes.dom().len(),
    {
        let ghost w = self@;
        let ghost all = source_views(sources@);
        let ghost language = grammar.language();
        let before = self.class_count();
        let mut i: usize = 0;
        proof {
            self.view_is_wf();
            assert(all.take(0) =~= Seq::<(Seq<char>, Seq<char>)>::empty());
        }
        while i < sources.len()
            invariant
                i <= sources@.len(),
                forall|k: int|
                    0 <= k < sources@.len() ==> encode_utf8((#[trigger] sources@[k]).1@).len()
                        <= u32::MAX,
                self.wf(),
                all == source_views(sources@),
                language == grammar.language(),
                self@ == w.scanned(language, all.take(i as int)),
            decreases sources@.len() - i,
        {
            let src_tree = SrcTree::new(sources[i].1.clone(), grammar);
            self.update(sources[i].0.clone(), &src_tree);
            proof {
                assert(all.take(i + 1).drop_last() =~= all.take(i as int));
                assert(all.take(i + 1).last() == (sources@[i as int].0@, sources@[i as int].1@));
            }
            i += 1;
        }
        proof {
            assert(all.take(sources@.len() as int) =~= all);
            scan_counts_new_classes(w, language, all);
        }
        self.class_count() - before
    }

    /// Returns the number of classes currently in the index.
    pub fn class_count(&self) -> (res: usize)
        requires
            self.wf(),
        ensures
            res == self@.classes.dom().len(),
    {
        assert(self@.classes.dom() =~= self.class_index@.dom());
        self.class_index.len()
    }

    /// Returns the class info of the named class/trait, or None if unknown.
    pub fn find_class_info(&self, name: &str) -> (res: Option<ClassInfo>)
        requires
            self.wf(),
        ensures
            (match res {
                Some(info) => self@.infos.contains_pair(name@, info@),
                None => !self@.infos.contains_key(name@),
            }),
    {
        match self.class_info_index.get(name) {
            Some(info) => Some(info.copied()),
            None => None,
        }
    }

    /// Returns all (class name, scope) pairs for classes that declare `var_name`.
    pub fn find_var_owners(&self, var_name: &str, method_side: Option<MethodSide>) -> (res: Vec<
        (String, VarScope),
    >)
        requires
            self.wf(),
        ensures
            lists_owners(owner_views(res@), self@.infos, var_name@, method_side),
    {
        owners_in(&self.class_info_index, var_name, method_side)
    }

    /// Looks up a class name and returns its definition location, or None if unknown.
    pub fn find_class(&self, name: &str) -> (res: Option<(String, Range)>)
        requires
            self.wf(),
        ensures
            (match res {
                Some((url, range)) => self@.classes.contains_pair(name@, (url@, range)),
                None => !self@.classes.contains_key(name@),
            }),
    {
        match self.class_index.get(name) {
            Some(place) => Some((place.0.clone(), place.1)),
            None => None,
        }
    }

    /// Returns all locations where `class_name` appears across the workspace.
    pub fn find_references(&self, class_name: &str) -> (res: Vec<Location>)
        requires
            self.wf(),
        ensures
            location_views(res@) == self@.references_to(class_name@),
    {
        match self.references_index.get(class_name) {
            Some(list) => copy_locations(list),
            None => {
                let none: Vec<Location> = Vec::new();
                assert(location_views(none@) =~= Seq::<LocationView>::empty());
                none
            },
        }
    }
}

/// What each source of a list is: a URL and a text.
pub open spec fn source_views(sources: Seq<(String, String)>) -> Seq<(Seq<char>, Seq<char>)> {
    sources.map_values(|s: (String, String)| (s.0@, s.1@))
}

/// Taking a file in makes at most one more class known, namely the one that the file
/// defines, and forgets none.
pub proof fn update_adds_the_defined_class(w: WorkspaceView, url: Seq<char>, file: FileView)
    requires
        w.wf(),
    ensures
        w.updated(url, file).classes.dom() == (match file.definition() {
            Some((name, _)) => w.classes.dom().insert(name),
            None => w.classes.dom(),
        }),
        w.classes.dom().len() <= w.updated(url, file).classes.dom().len()
            <= w.classes.dom().len() + 1,
{
}

/// A scan forgets no class, and makes at most one more known for each source.
pub proof fn scan_counts_new_classes(
    w: WorkspaceView,
    language: tree_sitter::Language,
    sources: Seq<(Seq<char>, Seq<char>)>,
)
    requires
        w.wf(),
    ensures
        w.scanned(language, sources).wf(),
        w.classes.dom().subset_of(w.scanned(language, sources).classes.dom()),
        w.classes.dom().len() <= w.scanned(language, sources).classes.dom().len()
            <= w.classes.dom().len() + sources.len(),
    decreases sources.len(),
{
    if sources.len() > 0 {
        let last = sources.last();
        let before = w.scanned(language, sources.drop_last());
        scan_counts_new_classes(w, language, sources.drop_last());
        update_keeps_track(before, last.0, file_of(language, last.1));
        update_adds_the_defined_class(before, last.0, file_of(language, last.1));
    }
}

/// Whether one of the sources defines the class `name`.
pub open spec fn is_defined_in(
    language: tree_sitter::Language,
    sources: Seq<(Seq<char>, Seq<char>)>,
    name: Seq<char>,
) -> bool {
    exists|i: int|
        0 <= i < sources.len() && (file_of(
            language,
            (#[trigger] sources[i]).1,
        ).definition() matches Some((defined, _)) && defined == name)
}

/// The classes known after a scan are those known before and those that the sources define.
pub proof fn scan_makes_the_defined_classes_known(
    w: WorkspaceView,
    language: tree_sitter::Language,
    sources: Seq<(Seq<char>, Seq<char>)>,
    name: Seq<char>,
)
    ensures
        w.scanned(language, sources).classes.contains_key(name) <==> w.classes.contains_key(name)
            || is_defined_in(language, sources, name),
    decreases sources.len(),
{
    if sources.len() > 0 {
        let rest = sources.drop_last();
        scan_makes_the_defined_classes_known(w, language, rest, name);
        if is_defined_in(language, rest, name) {
            let i = choose|i: int|
                0 <= i < rest.len() && (file_of(
                    language,
                    (#[trigger] rest[i]).1,
                ).definition() matches Some((defined, _)) && defined == name);
            assert(sources[i] == rest[i]);
        }
        if is_defined_in(language, sources, name) {
            let i = choose|i: int|
                0 <= i < sources.len() && (file_of(
                    language,
                    (#[trigger] sources[i]).1,
                ).definition() matches Some((defined, _)) && defined == name);
            if i < rest.len() {
                assert(rest[i] == sources[i]);
            }
        }
        assert(sources[sources.len() - 1] == sources.last());
    }
}

/// A scan that starts with nothing known makes as many classes known as the sources define
/// different ones.
pub proof fn first_scan_counts_the_defined_classes(
    language: tree_sitter::Language,
    sources: Seq<(Seq<char>, Seq<char>)>,
)
    ensures
        WorkspaceView::empty().scanned(language, sources).classes.dom() == Set::new(
            |name: Seq<char>| is_defined_in(language, sources, name),
        ),
{
    let w = WorkspaceView::empty();
    let known = w.scanned(language, sources).classes.dom();
    let defined = Set::new(|name: Seq<char>| is_defined_in(language, sources, name));
    assert forall|name: Seq<char>| known.contains(name) <==> defined.contains(name) by {
        scan_makes_the_defined_classes_known(w, language, sources, name);
    }
    assert(known =~= defined);
}

/// To scan the same sources again makes no class known.
pub proof fn second_scan_counts_no_class(
    w: WorkspaceView,
    language: tree_sitter::Language,
    sources: Seq<(Seq<char>, Seq<char>)>,
)
    ensures
        w.scanned(language, sources).scanned(language, sources).classes.dom() == w.scanned(
            language,
            sources,
        ).classes.dom(),
        w.scanned(language, sources).scanned(language, sources).classes.dom().len() - w.scanned(
            language,
            sources,
        ).classes.dom().len() == 0,
{
    let once = w.scanned(language, sources);
    let twice = once.scanned(language, sources);
    assert forall|name: Seq<char>| twice.classes.dom().contains(
        name,
    ) <==> once.classes.dom().contains(name) by {
        scan_makes_the_defined_classes_known(w, language, sources, name);
        scan_makes_the_defined_classes_known(once, language, sources, name);
    }
    assert(twice.classes.dom() =~= once.classes.dom());
}

/// To scan one list of sources and then another is to scan both in a row.
pub proof fn scans_run_on(
    w: WorkspaceView,
    language: tree_sitter::Language,
    first: Seq<(Seq<char>, Seq<char>)>,
    second: Seq<(Seq<char>, Seq<char>)>,
)
    ensures
        w.scanned(language, first).scanned(language, second) == w.scanned(
            language,
            first + second,
        ),
    decreases second.len(),
{
    if second.len() == 0 {
        assert(first + second =~= first);
    } else {
        scans_run_on(w, language, first, second.drop_last());
        assert((first + second).drop_last() =~= first + second.drop_last());
        assert((first + second).last() == second.last());
    }
}

/// Once a file has been taken in, the class that it defines is found where it defines it;
/// every other class is found where it was.
pub proof fn definitions_are_found_again(
    w: WorkspaceView,
    url: Seq<char>,
    file: FileView,
    name: Seq<char>,
)
    ensures
        (match file.definition() {
            Some((defined, range)) => if name == defined {
                w.updated(url, file).classes.contains_pair(name, (url, range))
            } else {
                &&& w.updated(url, file).classes.contains_key(name) <==> w.classes.contains_key(
                    name,
                )
                &&& w.updated(url, file).classes[name] == w.classes[name]
            },
            None => w.updated(url, file).classes == w.classes,
        }),
{
}

/// Once a file has been taken in, what is known of the class that it defines is what the
/// file says of it, where it says anything; every other class is what it was.
pub proof fn infos_are_found_again(
    w: WorkspaceView,
    url: Seq<char>,
    file: FileView,
    name: Seq<char>,
)
    ensures
        (match (file.definition(), file.info()) {
            (Some((defined, _)), Some(info)) => if name == defined {
                w.updated(url, file).infos.contains_pair(name, info)
            } else {
                &&& w.updated(url, file).infos.contains_key(name) <==> w.infos.contains_key(name)
                &&& w.updated(url, file).infos[name] == w.infos[name]
            },
            _ => w.updated(url, file).infos == w.infos,
        }),
{
}

/// What an update leaves of the places of one class: those outside the file, and behind them
/// those of the file as it is now.
pub proof fn update_gives_these_places(
    w: WorkspaceView,
    url: Seq<char>,
    file: FileView,
    name: Seq<char>,
)
    ensures
        w.updated(url, file).references_to(name) == outside_file(w.references_to(name), url)
            + located(url, file.places(name)),
{
    if !w.updated(url, file).references.contains_key(name) {
        listed_classes_are_named(file.nodes, file.src, name);
        reveal(Seq::filter);
        assert(outside_file(w.references_to(name), url) =~= Seq::<LocationView>::empty());
        assert(located(url, file.places(name)) =~= Seq::<LocationView>::empty());
    }
}

proof fn lemma_in_file(list: Seq<LocationView>, url: Seq<char>, other: Seq<char>)
    ensures
        in_file(outside_file(list, url), url) == Seq::<LocationView>::empty(),
        other != url ==> in_file(outside_file(list, url), other) == in_file(list, other),
    decreases list.len(),
{
    reveal(Seq::filter);
    if list.len() > 0 {
        let rest = list.drop_last();
        lemma_in_file(rest, url, other);
        if list.last().uri != url {
            let out = outside_file(list, url);
            assert(out.drop_last() =~= outside_file(rest, url));
            assert(out.last() == list.last());
        }
    }
}

proof fn lemma_located(url: Seq<char>, ranges: Seq<Range>, other: Seq<char>)
    ensures
        in_file(located(url, ranges), other) == if other == url {
            located(url, ranges)
        } else {
            Seq::empty()
        },
        outside_file(located(url, ranges), other) == if other == url {
            Seq::empty()
        } else {
            located(url, ranges)
        },
    decreases ranges.len(),
{
    reveal(Seq::filter);
    let all = located(url, ranges);
    if ranges.len() > 0 {
        let rest = ranges.drop_last();
        assert(all.drop_last() =~= located(url, rest));
        assert(all.last() == (LocationView { uri: url, range: ranges.last() }));
        assert(all =~= located(url, rest).push(all.last()));
        lemma_located(url, rest, other);
    } else {
        assert(all =~= Seq::<LocationView>::empty());
    }
}

/// Once a file has been taken in, the places in it where a class is named are those of the
/// file as it is now, and the places in every other file are those known before.
pub proof fn update_replaces_the_places_of_a_file(
    w: WorkspaceView,
    url: Seq<char>,
    file: FileView,
    name: Seq<char>,
    other: Seq<char>,
)
    ensures
        in_file(w.updated(url, file).references_to(name), url) == located(url, file.places(name)),
        other != url ==> in_file(w.updated(url, file).references_to(name), other) == in_file(
            w.references_to(name),
            other,
        ),
{
    let kept = outside_file(w.references_to(name), url);
    let new = located(url, file.places(name));
    update_gives_these_places(w, url, file, name);
    lemma_in_file(w.references_to(name), url, other);
    lemma_located(url, file.places(name), url);
    lemma_located(url, file.places(name), other);
    Seq::filter_distributes_over_add(kept, new, |l: LocationView| l.uri == url);
    Seq::filter_distributes_over_add(kept, new, |l: LocationView| l.uri == other);
    assert(Seq::<LocationView>::empty() + new =~= new);
    assert(in_file(kept, other) + Seq::<LocationView>::empty() =~= in_file(kept, other));
}

/// In a workspace of which nothing was known, the places where a class is named are those
/// of the one file taken in.
pub proof fn first_file_gives_all_places(url: Seq<char>, file: FileView, name: Seq<char>)
    ensures
        WorkspaceView::empty().updated(url, file).references_to(name) == located(
            url,
            file.places(name),
        ),
{
    reveal(Seq::filter);
    update_gives_these_places(WorkspaceView::empty(), url, file, name);
    assert(Seq::<LocationView>::empty() + located(url, file.places(name)) =~= located(
        url,
        file.places(name),
    ));
}

/// Of two versions of a file taken in one after the other, the places and the lists of
/// classes are those of the second alone.
pub proof fn the_last_version_counts(
    w: WorkspaceView,
    url: Seq<char>,
    first: FileView,
    second: FileView,
    name: Seq<char>,
)
    ensures
        w.updated(url, first).updated(url, second).references_to(name) == w.updated(
            url,
            second,
        ).references_to(name),
        w.updated(url, first).updated(url, second).files == w.updated(url, second).files,
{
    let once = w.updated(url, first);
    let kept = outside_file(w.references_to(name), url);
    let new = located(url, first.places(name));
    update_gives_these_places(w, url, first, name);
    update_gives_these_places(w, url, second, name);
    update_gives_these_places(once, url, second, name);
    lemma_outside(w.references_to(name), url);
    lemma_located(url, first.places(name), url);
    Seq::filter_distributes_over_add(kept, new, |l: LocationView| l.uri != url);
    assert(kept + Seq::<LocationView>::empty() =~= kept);
    assert(once.updated(url, second).files =~= w.updated(url, second).files);
}

/// To take in the same version of a file once more changes nothing.
pub proof fn update_is_idempotent(w: WorkspaceView, url: Seq<char>, file: FileView)
    ensures
        w.updated(url, file).updated(url, file) == w.updated(url, file),
{
    let once = w.updated(url, file);
    let twice = once.updated(url, file);
    assert(twice.classes =~= once.classes);
    assert(twice.infos =~= once.infos);
    assert forall|name: Seq<char>| #[trigger] twice.references.contains_key(
        name,
    ) implies once.references.contains_key(name) && twice.references[name]
        == once.references[name] by {
        the_last_version_counts(w, url, file, file, name);
        assert(twice.references_to(name) == once.references_to(name));
    }
    assert(twice.references =~= once.references);
    assert(twice.files =~= once.files);
}

/// The order in which two files are taken in makes no difference to which places name a
/// class; nor to where a class is defined, unless both files define it.
pub proof fn order_of_files_matters_little(
    w: WorkspaceView,
    a: Seq<char>,
    file_a: FileView,
    b: Seq<char>,
    file_b: FileView,
    name: Seq<char>,
)
    requires
        a != b,
    ensures
        w.updated(a, file_a).updated(b, file_b).references_to(name).to_multiset() == w.updated(
            b,
            file_b,
        ).updated(a, file_a).references_to(name).to_multiset(),
        w.updated(a, file_a).updated(b, file_b).files == w.updated(b, file_b).updated(
            a,
            file_a,
        ).files,
        (match (file_a.definition(), file_b.definition()) {
            (Some((defined_a, _)), Some((defined_b, _))) => defined_a != defined_b,
            _ => true,
        }) ==> w.updated(a, file_a).updated(b, file_b).classes == w.updated(b, file_b).updated(
            a,
            file_a,
        ).classes && w.updated(a, file_a).updated(b, file_b).infos == w.updated(
            b,
            file_b,
        ).updated(a, file_a).infos,
{
    let ab = w.updated(a, file_a).updated(b, file_b);
    let ba = w.updated(b, file_b).updated(a, file_a);
    let list = w.references_to(name);
    let new_a = located(a, file_a.places(name));
    let new_b = located(b, file_b.places(name));
    update_gives_these_places(w, a, file_a, name);
    update_gives_these_places(w, b, file_b, name);
    update_gives_these_places(w.updated(a, file_a), b, file_b, name);
    update_gives_these_places(w.updated(b, file_b), a, file_a, name);
    lemma_located(a, file_a.places(name), b);
    lemma_located(b, file_b.places(name), a);
    lemma_outside_both(list, a, b);
    Seq::filter_distributes_over_add(
        outside_file(list, a),
        new_a,
        |l: LocationView| l.uri != b,
    );
    Seq::filter_distributes_over_add(
        outside_file(list, b),
        new_b,
        |l: LocationView| l.uri != a,
    );
    let kept = outside_file(outside_file(list, a), b);
    assert(ab.references_to(name) == (kept + new_a) + new_b);
    assert(ba.references_to(name) == (kept + new_b) + new_a);
    vstd::seq_lib::lemma_multiset_commutative(kept + new_a, new_b);
    vstd::seq_lib::lemma_multiset_commutative(kept + new_b, new_a);
    vstd::seq_lib::lemma_multiset_commutative(kept, new_a);
    vstd::seq_lib::lemma_multiset_commutative(kept, new_b);
    assert(ab.references_to(name).to_multiset() =~= ba.references_to(name).to_multiset());
    assert(ab.files =~= ba.files);
    if (match (file_a.definition(), file_b.definition()) {
        (Some((defined_a, _)), Some((defined_b, _))) => defined_a != defined_b,
        _ => true,
    }) {
        assert(ab.classes =~= ba.classes);
        assert(ab.infos =~= ba.infos);
    }
}

proof fn lemma_outside_both(list: Seq<LocationView>, a: Seq<char>, b: Seq<char>)
    ensures
        outside_file(outside_file(list, a), b) == outside_file(outside_file(list, b), a),
    decreases list.len(),
{
    reveal(Seq::filter);
    if list.len() > 0 {
        let rest = list.drop_last();
        lemma_outside_both(rest, a, b);
        assert(outside_file(rest, a).push(list.last()).drop_last() =~= outside_file(rest, a));
        assert(outside_file(rest, b).push(list.last()).drop_last() =~= outside_file(rest, b));
    }
}

} // verus!
