//! What an editor asks of the server: the documents that it has open, and the answers to
//! its requests.

use vstd::prelude::*;
use vstd::utf8::encode_utf8;

use crate::class_info::ClassInfoView;
use crate::diagnostics::{diagnostic_views, syntax_errors_of, Diagnostic};
use crate::grammar::Grammar;
use crate::hover::{hover_shows, HoverInfo};
use crate::index::Index;
use crate::position::{range_contains, Location, LocationView, Position, Range};
use crate::references::{
    class_named_by, listed_classes_are_named, named_places_are_listed, node_range,
};
use crate::src_tree::{
    class_of_token, file_of, ClassAtPos, ClassAtPosView, FileView, MethodSide, SrcTree,
};
use crate::text::same_text;
use crate::workspace::{
    in_file, located, location_views, outside_file, source_views,
    update_replaces_the_places_of_a_file, Workspace, WorkspaceView,
};

verus! {

/// What a [`ClassAtPos`] says, where there is one.
pub open spec fn class_at_view(class_at: Option<ClassAtPos>) -> Option<ClassAtPosView> {
    match class_at {
        Some(c) => Some(c@),
        None => None,
    }
}

/// The class that a request is about: the one found at its position.
pub open spec fn class_sought(class_at: Option<ClassAtPosView>) -> Option<Seq<char>> {
    match class_at {
        Some(ClassAtPosView::Found(name)) => Some(name),
        _ => None,
    }
}

/// Whether a location lies within the definition that `place` tells of.
pub open spec fn is_within(location: LocationView, place: (Seq<char>, Range)) -> bool {
    location.uri == place.0 && place.1.covers(location.range)
}

/// The locations of a list that lie outside a definition.
pub open spec fn outside_definition(list: Seq<LocationView>, place: (Seq<char>, Range)) -> Seq<
    LocationView,
> {
    list.filter(|l: LocationView| !is_within(l, place))
}

/// Where a class is named: everywhere, or, without the declaration, outside its definition.
pub open spec fn references_shown(
    w: WorkspaceView,
    name: Seq<char>,
    include_declaration: bool,
) -> Seq<LocationView> {
    if !include_declaration && w.classes.contains_key(name) {
        outside_definition(w.references_to(name), w.classes[name])
    } else {
        w.references_to(name)
    }
}

/// The answer to a request for references, given what is at the position; none where that
/// is no class.
pub open spec fn references_answer(
    w: WorkspaceView,
    class_at: Option<ClassAtPosView>,
    include_declaration: bool,
) -> Option<Seq<LocationView>> {
    match class_sought(class_at) {
        Some(name) => Some(references_shown(w, name, include_declaration)),
        None => None,
    }
}

/// The answer to a request for a definition, given what is at the position; none where that
/// is no class or no class that is known.
pub open spec fn definition_answer(w: WorkspaceView, class_at: Option<ClassAtPosView>) -> Option<
    LocationView,
> {
    match class_sought(class_at) {
        Some(name) => if w.classes.contains_key(name) {
            Some(LocationView { uri: w.classes[name].0, range: w.classes[name].1 })
        } else {
            None
        },
        None => None,
    }
}

/// What a session holds.
#[verifier::ext_equal]
pub struct SessionView {
    /// The documents that are open, by URL.
    pub documents: Map<Seq<char>, FileView>,
    /// What is known of the workspace.
    pub workspace: WorkspaceView,
}

impl SessionView {
    /// The session once the document at `uri` was opened or has changed.
    pub open spec fn opened(self, uri: Seq<char>, file: FileView) -> SessionView {
        SessionView {
            documents: self.documents.insert(uri, file),
            workspace: self.workspace.updated(uri, file),
        }
    }

    /// The session once the document at `uri` was closed: what is known of it stays.
    pub open spec fn closed(self, uri: Seq<char>) -> SessionView {
        SessionView { documents: self.documents.remove(uri), workspace: self.workspace }
    }

    /// What is at a position; none where the document is not open.
    pub open spec fn class_at(self, uri: Seq<char>, pos: Position) -> Option<ClassAtPosView> {
        if self.documents.contains_key(uri) {
            Some(self.documents[uri].class_at(pos))
        } else {
            None
        }
    }
}

/// What each document of an index is.
pub open spec fn document_views(documents: Map<Seq<char>, SrcTree>) -> Map<Seq<char>, FileView> {
    documents.map_values(|d: SrcTree| d@)
}

/// The state of the server.
pub struct Session {
    documents: Index<SrcTree>,
    workspace: Workspace,
}

impl View for Session {
    type V = SessionView;

    closed spec fn view(&self) -> SessionView {
        SessionView {
            documents: document_views(self.documents@),
            workspace: self.workspace@,
        }
    }
}

impl Workspace {
    /// Returns the locations of `list` that lie outside the definition of `class_name`, or
    /// all where the class is not known.
    fn drop_declaration(&self, class_name: &str, list: Vec<Location>) -> (res: Vec<Location>)
        requires
            self.wf(),
        ensures
            location_views(res@) == if self@.classes.contains_key(class_name@) {
                outside_definition(location_views(list@), self@.classes[class_name@])
            } else {
                location_views(list@)
            },
    {
        let (def_url, def_range) = match self.find_class(class_name) {
            Some(place) => place,
            None => {
                return list;
            },
        };
        let ghost place = (def_url@, def_range);
        let ghost all = location_views(list@);
        let mut res: Vec<Location> = Vec::new();
        let mut i: usize = 0;
        proof {
            reveal(Seq::filter);
            assert(location_views(res@) =~= outside_definition(all.take(0), place));
        }
        while i < list.len()
            invariant
                i <= list@.len(),
                all == location_views(list@),
                place == (def_url@, def_range),
                location_views(res@) == outside_definition(all.take(i as int), place),
            decreases list@.len() - i,
        {
            let ghost before = res@;
            proof {
                reveal(Seq::filter);
                assert(all.take(i + 1).drop_last() =~= all.take(i as int));
                assert(all.take(i + 1).last() == list@[i as int]@);
            }
            if !(same_text(list[i].uri.as_str(), def_url.as_str()) && range_contains(
                &def_range,
                &list[i].range,
            )) {
                let location = list[i].copied();
                res.push(location);
                assert(location_views(res@) =~= location_views(before).push(location@));
            }
            i += 1;
        }
        assert(all.take(list@.len() as int) =~= all);
        res
    }

    /// Answers a request for references, given what is at its position.
    pub fn references_for(&self, class_at: &Option<ClassAtPos>, include_declaration: bool) -> (res:
        Option<Vec<Location>>)
        requires
            self.wf(),
        ensures
            (match res {
                Some(list) => references_answer(
                    self@,
                    class_at_view(*class_at),
                    include_declaration,
                ) == Some(location_views(list@)),
                None => references_answer(
                    self@,
                    class_at_view(*class_at),
                    include_declaration,
                ) is None,
            }),
    {
        let class_name = match class_at {
            Some(ClassAtPos::Found(name)) => name.as_str(),
            _ => {
                return None;
            },
        };
        let result = self.find_references(class_name);
        if include_declaration {
            Some(result)
        } else {
            Some(self.drop_declaration(class_name, result))
        }
    }

    /// Answers a request for a definition, given what is at its position.
    pub fn definition_for(&self, class_at: &Option<ClassAtPos>) -> (res: Option<Location>)
        requires
            self.wf(),
        ensures
            (match res {
                Some(location) => definition_answer(self@, class_at_view(*class_at)) == Some(
                    location@,
                ),
                None => definition_answer(self@, class_at_view(*class_at)) is None,
            }),
    {
        let class_name = match class_at {
            Some(ClassAtPos::Found(name)) => name.as_str(),
            _ => {
                return None;
            },
        };
        match self.find_class(class_name) {
            Some((uri, range)) => Some(Location { uri, range }),
            None => None,
        }
    }
}

impl Session {
    /// Whether the indexes are whole.
    pub closed spec fn wf(self) -> bool {
        self.documents.wf() && self.workspace.wf()
    }

    /// What is known of the workspace is finite, and the lists of classes are right.
    pub proof fn view_is_wf(&self)
        requires
            self.wf(),
        ensures
            self@.workspace.wf(),
            self@.documents.dom().finite(),
    {
        self.workspace.view_is_wf();
        self.documents.keys_are_the_domain();
        assert(self@.documents.dom() =~= self.documents@.dom());
    }

    /// Makes a session without documents, in a workspace of which nothing is known.
    pub fn new() -> (res: Session)
        ensures
            res.wf(),
            res@.documents == Map::<Seq<char>, FileView>::empty(),
            res@.workspace == WorkspaceView::empty(),
    {
        let res = Session { documents: Index::new(), workspace: Workspace::new() };
        assert(res@.documents =~= Map::<Seq<char>, FileView>::empty());
        res
    }

    /// Returns what is known of the workspace.
    pub fn workspace(&self) -> (res: &Workspace)
        requires
            self.wf(),
        ensures
            res.wf(),
            res@ == self@.workspace,
    {
        &self.workspace
    }

    /// Takes in a document that was opened or has changed, and returns what to report of it.
    pub fn open(&mut self, uri: String, src_tree: SrcTree) -> (res: Vec<Diagnostic>)
        requires
            old(self).wf(),
        ensures
            final(self).wf(),
            final(self)@ == old(self)@.opened(uri@, src_tree@),
            diagnostic_views(res@) == syntax_errors_of(src_tree@.nodes, src_tree@.src),
    {
        self.workspace.update(uri.clone(), &src_tree);
        let diagnostics = src_tree.syntax_errors();
        self.documents.insert(uri, src_tree);
        assert(self@ =~= old(self)@.opened(uri@, src_tree@));
        diagnostics
    }

    /// Parses a document that was opened or has changed, takes it in, and returns what to
    /// report of it.
    pub fn on_change(&mut self, grammar: &Grammar, uri: String, text: String) -> (res: Vec<
        Diagnostic,
    >)
        requires
            old(self).wf(),
            encode_utf8(text@).len() <= u32::MAX,
        ensures
            final(self).wf(),
            final(self)@ == old(self)@.opened(uri@, file_of(grammar.language(), text@)),
            diagnostic_views(res@) == syntax_errors_of(
                file_of(grammar.language(), text@).nodes,
                text@,
            ),
    {
        let src_tree = SrcTree::new(text, grammar);
        self.open(uri, src_tree)
    }

    /// Lets go of a document.
    pub fn close(&mut self, uri: &str)
        requires
            old(self).wf(),
        ensures
            final(self).wf(),
            final(self)@ == old(self)@.closed(uri@),
    {
        let _ = self.documents.remove(uri);
        assert(self@ =~= old(self)@.closed(uri@));
    }

    /// Takes in the source files found under the workspace's root, each given by its URL and
    /// its text. Returns the number of classes that became known.
    pub fn scan(&mut self, grammar: &Grammar, sources: Vec<(String, String)>) -> (res: usize)
        requires
            old(self).wf(),
            forall|i: int|
                0 <= i < sources@.len() ==> encode_utf8((#[trigger] sources@[i]).1@).len()
                    <= u32::MAX,
        ensures
            final(self).wf(),
            final(self)@.documents == old(self)@.documents,
            final(self)@.workspace == old(self)@.workspace.scanned(
                grammar.language(),
                source_views(sources@),
            ),
            res == final(self)@.workspace.classes.dom().len() - old(
                self,
            )@.workspace.classes.dom().len(),
    {
        self.workspace.scan(grammar, sources)
    }

    /// Resolves the class name at the cursor position. Returns how many documents are open,
    /// and what is at the position, or `None` where the document is not open.
    pub fn resolve_class_at(&self, uri: &str, pos: &Position) -> (res: (usize, Option<ClassAtPos>))
        requires
            self.wf(),
        ensures
            res.0 == self@.documents.dom().len(),
            class_at_view(res.1) == self@.class_at(uri@, *pos),
    {
        let doc_count = self.documents.len();
        assert(self@.documents.dom() =~= self.documents@.dom());
        let result = match self.documents.get(uri) {
            Some(src_tree) => Some(src_tree.class_at_position(pos)),
            None => None,
        };
        (doc_count, result)
    }

    /// Returns where the class at a position is named.
    pub fn references(&self, uri: &str, pos: &Position, include_declaration: bool) -> (res: Option<
        Vec<Location>,
    >)
        requires
            self.wf(),
        ensures
            (match res {
                Some(list) => references_answer(
                    self@.workspace,
                    self@.class_at(uri@, *pos),
                    include_declaration,
                ) == Some(location_views(list@)),
                None => references_answer(
                    self@.workspace,
                    self@.class_at(uri@, *pos),
                    include_declaration,
                ) is None,
            }),
    {
        let (_, class_at) = self.resolve_class_at(uri, pos);
        self.workspace.references_for(&class_at, include_declaration)
    }

    /// Returns where the class at a position is defined.
    pub fn goto_definition(&self, uri: &str, pos: &Position) -> (res: Option<Location>)
        requires
            self.wf(),
        ensures
            (match res {
                Some(location) => definition_answer(
                    self@.workspace,
                    self@.class_at(uri@, *pos),
                ) == Some(location@),
                None => definition_answer(self@.workspace, self@.class_at(uri@, *pos)) is None,
            }),
    {
        let (_, class_at) = self.resolve_class_at(uri, pos);
        self.workspace.definition_for(&class_at)
    }

    /// Returns what to show of the class or the variable at a position.
    pub fn hover(&self, uri: &str, pos: &Position) -> (res: Option<HoverInfo>)
        requires
            self.wf(),
        ensures
            if self@.documents.contains_key(uri@) {
                hover_shows(
                    res,
                    self@.workspace,
                    self@.documents[uri@].class_at(*pos),
                    self@.documents[uri@].side_at(*pos),
                    self@.documents[uri@].is_local_at(*pos),
                )
            } else {
                res is None
            },
    {
        match self.documents.get(uri) {
            Some(src_tree) => {
                let class_at = src_tree.class_at_position(pos);
                let side = src_tree.method_side_at_position(pos);
                let is_local = src_tree.is_local_variable_at_position(pos);
                self.workspace.hover_for(&class_at, side, is_local)
            },
            None => None,
        }
    }
}

/// A document that is not open gets no answer.
pub proof fn closed_documents_get_no_answer(
    s: SessionView,
    uri: Seq<char>,
    pos: Position,
    include_declaration: bool,
)
    ensures
        references_answer(
            s.closed(uri).workspace,
            s.closed(uri).class_at(uri, pos),
            include_declaration,
        ) is None,
        definition_answer(s.closed(uri).workspace, s.closed(uri).class_at(uri, pos)) is None,
{
}

/// To close a document forgets nothing that is known of the workspace, and leaves the other
/// documents open.
pub proof fn closing_forgets_nothing(s: SessionView, uri: Seq<char>, other: Seq<char>)
    ensures
        s.closed(uri).workspace == s.workspace,
        !s.closed(uri).documents.contains_key(uri),
        other != uri ==> (s.closed(uri).documents.contains_key(other)
            <==> s.documents.contains_key(other)) && s.closed(uri).documents[other]
            == s.documents[other],
{
}

/// Once a document that defines a class has been opened, going to the definition of that
/// class leads into it, from whatever place that names the class.
pub proof fn definitions_are_gone_to(
    s: SessionView,
    uri: Seq<char>,
    file: FileView,
    name: Seq<char>,
    range: Range,
    class_at: Option<ClassAtPosView>,
)
    requires
        file.definition() == Some((name, range)),
        class_sought(class_at) == Some(name),
    ensures
        definition_answer(s.opened(uri, file).workspace, class_at) == Some(
            (LocationView { uri, range }),
        ),
{
}

/// Once a document that defines a class and tells what it is has been opened, hovering over
/// the name of the class shows what it tells.
pub proof fn classes_are_hovered_over(
    s: SessionView,
    uri: Seq<char>,
    file: FileView,
    name: Seq<char>,
    range: Range,
    info: ClassInfoView,
    side: Option<MethodSide>,
    hover: Option<HoverInfo>,
)
    requires
        file.definition() == Some((name, range)),
        file.info() == Some(info),
        hover_shows(hover, s.opened(uri, file).workspace, ClassAtPosView::Found(name), side, false),
    ensures
        hover matches Some(HoverInfo::Class(shown)) && shown@ == info,
{
}

/// Once a document has been opened, the answer to a request for references, with the
/// declaration, gives every place in it where the class is named.
pub proof fn opened_places_are_shown(
    s: SessionView,
    uri: Seq<char>,
    file: FileView,
    name: Seq<char>,
    r: Range,
)
    requires
        file.places(name).contains(r),
    ensures
        references_shown(s.opened(uri, file).workspace, name, true).contains(
            LocationView { uri, range: r },
        ),
{
    let k = choose|k: int| 0 <= k < file.places(name).len() && file.places(name)[k] == r;
    let kept = outside_file(s.workspace.references_to(name), uri);
    let new = located(uri, file.places(name));
    let list = kept + new;
    listed_classes_are_named(file.nodes, file.src, name);
    assert(new[k] == (LocationView { uri, range: r }));
    assert(list[kept.len() + k] == new[k]);
}

/// A request for references made from a place that names a class is answered, with the
/// declaration, by a list that has that place in it.
pub proof fn the_place_asked_about_is_shown(
    s: SessionView,
    uri: Seq<char>,
    file: FileView,
    token: int,
    name: Seq<char>,
)
    requires
        0 <= token < file.nodes.len(),
        class_of_token(file.nodes, file.src, Some(token)) == ClassAtPosView::Found(name),
    ensures
        references_shown(s.opened(uri, file).workspace, name, true).contains(
            LocationView { uri, range: node_range(file.nodes[token]) },
        ),
{
    assert(class_named_by(file.src, file.nodes[token]) == Some(name));
    named_places_are_listed(file.nodes, file.src, name, node_range(file.nodes[token]));
    opened_places_are_shown(s, uri, file, name, node_range(file.nodes[token]));
}

impl SessionView {
    /// Whether the places known of every open document are those of the document as it is.
    pub open spec fn is_current(self) -> bool {
        forall|uri: Seq<char>, name: Seq<char>| #[trigger]
            self.documents.contains_key(uri) ==> #[trigger] in_file(
                self.workspace.references_to(name),
                uri,
            ) == located(uri, self.documents[uri].places(name))
    }
}

/// Documents that are opened, changed and closed are always known as they are.
pub proof fn open_documents_are_current(s: SessionView, uri: Seq<char>, file: FileView)
    requires
        s.is_current(),
    ensures
        s.opened(uri, file).is_current(),
        s.closed(uri).is_current(),
{
    let after = s.opened(uri, file);
    assert forall|other: Seq<char>, name: Seq<char>| #[trigger]
        after.documents.contains_key(other) implies #[trigger] in_file(
        after.workspace.references_to(name),
        other,
    ) == located(other, after.documents[other].places(name)) by {
        update_replaces_the_places_of_a_file(s.workspace, uri, file, name, other);
        if other != uri {
            assert(s.documents.contains_key(other));
            assert(in_file(s.workspace.references_to(name), other) == located(
                other,
                s.documents[other].places(name),
            ));
        }
    }
    assert forall|other: Seq<char>, name: Seq<char>| #[trigger]
        s.closed(uri).documents.contains_key(other) implies #[trigger] in_file(
        s.closed(uri).workspace.references_to(name),
        other,
    ) == located(other, s.closed(uri).documents[other].places(name)) by {
        assert(s.documents.contains_key(other));
        assert(in_file(s.workspace.references_to(name), other) == located(
            other,
            s.documents[other].places(name),
        ));
    }
}

/// Without the declaration, the answer to a request for references leaves out exactly the
/// places within the definition of the class.
pub proof fn declarations_are_left_out(w: WorkspaceView, name: Seq<char>, l: LocationView)
    ensures
        references_shown(w, name, false).contains(l) <==> references_shown(w, name, true).contains(
            l,
        ) && !(w.classes.contains_key(name) && is_within(l, w.classes[name])),
        references_shown(w, name, false).len() <= references_shown(w, name, true).len(),
{
    if w.classes.contains_key(name) {
        lemma_outside_definition(w.references_to(name), w.classes[name], l);
    }
}

proof fn lemma_outside_definition(
    list: Seq<LocationView>,
    place: (Seq<char>, Range),
    l: LocationView,
)
    ensures
        outside_definition(list, place).contains(l) <==> list.contains(l) && !is_within(l, place),
        outside_definition(list, place).len() <= list.len(),
    decreases list.len(),
{
    reveal(Seq::filter);
    if list.len() > 0 {
        let rest = list.drop_last();
        let before = outside_definition(rest, place);
        let out = outside_definition(list, place);
        lemma_outside_definition(rest, place, l);
        if rest.contains(l) {
            let k = choose|k: int| 0 <= k < rest.len() && rest[k] == l;
            assert(list[k] == l);
        }
        assert(list[list.len() - 1] == list.last());
        if list.contains(l) && l != list.last() {
            let k = choose|k: int| 0 <= k < list.len() && list[k] == l;
            assert(rest[k] == l);
        }
        if !is_within(list.last(), place) {
            assert(out[before.len() as int] == list.last());
            if before.contains(l) {
                let k = choose|k: int| 0 <= k < before.len() && before[k] == l;
                assert(out[k] == l);
            }
            if out.contains(l) && l != list.last() {
                let k = choose|k: int| 0 <= k < out.len() && out[k] == l;
                assert(before[k] == l);
            }
        }
    }
}

} // verus!
