//! Places in documents, in the editor's terms.

use vstd::prelude::*;

verus! {

/// A zero-based line and the offset in it.
#[derive(Clone, Copy, Debug, PartialEq, Eq, Structural)]
pub struct Position {
    pub line: u32,
    pub character: u32,
}

impl Position {
    /// Whether this position comes before `other` in the document, or is the same.
    pub open spec fn le(self, other: Position) -> bool {
        self.line < other.line || (self.line == other.line && self.character
            <= other.character)
    }
}

/// A stretch of a document from `start` up to `end`.
#[derive(Clone, Copy, Debug, PartialEq, Eq, Structural)]
pub struct Range {
    pub start: Position,
    pub end: Position,
}

impl Range {
    /// Whether `inner` lies within this range.
    pub open spec fn covers(self, inner: Range) -> bool {
        self.start.le(inner.start) && inner.end.le(self.end)
    }

    /// Whether the position lies in this range or at one of its ends.
    pub open spec fn touches(self, pos: Position) -> bool {
        self.start.le(pos) && pos.le(self.end)
    }
}

/// A stretch of the document at `uri`.
#[derive(Clone, Debug, PartialEq, Eq)]
pub struct Location {
    pub uri: String,
    pub range: Range,
}

/// What a [`Location`] says.
pub struct LocationView {
    pub uri: Seq<char>,
    pub range: Range,
}

impl View for Location {
    type V = LocationView;

    open spec fn view(&self) -> LocationView {
        LocationView { uri: self.uri@, range: self.range }
    }
}

impl Location {
    /// Returns a location that says the same.
    pub fn copied(&self) -> (res: Location)
        ensures
            res@ == self@,
    {
        Location { uri: self.uri.clone(), range: self.range }
    }
}

/// Tells whether `inner` lies within `outer`.
pub fn range_contains(outer: &Range, inner: &Range) -> (res: bool)
    ensures
        res == outer.covers(*inner),
{
    let start_ok = outer.start.line < inner.start.line || (outer.start.line == inner.start.line
        && outer.start.character <= inner.start.character);
    let end_ok = outer.end.line > inner.end.line || (outer.end.line == inner.end.line
        && outer.end.character >= inner.end.character);
    start_ok && end_ok
}

/// A range lies within itself.
pub proof fn containment_is_reflexive(a: Range)
    ensures
        a.covers(a),
{
}

/// What lies within a range that lies within another lies within the other.
pub proof fn containment_is_transitive(a: Range, b: Range, c: Range)
    requires
        a.covers(b),
        b.covers(c),
    ensures
        a.covers(c),
{
}

/// Two ranges that lie within each other are the same.
pub proof fn containment_is_antisymmetric(a: Range, b: Range)
    requires
        a.covers(b),
        b.covers(a),
    ensures
        a == b,
{
}

} // verus!
