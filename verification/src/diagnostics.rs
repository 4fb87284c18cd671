//! Syntax errors as diagnostics.

use vstd::prelude::*;
use vstd::string::*;

use crate::class_info::{node_text, text_of};
use crate::position::Range;
use crate::references::{node_range, node_to_range};
use crate::syntax::{subtree_end, subtrees_are_nested, NodeView, SyntaxTree};
use crate::text::{shorten, shortened, trim_text, trimmed};

verus! {

/// How grave a diagnostic is.
#[derive(Clone, Copy, Debug, PartialEq, Eq, Structural)]
pub enum DiagnosticSeverity {
    Error,
    Warning,
    Information,
    Hint,
}

/// A finding about a stretch of a document.
#[derive(Clone, Debug, PartialEq, Eq)]
pub struct Diagnostic {
    pub range: Range,
    pub severity: Option<DiagnosticSeverity>,
    pub source: Option<String>,
    pub message: String,
}

/// What a [`Diagnostic`] says.
pub struct DiagnosticView {
    pub range: Range,
    pub severity: Option<DiagnosticSeverity>,
    pub source: Option<Seq<char>>,
    pub message: Seq<char>,
}

impl View for Diagnostic {
    type V = DiagnosticView;

    open spec fn view(&self) -> DiagnosticView {
        DiagnosticView {
            range: self.range,
            severity: self.severity,
            source: match self.source {
                Some(name) => Some(name@),
                None => None,
            },
            message: self.message@,
        }
    }
}

/// What each diagnostic of a list says.
pub open spec fn diagnostic_views(list: Seq<Diagnostic>) -> Seq<DiagnosticView> {
    list.map_values(|d: Diagnostic| d@)
}

/// The name under which this server reports its findings.
pub open spec fn source_name() -> Seq<char> {
    "tonel-smalltalk"@
}

/// An error about a stretch of a document.
pub open spec fn error_diagnostic(range: Range, message: Seq<char>) -> DiagnosticView {
    DiagnosticView {
        range,
        severity: Some(DiagnosticSeverity::Error),
        source: Some(source_name()),
        message,
    }
}

/// Makes an error about a stretch of a document.
fn make_error_diagnostic(range: Range, message: String) -> (res: Diagnostic)
    ensures
        res@ == error_diagnostic(range, message@),
{
    Diagnostic {
        range,
        severity: Some(DiagnosticSeverity::Error),
        source: Some("tonel-smalltalk".to_owned()),
        message,
    }
}

/// What is said of an absent token.
pub open spec fn missing_message(kind: Seq<char>) -> Seq<char> {
    "Missing '"@ + kind + "'"@
}

/// How many characters of unexpected text are shown.
pub const SHOWN_CHARS: usize = 50;

/// What is said of unexpected text: the text without white space at its ends, cut off with
/// dots where it is long; text that is not readable counts as empty.
pub open spec fn unexpected_message(text: Option<Seq<char>>) -> Seq<char> {
    let raw = match text {
        Some(t) => trimmed(t),
        None => trimmed(Seq::empty()),
    };
    if raw.len() == 0 {
        "Syntax error"@
    } else {
        "Syntax error: unexpected '"@ + shortened(raw, SHOWN_CHARS as int) + (if raw.len()
            > SHOWN_CHARS {
            "..."@
        } else {
            ""@
        }) + "'"@
    }
}

/// Says that a token of `kind` is absent.
fn describe_missing(kind: &str) -> (res: String)
    ensures
        res@ == missing_message(kind@),
{
    "Missing '".to_owned().concat(kind).concat("'")
}

/// Says that there is unexpected text.
fn describe_unexpected(text: Option<&str>) -> (res: String)
    ensures
        res@ == unexpected_message(
            match text {
                Some(t) => Some(t@),
                None => None,
            },
        ),
{
    let raw = match text {
        Some(t) => trim_text(t),
        None => {
            proof {
                reveal_strlit("");
                assert(""@ =~= Seq::<char>::empty());
            }
            trim_text("")
        },
    };
    if raw.is_empty() {
        return "Syntax error".to_owned();
    }
    let suffix = if raw.unicode_len() > SHOWN_CHARS {
        "..."
    } else {
        ""
    };
    "Syntax error: unexpected '".to_owned().concat(shorten(raw, SHOWN_CHARS)).concat(suffix).concat(
        "'",
    )
}

/// The errors from the node `i` on: one for each absent token, and one for each error node
/// that does not lie in another.
pub open spec fn errors_from(nodes: Seq<NodeView>, src: Seq<char>, i: int) -> Seq<DiagnosticView>
    decreases nodes.len() - i,
{
    if i >= nodes.len() {
        Seq::empty()
    } else if nodes[i].missing {
        seq![error_diagnostic(node_range(nodes[i]), missing_message(nodes[i].kind))] + errors_from(
            nodes,
            src,
            i + 1,
        )
    } else if nodes[i].error {
        let rest = if i < subtree_end(nodes, i) <= nodes.len() {
            errors_from(nodes, src, subtree_end(nodes, i))
        } else {
            Seq::empty()
        };
        seq![
            error_diagnostic(
                node_range(nodes[i]),
                unexpected_message(node_text(src, nodes[i])),
            ),
        ] + rest
    } else {
        errors_from(nodes, src, i + 1)
    }
}

/// The syntax errors of a file; none where its root holds no error.
pub open spec fn syntax_errors_of(nodes: Seq<NodeView>, src: Seq<char>) -> Seq<DiagnosticView> {
    if nodes[0].has_error {
        errors_from(nodes, src, 0)
    } else {
        Seq::empty()
    }
}

/// Returns all syntax errors of a file.
pub fn read_syntax_errors(tree: &SyntaxTree, src: &str) -> (res: Vec<Diagnostic>)
    ensures
        diagnostic_views(res@) == syntax_errors_of(tree@, src@),
{
    let mut res: Vec<Diagnostic> = Vec::new();
    assert(diagnostic_views(res@) =~= Seq::<DiagnosticView>::empty());
    let len = tree.len();
    if !tree.node(0).has_error {
        return res;
    }
    let mut i: usize = 0;
    while i < len
        invariant
            len == tree@.len(),
            i <= len,
            errors_from(tree@, src@, 0) =~= diagnostic_views(res@) + errors_from(
                tree@,
                src@,
                i as int,
            ),
        decreases len - i,
    {
        let ghost before = res@;
        let node = tree.node(i);
        if node.missing {
            let found = make_error_diagnostic(
                node_to_range(node),
                describe_missing(node.kind.as_str()),
            );
            res.push(found);
            assert(diagnostic_views(res@) =~= diagnostic_views(before).push(found@));
            i += 1;
        } else if node.error {
            let found = make_error_diagnostic(
                node_to_range(node),
                describe_unexpected(text_of(tree, src, i)),
            );
            res.push(found);
            assert(diagnostic_views(res@) =~= diagnostic_views(before).push(found@));
            // Skip children of ERROR nodes to avoid cascading reports.
            i = tree.end_of(i);
        } else {
            i += 1;
        }
    }
    res
}

/// Whether a node is reported: an absent token or an error, not below an error.
pub open spec fn is_reported(nodes: Seq<NodeView>, i: int) -> bool {
    &&& 0 <= i < nodes.len()
    &&& nodes[i].missing || nodes[i].error
    &&& is_exposed(nodes, i)
}

/// Whether no node before `i` is an error that `i` lies below.
pub open spec fn is_exposed(nodes: Seq<NodeView>, i: int) -> bool {
    forall|j: int|
        0 <= j < i && (#[trigger] nodes[j]).error && !nodes[j].missing ==> subtree_end(nodes, j)
            <= i
}

/// What is reported of a node.
pub open spec fn finding(src: Seq<char>, node: NodeView) -> DiagnosticView {
    error_diagnostic(
        node_range(node),
        if node.missing {
            missing_message(node.kind)
        } else {
            unexpected_message(node_text(src, node))
        },
    )
}

proof fn lemma_errors_from(nodes: Seq<NodeView>, src: Seq<char>, from: int, d: DiagnosticView)
    requires
        0 <= from,
        is_exposed(nodes, from),
    ensures
        errors_from(nodes, src, from).contains(d) <==> exists|i: int|
            from <= i && #[trigger] is_reported(nodes, i) && d == finding(src, nodes[i]),
    decreases nodes.len() - from,
{
    let list = errors_from(nodes, src, from);
    if from < nodes.len() {
        if nodes[from].error && !nodes[from].missing {
            let end = subtree_end(nodes, from);
            subtrees_are_nested(nodes, from, from);
            assert forall|j: int| 0 <= j < end && (#[trigger] nodes[j]).error
                && !nodes[j].missing implies subtree_end(nodes, j) <= end by {
                if j > from {
                    subtrees_are_nested(nodes, from, j);
                }
            }
            lemma_errors_from(nodes, src, end, d);
            assert forall|i: int| from < i < end implies !#[trigger] is_reported(nodes, i) by {
                if is_reported(nodes, i) {
                    assert(nodes[from].error);
                    assert(end <= i);
                }
            }
            lemma_one_more(finding(src, nodes[from]), errors_from(nodes, src, end), d);
            assert(is_reported(nodes, from));
        } else {
            lemma_errors_from(nodes, src, from + 1, d);
            if nodes[from].missing {
                lemma_one_more(finding(src, nodes[from]), errors_from(nodes, src, from + 1), d);
                assert(is_reported(nodes, from));
            } else {
                assert(!is_reported(nodes, from));
            }
        }
    }
}

proof fn lemma_one_more(first: DiagnosticView, rest: Seq<DiagnosticView>, d: DiagnosticView)
    ensures
        (seq![first] + rest).contains(d) <==> d == first || rest.contains(d),
{
    let list = seq![first] + rest;
    assert(list[0] == first);
    if rest.contains(d) {
        let k = choose|k: int| 0 <= k < rest.len() && rest[k] == d;
        assert(list[k + 1] == d);
    }
    if list.contains(d) && d != first {
        let k = choose|k: int| 0 <= k < list.len() && list[k] == d;
        assert(rest[k - 1] == d);
    }
}

/// In a file whose root holds an error, every absent token and every error node that lies
/// below no other error node is reported, and nothing else is.
pub proof fn errors_are_reported(nodes: Seq<NodeView>, src: Seq<char>, d: DiagnosticView)
    requires
        nodes.len() > 0,
        nodes[0].has_error,
    ensures
        syntax_errors_of(nodes, src).contains(d) <==> exists|i: int| #[trigger]
            is_reported(nodes, i) && d == finding(src, nodes[i]),
{
    lemma_errors_from(nodes, src, 0, d);
}

/// A file whose root holds no error gets no diagnostics.
pub proof fn clean_files_get_no_diagnostics(nodes: Seq<NodeView>, src: Seq<char>)
    requires
        nodes.len() > 0,
        !nodes[0].has_error,
    ensures
        syntax_errors_of(nodes, src).len() == 0,
{
}

/// Every diagnostic is an error, reported under the name of this server.
pub proof fn diagnostics_are_errors_of_this_server(
    nodes: Seq<NodeView>,
    src: Seq<char>,
    d: DiagnosticView,
)
    requires
        nodes.len() > 0,
        syntax_errors_of(nodes, src).contains(d),
    ensures
        d.severity == Some(DiagnosticSeverity::Error),
        d.source == Some(source_name()),
{
    if nodes[0].has_error {
        errors_are_reported(nodes, src, d);
    }
}

} // verus!
