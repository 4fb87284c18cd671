//! What hovering over a name shows.

use vstd::prelude::*;
use vstd::string::*;

use crate::class_info::{texts, ClassInfo, ClassInfoView};
use crate::owners::{lists_owners, owner_views, VarScope};
use crate::src_tree::{ClassAtPos, ClassAtPosView, MethodSide};
use crate::workspace::{Workspace, WorkspaceView};

verus! {

/// What hovering shows.
#[derive(Clone, Debug, PartialEq, Eq)]
pub enum HoverInfo {
    /// A class or a trait.
    Class(ClassInfo),
    /// A variable, and the classes that own it.
    Variable(String, Vec<(String, VarScope)>),
}

/// The name of the token at a position.
pub open spec fn token_name(class_at: ClassAtPosView) -> Option<Seq<char>> {
    match class_at {
        ClassAtPosView::Found(name) => Some(name),
        ClassAtPosView::NotUppercase(name) => Some(name),
        _ => None,
    }
}

/// Whether `hover` is what hovering over a token shows, given what the token is as a class
/// name, the side of the method around it, and whether it names a local variable.
///
/// A local variable shows nothing. The name of a class that is known shows the class. Every
/// other name shows the classes that own the variable of that name, where there are any.
pub open spec fn hover_shows(
    hover: Option<HoverInfo>,
    w: WorkspaceView,
    class_at: ClassAtPosView,
    side: Option<MethodSide>,
    is_local: bool,
) -> bool {
    match token_name(class_at) {
        Some(name) => if is_local {
            hover is None
        } else if class_at is Found && w.infos.contains_key(name) {
            hover matches Some(HoverInfo::Class(info)) && info@ == w.infos[name]
        } else {
            match hover {
                Some(HoverInfo::Variable(var, owners)) => {
                    &&& var@ == name
                    &&& owners@.len() > 0
                    &&& lists_owners(owner_views(owners@), w.infos, name, side)
                },
                Some(HoverInfo::Class(_)) => false,
                None => lists_owners(Seq::empty(), w.infos, name, side),
            }
        },
        None => hover is None,
    }
}

impl Workspace {
    /// Answers a hover, given what is at its position.
    pub fn hover_for(
        &self,
        class_at: &ClassAtPos,
        side: Option<MethodSide>,
        is_local: bool,
    ) -> (res: Option<HoverInfo>)
        requires
            self.wf(),
        ensures
            hover_shows(res, self@, class_at@, side, is_local),
    {
        let name = match class_at {
            ClassAtPos::Found(name) => name.as_str(),
            ClassAtPos::NotUppercase(name) => name.as_str(),
            _ => {
                return None;
            },
        };
        if is_local {
            return None;
        }
        if let ClassAtPos::Found(_) = class_at {
            if let Some(info) = self.find_class_info(name) {
                return Some(HoverInfo::Class(info));
            }
        }
        let owners = self.find_var_owners(name, side);
        if owners.len() > 0 {
            Some(HoverInfo::Variable(name.to_owned(), owners))
        } else {
            assert(owner_views(owners@) =~= Seq::<(Seq<char>, VarScope)>::empty());
            None
        }
    }
}

/// The texts in a row, with commas between them.
pub open spec fn joined(list: Seq<Seq<char>>) -> Seq<char>
    decreases list.len(),
{
    if list.len() == 0 {
        ""@
    } else if list.len() == 1 {
        list[0]
    } else {
        joined(list.drop_last()) + ", "@ + list.last()
    }
}

/// A line that gives the variables under a title; nothing where there are none.
pub open spec fn variables_line(title: Seq<char>, names: Seq<Seq<char>>) -> Seq<char> {
    if names.len() == 0 {
        ""@
    } else {
        title + joined(names)
    }
}

/// A class or a trait as a text: its kind and name, and a line each for its superclass and
/// for the variables of each scope, where it has any.
pub open spec fn class_text(info: ClassInfoView) -> Seq<char> {
    info.kind + " "@ + info.name + (match info.superclass {
        Some(name) => "\nSuperclass: "@ + name,
        None => ""@,
    }) + variables_line("\nInstance variables: "@, info.inst_vars) + variables_line(
        "\nClass variables: "@,
        info.class_vars,
    ) + variables_line("\nClass instance variables: "@, info.class_inst_vars)
}

/// The words for a scope.
pub open spec fn scope_text(scope: VarScope) -> Seq<char> {
    match scope {
        VarScope::Instance => " (instance variable)"@,
        VarScope::ClassVariable => " (class variable)"@,
        VarScope::ClassInstance => " (class instance variable)"@,
    }
}

/// The owners of a variable as a text, a line for each.
pub open spec fn owners_text(owners: Seq<(Seq<char>, VarScope)>) -> Seq<char>
    decreases owners.len(),
{
    if owners.len() == 0 {
        ""@
    } else {
        owners_text(owners.drop_last()) + "\n"@ + owners.last().0 + scope_text(owners.last().1)
    }
}

/// What hovering shows, as a text.
pub open spec fn hover_text(hover: HoverInfo) -> Seq<char> {
    match hover {
        HoverInfo::Class(info) => class_text(info@),
        HoverInfo::Variable(name, owners) => name@ + owners_text(owner_views(owners@)),
    }
}

/// Returns the texts in a row, with commas between them.
fn join(list: &Vec<String>) -> (res: String)
    ensures
        res@ == joined(texts(list@)),
{
    if list.len() == 0 {
        return "".to_owned();
    }
    let ghost all = texts(list@);
    let mut res = list[0].clone();
    let mut i: usize = 1;
    assert(all.take(1)[0] == list@[0]@);
    while i < list.len()
        invariant
            1 <= i <= list@.len(),
            all == texts(list@),
            res@ == joined(all.take(i as int)),
        decreases list@.len() - i,
    {
        proof {
            assert(all.take(i + 1).drop_last() =~= all.take(i as int));
            assert(all.take(i + 1).last() == list@[i as int]@);
        }
        res = res.concat(", ").concat(list[i].as_str());
        i += 1;
    }
    assert(all.take(list@.len() as int) =~= all);
    res
}

/// Returns a line that gives the variables under a title.
fn list_variables(title: &str, names: &Vec<String>) -> (res: String)
    ensures
        res@ == variables_line(title@, texts(names@)),
{
    if names.len() == 0 {
        "".to_owned()
    } else {
        title.to_owned().concat(join(names).as_str())
    }
}

/// Returns a class or a trait as a text.
fn describe_class(info: &ClassInfo) -> (res: String)
    ensures
        res@ == class_text(info@),
{
    let superclass = match &info.superclass {
        Some(name) => "\nSuperclass: ".to_owned().concat(name.as_str()),
        None => "".to_owned(),
    };
    let inst_vars = list_variables("\nInstance variables: ", &info.inst_vars);
    let class_vars = list_variables("\nClass variables: ", &info.class_vars);
    let class_inst_vars = list_variables("\nClass instance variables: ", &info.class_inst_vars);
    info.kind.clone().concat(" ").concat(info.name.as_str()).concat(superclass.as_str()).concat(
        inst_vars.as_str(),
    ).concat(class_vars.as_str()).concat(class_inst_vars.as_str())
}

/// Returns the words for a scope.
fn describe_scope(scope: VarScope) -> (res: &'static str)
    ensures
        res@ == scope_text(scope),
{
    match scope {
        VarScope::Instance => " (instance variable)",
        VarScope::ClassVariable => " (class variable)",
        VarScope::ClassInstance => " (class instance variable)",
    }
}

/// Returns the owners of a variable as a text, a line for each.
fn describe_owners(owners: &Vec<(String, VarScope)>) -> (res: String)
    ensures
        res@ == owners_text(owner_views(owners@)),
{
    let ghost all = owner_views(owners@);
    let mut res = "".to_owned();
    let mut i: usize = 0;
    while i < owners.len()
        invariant
            i <= owners@.len(),
            all == owner_views(owners@),
            res@ == owners_text(all.take(i as int)),
        decreases owners@.len() - i,
    {
        proof {
            assert(all.take(i + 1).drop_last() =~= all.take(i as int));
            assert(all.take(i + 1).last() == (owners@[i as int].0@, owners@[i as int].1));
        }
        res = res.concat("\n").concat(owners[i].0.as_str()).concat(describe_scope(owners[i].1));
        i += 1;
    }
    assert(all.take(owners@.len() as int) =~= all);
    res
}

impl HoverInfo {
    /// Returns what hovering shows, as a text.
    pub fn describe(&self) -> (res: String)
        ensures
            res@ == hover_text(*self),
    {
        match self {
            HoverInfo::Class(info) => describe_class(info),
            HoverInfo::Variable(name, owners) => name.clone().concat(
                describe_owners(owners).as_str(),
            ),
        }
    }
}

} // verus!
