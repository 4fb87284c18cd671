//! The core of a language server for Tonel Smalltalk.
//!
//! A source file is parsed by tree-sitter ([`grammar`]) into a tree of plain values
//! ([`syntax`]), of which a [`src_tree::SrcTree`] answers questions: which class a file
//! defines ([`class_info`]), which classes it names where ([`references`]), which names are
//! local ([`scopes`]), and what the parser could not make sense of ([`diagnostics`]). A
//! [`workspace::Workspace`] keeps what is known of all files, of the variables that classes
//! own ([`owners`]) among them, and a [`session::Session`] answers the requests of an editor
//! from it.
//!
//! What holds of the answers, said of the nodes, texts and lists that they are made of, stands
//! apart: of texts and trees in [`tree_laws`], of files in [`file_laws`], and of workspaces and
//! sessions in [`workspace_laws`].

use vstd::prelude::*;

pub mod class_info;
pub mod diagnostics;
pub mod file_laws;
pub mod grammar;
pub mod hover;
pub mod index;
pub mod owners;
pub mod position;
pub mod references;
pub mod scopes;
pub mod session;
pub mod src_tree;
pub mod syntax;
pub mod text;
pub mod tree_laws;
pub mod workspace;
pub mod workspace_laws;

verus! {

} // verus!
