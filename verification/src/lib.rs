//! Detection of dead bindings in Nix expressions.
//!
//! A binding is dead when nothing refers to it: a lambda argument, a name
//! bound by `let`, a member of a recursive attribute set or an inherited
//! name that no expression in its scope uses. Bindings that are used only by
//! other dead bindings are dead as well.
//!
//! * [`syntax`] reads the parser's tree into a [`tree::Tree`].
//! * [`scope`] finds the nodes that introduce bindings, with their
//!   [`binding`]s and the subtrees in which those are visible.
//! * [`usage`] searches a subtree for a use of a name.
//! * [`dead_code`] scans a tree for the bindings that nothing uses.
//! * [`theorems`], [`keys`], [`nesting`] and [`sequences`] hold what is
//!   proved of the scan and of the trees that it works on.

pub mod binding;
pub mod dead_code;
pub mod keys;
pub mod nesting;
pub mod scope;
pub mod sequences;
pub mod syntax;
pub mod theorems;
pub mod tree;
pub mod usage;
