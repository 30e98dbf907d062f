//! Bindings: the names that a scope introduces.

use crate::tree::{name_of, ElementView, Tree};
use vstd::prelude::*;
use vstd::string::*;

verus! {

/// A declared name.
#[derive(Debug, PartialEq, Eq)]
pub struct Binding {
    /// The text of the name.
    pub name: String,
    /// The identifier node that holds the name.
    pub name_node: usize,
    /// The node that defines the binding: the member or formal argument that
    /// the name belongs to, or the identifier itself where it stands alone.
    pub node: usize,
    /// Whether it makes sense to report the binding when nothing uses it.
    pub mortal: bool,
}

/// The mathematical value of a [`Binding`].
pub struct BindingView {
    pub name: Seq<char>,
    pub name_node: int,
    pub node: int,
    pub mortal: bool,
}

impl View for Binding {
    type V = BindingView;

    open spec fn view(&self) -> BindingView {
        BindingView {
            name: self.name@,
            name_node: self.name_node as int,
            node: self.node as int,
            mortal: self.mortal,
        }
    }
}

/// The values of a sequence of bindings.
pub open spec fn views(s: Seq<Binding>) -> Seq<BindingView> {
    s.map_values(|b: Binding| b@)
}

/// The binding of the name that the identifier `ident` holds, defined by
/// `node`.
pub open spec fn bind(t: Seq<ElementView>, ident: int, node: int, mortal: bool) -> BindingView {
    BindingView { name: name_of(t, ident), name_node: ident, node, mortal }
}

/// Whether a name begins with an underscore.
pub open spec fn is_hidden(name: Seq<char>) -> bool {
    name.len() > 0 && name[0] == '_'
}

impl Clone for Binding {
    fn clone(&self) -> (b: Binding)
        ensures
            b@ == self@,
    {
        Binding {
            name: self.name.clone(),
            name_node: self.name_node,
            node: self.node,
            mortal: self.mortal,
        }
    }
}

impl Binding {
    /// The binding of the name that the identifier `ident` holds, defined by
    /// `node`.
    pub fn new(tree: &Tree, ident: usize, node: usize, mortal: bool) -> (b: Binding)
        ensures
            b@ == bind(tree@, ident as int, node as int, mortal),
            b.name_node == ident,
            b.node == node,
    {
        Binding { name: tree.name_of(ident), name_node: ident, node, mortal }
    }

    /// Whether it makes sense to report the binding when nothing uses it.
    pub fn is_mortal(&self) -> (r: bool)
        ensures
            r == self@.mortal,
    {
        self.mortal
    }

    /// Whether the name begins with an underscore.
    pub fn is_hidden(&self) -> (r: bool)
        ensures
            r == is_hidden(self@.name),
    {
        let name = self.name.as_str();
        !name.is_empty() && name.get_char(0) == '_'
    }
}

} // verus!
