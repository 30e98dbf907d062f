//! The search for a use of a name.

use crate::nesting::{lemma_child_holding, lemma_child_holds, lemma_children};
use crate::scope::{declares, Scope};
use crate::tree::{children, end, name_of, well_formed, ElementView, Kind, Tree};
use vstd::prelude::*;

verus! {

/// Whether element `j` is an identifier that reads `name`.
pub open spec fn occurs(t: Seq<ElementView>, name: Seq<char>, j: int) -> bool {
    t[j].kind == Kind::Ident && name_of(t, j) == name
}

/// Whether element `j` stands in a scope that declares `name` anew: a node
/// from `body` downwards that holds `j` and declares `name`.
pub open spec fn shadowed(t: Seq<ElementView>, name: Seq<char>, body: int, j: int) -> bool {
    exists|a: int| body <= a <= j && j < end(t, a) && #[trigger] declares(t, a, name)
}

/// Whether `name` is used in the subtree of `body`: some identifier of the
/// subtree reads `name` and is not shadowed.
pub open spec fn uses(t: Seq<ElementView>, name: Seq<char>, body: int) -> bool {
    0 <= body < t.len() && exists|j: int|
        body <= j < end(t, body) && #[trigger] occurs(t, name, j) && !shadowed(t, name, body, j)
}

/// A name is used in a subtree where the root does not declare it anew, and
/// the root reads it or it is used in the subtree of a child.
pub proof fn lemma_uses_by_descent(t: Seq<ElementView>, name: Seq<char>, n: int)
    requires
        well_formed(t),
        0 <= n < t.len(),
    ensures
        uses(t, name, n) <==> !declares(t, n, name) && (occurs(t, name, n) || exists|k: int|
            0 <= k < children(t, n).len() && uses(t, name, #[trigger] children(t, n)[k])),
{
    let cs = children(t, n);
    if uses(t, name, n) {
        let j = choose|j: int|
            n <= j < end(t, n) && #[trigger] occurs(t, name, j) && !shadowed(t, name, n, j);
        assert(!declares(t, n, name));
        if j != n {
            let c = lemma_child_holding(t, n, j);
            lemma_child_holds(t, n, c);
            assert(!shadowed(t, name, c, j)) by {
                if shadowed(t, name, c, j) {
                    let a = choose|a: int|
                        c <= a <= j && j < end(t, a) && #[trigger] declares(t, a, name);
                    assert(n <= a <= j && j < end(t, a) && declares(t, a, name));
                }
            }
            assert(uses(t, name, c));
            lemma_children(t, n, c);
            let k = choose|k: int| 0 <= k < cs.len() && cs[k] == c;
            assert(uses(t, name, cs[k]));
        }
    }
    if !declares(t, n, name) && occurs(t, name, n) {
        assert(n < end(t, n));
        assert(!shadowed(t, name, n, n));
    }
    if !declares(t, n, name) && exists|k: int|
        0 <= k < cs.len() && uses(t, name, #[trigger] cs[k]) {
        let k = choose|k: int| 0 <= k < cs.len() && uses(t, name, #[trigger] cs[k]);
        let c = cs[k];
        assert(cs.contains(c));
        lemma_children(t, n, c);
        lemma_child_holds(t, n, c);
        let j = choose|j: int|
            c <= j < end(t, c) && #[trigger] occurs(t, name, j) && !shadowed(t, name, c, j);
        assert(!shadowed(t, name, n, j)) by {
            if shadowed(t, name, n, j) {
                let a = choose|a: int|
                    n <= a <= j && j < end(t, a) && #[trigger] declares(t, a, name);
                if n < a < c {
                    assert(end(t, a) <= c);
                }
                assert(c <= a <= j && j < end(t, a) && declares(t, a, name));
            }
        }
        assert(n <= j < end(t, n) && occurs(t, name, j));
    }
}

/// Whether `name` is used in the subtree of `body`.
///
/// The search goes through the subtree in source order. It passes over a
/// scope that declares `name` anew, and goes on with what follows the scope.
pub fn find_usage(tree: &Tree, name: &String, body: usize) -> (used: bool)
    ensures
        used == uses(tree@, name@, body as int),
{
    if body >= tree.len() {
        return false;
    }
    proof {
        use_type_invariant(tree);
    }
    let stop: usize = tree.end(body);
    let mut j: usize = body;
    while j < stop
        invariant
            well_formed(tree@),
            body < tree@.len(),
            stop == end(tree@, body as int),
            body <= j <= stop <= tree@.len(),
            forall|k: int|
                body <= k < j ==> !(#[trigger] occurs(tree@, name@, k) && !shadowed(
                    tree@,
                    name@,
                    body as int,
                    k,
                )),
            forall|a: int|
                body <= a < j && j < end(tree@, a) ==> !#[trigger] declares(tree@, a, name@),
        decreases stop - j,
    {
        if Scope::declares(tree, j, name) {
            let next: usize = tree.end(j);
            proof {
                assert(end(tree@, j as int) <= end(tree@, body as int));
                assert forall|k: int| j <= k < next implies shadowed(
                    tree@,
                    name@,
                    body as int,
                    k,
                ) by {
                    assert(declares(tree@, j as int, name@));
                }
                assert forall|a: int| body <= a < next && next < end(tree@, a) implies !declares(
                    tree@,
                    a,
                    name@,
                ) by {
                    if a > j {
                        assert(end(tree@, a) <= end(tree@, j as int));
                    }
                }
            }
            j = next;
        } else if tree.kind(j) == Kind::Ident && tree.is_named(j, name) {
            proof {
                assert(occurs(tree@, name@, j as int));
                assert(!shadowed(tree@, name@, body as int, j as int));
            }
            return true;
        } else {
            proof {
                assert(end(tree@, j as int) <= end(tree@, body as int));
            }
            j = j + 1;
        }
    }
    false
}

} // verus!
