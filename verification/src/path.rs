//! The path resolver: locates a node in a tree by a dotted path, one segment
//! at a time, and reads it out as a scalar or as a group.

use vstd::prelude::*;

use vstd::string::StringSliceAdditionalSpecFns;

use crate::errors::PathError;
use crate::token::find_byte;
use crate::token::find_first;
use crate::token::lemma_find_first_at;
use crate::tree::clone_bytes;
use crate::tree::lookup;
use crate::tree::pairs_view;
use crate::tree::TreeView;
use crate::tree::ValueType;

verus! {

broadcast use {
    vstd::std_specs::vec::axiom_vec_index_decreases,
    vstd::map::group_map_axioms,
    vstd::seq::group_seq_axioms,
    vstd::group_vstd_default,
};

/// The path segment separator `.`.
pub const DOT: u8 = 46;

/// The node a dotted path names within a tree.
///
/// An empty path names the tree itself. Otherwise the path is split at its
/// first `.` into a head segment and the rest: the tree must be a group
/// (`TypeMismatch` otherwise), the head must be one of its keys
/// (`PathNotFound` otherwise), and the rest names a node within the child.
/// The dot is a pure separator with no escaping, so a key that itself holds
/// a dot cannot be named.
pub open spec fn spec_resolve(t: TreeView, p: Seq<u8>) -> Result<TreeView, PathError>
    decreases t,
{
    if p.len() == 0 {
        Ok(t)
    } else {
        let d = find_first(p, DOT);
        let head = p.subrange(0, d);
        let rest = if d == p.len() {
            Seq::<u8>::empty()
        } else {
            p.subrange(d + 1, p.len() as int)
        };
        match t {
            TreeView::Scalar(_) => Err(PathError::TypeMismatch),
            TreeView::Group(m) => {
                if !m.dom().contains(head) {
                    Err(PathError::PathNotFound)
                } else {
                    spec_resolve(m[head], rest)
                }
            },
        }
    }
}

/// What reading a scalar at a path returns: the content of the named node,
/// which must be a scalar (`TypeMismatch` otherwise).
pub open spec fn spec_read_scalar(t: TreeView, p: Seq<u8>) -> Result<Seq<u8>, PathError> {
    match spec_resolve(t, p) {
        Ok(TreeView::Scalar(s)) => Ok(s),
        Ok(TreeView::Group(_)) => Err(PathError::TypeMismatch),
        Err(e) => Err(e),
    }
}

/// What reading a group at a path returns: the named node, which must be a
/// group (`TypeMismatch` otherwise).
pub open spec fn spec_read_node(t: TreeView, p: Seq<u8>) -> Result<TreeView, PathError> {
    match spec_resolve(t, p) {
        Ok(TreeView::Group(m)) => Ok(TreeView::Group(m)),
        Ok(TreeView::Scalar(_)) => Err(PathError::TypeMismatch),
        Err(e) => Err(e),
    }
}

/// Walks the path bytes from index `i` down the tree, exactly as
/// `spec_resolve` says on the remaining path.
fn resolve_at<'a>(t: &'a ValueType, p: &[u8], i: usize) -> (r: Result<&'a ValueType, PathError>)
    requires
        i <= p@.len(),
    ensures
        match r {
            Ok(v) => spec_resolve(t@, p@.skip(i as int)) == Ok::<TreeView, PathError>(v@),
            Err(e) => spec_resolve(t@, p@.skip(i as int)) == Err::<TreeView, PathError>(e),
        },
    decreases *t,
{
    let ghost s = p@.skip(i as int);
    if i == p.len() {
        proof {
            assert(s.len() == 0);
        }
        return Ok(t);
    }
    let j = find_byte(p, i, DOT);
    proof {
        assert forall|m: int| 0 <= m < j - i implies s[m] != DOT by {
            assert(s[m] == p@[i + m]);
        };
        if (j as int) < p@.len() {
            assert(s[j - i] == p@[j as int]);
        }
        lemma_find_first_at(s, DOT, j - i);
    }
    let ghost head = s.subrange(0, j - i);
    proof {
        assert(head =~= p@.subrange(i as int, j as int));
    }
    match t {
        ValueType::STRING(_) => Err(PathError::TypeMismatch),
        ValueType::LIST(ps) => {
            let seg = vstd::slice::slice_subrange(p, i, j);
            match lookup(ps, seg) {
                None => Err(PathError::PathNotFound),
                Some(child) => {
                    proof {
                        let w = choose|w: int| 0 <= w < ps@.len() && *child == ps@[w].1;
                        assert(decreases_to!(*t => *ps));
                        assert(decreases_to!(*ps => ps@));
                        assert(decreases_to!(ps@ => ps@[w]));
                        assert(decreases_to!(ps@[w] => ps@[w].1));
                        assert(decreases_to!(*t => *child));
                    }
                    let inext = if j < p.len() {
                        j + 1
                    } else {
                        j
                    };
                    proof {
                        if (j as int) < p@.len() {
                            assert(s.subrange(j - i + 1, s.len() as int) =~= p@.skip(inext as int));
                        } else {
                            assert(p@.skip(inext as int).len() == 0);
                            assert(p@.skip(inext as int) =~= Seq::<u8>::empty());
                        }
                        assert(child@ == pairs_view(ps@, 0)[head]);
                    }
                    resolve_at(child, p, inext)
                },
            }
        },
    }
}

impl ValueType {
    /// Reads the scalar content at a dotted path, exactly as
    /// `spec_read_scalar` says of the tree and the path's bytes.
    pub fn get_str(&self, path: &str) -> (r: Result<Vec<u8>, PathError>)
        ensures
            match r {
                Ok(v) => spec_read_scalar(self@, path.spec_bytes()) == Ok::<Seq<u8>, PathError>(
                    v@,
                ),
                Err(e) => spec_read_scalar(self@, path.spec_bytes()) == Err::<Seq<u8>, PathError>(
                    e,
                ),
            },
    {
        let pb = path.as_bytes();
        proof {
            assert(pb@.skip(0) =~= pb@);
        }
        match resolve_at(self, pb, 0) {
            Ok(v) => match v {
                ValueType::STRING(s) => Ok(clone_bytes(s)),
                ValueType::LIST(_) => Err(PathError::TypeMismatch),
            },
            Err(e) => Err(e),
        }
    }

    /// Reads the group at a dotted path, exactly as `spec_read_node` says of
    /// the tree and the path's bytes; the group comes back as an independent
    /// copy that can be queried further.
    pub fn get_node(&self, path: &str) -> (r: Result<ValueType, PathError>)
        ensures
            match r {
                Ok(v) => spec_read_node(self@, path.spec_bytes()) == Ok::<TreeView, PathError>(
                    v@,
                ),
                Err(e) => spec_read_node(self@, path.spec_bytes()) == Err::<TreeView, PathError>(
                    e,
                ),
            },
    {
        let pb = path.as_bytes();
        proof {
            assert(pb@.skip(0) =~= pb@);
        }
        match resolve_at(self, pb, 0) {
            Ok(v) => match v {
                ValueType::LIST(_) => Ok(v.clone()),
                ValueType::STRING(_) => Err(PathError::TypeMismatch),
            },
            Err(e) => Err(e),
        }
    }
}

} // verus!
