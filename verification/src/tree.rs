//! The tree value model: a scalar byte-string leaf, or a group of named
//! children, together with its mathematical view and structural equality.

use vstd::prelude::*;

verus! {

broadcast use {
    vstd::std_specs::vec::axiom_vec_index_decreases,
    vstd::map::group_map_axioms,
    vstd::seq::group_seq_axioms,
};

/// Mathematical model of a tree value. A group is a mapping from key to
/// child model: insertion order and duplicate bindings are erased, so two
/// trees have the same view exactly when they are structurally equal in the
/// order-insensitive sense.
#[verifier::ext_equal]
pub enum TreeView {
    Scalar(Seq<u8>),
    Group(Map<Seq<u8>, TreeView>),
}

/// A tree value: either a scalar byte string or a group of key/value pairs.
///
/// A group is stored as a vector of pairs. When two pairs carry the same key,
/// the later pair is the visible binding (last occurrence wins); the view and
/// every operation of the library observe only the visible bindings.
#[derive(Debug)]
pub enum ValueType {
    STRING(Vec<u8>),
    LIST(Vec<(Vec<u8>, ValueType)>),
}

/// Byte-for-byte copy of a byte vector.
pub fn clone_bytes(v: &Vec<u8>) -> (r: Vec<u8>)
    ensures
        r@ == v@,
{
    let mut r: Vec<u8> = Vec::new();
    let mut i: usize = 0;
    while i < v.len()
        invariant
            i <= v.len(),
            r@ == v@.subrange(0, i as int),
        decreases v.len() - i,
    {
        r.push(v[i]);
        i = i + 1;
        proof {
            assert(r@ =~= v@.subrange(0, i as int));
        }
    }
    proof {
        assert(r@ =~= v@);
    }
    r
}

impl Clone for ValueType {
    /// A deep copy whose view is the same tree.
    fn clone(&self) -> (r: Self)
        ensures
            r@ == self@,
        decreases self,
    {
        match self {
            ValueType::STRING(s) => ValueType::STRING(clone_bytes(s)),
            ValueType::LIST(ps) => {
                let mut out: Vec<(Vec<u8>, ValueType)> = Vec::new();
                let n = ps.len();
                let mut i: usize = 0;
                #[verifier::loop_isolation(false)]
                while i < n
                    invariant
                        *self == ValueType::LIST(*ps),
                        i <= n,
                        n == ps@.len(),
                        out@.len() == i,
                        forall|j: int| #![trigger out@[j]]
                            0 <= j < i ==> out@[j].0@ == ps@[j].0@ && out@[j].1@ == ps@[j].1@,
                    decreases n - i,
                {
                    let key = clone_bytes(&ps[i].0);
                    proof {
                        assert(decreases_to!(*self => *ps));
                        assert(decreases_to!(*ps => ps@));
                        assert(decreases_to!(ps@ => ps@[i as int]));
                        assert(decreases_to!(ps@[i as int] => ps@[i as int].1));
                        assert(decreases_to!(*self => ps@[i as int].1));
                    }
                    let val = ps[i].1.clone();
                    out.push((key, val));
                    i = i + 1;
                }
                proof {
                    lemma_pairs_view_congruent(out@, ps@, 0);
                }
                ValueType::LIST(out)
            },
        }
    }
}

/// Two pair vectors whose keys and child views agree pointwise describe the
/// same mapping.
pub proof fn lemma_pairs_view_congruent(a: Seq<(Vec<u8>, ValueType)>, b: Seq<(Vec<u8>, ValueType)>, i: int)
    requires
        a.len() == b.len(),
        forall|j: int| 0 <= j < a.len() ==> #[trigger] a[j].0@ == b[j].0@ && a[j].1@ == b[j].1@,
    ensures
        pairs_view(a, i) == pairs_view(b, i),
    decreases a.len() - i,
{
    if 0 <= i < a.len() {
        lemma_pairs_view_congruent(a, b, i + 1);
    }
}

/// The mapping described by the pairs of a group from index `i` on, with a
/// later binding for a key shadowing an earlier one.
pub open spec fn pairs_view(ps: Seq<(Vec<u8>, ValueType)>, i: int) -> Map<Seq<u8>, TreeView>
    decreases ps, ps.len() - i,
{
    if i < 0 || i >= ps.len() {
        Map::empty()
    } else {
        let rest = pairs_view(ps, i + 1);
        if rest.dom().contains(ps[i].0@) {
            rest
        } else {
            rest.insert(ps[i].0@, ps[i].1@)
        }
    }
}

impl View for ValueType {
    type V = TreeView;

    open spec fn view(&self) -> TreeView
        decreases self, 0int,
    {
        match self {
            ValueType::STRING(s) => TreeView::Scalar(s@),
            ValueType::LIST(ps) => TreeView::Group(pairs_view(ps@, 0)),
        }
    }
}

/// The index of the last pair at or after `i` whose key is `k`, or `-1` when
/// no such pair exists. The pair at this index carries the visible binding
/// for `k`: a duplicate key is resolved in favour of its last occurrence.
pub open spec fn last_occ(ps: Seq<(Vec<u8>, ValueType)>, i: int, k: Seq<u8>) -> int
    decreases ps.len() - i,
{
    if i < 0 || i >= ps.len() {
        -1
    } else {
        let t = last_occ(ps, i + 1, k);
        if t >= 0 {
            t
        } else if ps[i].0@ == k {
            i
        } else {
            -1
        }
    }
}

/// The visible binding for a key is the one of the last pair that carries the
/// key: this is the duplicate-key policy of the whole library (last
/// occurrence wins), stated over the mapping a group describes.
pub proof fn lemma_pairs_view_char(ps: Seq<(Vec<u8>, ValueType)>, i: int, k: Seq<u8>)
    ensures
        pairs_view(ps, i).dom().contains(k) <==> last_occ(ps, i, k) >= 0,
        last_occ(ps, i, k) >= 0 ==> i <= last_occ(ps, i, k) < ps.len() && ps[last_occ(
            ps,
            i,
            k,
        )].0@ == k && pairs_view(ps, i)[k] == ps[last_occ(ps, i, k)].1@,
    decreases ps.len() - i,
{
    if 0 <= i < ps.len() {
        lemma_pairs_view_char(ps, i + 1, k);
        let rest = pairs_view(ps, i + 1);
        let key_i = ps[i].0@;
        let t = last_occ(ps, i + 1, k);
        if rest.dom().contains(key_i) {
            assert(pairs_view(ps, i) == rest);
        } else {
            assert(pairs_view(ps, i) == rest.insert(key_i, ps[i].1@));
        }
        if k == key_i {
            if t >= 0 {
                assert(last_occ(ps, i, k) == t);
            } else {
                assert(last_occ(ps, i, k) == i);
                assert(!rest.dom().contains(key_i));
            }
        } else {
            assert(last_occ(ps, i, k) == if t >= 0 { t } else { -1 });
        }
    }
}

/// A key that occurs at or after `i` has a visible binding from `i` on.
pub proof fn lemma_occ_in_dom(ps: Seq<(Vec<u8>, ValueType)>, i: int, j: int)
    requires
        0 <= i <= j < ps.len(),
    ensures
        last_occ(ps, i, ps[j].0@) >= j,
    decreases j - i,
{
    lemma_pairs_view_char(ps, i + 1, ps[j].0@);
    if i < j {
        lemma_occ_in_dom(ps, i + 1, j);
    }
}

/// When no pair at or after `j` carries `k`, the last occurrence seen from
/// any earlier index is unchanged.
pub proof fn lemma_occ_none_after(ps: Seq<(Vec<u8>, ValueType)>, i: int, j: int, k: Seq<u8>)
    requires
        0 <= i <= j <= ps.len(),
        forall|m: int| j <= m < ps.len() ==> ps[m].0@ != k,
    ensures
        last_occ(ps, i, k) == last_occ(ps, j, k) || last_occ(ps, i, k) < j,
        last_occ(ps, j, k) == -1,
    decreases ps.len() - i,
{
    if i < ps.len() {
        if i < j {
            lemma_occ_none_after(ps, i + 1, j, k);
        } else {
            lemma_occ_none_after(ps, i + 1, i + 1, k);
        }
    }
}

/// A binding visible from index `i` on is the binding visible for the whole
/// pair vector: the last occurrence of a key never moves forward.
pub proof fn lemma_pairs_view_mono(ps: Seq<(Vec<u8>, ValueType)>, i: int, k: Seq<u8>)
    requires
        0 <= i,
        pairs_view(ps, i).dom().contains(k),
    ensures
        pairs_view(ps, 0).dom().contains(k),
        pairs_view(ps, 0)[k] == pairs_view(ps, i)[k],
    decreases i,
{
    if i > 0 {
        let rest = pairs_view(ps, i);
        if i - 1 < ps.len() {
            let key_p = ps[i - 1].0@;
            if rest.dom().contains(key_p) {
                assert(pairs_view(ps, i - 1) == rest);
            } else {
                assert(pairs_view(ps, i - 1) == rest.insert(key_p, ps[i - 1].1@));
            }
            assert(pairs_view(ps, i - 1).dom().contains(k));
            assert(pairs_view(ps, i - 1)[k] == rest[k]);
        }
        lemma_pairs_view_mono(ps, i - 1, k);
    }
}

/// Byte-for-byte comparison of two byte strings.
pub fn bytes_eq(a: &[u8], b: &[u8]) -> (r: bool)
    ensures
        r == (a@ == b@),
{
    if a.len() != b.len() {
        return false;
    }
    let n = a.len();
    let mut i: usize = 0;
    #[verifier::loop_isolation(false)]
    while i < n
        invariant
            i <= n,
            forall|j: int| 0 <= j < i ==> a@[j] == b@[j],
        decreases n - i,
    {
        if a[i] != b[i] {
            return false;
        }
        i = i + 1;
    }
    proof {
        assert(a@ =~= b@);
    }
    true
}

/// The visible binding for `key` among the pairs of a group, if any: the
/// value of the last pair that carries the key.
pub fn lookup<'a>(ps: &'a Vec<(Vec<u8>, ValueType)>, key: &[u8]) -> (r: Option<&'a ValueType>)
    ensures
        match r {
            Some(v) => pairs_view(ps@, 0).dom().contains(key@) && v@ == pairs_view(ps@, 0)[key@]
                && (exists|j: int| 0 <= j < ps@.len() && *v == ps@[j].1),
            None => !pairs_view(ps@, 0).dom().contains(key@),
        },
{
    let mut j = ps.len();
    #[verifier::loop_isolation(false)]
    while j > 0
        invariant
            j <= ps@.len(),
            forall|m: int| j <= m < ps@.len() ==> ps@[m].0@ != key@,
        decreases j,
    {
        j = j - 1;
        if bytes_eq(ps[j].0.as_slice(), key) {
            proof {
                lemma_occ_in_dom(ps@, 0, j as int);
                lemma_occ_none_after(ps@, 0, j + 1, key@);
                lemma_pairs_view_char(ps@, 0, key@);
            }
            return Some(&ps[j].1);
        }
    }
    proof {
        lemma_occ_none_after(ps@, 0, 0, key@);
        lemma_pairs_view_char(ps@, 0, key@);
    }
    None
}

/// Every key of the mapping described by `qs` is also a key of the mapping
/// described by `ps`.
pub open spec fn keys_within(qs: Seq<(Vec<u8>, ValueType)>, ps: Seq<(Vec<u8>, ValueType)>) -> bool {
    forall|k: Seq<u8>| #![trigger pairs_view(qs, 0).dom().contains(k)]
        pairs_view(qs, 0).dom().contains(k) ==> pairs_view(ps, 0).dom().contains(k)
}

/// Every binding visible among the pairs of `ps` from index `i` on is
/// matched by an equal binding in the mapping described by `qs`.
pub open spec fn bindings_match(
    ps: Seq<(Vec<u8>, ValueType)>,
    qs: Seq<(Vec<u8>, ValueType)>,
    i: int,
) -> bool {
    forall|k: Seq<u8>| #![trigger pairs_view(ps, i).dom().contains(k)]
        pairs_view(ps, i).dom().contains(k) ==> pairs_view(qs, 0).dom().contains(k) && pairs_view(
            ps,
            i,
        )[k] == pairs_view(qs, 0)[k]
}

/// Whether every key of the mapping described by `qs` is also a key of the
/// mapping described by `ps`.
fn keys_subset(qs: &Vec<(Vec<u8>, ValueType)>, ps: &Vec<(Vec<u8>, ValueType)>) -> (r: bool)
    ensures
        r == keys_within(qs@, ps@),
{
    let mut j: usize = 0;
    #[verifier::loop_isolation(false)]
    while j < qs.len()
        invariant
            j <= qs@.len(),
            forall|m: int| 0 <= m < j ==> pairs_view(ps@, 0).dom().contains(#[trigger] qs@[m].0@),
        decreases qs@.len() - j,
    {
        let found = lookup(ps, qs[j].0.as_slice());
        if found.is_none() {
            proof {
                lemma_occ_in_dom(qs@, 0, j as int);
                lemma_pairs_view_char(qs@, 0, qs@[j as int].0@);
                assert(!keys_within(qs@, ps@)) by {
                    if keys_within(qs@, ps@) {
                        assert(pairs_view(qs@, 0).dom().contains(qs@[j as int].0@));
                        assert(false);
                    }
                };
            }
            return false;
        }
        j = j + 1;
    }
    proof {
        assert forall|k: Seq<u8>| #![trigger pairs_view(qs@, 0).dom().contains(k)]
            pairs_view(qs@, 0).dom().contains(k) implies pairs_view(ps@, 0).dom().contains(
            k,
        ) by {
            lemma_pairs_view_char(qs@, 0, k);
            assert(qs@[last_occ(qs@, 0, k)].0@ == k);
        };
    }
    true
}

/// Whether, for every key visible among the pairs of `ps` from index `i` on,
/// the mapping described by `qs` binds the key to an equal subtree.
fn values_check(ps: &Vec<(Vec<u8>, ValueType)>, qs: &Vec<(Vec<u8>, ValueType)>, i: usize) -> (r:
    bool)
    requires
        i <= ps@.len(),
    ensures
        r == bindings_match(ps@, qs@, i as int),
    decreases *ps, ps@.len() - i,
{
    if i == ps.len() {
        proof {
            assert forall|k: Seq<u8>| #![trigger pairs_view(ps@, i as int).dom().contains(k)]
                pairs_view(ps@, i as int).dom().contains(k) implies pairs_view(
                qs@,
                0,
            ).dom().contains(k) && pairs_view(ps@, i as int)[k] == pairs_view(qs@, 0)[k] by {
                assert(false);
            };
        }
        return true;
    }
    let ghost ki = ps@[i as int].0@;
    proof {
        lemma_occ_in_dom(ps@, 0, i as int);
        lemma_pairs_view_char(ps@, 0, ki);
        lemma_occ_in_dom(ps@, i as int, i as int);
        lemma_pairs_view_char(ps@, i as int, ki);
        lemma_pairs_view_mono(ps@, i as int, ki);
    }
    let pfound = lookup(ps, ps[i].0.as_slice());
    let pvv = match pfound {
        Some(v) => v,
        None => {
            proof {
                assert(false);
            }
            return true;
        },
    };
    let qfound = lookup(qs, ps[i].0.as_slice());
    let qvv = match qfound {
        Some(v) => v,
        None => {
            proof {
                assert(!bindings_match(ps@, qs@, i as int)) by {
                    if bindings_match(ps@, qs@, i as int) {
                        assert(pairs_view(ps@, i as int).dom().contains(ki));
                        assert(pairs_view(qs@, 0).dom().contains(ki));
                        assert(false);
                    }
                };
            }
            return false;
        },
    };
    proof {
        let j = choose|j: int| 0 <= j < ps@.len() && *pvv == ps@[j].1;
        assert(decreases_to!(*ps => ps@));
        assert(decreases_to!(ps@ => ps@[j]));
        assert(decreases_to!(ps@[j] => ps@[j].1));
        assert(decreases_to!(*ps => *pvv));
    }
    let ok = tree_eq(pvv, qvv);
    if !ok {
        proof {
            assert(pairs_view(ps@, i as int)[ki] == pvv@);
            assert(pairs_view(qs@, 0)[ki] == qvv@);
            assert(!bindings_match(ps@, qs@, i as int)) by {
                if bindings_match(ps@, qs@, i as int) {
                    assert(pairs_view(ps@, i as int).dom().contains(ki));
                    assert(false);
                }
            };
        }
        return false;
    }
    let inext = i + 1;
    let rest_ok = values_check(ps, qs, inext);
    proof {
        let rest = pairs_view(ps@, inext as int);
        let cur = pairs_view(ps@, i as int);
        if rest.dom().contains(ki) {
            assert(cur == rest);
        } else {
            assert(cur == rest.insert(ki, ps@[i as int].1@));
        }
        assert(bindings_match(ps@, qs@, i as int) == bindings_match(ps@, qs@, inext as int)) by {
            if bindings_match(ps@, qs@, inext as int) {
                assert forall|k: Seq<u8>| #![trigger pairs_view(ps@, i as int).dom().contains(k)]
                    pairs_view(ps@, i as int).dom().contains(k) implies pairs_view(
                    qs@,
                    0,
                ).dom().contains(k) && pairs_view(ps@, i as int)[k] == pairs_view(qs@, 0)[k] by {
                    if pairs_view(ps@, inext as int).dom().contains(k) {
                        assert(cur[k] == rest[k]);
                        assert(pairs_view(qs@, 0).dom().contains(k));
                    } else {
                        assert(k == ki);
                        assert(cur[k] == ps@[i as int].1@);
                        lemma_pairs_view_char(ps@, i as int, k);
                        if last_occ(ps@, i as int, k) > i {
                            lemma_occ_in_dom(ps@, inext as int, last_occ(ps@, i as int, k));
                            lemma_pairs_view_char(ps@, inext as int, k);
                            assert(false);
                        }
                        assert(cur[k] == cur[ki]);
                    }
                };
                assert(bindings_match(ps@, qs@, i as int));
            }
            if bindings_match(ps@, qs@, i as int) {
                assert forall|k: Seq<u8>| #![trigger pairs_view(ps@, inext as int).dom().contains(k)]
                    pairs_view(ps@, inext as int).dom().contains(k) implies pairs_view(
                    qs@,
                    0,
                ).dom().contains(k) && pairs_view(ps@, inext as int)[k] == pairs_view(qs@, 0)[k] by {
                    assert(pairs_view(ps@, i as int).dom().contains(k));
                    assert(cur[k] == rest[k]);
                };
                assert(bindings_match(ps@, qs@, inext as int));
            }
        };
    }
    rest_ok
}

/// Structural, order-insensitive equality of two trees: two scalars are equal
/// exactly when their contents are equal, and two groups exactly when they
/// describe the same mapping, regardless of pair order.
pub fn tree_eq(a: &ValueType, b: &ValueType) -> (r: bool)
    ensures
        r == (a@ == b@),
    decreases *a, ps_len_of(a) + 1,
{
    match (a, b) {
        (ValueType::STRING(x), ValueType::STRING(y)) => bytes_eq(x.as_slice(), y.as_slice()),
        (ValueType::LIST(ps), ValueType::LIST(qs)) => {
            let ko = keys_subset(qs, ps);
            if !ko {
                proof {
                    if a@ == b@ {
                        assert(pairs_view(ps@, 0) == pairs_view(qs@, 0));
                        assert(keys_within(qs@, ps@)) by {
                            assert forall|k: Seq<u8>| #![trigger pairs_view(qs@, 0).dom().contains(k)]
                                pairs_view(qs@, 0).dom().contains(k) implies pairs_view(
                                ps@,
                                0,
                            ).dom().contains(k) by {};
                        };
                        assert(false);
                    }
                }
                return false;
            }
            proof {
                assert(decreases_to!(*a => *ps));
            }
            let vo = values_check(ps, qs, 0);
            proof {
                if vo {
                    assert forall|k: Seq<u8>|
                        #![trigger pairs_view(ps@, 0).dom().contains(k)]
                        #![trigger pairs_view(qs@, 0).dom().contains(k)]
                        pairs_view(ps@, 0).dom().contains(k) == pairs_view(
                            qs@,
                            0,
                        ).dom().contains(k) by {
                        if pairs_view(ps@, 0).dom().contains(k) {
                            assert(pairs_view(qs@, 0).dom().contains(k));
                        }
                        if pairs_view(qs@, 0).dom().contains(k) {
                            assert(pairs_view(ps@, 0).dom().contains(k));
                        }
                    };
                    assert(pairs_view(ps@, 0).dom() =~= pairs_view(qs@, 0).dom());
                    assert(pairs_view(ps@, 0) =~= pairs_view(qs@, 0));
                } else {
                    if a@ == b@ {
                        assert(pairs_view(ps@, 0) == pairs_view(qs@, 0));
                        assert(bindings_match(ps@, qs@, 0)) by {
                            assert forall|k: Seq<u8>| #![trigger pairs_view(ps@, 0).dom().contains(k)]
                                pairs_view(ps@, 0).dom().contains(k) implies pairs_view(
                                qs@,
                                0,
                            ).dom().contains(k) && pairs_view(ps@, 0)[k] == pairs_view(
                                qs@,
                                0,
                            )[k] by {};
                        };
                        assert(false);
                    }
                }
            }
            vo
        },
        _ => false,
    }
}

/// The number of pairs of a group, and zero for a scalar; a measure only.
pub open spec fn ps_len_of(a: &ValueType) -> int {
    match a {
        ValueType::STRING(_) => 0,
        ValueType::LIST(ps) => ps@.len() as int,
    }
}

impl PartialEq for ValueType {
    /// Structural equality as `tree_eq` computes it.
    fn eq(&self, other: &Self) -> bool {
        tree_eq(self, other)
    }
}

impl vstd::std_specs::cmp::PartialEqSpecImpl for ValueType {
    open spec fn obeys_eq_spec() -> bool {
        true
    }

    open spec fn eq_spec(&self, other: &Self) -> bool {
        self@ == other@
    }
}

} // verus!
