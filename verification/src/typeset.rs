//! Type-set expansion: the compile-time counterpart of the type graph.
//!
//! Where the graph walks descriptions at startup, the expander computes the
//! ordered, duplicate-free list of type identities reachable from a root
//! without constructing anything: each type's expansion step prepends its
//! immediate member types to the remainder of the worklist — the
//! continuation — and a type already in the accumulated set short-circuits
//! its own expansion, which is what terminates the computation on
//! self-referential and mutually recursive definitions. The final order is
//! declaration order, depth first, left to right.

use vstd::prelude::*;
use vstd::set_lib::{set_int_range, lemma_int_range};
use crate::defs::{member_types, spec_shape_members, TypeDef, TypeId};
use crate::graph::members_bounded;

verus! {

broadcast use vstd::set::group_set_axioms;

/// The identities accumulated so far, as mathematical integers.
pub open spec fn id_set(acc: Seq<TypeId>) -> Set<int> {
    acc.map_values(|u: TypeId| u as int).to_set()
}

/// The worklist stays inside the table, whose members stay inside it too.
pub open spec fn expand_wf(defs: Seq<TypeDef>, pending: Seq<TypeId>) -> bool {
    &&& members_bounded(defs)
    &&& forall|j: int| 0 <= j < pending.len() ==> (#[trigger] pending[j]) < defs.len()
}

/// The identities reachable from the pending types, in discovery order: the
/// head of the worklist joins the set if new — and only then are its member
/// types prepended to the continuation — or short-circuits its expansion if
/// already present.
pub open spec fn spec_expand(defs: Seq<TypeDef>, pending: Seq<TypeId>, acc: Seq<TypeId>) -> Seq<
    TypeId,
>
    decreases set_int_range(0, defs.len() as int).difference(id_set(acc)).len(), pending.len(),
        when expand_wf(defs, pending)
        via spec_expand_decreases
{
    if pending.len() == 0 {
        acc
    } else {
        let t = pending[0];
        if acc.contains(t) {
            spec_expand(defs, pending.drop_first(), acc)
        } else {
            spec_expand(
                defs,
                spec_shape_members(defs[t as int].shape) + pending.drop_first(),
                acc.push(t),
            )
        }
    }
}

/// Accumulating an identity out of the table's range that is not yet
/// accumulated shrinks what is left of the range by exactly one.
proof fn lemma_id_grow(n: int, acc: Seq<TypeId>, t: TypeId)
    requires
        0 <= t < n,
        !acc.contains(t),
    ensures
        id_set(acc.push(t)) == id_set(acc).insert(t as int),
        set_int_range(0, n).difference(id_set(acc.push(t))).len() == set_int_range(0, n).difference(
            id_set(acc),
        ).len() - 1,
{
    broadcast use vstd::seq_lib::seq_to_set_is_finite;

    let m = acc.map_values(|u: TypeId| u as int);
    let m2 = acc.push(t).map_values(|u: TypeId| u as int);
    assert(m2 =~= m.push(t as int));
    assert(id_set(acc.push(t)) =~= id_set(acc).insert(t as int)) by {
        assert forall|y: int| m.push(t as int).to_set().contains(y) implies m.to_set().insert(
            t as int,
        ).contains(y) by {
            let j = choose|j: int| 0 <= j < m.push(t as int).len() && m.push(t as int)[j] == y;
            if j < m.len() {
                assert(m[j] == y);
            }
        }
        assert forall|y: int| m.to_set().insert(t as int).contains(y) implies m.push(
            t as int,
        ).to_set().contains(y) by {
            if y == t as int {
                assert(m.push(t as int)[m.len() as int] == y);
            } else {
                let j = choose|j: int| 0 <= j < m.len() && m[j] == y;
                assert(m.push(t as int)[j] == y);
            }
        }
    }
    assert(!id_set(acc).contains(t as int)) by {
        if id_set(acc).contains(t as int) {
            let j = choose|j: int| 0 <= j < m.len() && m[j] == t as int;
            assert(acc[j] == t);
        }
    }
    lemma_int_range(0, n);
    assert(set_int_range(0, n).difference(id_set(acc.push(t))) =~= set_int_range(0, n).difference(
        id_set(acc),
    ).remove(t as int));
    assert(set_int_range(0, n).difference(id_set(acc)).contains(t as int));
    assert(set_int_range(0, n).difference(id_set(acc)).finite());
}

#[via_fn]
proof fn spec_expand_decreases(defs: Seq<TypeDef>, pending: Seq<TypeId>, acc: Seq<TypeId>) {
    if pending.len() > 0 {
        let t = pending[0];
        if !acc.contains(t) {
            let members = spec_shape_members(defs[t as int].shape);
            assert(forall|j: int| 0 <= j < members.len() ==> (#[trigger] members[j]) < defs.len());
            assert(forall|j: int|
                0 <= j < (members + pending.drop_first()).len() ==> #[trigger] (members
                    + pending.drop_first())[j] < defs.len());
            lemma_id_grow(defs.len() as int, acc, t);
        }
    }
}

/// What an expansion leaves behind: everything accumulated stays, nothing
/// is doubled, and nothing outside the table comes in.
proof fn lemma_expand_props(defs: Seq<TypeDef>, pending: Seq<TypeId>, acc: Seq<TypeId>)
    requires
        expand_wf(defs, pending),
        acc.no_duplicates(),
        forall|j: int| 0 <= j < acc.len() ==> (#[trigger] acc[j]) < defs.len(),
    ensures
        ({
            let r = spec_expand(defs, pending, acc);
            &&& r.no_duplicates()
            &&& (forall|j: int| 0 <= j < r.len() ==> (#[trigger] r[j]) < defs.len())
            &&& (forall|x: TypeId| acc.contains(x) ==> r.contains(x))
        }),
    decreases set_int_range(0, defs.len() as int).difference(id_set(acc)).len(), pending.len(),
{
    if pending.len() == 0 {
    } else {
        let t = pending[0];
        if acc.contains(t) {
            lemma_expand_props(defs, pending.drop_first(), acc);
            assert(forall|j: int|
                0 <= j < pending.drop_first().len() ==> #[trigger] pending.drop_first()[j]
                    < defs.len());
        } else {
            lemma_id_grow(defs.len() as int, acc, t);
            let acc2 = acc.push(t);
            let members = spec_shape_members(defs[t as int].shape);
            let pending2 = members + pending.drop_first();
            assert(expand_wf(defs, pending2)) by {
                assert(forall|j: int|
                    0 <= j < members.len() ==> (#[trigger] members[j]) < defs.len());
                assert(forall|j: int|
                    0 <= j < pending2.len() ==> #[trigger] pending2[j] < defs.len());
            }
            assert(acc2.no_duplicates()) by {
                assert forall|p: int, q: int| 0 <= p < q < acc2.len() implies acc2[p]
                    != acc2[q] by {
                    if q < acc2.len() - 1 {
                        assert(acc[p] != acc[q]);
                    } else {
                        if acc2[p] == t {
                            assert(acc.contains(t));
                        }
                    }
                }
            }
            assert(forall|j: int| 0 <= j < acc2.len() ==> (#[trigger] acc2[j]) < defs.len());
            lemma_expand_props(defs, pending2, acc2);
            assert forall|x: TypeId| acc.contains(x) implies acc2.contains(x) by {
                let j = choose|j: int| 0 <= j < acc.len() && acc[j] == x;
                assert(acc2[j] == x);
            }
        }
    }
}

/// Decides whether an identity is already accumulated.
fn contains_id(acc: &Vec<TypeId>, t: TypeId) -> (r: bool)
    ensures
        r == acc@.contains(t),
{
    let mut i: usize = 0;
    while i < acc.len()
        invariant
            i <= acc@.len(),
            forall|j: int| 0 <= j < i ==> acc@[j] != t,
        decreases acc@.len() - i,
    {
        if acc[i] == t {
            return true;
        }
        i = i + 1;
    }
    false
}

/// Expands the set of type identities reachable from `root`, without
/// constructing any instance: exactly [`spec_expand`] from the root on an
/// empty set — an ordered, duplicate-free registration list.
#[verifier::loop_isolation(false)]
pub fn expand_type_set(defs: &Vec<TypeDef>, root: TypeId) -> (r: Vec<TypeId>)
    requires
        members_bounded(defs@),
        root < defs@.len(),
    ensures
        r@ == spec_expand(defs@, seq![root], Seq::<TypeId>::empty()),
        r@.no_duplicates(),
        forall|j: int| 0 <= j < r@.len() ==> (#[trigger] r@[j]) < defs@.len(),
{
    let mut pending: Vec<TypeId> = Vec::new();
    pending.push(root);
    let mut acc: Vec<TypeId> = Vec::new();
    proof {
        assert(pending@ =~= seq![root]);
        assert(forall|j: int| 0 <= j < pending@.len() ==> #[trigger] pending@[j] < defs@.len());
    }
    let ghost target = spec_expand(defs@, seq![root], Seq::<TypeId>::empty());
    while pending.len() > 0
        invariant
            expand_wf(defs@, pending@),
            acc@.no_duplicates(),
            forall|j: int| 0 <= j < acc@.len() ==> (#[trigger] acc@[j]) < defs@.len(),
            spec_expand(defs@, pending@, acc@) == target,
        decreases set_int_range(0, defs@.len() as int).difference(id_set(acc@)).len(),
            pending@.len(),
    {
        let ghost pending0 = pending@;
        let t = pending.remove(0);
        proof {
            assert(pending@ =~= pending0.drop_first());
            assert(forall|j: int| 0 <= j < pending@.len() ==> #[trigger] pending@[j] < defs@.len());
        }
        if contains_id(&acc, t) {
            // the identity short-circuits its own expansion
        } else {
            proof {
                lemma_id_grow(defs@.len() as int, acc@, t);
            }
            let ghost acc0 = acc@;
            let ghost rest = pending@;
            acc.push(t);
            let mut np = member_types(&defs[t].shape);
            np.append(&mut pending);
            pending = np;
            proof {
                assert(acc@ =~= acc0.push(t));
                assert(pending@ =~= spec_shape_members(defs@[t as int].shape) + rest);
                assert(forall|j: int|
                    0 <= j < spec_shape_members(defs@[t as int].shape).len()
                        ==> #[trigger] spec_shape_members(defs@[t as int].shape)[j] < defs@.len());
                assert(forall|j: int|
                    0 <= j < pending@.len() ==> #[trigger] pending@[j] < defs@.len());
                assert(acc@.no_duplicates()) by {
                    assert forall|p: int, q: int| 0 <= p < q < acc@.len() implies acc@[p]
                        != acc@[q] by {
                        if q < acc@.len() - 1 {
                            assert(acc0[p] != acc0[q]);
                        } else {
                            if acc@[p] == t {
                                assert(acc0.contains(t));
                            }
                        }
                    }
                }
            }
        }
    }
    proof {
        assert(spec_expand(defs@, pending@, acc@) == acc@);
    }
    acc
}

/// Termination with a single listing: expanding from a root — on a
/// self-referential table as well as any other, since a present identity
/// short-circuits its own expansion — lists the root, and no identity
/// twice.
pub proof fn lemma_expand_exactly_once(defs: Seq<TypeDef>, root: TypeId)
    requires
        members_bounded(defs),
        root < defs.len(),
    ensures
        spec_expand(defs, seq![root], Seq::<TypeId>::empty()).no_duplicates(),
        spec_expand(defs, seq![root], Seq::<TypeId>::empty()).contains(root),
{
    let acc0 = Seq::<TypeId>::empty();
    assert(expand_wf(defs, seq![root])) by {
        assert(forall|j: int| 0 <= j < seq![root].len() ==> #[trigger] seq![root][j] < defs.len());
    }
    assert(seq![root][0] == root);
    assert(!acc0.contains(root));
    let acc1 = acc0.push(root);
    let ms = spec_shape_members(defs[root as int].shape);
    assert(seq![root].drop_first() =~= Seq::<TypeId>::empty());
    assert(ms + Seq::<TypeId>::empty() =~= ms);
    assert(spec_expand(defs, seq![root], acc0) == spec_expand(defs, ms, acc1));
    assert(expand_wf(defs, ms)) by {
        assert(forall|j: int| 0 <= j < ms.len() ==> (#[trigger] ms[j]) < defs.len());
    }
    assert(acc1.no_duplicates());
    assert(forall|j: int| 0 <= j < acc1.len() ==> (#[trigger] acc1[j]) < defs.len());
    lemma_expand_props(defs, ms, acc1);
    assert(acc1.contains(root)) by {
        assert(acc1[0] == root);
    }
}

/// The identities' descriptions, in order.
pub open spec fn described(lv: Seq<crate::layout::TypeLayoutInfoV>, acc: Seq<TypeId>) -> Seq<
    crate::layout::TypeLayoutInfoV,
> {
    acc.map_values(|t: TypeId| lv[t as int])
}

/// The startup graph walk and the compile-time expansion are one
/// computation: when the table's descriptions are pairwise distinct, the
/// graph a walk accumulates is exactly the expansion's identity list, each
/// identity replaced by its description — same members, same order.
pub proof fn lemma_expand_matches_reach(
    defs: Seq<TypeDef>,
    lv: Seq<crate::layout::TypeLayoutInfoV>,
    pending: Seq<TypeId>,
    acc: Seq<TypeId>,
)
    requires
        expand_wf(defs, pending),
        lv.len() == defs.len(),
        forall|i: int, j: int| 0 <= i < j < lv.len() ==> lv[i] != lv[j],
        forall|j: int| 0 <= j < acc.len() ==> (#[trigger] acc[j]) < defs.len(),
    ensures
        crate::graph::spec_reach(defs, lv, pending, described(lv, acc)) == described(
            lv,
            spec_expand(defs, pending, acc),
        ),
    decreases set_int_range(0, defs.len() as int).difference(id_set(acc)).len(), pending.len(),
{
    assert(crate::graph::reach_wf(defs, lv, pending));
    let accl = described(lv, acc);
    if pending.len() == 0 {
    } else {
        let t = pending[0];
        assert(acc.contains(t) == accl.contains(lv[t as int])) by {
            if acc.contains(t) {
                let j = choose|j: int| 0 <= j < acc.len() && acc[j] == t;
                assert(accl[j] == lv[t as int]);
            }
            if accl.contains(lv[t as int]) {
                let j = choose|j: int| 0 <= j < accl.len() && accl[j] == lv[t as int];
                assert(lv[acc[j] as int] == lv[t as int]);
                assert(acc[j] == t) by {
                    if acc[j] < t {
                        assert(lv[acc[j] as int] != lv[t as int]);
                    } else if acc[j] > t {
                        assert(lv[t as int] != lv[acc[j] as int]);
                    }
                }
            }
        }
        if acc.contains(t) {
            assert(forall|j: int|
                0 <= j < pending.drop_first().len() ==> #[trigger] pending.drop_first()[j]
                    < defs.len());
            lemma_expand_matches_reach(defs, lv, pending.drop_first(), acc);
        } else {
            lemma_id_grow(defs.len() as int, acc, t);
            let members = spec_shape_members(defs[t as int].shape);
            let pending2 = members + pending.drop_first();
            assert(expand_wf(defs, pending2)) by {
                assert(forall|j: int|
                    0 <= j < members.len() ==> (#[trigger] members[j]) < defs.len());
                assert(forall|j: int|
                    0 <= j < pending2.len() ==> #[trigger] pending2[j] < defs.len());
            }
            let acc2 = acc.push(t);
            assert(forall|j: int| 0 <= j < acc2.len() ==> (#[trigger] acc2[j]) < defs.len());
            assert(described(lv, acc2) =~= accl.push(lv[t as int]));
            lemma_expand_matches_reach(defs, lv, pending2, acc2);
        }
    }
}

/// Determinism: the expansion is a function of the definitions and the root
/// alone — two expansions of equal inputs list the same identities in the
/// same order.
pub proof fn lemma_expand_deterministic(
    defs: Seq<TypeDef>,
    root: TypeId,
    r1: Seq<TypeId>,
    r2: Seq<TypeId>,
)
    requires
        r1 == spec_expand(defs, seq![root], Seq::<TypeId>::empty()),
        r2 == spec_expand(defs, seq![root], Seq::<TypeId>::empty()),
    ensures
        r1 == r2,
{
}

} // verus!
