//! The type graph: every type transitively reachable from a root, each
//! exactly once, in first-discovery order.
//!
//! The graph is an insertion-ordered set of descriptions keyed by structural
//! identity. A traversal inserts the root's description and, only when the
//! insertion was new, walks on into every member type — checking *before*
//! recursing, which is the sole cycle-breaking mechanism and what makes the
//! walk terminate on self-referential definitions. Inserting a description
//! already present changes nothing, so the traversal is idempotent, and its
//! outcome is a function of the definitions alone, so two walks of equal
//! inputs discover in one order.

use vstd::prelude::*;
use crate::defs::{member_types, spec_shape_members, TypeDef, TypeId};
use crate::layout::{clone_info, eq_info, TypeLayoutInfo, TypeLayoutInfoV};

verus! {

broadcast use vstd::seq_lib::seq_to_set_is_finite, vstd::set::group_set_axioms;

/// What inserting one description into an insertion-ordered set does:
/// nothing when it is already present, else it goes to the end.
pub open spec fn spec_graph_insert(g: Seq<TypeLayoutInfoV>, x: TypeLayoutInfoV) -> Seq<
    TypeLayoutInfoV,
> {
    if g.contains(x) {
        g
    } else {
        g.push(x)
    }
}

/// Idempotence: inserting a description twice is inserting it once —
/// neither membership nor order changes the second time.
pub proof fn lemma_graph_insert_idempotent(g: Seq<TypeLayoutInfoV>, x: TypeLayoutInfoV)
    ensures
        spec_graph_insert(spec_graph_insert(g, x), x) == spec_graph_insert(g, x),
{
    assert(spec_graph_insert(g, x).contains(x)) by {
        if !g.contains(x) {
            assert(g.push(x)[g.len() as int] == x);
        }
    }
}

/// An insertion-ordered set of descriptions, keyed by structural identity:
/// created empty, grown only by [`TypeLayoutGraph::insert`], read-only
/// afterwards.
#[derive(Debug)]
pub struct TypeLayoutGraph {
    entries: Vec<TypeLayoutInfo>,
}

impl View for TypeLayoutGraph {
    type V = Seq<TypeLayoutInfoV>;

    closed spec fn view(&self) -> Seq<TypeLayoutInfoV> {
        self.entries@.map_values(|e: TypeLayoutInfo| e@)
    }
}

impl TypeLayoutGraph {
    /// Well-formedness: no description stands in the graph twice. `new`
    /// establishes it and `insert` preserves it.
    pub open spec fn distinct(&self) -> bool {
        self@.no_duplicates()
    }

    /// An empty graph, ready for one traversal.
    pub fn new() -> (r: TypeLayoutGraph)
        ensures
            r@ == Seq::<TypeLayoutInfoV>::empty(),
            r.distinct(),
    {
        let r = TypeLayoutGraph { entries: Vec::new() };
        proof {
            assert(r@ =~= Seq::<TypeLayoutInfoV>::empty());
        }
        r
    }

    /// How many types the graph holds.
    pub fn len(&self) -> (r: usize)
        ensures
            r == self@.len(),
    {
        self.entries.len()
    }

    /// The description at one position of the discovery order.
    pub fn get(&self, i: usize) -> (r: &TypeLayoutInfo)
        requires
            i < self@.len(),
        ensures
            r@ == self@[i as int],
    {
        &self.entries[i]
    }

    /// Whether a structurally identical description is already present.
    pub fn contains(&self, info: &TypeLayoutInfo) -> (r: bool)
        ensures
            r == self@.contains(info@),
    {
        let mut i: usize = 0;
        while i < self.entries.len()
            invariant
                i <= self@.len(),
                self@.len() == self.entries@.len(),
                forall|j: int| 0 <= j < i ==> self@[j] != info@,
            decreases self@.len() - i,
        {
            if eq_info(&self.entries[i], info) {
                proof {
                    assert(self@[i as int] == info@);
                }
                return true;
            }
            i = i + 1;
        }
        false
    }

    /// Inserts a description, keyed by structural identity. Reports whether
    /// it was new; when it was not, the graph — membership and order — is
    /// unchanged, and a traversal must not recurse.
    pub fn insert(&mut self, info: TypeLayoutInfo) -> (added: bool)
        ensures
            final(self)@ == spec_graph_insert(old(self)@, info@),
            added == !old(self)@.contains(info@),
            old(self).distinct() ==> final(self).distinct(),
    {
        if self.contains(&info) {
            return false;
        }
        let ghost pre = self@;
        self.entries.push(info);
        proof {
            assert(self@ =~= pre.push(info@));
            if pre.no_duplicates() {
                assert forall|p: int, q: int| 0 <= p < q < self@.len() implies self@[p]
                    != self@[q] by {
                    if q < self@.len() - 1 {
                        assert(pre[p] != pre[q]);
                    } else {
                        assert(self@[q] == info@);
                        if pre[p] == info@ {
                            assert(pre.contains(info@));
                        }
                    }
                }
            }
        }
        true
    }
}

/// The descriptions reachable from the pending types, discovered depth
/// first, left to right: the type at the head of the worklist is inserted
/// if new — and only then are its members prepended — or skipped if its
/// description is already accumulated.
pub open spec fn spec_reach(
    defs: Seq<TypeDef>,
    lv: Seq<TypeLayoutInfoV>,
    pending: Seq<TypeId>,
    acc: Seq<TypeLayoutInfoV>,
) -> Seq<TypeLayoutInfoV>
    decreases lv.to_set().difference(acc.to_set()).len(), pending.len(),
        when reach_wf(defs, lv, pending)
        via spec_reach_decreases
{
    if pending.len() == 0 {
        acc
    } else {
        let t = pending[0] as int;
        if acc.contains(lv[t]) {
            spec_reach(defs, lv, pending.drop_first(), acc)
        } else {
            spec_reach(
                defs,
                lv,
                spec_shape_members(defs[t].shape) + pending.drop_first(),
                acc.push(lv[t]),
            )
        }
    }
}

/// The table closes over its members, the descriptions match the table, and
/// the worklist stays inside it.
pub open spec fn reach_wf(
    defs: Seq<TypeDef>,
    lv: Seq<TypeLayoutInfoV>,
    pending: Seq<TypeId>,
) -> bool {
    &&& members_bounded(defs)
    &&& lv.len() == defs.len()
    &&& forall|j: int| 0 <= j < pending.len() ==> (#[trigger] pending[j]) < defs.len()
}

/// Every member of every definition names an entry of the table.
pub open spec fn members_bounded(defs: Seq<TypeDef>) -> bool {
    forall|i: int, k: int|
        0 <= i < defs.len() && 0 <= k < spec_shape_members(defs[i].shape).len()
            ==> (#[trigger] spec_shape_members(defs[i].shape)[k]) < defs.len()
}

/// Accumulating a description that is in the table but not yet accumulated
/// shrinks what is left of the table by exactly one.
proof fn lemma_acc_grow(lv: Seq<TypeLayoutInfoV>, acc: Seq<TypeLayoutInfoV>, x: TypeLayoutInfoV)
    requires
        lv.to_set().contains(x),
        !acc.contains(x),
    ensures
        acc.push(x).to_set() == acc.to_set().insert(x),
        lv.to_set().difference(acc.push(x).to_set()).len() == lv.to_set().difference(
            acc.to_set(),
        ).len() - 1,
{
    assert(acc.push(x).to_set() =~= acc.to_set().insert(x)) by {
        assert forall|y: TypeLayoutInfoV| acc.push(x).to_set().contains(y)
            implies acc.to_set().insert(x).contains(y) by {
            let j = choose|j: int| 0 <= j < acc.push(x).len() && acc.push(x)[j] == y;
            if j < acc.len() {
                assert(acc[j] == y);
            }
        }
        assert forall|y: TypeLayoutInfoV| acc.to_set().insert(x).contains(y)
            implies acc.push(x).to_set().contains(y) by {
            if y == x {
                assert(acc.push(x)[acc.len() as int] == y);
            } else {
                let j = choose|j: int| 0 <= j < acc.len() && acc[j] == y;
                assert(acc.push(x)[j] == y);
            }
        }
    }
    assert(lv.to_set().difference(acc.push(x).to_set()) =~= lv.to_set().difference(
        acc.to_set(),
    ).remove(x));
    assert(lv.to_set().difference(acc.to_set()).contains(x));
    assert(lv.to_set().finite());
    assert(lv.to_set().difference(acc.to_set()).finite());
}

#[via_fn]
proof fn spec_reach_decreases(
    defs: Seq<TypeDef>,
    lv: Seq<TypeLayoutInfoV>,
    pending: Seq<TypeId>,
    acc: Seq<TypeLayoutInfoV>,
) {
    if pending.len() > 0 {
        let t = pending[0] as int;
        if !acc.contains(lv[t]) {
            let members = spec_shape_members(defs[t].shape);
            assert(forall|j: int| 0 <= j < members.len() ==> (#[trigger] members[j]) < defs.len());
            assert(forall|j: int|
                0 <= j < (members + pending.drop_first()).len() ==> #[trigger] (members
                    + pending.drop_first())[j] < defs.len());
            assert(lv.to_set().contains(lv[t])) by {
                assert(lv[t] == lv[t]);
            }
            lemma_acc_grow(lv, acc, lv[t]);
        }
    }
}

/// What a traversal leaves behind: everything accumulated stays, in place;
/// nothing outside the table comes in; and no description is doubled.
proof fn lemma_reach_props(
    defs: Seq<TypeDef>,
    lv: Seq<TypeLayoutInfoV>,
    pending: Seq<TypeId>,
    acc: Seq<TypeLayoutInfoV>,
)
    requires
        reach_wf(defs, lv, pending),
        acc.no_duplicates(),
        forall|x: TypeLayoutInfoV| acc.contains(x) ==> lv.contains(x),
    ensures
        ({
            let r = spec_reach(defs, lv, pending, acc);
            &&& r.no_duplicates()
            &&& (forall|x: TypeLayoutInfoV| r.contains(x) ==> lv.contains(x))
            &&& (forall|x: TypeLayoutInfoV| acc.contains(x) ==> r.contains(x))
            &&& acc.to_set().subset_of(r.to_set())
            &&& acc.len() <= r.len()
            &&& r.take(acc.len() as int) == acc
        }),
    decreases lv.to_set().difference(acc.to_set()).len(), pending.len(),
{
    broadcast use vstd::seq_lib::group_seq_properties;

    if pending.len() == 0 {
        assert(spec_reach(defs, lv, pending, acc) == acc);
        assert(acc.take(acc.len() as int) =~= acc);
        assert(acc.to_set().subset_of(acc.to_set()));
    } else {
        let t = pending[0] as int;
        if acc.contains(lv[t]) {
            lemma_reach_props(defs, lv, pending.drop_first(), acc);
        } else {
            let x = lv[t];
            let acc2 = acc.push(x);
            assert(lv.contains(x)) by {
                assert(lv[t] == x);
            }
            assert(lv.to_set().contains(x));
            lemma_acc_grow(lv, acc, x);
            let members = spec_shape_members(defs[t].shape);
            let pending2 = members + pending.drop_first();
            assert(reach_wf(defs, lv, pending2)) by {
                assert(forall|j: int|
                    0 <= j < members.len() ==> (#[trigger] members[j]) < defs.len());
                assert(forall|j: int|
                    0 <= j < pending2.len() ==> #[trigger] pending2[j] < defs.len());
            }
            assert(acc2.no_duplicates()) by {
                assert forall|p: int, q: int| 0 <= p < q < acc2.len() implies acc2[p]
                    != acc2[q] by {
                    if q < acc2.len() - 1 {
                        assert(acc[p] != acc[q]);
                    } else {
                        if acc2[p] == x {
                            assert(acc.contains(x));
                        }
                    }
                }
            }
            assert(forall|y: TypeLayoutInfoV| acc2.contains(y) ==> acc.contains(y) || y == x);
            lemma_reach_props(defs, lv, pending2, acc2);
            let r = spec_reach(defs, lv, pending, acc);
            assert(r == spec_reach(defs, lv, pending2, acc2));
            assert(forall|y: TypeLayoutInfoV| acc.contains(y) ==> acc2.contains(y));
            assert(acc.to_set().subset_of(acc2.to_set()));
            assert(r.take(acc2.len() as int) == acc2);
            assert(r.take(acc.len() as int) =~= acc) by {
                assert(forall|j: int|
                    0 <= j < acc.len() ==> r.take(acc2.len() as int)[j] == acc2[j] && acc2[j]
                        == acc[j]);
                assert(forall|j: int|
                    0 <= j < acc.len() ==> r.take(acc.len() as int)[j] == r[j] && r.take(
                        acc2.len() as int,
                    )[j] == r[j]);
            }
        }
    }
}

/// Traversing one worklist after another is traversing their concatenation.
proof fn lemma_reach_concat(
    defs: Seq<TypeDef>,
    lv: Seq<TypeLayoutInfoV>,
    front: Seq<TypeId>,
    back: Seq<TypeId>,
    acc: Seq<TypeLayoutInfoV>,
)
    requires
        reach_wf(defs, lv, front),
        reach_wf(defs, lv, back),
    ensures
        spec_reach(defs, lv, front + back, acc) == spec_reach(
            defs,
            lv,
            back,
            spec_reach(defs, lv, front, acc),
        ),
    decreases lv.to_set().difference(acc.to_set()).len(), front.len(),
{
    assert(reach_wf(defs, lv, front + back)) by {
        assert(forall|j: int|
            0 <= j < (front + back).len() ==> #[trigger] (front + back)[j] < defs.len());
    }
    if front.len() == 0 {
        assert(front + back =~= back);
        assert(spec_reach(defs, lv, front, acc) == acc);
    } else {
        let t = front[0] as int;
        assert((front + back)[0] == front[0]);
        assert((front + back).drop_first() =~= front.drop_first() + back);
        assert(reach_wf(defs, lv, front.drop_first())) by {
            assert(forall|j: int|
                0 <= j < front.drop_first().len() ==> #[trigger] front.drop_first()[j]
                    < defs.len());
        }
        if acc.contains(lv[t]) {
            lemma_reach_concat(defs, lv, front.drop_first(), back, acc);
        } else {
            let x = lv[t];
            assert(lv.to_set().contains(x)) by {
                assert(lv[t] == x);
            }
            lemma_acc_grow(lv, acc, x);
            let members = spec_shape_members(defs[t].shape);
            assert(forall|j: int| 0 <= j < members.len() ==> (#[trigger] members[j]) < defs.len());
            let rest = members + front.drop_first();
            assert(reach_wf(defs, lv, rest)) by {
                assert(forall|j: int| 0 <= j < rest.len() ==> #[trigger] rest[j] < defs.len());
            }
            assert(members + (front + back).drop_first() =~= rest + back);
            lemma_reach_concat(defs, lv, rest, back, acc.push(x));
        }
    }
}

/// Walks the graph from type `t`: inserts its description and, exactly when
/// it was new, walks on into every member type, in declaration order. The
/// check-then-recurse order is what terminates the walk on cyclic
/// definitions, and the outcome is precisely [`spec_reach`] from `t` on the
/// graph so far.
#[verifier::loop_isolation(false)]
pub fn populate_graph(
    defs: &Vec<TypeDef>,
    layouts: &Vec<TypeLayoutInfo>,
    t: TypeId,
    graph: &mut TypeLayoutGraph,
)
    requires
        members_bounded(defs@),
        layouts@.len() == defs@.len(),
        t < defs@.len(),
        old(graph).distinct(),
        forall|x: TypeLayoutInfoV|
            old(graph)@.contains(x) ==> layouts@.map_values(|l: TypeLayoutInfo| l@).contains(x),
    ensures
        final(graph)@ == spec_reach(
            defs@,
            layouts@.map_values(|l: TypeLayoutInfo| l@),
            seq![t],
            old(graph)@,
        ),
        final(graph).distinct(),
        forall|x: TypeLayoutInfoV|
            final(graph)@.contains(x) ==> layouts@.map_values(|l: TypeLayoutInfo| l@).contains(x),
    decreases layouts@.map_values(|l: TypeLayoutInfo| l@).to_set().difference(
        graph@.to_set(),
    ).len(),
{
    let ghost lv = layouts@.map_values(|l: TypeLayoutInfo| l@);
    let ghost g0 = graph@;
    proof {
        assert(reach_wf(defs@, lv, seq![t])) by {
            assert(forall|j: int| 0 <= j < seq![t].len() ==> #[trigger] seq![t][j] < defs@.len());
        }
        assert(seq![t][0] == t);
        assert(seq![t].drop_first() =~= Seq::<TypeId>::empty());
        assert(lv[t as int] == layouts@[t as int]@);
    }
    let info = clone_info(&layouts[t]);
    let added = graph.insert(info);
    if !added {
        proof {
            assert(reach_wf(defs@, lv, Seq::<TypeId>::empty()));
            assert(spec_reach(defs@, lv, Seq::<TypeId>::empty(), g0) == g0);
            assert(graph@ == spec_reach(defs@, lv, seq![t], g0));
        }
        return ;
    }
    let ghost g1 = g0.push(lv[t as int]);
    proof {
        assert(lv.to_set().contains(lv[t as int]));
        lemma_acc_grow(lv, g0, lv[t as int]);
        assert(forall|x: TypeLayoutInfoV| g1.contains(x) ==> g0.contains(x) || x == lv[t as int]);
        assert(lv.contains(lv[t as int]));
    }
    let members = member_types(&defs[t].shape);
    let ghost ms = spec_shape_members(defs@[t as int].shape);
    proof {
        assert(forall|j: int| 0 <= j < ms.len() ==> (#[trigger] ms[j]) < defs@.len());
        assert(ms.take(0) =~= Seq::<TypeId>::empty());
        assert(graph@ == spec_reach(defs@, lv, ms.take(0), g1));
    }
    let mut k: usize = 0;
    while k < members.len()
        invariant
            k <= ms.len(),
            members@ == ms,
            graph@ == spec_reach(defs@, lv, ms.take(k as int), g1),
            graph.distinct(),
            forall|x: TypeLayoutInfoV| graph@.contains(x) ==> lv.contains(x),
            g1.to_set().subset_of(graph@.to_set()),
        decreases ms.len() - k,
    {
        let ghost gcur = graph@;
        proof {
            assert(reach_wf(defs@, lv, seq![members@[k as int]])) by {
                assert(forall|j: int|
                    0 <= j < seq![members@[k as int]].len() ==> #[trigger] seq![
                        members@[k as int],
                    ][j] < defs@.len());
            }
            assert(lv.to_set().difference(gcur.to_set()).len() < lv.to_set().difference(
                g0.to_set(),
            ).len()) by {
                assert(lv.to_set().difference(gcur.to_set()).subset_of(
                    lv.to_set().difference(g1.to_set()),
                ));
                assert(lv.to_set().finite());
                assert(lv.to_set().difference(g1.to_set()).finite());
                vstd::set_lib::lemma_len_subset(
                    lv.to_set().difference(gcur.to_set()),
                    lv.to_set().difference(g1.to_set()),
                );
            }
        }
        populate_graph(defs, layouts, members[k], graph);
        proof {
            assert(ms.take(k as int + 1) =~= ms.take(k as int) + seq![ms[k as int]]);
            assert(reach_wf(defs@, lv, ms.take(k as int))) by {
                assert(forall|j: int|
                    0 <= j < ms.take(k as int).len() ==> #[trigger] ms.take(k as int)[j]
                        < defs@.len());
            }
            lemma_reach_concat(defs@, lv, ms.take(k as int), seq![ms[k as int]], g1);
            assert(graph@ == spec_reach(defs@, lv, ms.take(k as int + 1), g1));
            assert(g1.to_set().subset_of(graph@.to_set())) by {
                assert(gcur.to_set().subset_of(graph@.to_set())) by {
                    assert(reach_wf(defs@, lv, seq![members@[k as int]]));
                    lemma_reach_props(defs@, lv, seq![members@[k as int]], gcur);
                }
            }
        }
        k = k + 1;
    }
    proof {
        assert(ms.take(ms.len() as int) =~= ms);
        assert(ms + Seq::<TypeId>::empty() =~= ms);
        assert(graph@ == spec_reach(defs@, lv, seq![t], g0));
    }
}

/// Termination with a single visit: the walk from a root — on a
/// self-referential table as well as any other, since the dedup check runs
/// before every recursion — accumulates the root's description, and no
/// description twice.
pub proof fn lemma_reach_exactly_once(defs: Seq<TypeDef>, lv: Seq<TypeLayoutInfoV>, t: TypeId)
    requires
        members_bounded(defs),
        lv.len() == defs.len(),
        t < defs.len(),
    ensures
        spec_reach(defs, lv, seq![t], Seq::empty()).no_duplicates(),
        spec_reach(defs, lv, seq![t], Seq::empty()).contains(lv[t as int]),
{
    let acc0 = Seq::<TypeLayoutInfoV>::empty();
    assert(reach_wf(defs, lv, seq![t])) by {
        assert(forall|j: int| 0 <= j < seq![t].len() ==> #[trigger] seq![t][j] < defs.len());
    }
    assert(seq![t][0] == t);
    assert(!acc0.contains(lv[t as int]));
    let acc1 = acc0.push(lv[t as int]);
    let ms = spec_shape_members(defs[t as int].shape);
    assert(seq![t].drop_first() =~= Seq::<TypeId>::empty());
    assert(ms + Seq::<TypeId>::empty() =~= ms);
    assert(spec_reach(defs, lv, seq![t], acc0) == spec_reach(defs, lv, ms, acc1));
    assert(reach_wf(defs, lv, ms)) by {
        assert(forall|j: int| 0 <= j < ms.len() ==> (#[trigger] ms[j]) < defs.len());
    }
    assert(acc1.no_duplicates());
    assert(forall|x: TypeLayoutInfoV| acc1.contains(x) ==> x == lv[t as int]);
    assert(lv.contains(lv[t as int]));
    lemma_reach_props(defs, lv, ms, acc1);
    assert(acc1.contains(lv[t as int])) by {
        assert(acc1[0] == lv[t as int]);
    }
}

/// Idempotence of the traversal: walking the graph from a root it has
/// already been walked from changes neither membership nor order — the
/// root's description is present, so nothing re-triggers recursive
/// expansion.
pub proof fn lemma_populate_idempotent(
    defs: Seq<TypeDef>,
    lv: Seq<TypeLayoutInfoV>,
    t: TypeId,
    g: Seq<TypeLayoutInfoV>,
)
    requires
        members_bounded(defs),
        lv.len() == defs.len(),
        t < defs.len(),
        g.no_duplicates(),
        forall|x: TypeLayoutInfoV| g.contains(x) ==> lv.contains(x),
    ensures
        spec_reach(defs, lv, seq![t], spec_reach(defs, lv, seq![t], g)) == spec_reach(
            defs,
            lv,
            seq![t],
            g,
        ),
{
    assert(reach_wf(defs, lv, seq![t])) by {
        assert(forall|j: int| 0 <= j < seq![t].len() ==> #[trigger] seq![t][j] < defs.len());
    }
    assert(seq![t][0] == t);
    assert(seq![t].drop_first() =~= Seq::<TypeId>::empty());
    assert(reach_wf(defs, lv, Seq::<TypeId>::empty()));
    assert(spec_reach(defs, lv, Seq::<TypeId>::empty(), g) == g);
    let r = spec_reach(defs, lv, seq![t], g);
    assert(r.contains(lv[t as int])) by {
        if g.contains(lv[t as int]) {
            assert(r == spec_reach(defs, lv, seq![t].drop_first(), g));
            assert(r == g);
        } else {
            let g1 = g.push(lv[t as int]);
            let ms = spec_shape_members(defs[t as int].shape);
            assert(ms + Seq::<TypeId>::empty() =~= ms);
            assert(r == spec_reach(defs, lv, ms, g1));
            assert(reach_wf(defs, lv, ms)) by {
                assert(forall|j: int| 0 <= j < ms.len() ==> (#[trigger] ms[j]) < defs.len());
            }
            assert(g1.no_duplicates()) by {
                assert forall|p: int, q: int| 0 <= p < q < g1.len() implies g1[p] != g1[q] by {
                    if q < g1.len() - 1 {
                        assert(g[p] != g[q]);
                    } else {
                        if g1[p] == lv[t as int] {
                            assert(g.contains(lv[t as int]));
                        }
                    }
                }
            }
            assert(lv.contains(lv[t as int]));
            assert(forall|x: TypeLayoutInfoV| g1.contains(x) ==> g.contains(x) || x == lv[t
                as int]);
            lemma_reach_props(defs, lv, ms, g1);
            assert(g1.contains(lv[t as int])) by {
                assert(g1[g.len() as int] == lv[t as int]);
            }
        }
    }
    assert(spec_reach(defs, lv, Seq::<TypeId>::empty(), r) == r);
    assert(spec_reach(defs, lv, seq![t], r) == spec_reach(defs, lv, seq![t].drop_first(), r));
}

/// Determinism: the populated graph is a function of the definitions, the
/// descriptions and the root alone — two walks of equal inputs insert the
/// same descriptions in the same order.
pub proof fn lemma_populate_deterministic(
    defs: Seq<TypeDef>,
    lv: Seq<TypeLayoutInfoV>,
    t: TypeId,
    g1: Seq<TypeLayoutInfoV>,
    g2: Seq<TypeLayoutInfoV>,
)
    requires
        g1 == spec_reach(defs, lv, seq![t], Seq::<TypeLayoutInfoV>::empty()),
        g2 == spec_reach(defs, lv, seq![t], Seq::<TypeLayoutInfoV>::empty()),
    ensures
        g1 == g2,
{
}

} // verus!
