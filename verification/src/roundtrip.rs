//! Collapsing and rolling up are inverse to one another: the mapping of a
//! collapsed forest, applied in the matching order, always goes through, and
//! every rollup outcome rebuilds the original forest.

use vstd::prelude::*;
use crate::tree_collapse::flat_bu;
use crate::tree_collapse::flat_td;
use crate::tree_collapse::flat_one_bu;
use crate::tree_collapse::flat_one_td;
use crate::tree_collapse::shift_entries;
use crate::tree_collapse::under_bu;
use crate::tree_collapse::under_td;
use crate::tree_collapse::mapping_of;
use crate::tree_collapse::asc_pairs;
use crate::tree_collapse::GTree;
use crate::tree_collapse::lemma_flat_one_bu_root;
use crate::tree_rollup::occupancy;
use crate::tree_rollup::step_fwd_rel;
use crate::tree_rollup::steps_fwd_rel;
use crate::tree_rollup::finish_fwd;
use crate::tree_rollup::step_rev_rel;
use crate::tree_rollup::steps_rev_rel;
use crate::tree_rollup::finish_rev_rel;
use crate::tree_rollup::Node as RollupNode;
use crate::tree_rollup::ReversableNode;
use crate::tree_collapse::Node as CollapseNode;
use crate::tree_collapse::elems_extended;
use crate::tree_collapse::models;
use crate::tree_collapse::payloads;
use crate::tree_collapse::lemma_payloads_add;
use crate::tree_collapse::lemma_payloads_reindexed;
use crate::tree_rollup::slots_of;
use crate::tree_rollup::step_ok;
use crate::tree_rollup::steps_fwd_ok;
use crate::tree_rollup::steps_rev_ok;

verus! {

/// The mapping pairs of a chunk of flat entries placed at `base`, one per
/// attached entry, listed in ascending child order; entries from position
/// `i` on.
pub open spec fn pairs_from<P>(fl: Seq<(P, Option<int>)>, base: int, i: int) -> Seq<
    (usize, usize),
>
    decreases fl.len() - i,
{
    if i < 0 || i >= fl.len() {
        Seq::empty()
    } else {
        let rest = pairs_from(fl, base, i + 1);
        match fl[i].1 {
            Option::Some(j) => seq![((base + i) as usize, (base + j) as usize)] + rest,
            Option::None => rest,
        }
    }
}

/// The mapping pairs of a whole flat forest, in ascending child order: the
/// sequence in which an ordered map holding the collapse mapping hands its
/// entries out.
pub open spec fn pairs_of<P>(fl: Seq<(P, Option<int>)>) -> Seq<(usize, usize)> {
    pairs_from(fl, 0, 0)
}

/// Every parent position of a bottom-up flat forest lies above its child's
/// position and inside the chunk.
pub proof fn lemma_flat_bu_parents_above<P>(f: Seq<GTree<P>>)
    ensures
        forall|i: int|
            0 <= i < flat_bu(f).len() && (#[trigger] flat_bu(f)[i]).1 is Some ==> i < flat_bu(
                f,
            )[i].1->0 < flat_bu(f).len(),
    decreases f,
{
    if f.len() > 0 {
        let t = f[0];
        let kfl = flat_bu(t.kids);
        let head = flat_one_bu(t);
        let rest = flat_bu(f.drop_first());
        lemma_flat_bu_parents_above(t.kids);
        lemma_flat_bu_parents_above(f.drop_first());
        assert forall|i: int|
            0 <= i < flat_bu(f).len() && (#[trigger] flat_bu(f)[i]).1 is Some implies i < flat_bu(
            f,
        )[i].1->0 < flat_bu(f).len() by {
            if i < head.len() {
                assert(flat_bu(f)[i] == head[i]);
                if i < kfl.len() {
                    assert(head[i] == under_bu(kfl, kfl.len() as int)[i]);
                } else {
                    assert(head[i] == (t.node, Option::<int>::None));
                }
            } else {
                assert(flat_bu(f)[i] == shift_entries(rest, head.len() as int)[i - head.len()]);
            }
        }
    }
}

/// Every parent position of a top-down flat forest lies below its child's
/// position and inside the chunk.
pub proof fn lemma_flat_td_parents_below<P>(f: Seq<GTree<P>>)
    ensures
        forall|i: int|
            0 <= i < flat_td(f).len() && (#[trigger] flat_td(f)[i]).1 is Some ==> 0 <= flat_td(
                f,
            )[i].1->0 < i,
    decreases f,
{
    if f.len() > 0 {
        let t = f[0];
        let kfl = flat_td(t.kids);
        let head = flat_one_td(t);
        let rest = flat_td(f.drop_first());
        lemma_flat_td_parents_below(t.kids);
        lemma_flat_td_parents_below(f.drop_first());
        assert forall|i: int|
            0 <= i < flat_td(f).len() && (#[trigger] flat_td(f)[i]).1 is Some implies 0 <= flat_td(
            f,
        )[i].1->0 < i by {
            if i < head.len() {
                assert(flat_td(f)[i] == head[i]);
                if i >= 1 {
                    assert(head[i] == under_td(kfl)[i - 1]);
                }
            } else {
                assert(flat_td(f)[i] == shift_entries(rest, head.len() as int)[i - head.len()]);
            }
        }
    }
}

/// The pairs of a chunk: one pair per attached entry, children strictly
/// ascending from `base + i`, each pair recording the entry's parent.
#[verifier::rlimit(50)]
pub proof fn lemma_pairs_from_shape<P>(fl: Seq<(P, Option<int>)>, base: int, i: int)
    requires
        0 <= base,
        0 <= i,
        base + fl.len() <= usize::MAX,
        forall|k: int| 0 <= k < fl.len() && (#[trigger] fl[k].1) is Some ==> 0 <= fl[k].1->0
            < fl.len(),
    ensures
        forall|q: int|
            0 <= q < pairs_from(fl, base, i).len() ==> {
                let pr = #[trigger] pairs_from(fl, base, i)[q];
                &&& base + i <= pr.0 < base + fl.len()
                &&& fl[pr.0 - base].1 is Some
                &&& pr.1 == base + fl[pr.0 - base].1->0
            },
        forall|q: int, r: int|
            0 <= q < r < pairs_from(fl, base, i).len() ==> (#[trigger] pairs_from(fl, base, i)[q]).0
                < (#[trigger] pairs_from(fl, base, i)[r]).0,
        forall|c: int|
            i <= c < fl.len() && (#[trigger] fl[c].1) is Some ==> exists|q: int|
                0 <= q < pairs_from(fl, base, i).len() && (#[trigger] pairs_from(fl, base, i)[q]).0
                    == base + c,
    decreases fl.len() - i,
{
    if 0 <= i < fl.len() {
        lemma_pairs_from_shape(fl, base, i + 1);
        let ps = pairs_from(fl, base, i);
        let rest = pairs_from(fl, base, i + 1);
        match fl[i].1 {
            Option::Some(j) => {
                assert(ps == seq![((base + i) as usize, (base + j) as usize)] + rest);
                assert(ps[0].0 == base + i);
                assert forall|q: int| 0 <= q < ps.len() implies {
                    let pr = #[trigger] ps[q];
                    &&& base + i <= pr.0 < base + fl.len()
                    &&& fl[pr.0 - base].1 is Some
                    &&& pr.1 == base + fl[pr.0 - base].1->0
                } by {
                    if q > 0 {
                        assert(ps[q] == rest[q - 1]);
                    }
                }
                assert forall|c: int|
                    i <= c < fl.len() && (#[trigger] fl[c].1) is Some implies exists|q: int|
                    0 <= q < ps.len() && (#[trigger] ps[q]).0 == base + c by {
                    if c == i {
                        assert(ps[0].0 == base + c);
                    } else {
                        let q = choose|q: int| 0 <= q < rest.len() && (#[trigger] rest[q]).0 == base
                            + c;
                        assert(ps[q + 1].0 == base + c);
                    }
                }
            },
            Option::None => {
                assert forall|c: int|
                    i <= c < fl.len() && (#[trigger] fl[c].1) is Some implies exists|q: int|
                    0 <= q < ps.len() && (#[trigger] ps[q]).0 == base + c by {
                    assert(c > i);
                    let q = choose|q: int| 0 <= q < rest.len() && (#[trigger] rest[q]).0 == base
                        + c;
                    assert(ps[q].0 == base + c);
                }
            },
        }
    }
}

/// The attachment pairs of a chunk of flat entries placed at `base`, in
/// ascending child order: attached entries point at their recorded parent,
/// root entries at `att`.
pub open spec fn pairs_att<P>(fl: Seq<(P, Option<int>)>, base: int, att: int, i: int) -> Seq<
    (usize, usize),
>
    decreases fl.len() - i,
{
    if i < 0 || i >= fl.len() {
        Seq::empty()
    } else {
        let rest = pairs_att(fl, base, att, i + 1);
        match fl[i].1 {
            Option::Some(j) => seq![((base + i) as usize, (base + j) as usize)] + rest,
            Option::None => seq![((base + i) as usize, att as usize)] + rest,
        }
    }
}

/// All pairs shifted up by `k`, child and parent alike.
pub open spec fn shift_pairs(m: Seq<(usize, usize)>, k: int) -> Seq<(usize, usize)> {
    m.map_values(|pr: (usize, usize)| (((pr.0 + k) as usize), ((pr.1 + k) as usize)))
}

proof fn lemma_pairs_from_tail<P>(
    a: Seq<(P, Option<int>)>,
    b: Seq<(P, Option<int>)>,
    base: int,
    k: int,
)
    requires
        0 <= k,
    ensures
        pairs_from(a + shift_entries(b, a.len() as int), base, a.len() + k) == pairs_from(
            b,
            base + a.len(),
            k,
        ),
    decreases b.len() - k,
{
    let ab = a + shift_entries(b, a.len() as int);
    if k < b.len() {
        lemma_pairs_from_tail(a, b, base, k + 1);
        assert(ab[a.len() + k] == shift_entries(b, a.len() as int)[k]);
    }
}

proof fn lemma_pairs_from_concat<P>(
    a: Seq<(P, Option<int>)>,
    b: Seq<(P, Option<int>)>,
    base: int,
    i: int,
)
    requires
        0 <= i <= a.len(),
    ensures
        pairs_from(a + shift_entries(b, a.len() as int), base, i) == pairs_from(a, base, i)
            + pairs_from(b, base + a.len(), 0),
    decreases a.len() - i,
{
    let ab = a + shift_entries(b, a.len() as int);
    if i == a.len() {
        assert(pairs_from(a, base, i) =~= Seq::<(usize, usize)>::empty());
        lemma_pairs_from_tail(a, b, base, 0);
        assert(pairs_from(a, base, i) + pairs_from(b, base + a.len(), 0) =~= pairs_from(
            b,
            base + a.len(),
            0,
        ));
    } else {
        assert(ab[i] == a[i]);
        lemma_pairs_from_concat(a, b, base, i + 1);
        match a[i].1 {
            Option::Some(j) => {
                assert(pairs_from(ab, base, i) =~= seq![
                    ((base + i) as usize, (base + j) as usize),
                ] + pairs_from(ab, base, i + 1));
                assert(pairs_from(a, base, i) + pairs_from(b, base + a.len(), 0) =~= seq![
                    ((base + i) as usize, (base + j) as usize),
                ] + (pairs_from(a, base, i + 1) + pairs_from(b, base + a.len(), 0)));
            },
            Option::None => {},
        }
    }
}

proof fn lemma_pairs_att_tail<P>(
    a: Seq<(P, Option<int>)>,
    b: Seq<(P, Option<int>)>,
    base: int,
    att: int,
    k: int,
)
    requires
        0 <= k,
    ensures
        pairs_att(a + shift_entries(b, a.len() as int), base, att, a.len() + k) == pairs_att(
            b,
            base + a.len(),
            att,
            k,
        ),
    decreases b.len() - k,
{
    let ab = a + shift_entries(b, a.len() as int);
    if k < b.len() {
        lemma_pairs_att_tail(a, b, base, att, k + 1);
        assert(ab[a.len() + k] == shift_entries(b, a.len() as int)[k]);
    }
}

proof fn lemma_pairs_att_concat<P>(
    a: Seq<(P, Option<int>)>,
    b: Seq<(P, Option<int>)>,
    base: int,
    att: int,
    i: int,
)
    requires
        0 <= i <= a.len(),
    ensures
        pairs_att(a + shift_entries(b, a.len() as int), base, att, i) == pairs_att(a, base, att, i)
            + pairs_att(b, base + a.len(), att, 0),
    decreases a.len() - i,
{
    let ab = a + shift_entries(b, a.len() as int);
    if i == a.len() {
        assert(pairs_att(a, base, att, i) =~= Seq::<(usize, usize)>::empty());
        lemma_pairs_att_tail(a, b, base, att, 0);
        assert(pairs_att(a, base, att, i) + pairs_att(b, base + a.len(), att, 0) =~= pairs_att(
            b,
            base + a.len(),
            att,
            0,
        ));
    } else {
        assert(ab[i] == a[i]);
        lemma_pairs_att_concat(a, b, base, att, i + 1);
        let hd = match a[i].1 {
            Option::Some(j) => ((base + i) as usize, (base + j) as usize),
            Option::None => ((base + i) as usize, att as usize),
        };
        assert(pairs_att(ab, base, att, i) =~= seq![hd] + pairs_att(ab, base, att, i + 1));
        assert(pairs_att(a, base, att, i) + pairs_att(b, base + a.len(), att, 0) =~= seq![hd] + (
        pairs_att(a, base, att, i + 1) + pairs_att(b, base + a.len(), att, 0)));
    }
}

proof fn lemma_pairs_from_shift<P>(fl: Seq<(P, Option<int>)>, base: int, k: int, i: int)
    requires
        0 <= base,
        0 <= k,
        0 <= i,
        base + k + fl.len() <= usize::MAX,
        forall|q: int| 0 <= q < fl.len() && (#[trigger] fl[q].1) is Some ==> 0 <= fl[q].1->0
            < fl.len(),
    ensures
        pairs_from(fl, base + k, i) == shift_pairs(pairs_from(fl, base, i), k),
    decreases fl.len() - i,
{
    if 0 <= i < fl.len() {
        lemma_pairs_from_shift(fl, base, k, i + 1);
        match fl[i].1 {
            Option::Some(j) => {
                assert(pairs_from(fl, base + k, i) =~= shift_pairs(pairs_from(fl, base, i), k));
            },
            Option::None => {},
        }
    } else {
        assert(pairs_from(fl, base + k, i) =~= shift_pairs(pairs_from(fl, base, i), k));
    }
}

proof fn lemma_pairs_att_shift<P>(fl: Seq<(P, Option<int>)>, base: int, att: int, k: int, i: int)
    requires
        0 <= base,
        0 <= k,
        0 <= i,
        0 <= att,
        base + k + fl.len() <= usize::MAX,
        att + k <= usize::MAX,
        forall|q: int| 0 <= q < fl.len() && (#[trigger] fl[q].1) is Some ==> 0 <= fl[q].1->0
            < fl.len(),
    ensures
        pairs_att(fl, base + k, att + k, i) == shift_pairs(pairs_att(fl, base, att, i), k),
    decreases fl.len() - i,
{
    if 0 <= i < fl.len() {
        lemma_pairs_att_shift(fl, base, att, k, i + 1);
        assert(pairs_att(fl, base + k, att + k, i) =~= shift_pairs(pairs_att(fl, base, att, i), k));
    } else {
        assert(pairs_att(fl, base + k, att + k, i) =~= shift_pairs(pairs_att(fl, base, att, i), k));
    }
}

/// The pairs of a single bottom-up tree chunk are the attachment pairs of
/// its children's region, with the children's roots attached to the node's
/// own position at the end of the chunk.
proof fn lemma_pairs_bu_head<P>(t: GTree<P>, base: int, i: int)
    requires
        0 <= i,
    ensures
        pairs_from(flat_one_bu(t), base, i) == pairs_att(
            flat_bu(t.kids),
            base,
            base + flat_bu(t.kids).len(),
            i,
        ),
    decreases flat_one_bu(t).len() - i,
{
    let fl1 = flat_one_bu(t);
    let kfl = flat_bu(t.kids);
    let n = kfl.len() as int;
    if i < fl1.len() {
        lemma_pairs_bu_head(t, base, i + 1);
        if i < n {
            assert(fl1[i] == under_bu(kfl, n)[i]);
        } else {
            assert(fl1[i] == (t.node, Option::<int>::None));
            assert(pairs_from(fl1, base, i + 1) =~= Seq::<(usize, usize)>::empty());
        }
    } else {
        assert(pairs_from(fl1, base, i) =~= Seq::<(usize, usize)>::empty());
        assert(pairs_att(kfl, base, base + n, i) =~= Seq::<(usize, usize)>::empty());
    }
}

/// The attachment pairs of a single bottom-up tree chunk: the chunk's inner
/// pairs first, then one pair that attaches the chunk's root, its last
/// entry, to `att`.
proof fn lemma_pairs_att_one_bu<P>(t: GTree<P>, base: int, att: int, i: int)
    requires
        0 <= i,
    ensures
        i < flat_one_bu(t).len() ==> pairs_att(flat_one_bu(t), base, att, i) == pairs_from(
            flat_one_bu(t),
            base,
            i,
        ) + seq![((base + flat_one_bu(t).len() - 1) as usize, att as usize)],
    decreases flat_one_bu(t).len() - i,
{
    let fl1 = flat_one_bu(t);
    lemma_flat_one_bu_root(t);
    if i < fl1.len() {
        lemma_pairs_att_one_bu(t, base, att, i + 1);
        if i == fl1.len() - 1 {
            assert(fl1[i].1 is None);
            assert(pairs_att(fl1, base, att, i + 1) =~= Seq::<(usize, usize)>::empty());
            assert(pairs_from(fl1, base, i + 1) =~= Seq::<(usize, usize)>::empty());
            assert(pairs_from(fl1, base, i) =~= Seq::<(usize, usize)>::empty());
            assert(pairs_att(fl1, base, att, i) =~= pairs_from(fl1, base, i) + seq![
                ((base + fl1.len() - 1) as usize, att as usize),
            ]);
        } else {
            assert(fl1[i].1 is Some);
            let j = fl1[i].1->0;
            assert(pairs_att(fl1, base, att, i) =~= seq![
                ((base + i) as usize, (base + j) as usize),
            ] + pairs_att(fl1, base, att, i + 1));
            assert(pairs_from(fl1, base, i) + seq![
                ((base + fl1.len() - 1) as usize, att as usize),
            ] =~= seq![((base + i) as usize, (base + j) as usize)] + (pairs_from(fl1, base, i + 1)
                + seq![((base + fl1.len() - 1) as usize, att as usize)]));
        }
    }
}

/// Pairs whose children ascend strictly and whose parents always lie above
/// their children roll up without failing when applied front to back.
pub proof fn lemma_steps_fwd_ok_ascending(o: Seq<bool>, m: Seq<(usize, usize)>)
    requires
        forall|q: int, r: int| 0 <= q < r < m.len() ==> (#[trigger] m[q]).0 < (#[trigger] m[r]).0,
        forall|q: int| 0 <= q < m.len() ==> (#[trigger] m[q]).0 < m[q].1 < o.len(),
        forall|k: int| 0 <= k < o.len() ==> #[trigger] o[k],
    ensures
        steps_fwd_ok(o, m),
    decreases m.len(),
{
    if m.len() > 0 {
        let c = m[0].0 as int;
        let p = m[0].1 as int;
        assert(step_ok(o, c, p));
        let o2 = o.update(c, false);
        let m2 = m.drop_first();
        // every remaining pair references indices above c, which stay true
        lemma_steps_fwd_ok_above(o2, m2, c);
    }
}

/// Helper: pairs whose children ascend strictly, lie strictly above `lo`,
/// and whose parents lie above their children, roll up without failing from
/// a state that is occupied everywhere above `lo`.
proof fn lemma_steps_fwd_ok_above(o: Seq<bool>, m: Seq<(usize, usize)>, lo: int)
    requires
        forall|q: int, r: int| 0 <= q < r < m.len() ==> (#[trigger] m[q]).0 < (#[trigger] m[r]).0,
        forall|q: int| 0 <= q < m.len() ==> lo < (#[trigger] m[q]).0 && m[q].0 < m[q].1 < o.len(),
        forall|k: int| lo < k < o.len() ==> #[trigger] o[k],
    ensures
        steps_fwd_ok(o, m),
    decreases m.len(),
{
    if m.len() > 0 {
        let c = m[0].0 as int;
        let p = m[0].1 as int;
        assert(step_ok(o, c, p));
        let o2 = o.update(c, false);
        let m2 = m.drop_first();
        assert forall|q: int| 0 <= q < m2.len() implies c < (#[trigger] m2[q]).0 && m2[q].0
            < m2[q].1 < o2.len() by {
            assert(m2[q] == m[q + 1]);
            assert(m[0].0 < m[q + 1].0);
        }
        assert forall|k: int| c < k < o2.len() implies #[trigger] o2[k] by {
            assert(o2[k] == o[k]);
        }
        lemma_steps_fwd_ok_above(o2, m2, c);
    }
}

/// Pairs whose children ascend strictly and whose parents always lie below
/// their children roll up without failing when applied back to front.
pub proof fn lemma_steps_rev_ok_descending(o: Seq<bool>, m: Seq<(usize, usize)>)
    requires
        forall|q: int, r: int| 0 <= q < r < m.len() ==> (#[trigger] m[q]).0 < (#[trigger] m[r]).0,
        forall|q: int| 0 <= q < m.len() ==> m[q].1 < (#[trigger] m[q]).0 && m[q].0 < o.len(),
        forall|k: int| 0 <= k < o.len() ==> #[trigger] o[k],
    ensures
        steps_rev_ok(o, m),
    decreases m.len(),
{
    lemma_steps_rev_ok_below(o, m, o.len() as int);
}

/// Helper: pairs whose children ascend strictly and stay below `hi`, with
/// parents below their children, roll up without failing from a state that
/// is occupied everywhere below `hi`.
proof fn lemma_steps_rev_ok_below(o: Seq<bool>, m: Seq<(usize, usize)>, hi: int)
    requires
        forall|q: int, r: int| 0 <= q < r < m.len() ==> (#[trigger] m[q]).0 < (#[trigger] m[r]).0,
        forall|q: int| 0 <= q < m.len() ==> m[q].1 < (#[trigger] m[q]).0 && m[q].0 < hi,
        hi <= o.len(),
        forall|k: int| 0 <= k < hi ==> #[trigger] o[k],
    ensures
        steps_rev_ok(o, m),
    decreases m.len(),
{
    if m.len() > 0 {
        let c = m.last().0 as int;
        let p = m.last().1 as int;
        assert(step_ok(o, c, p));
        let o2 = o.update(c, false);
        let m2 = m.drop_last();
        assert forall|q: int| 0 <= q < m2.len() implies m2[q].1 < (#[trigger] m2[q]).0 && m2[q].0
            < c by {
            assert(m2[q] == m[q]);
            assert(m[q].0 < m[m.len() - 1].0);
        }
        assert forall|k: int| 0 <= k < c implies #[trigger] o2[k] by {
            assert(o2[k] == o[k]);
        }
        lemma_steps_rev_ok_below(o2, m2, c);
    }
}

/// The bottom-up rollup of a bottom-up collapsed forest always goes
/// through: starting from fully occupied slots of the collapsed elements,
/// every mapping pair finds its child and parent slots occupied.
pub proof fn lemma_rollup_bottomup_of_collapse_succeeds<T, P>(es: Seq<T>, f: Seq<GTree<P>>)
    requires
        es.len() == flat_bu(f).len(),
        flat_bu(f).len() <= usize::MAX,
    ensures
        steps_fwd_ok(occupancy(slots_of(es)), pairs_of(flat_bu(f))),
{
    let fl = flat_bu(f);
    let o = occupancy(slots_of(es));
    lemma_flat_bu_parents_above(f);
    lemma_pairs_from_shape(fl, 0, 0);
    let m = pairs_of(fl);
    assert forall|q: int| 0 <= q < m.len() implies (#[trigger] m[q]).0 < m[q].1 < o.len() by {
        assert(fl[m[q].0 - 0].1 is Some);
        assert(fl[m[q].0 as int].1 is Some);
    }
    assert forall|k: int| 0 <= k < o.len() implies #[trigger] o[k] by {
        assert(slots_of(es)[k] == Option::Some(es[k]));
    }
    lemma_steps_fwd_ok_ascending(o, m);
}

/// The top-down rollup of a top-down collapsed forest always goes through:
/// starting from fully occupied slots of the collapsed elements, every
/// mapping pair, taken back to front, finds its child and parent slots
/// occupied.
pub proof fn lemma_rollup_of_collapse_succeeds<T, P>(es: Seq<T>, f: Seq<GTree<P>>)
    requires
        es.len() == flat_td(f).len(),
        flat_td(f).len() <= usize::MAX,
    ensures
        steps_rev_ok(occupancy(slots_of(es)), pairs_of(flat_td(f))),
{
    let fl = flat_td(f);
    let o = occupancy(slots_of(es));
    lemma_flat_td_parents_below(f);
    lemma_pairs_from_shape(fl, 0, 0);
    let m = pairs_of(fl);
    assert forall|q: int| 0 <= q < m.len() implies m[q].1 < (#[trigger] m[q]).0 && m[q].0
        < o.len() by {
        assert(fl[m[q].0 - 0].1 is Some);
        assert(fl[m[q].0 as int].1 is Some);
    }
    assert forall|k: int| 0 <= k < o.len() implies #[trigger] o[k] by {
        assert(slots_of(es)[k] == Option::Some(es[k]));
    }
    lemma_steps_rev_ok_descending(o, m);
}

/// A chain of bottom-up steps over concatenated pair groups splits into a
/// chain over the first group followed by one over the second.
proof fn lemma_steps_fwd_split<T: RollupNode>(
    v: Seq<Option<T>>,
    m1: Seq<(usize, usize)>,
    m2: Seq<(usize, usize)>,
    vout: Seq<Option<T>>,
)
    requires
        steps_fwd_rel(v, m1 + m2, vout),
    ensures
        exists|vmid: Seq<Option<T>>|
            #[trigger] steps_fwd_rel(v, m1, vmid) && steps_fwd_rel(vmid, m2, vout),
    decreases m1.len(),
{
    if m1.len() == 0 {
        assert(m1 + m2 =~= m2);
        assert(steps_fwd_rel(v, m1, v) && steps_fwd_rel(v, m2, vout));
    } else {
        let mm = m1 + m2;
        assert(mm[0] == m1[0]);
        assert(mm.drop_first() =~= m1.drop_first() + m2);
        let v1 = choose|v1: Seq<Option<T>>|
            {
                &&& #[trigger] step_fwd_rel(v, mm[0].0 as int, mm[0].1 as int, v1)
                &&& steps_fwd_rel(v1, mm.drop_first(), vout)
            };
        lemma_steps_fwd_split(v1, m1.drop_first(), m2, vout);
        let vmid = choose|vmid: Seq<Option<T>>|
            #[trigger] steps_fwd_rel(v1, m1.drop_first(), vmid) && steps_fwd_rel(vmid, m2, vout);
        assert(step_fwd_rel(v, m1[0].0 as int, m1[0].1 as int, v1) && steps_fwd_rel(
            v1,
            m1.drop_first(),
            vmid,
        ));
        assert(steps_fwd_rel(v, m1, vmid) && steps_fwd_rel(vmid, m2, vout));
    }
}

/// Bottom-up steps whose pairs stay inside the first part of a split state
/// leave the second part untouched.
proof fn lemma_steps_fwd_frame<T: RollupNode>(
    va: Seq<Option<T>>,
    vb: Seq<Option<T>>,
    m: Seq<(usize, usize)>,
    vout: Seq<Option<T>>,
)
    requires
        forall|q: int| 0 <= q < m.len() ==> (#[trigger] m[q]).0 < va.len() && m[q].1 < va.len(),
        steps_fwd_rel(va + vb, m, vout),
    ensures
        exists|va2: Seq<Option<T>>| #[trigger] steps_fwd_rel(va, m, va2) && vout == va2 + vb,
    decreases m.len(),
{
    if m.len() == 0 {
        assert(vout == va + vb);
        assert(steps_fwd_rel(va, m, va) && vout == va + vb);
    } else {
        let c = m[0].0 as int;
        let p = m[0].1 as int;
        let vv = va + vb;
        let v1 = choose|v1: Seq<Option<T>>|
            {
                &&& #[trigger] step_fwd_rel(vv, m[0].0 as int, m[0].1 as int, v1)
                &&& steps_fwd_rel(v1, m.drop_first(), vout)
            };
        let p2 = choose|p2: T|
            {
                &&& #[trigger] T::pushed(vv[p]->0, vv[c]->0, p2)
                &&& v1 == vv.update(c, Option::<T>::None).update(p, Option::Some(p2))
            };
        assert(vv[c] == va[c]);
        assert(vv[p] == va[p]);
        let va1 = va.update(c, Option::<T>::None).update(p, Option::Some(p2));
        assert(v1 =~= va1 + vb);
        assert(step_fwd_rel(va, c, p, va1));
        assert forall|q: int|
            0 <= q < m.drop_first().len() implies (#[trigger] m.drop_first()[q]).0 < va1.len()
            && m.drop_first()[q].1 < va1.len() by {
            assert(m.drop_first()[q] == m[q + 1]);
        }
        lemma_steps_fwd_frame(va1, vb, m.drop_first(), vout);
        let va2 = choose|va2: Seq<Option<T>>|
            #[trigger] steps_fwd_rel(va1, m.drop_first(), va2) && vout == va2 + vb;
        assert(step_fwd_rel(va, m[0].0 as int, m[0].1 as int, va1) && steps_fwd_rel(
            va1,
            m.drop_first(),
            va2,
        ));
        assert(steps_fwd_rel(va, m, va2) && vout == va2 + vb);
    }
}

/// Bottom-up steps whose pairs are shifted past a prefix act on the suffix
/// alone.
proof fn lemma_steps_fwd_unshift<T: RollupNode>(
    u: Seq<Option<T>>,
    w: Seq<Option<T>>,
    m: Seq<(usize, usize)>,
    vout: Seq<Option<T>>,
)
    requires
        forall|q: int| 0 <= q < m.len() ==> (#[trigger] m[q]).0 < w.len() && m[q].1 < w.len(),
        u.len() + w.len() <= usize::MAX,
        steps_fwd_rel(u + w, shift_pairs(m, u.len() as int), vout),
    ensures
        exists|w2: Seq<Option<T>>| #[trigger] steps_fwd_rel(w, m, w2) && vout == u + w2,
    decreases m.len(),
{
    let k = u.len() as int;
    let sm = shift_pairs(m, k);
    if m.len() == 0 {
        assert(sm =~= Seq::<(usize, usize)>::empty());
        assert(vout == u + w);
        assert(steps_fwd_rel(w, m, w) && vout == u + w);
    } else {
        let c = m[0].0 as int;
        let p = m[0].1 as int;
        assert(sm[0] == (((m[0].0 + k) as usize), ((m[0].1 + k) as usize)));
        let sc = sm[0].0 as int;
        let sp = sm[0].1 as int;
        assert(sc == c + k);
        assert(sp == p + k);
        assert(sm.drop_first() =~= shift_pairs(m.drop_first(), k));
        let vv = u + w;
        let v1 = choose|v1: Seq<Option<T>>|
            {
                &&& #[trigger] step_fwd_rel(vv, sm[0].0 as int, sm[0].1 as int, v1)
                &&& steps_fwd_rel(v1, sm.drop_first(), vout)
            };
        let p2 = choose|p2: T|
            {
                &&& #[trigger] T::pushed(vv[sp]->0, vv[sc]->0, p2)
                &&& v1 == vv.update(sc, Option::<T>::None).update(sp, Option::Some(p2))
            };
        assert(vv[sc] == w[c]);
        assert(vv[sp] == w[p]);
        let w1 = w.update(c, Option::<T>::None).update(p, Option::Some(p2));
        assert(v1 =~= u + w1);
        assert(step_fwd_rel(w, c, p, w1));
        lemma_steps_fwd_unshift(u, w1, m.drop_first(), vout);
        let w2 = choose|w2: Seq<Option<T>>|
            #[trigger] steps_fwd_rel(w1, m.drop_first(), w2) && vout == u + w2;
        assert(step_fwd_rel(w, m[0].0 as int, m[0].1 as int, w1) && steps_fwd_rel(
            w1,
            m.drop_first(),
            w2,
        ));
        assert(steps_fwd_rel(w, m, w2) && vout == u + w2);
    }
}


proof fn lemma_flat_bu_single<P>(t: GTree<P>)
    ensures
        flat_bu(seq![t]) == flat_one_bu(t),
{
    assert(seq![t][0] == t);
    assert(seq![t].drop_first() =~= Seq::<GTree<P>>::empty());
    assert(flat_bu(Seq::<GTree<P>>::empty()) == Seq::<(P, Option<int>)>::empty());
    assert(shift_entries(Seq::<(P, Option<int>)>::empty(), flat_one_bu(t).len() as int) =~= Seq::<
        (P, Option<int>),
    >::empty());
    assert(flat_bu(seq![t]) =~= flat_one_bu(t));
}

/// The coherence between a node type's collapse model and its rollup
/// attachment: pushing a child appends the child's model to the parent's
/// children, however the push may go.
pub open spec fn push_appends<T: CollapseNode + RollupNode>() -> bool {
    forall|pre: T, c: T, post: T|
        #[trigger] T::pushed(pre, c, post) ==> post.model() == (GTree {
            node: pre.model().node,
            kids: pre.model().kids.push(c.model()),
        })
}

/// The coherence between a node type's collapse model and its rollup
/// reversal: reversing a node reverses its children's models, however the
/// reversal may go.
pub open spec fn reverse_reverses<T: CollapseNode + ReversableNode>() -> bool {
    forall|pre: T, post: T|
        #[trigger] T::reversed(pre, post) ==> post.model() == (GTree {
            node: pre.model().node,
            kids: pre.model().kids.reverse(),
        })
}

/// Every element of `es` is childless and carries the matching payload of
/// `ps`.
pub open spec fn bare_elems<T: CollapseNode>(es: Seq<T>, ps: Seq<T::Bare>) -> bool {
    &&& es.len() == ps.len()
    &&& forall|i: int|
        0 <= i < es.len() ==> (#[trigger] es[i].model()) == (GTree {
            node: ps[i],
            kids: Seq::<GTree<T::Bare>>::empty(),
        })
}

/// The slots a fully rolled-up bottom-up forest leaves behind: one occupied
/// slot per tree, at that tree's root position (the last position of its
/// chunk), holding an element whose model is the tree; all other slots
/// empty.
pub open spec fn rolled_bu<T: CollapseNode>(f: Seq<GTree<T::Bare>>, v: Seq<Option<T>>) -> bool
    decreases f,
{
    if f.len() == 0 {
        v.len() == 0
    } else {
        let h = flat_one_bu(f[0]).len() as int;
        &&& v.len() >= h
        &&& (forall|k: int| 0 <= k < h - 1 ==> (#[trigger] v[k]) is None)
        &&& v[h - 1] is Some
        &&& (v[h - 1]->0).model() == f[0]
        &&& rolled_bu(f.drop_first(), v.skip(h))
    }
}

/// Bounds of the attachment pairs of a chunk: children lie inside the
/// chunk, parents either at `att` or at a recorded position inside it.
proof fn lemma_pairs_att_shape<P>(fl: Seq<(P, Option<int>)>, base: int, att: int, i: int)
    requires
        0 <= base,
        0 <= i,
        0 <= att <= usize::MAX,
        base + fl.len() <= usize::MAX,
        forall|k: int| 0 <= k < fl.len() && (#[trigger] fl[k].1) is Some ==> 0 <= fl[k].1->0
            < fl.len(),
    ensures
        forall|q: int|
            0 <= q < pairs_att(fl, base, att, i).len() ==> {
                let pr = #[trigger] pairs_att(fl, base, att, i)[q];
                &&& base + i <= pr.0 < base + fl.len()
                &&& (pr.1 == att || pr.1 < base + fl.len())
            },
    decreases fl.len() - i,
{
    if 0 <= i < fl.len() {
        lemma_pairs_att_shape(fl, base, att, i + 1);
        let ps = pairs_att(fl, base, att, i);
        let rest = pairs_att(fl, base, att, i + 1);
        assert forall|q: int| 0 <= q < ps.len() implies {
            let pr = #[trigger] ps[q];
            &&& base + i <= pr.0 < base + fl.len()
            &&& (pr.1 == att || pr.1 < base + fl.len())
        } by {
            if q > 0 {
                assert(ps[q] == rest[q - 1]);
            }
        }
    }
}

proof fn lemma_finish_fwd_concat<T: RollupNode>(a: Seq<Option<T>>, b: Seq<Option<T>>)
    ensures
        finish_fwd(a + b) == finish_fwd(a) + finish_fwd(b),
    decreases b.len(),
{
    if b.len() == 0 {
        assert(a + b =~= a);
        assert(finish_fwd(a) + finish_fwd(b) =~= finish_fwd(a));
    } else {
        lemma_finish_fwd_concat(a, b.drop_last());
        assert((a + b).drop_last() =~= a + b.drop_last());
        assert((a + b).last() == b.last());
        match b.last() {
            Option::Some(x) => {
                assert(finish_fwd(a + b) == (finish_fwd(a) + finish_fwd(b.drop_last())).push(x));
                assert((finish_fwd(a) + finish_fwd(b.drop_last())).push(x) =~= finish_fwd(a) + (
                finish_fwd(b.drop_last()).push(x)));
            },
            Option::None => {},
        }
    }
}

proof fn lemma_finish_fwd_all_none<T: RollupNode>(v: Seq<Option<T>>)
    requires
        forall|k: int| 0 <= k < v.len() ==> (#[trigger] v[k]) is None,
    ensures
        finish_fwd(v) == Seq::<T>::empty(),
    decreases v.len(),
{
    if v.len() > 0 {
        lemma_finish_fwd_all_none(v.drop_last());
    }
}

/// Collecting the survivors of a rolled-up bottom-up forest yields one
/// element per tree, in order, whose models are exactly the trees.
proof fn lemma_rolled_bu_finish<T: CollapseNode + RollupNode>(
    f: Seq<GTree<T::Bare>>,
    v: Seq<Option<T>>,
)
    requires
        rolled_bu(f, v),
    ensures
        models(finish_fwd(v)) == f,
    decreases f,
{
    if f.len() == 0 {
        assert(finish_fwd(v) =~= Seq::<T>::empty());
        assert(models(finish_fwd(v)) =~= f);
    } else {
        let h = flat_one_bu(f[0]).len() as int;
        let c = v.take(h);
        let rest = v.skip(h);
        assert(v =~= c + rest);
        lemma_finish_fwd_concat(c, rest);
        lemma_finish_fwd_all_none(c.drop_last());
        assert(c.last() == v[h - 1]);
        let x = v[h - 1]->0;
        assert(finish_fwd(c) == Seq::<T>::empty().push(x));
        lemma_rolled_bu_finish(f.drop_first(), rest);
        assert(finish_fwd(v) == Seq::<T>::empty().push(x) + finish_fwd(rest));
        assert(models(finish_fwd(rest)).len() == finish_fwd(rest).len());
        assert(finish_fwd(rest).len() == f.drop_first().len());
        assert(finish_fwd(v).len() == f.len());
        assert(x.model() == f[0]);
        assert forall|i: int| 0 <= i < f.len() implies models(finish_fwd(v))[i] == f[i] by {
            assert(models(finish_fwd(v))[i] == finish_fwd(v)[i].model());
            if i == 0 {
                assert(finish_fwd(v)[0] == (Seq::<T>::empty().push(x) + finish_fwd(rest))[0]);
                assert((Seq::<T>::empty().push(x))[0] == x);
                assert(finish_fwd(v)[0] == x);
            } else {
                assert(finish_fwd(v)[i] == finish_fwd(rest)[i - 1]);
                assert(models(finish_fwd(rest))[i - 1] == finish_fwd(rest)[i - 1].model());
                assert(models(finish_fwd(rest))[i - 1] == f.drop_first()[i - 1]);
                assert(f.drop_first()[i - 1] == f[i]);
            }
        }
        assert(models(finish_fwd(v)) =~= f);
    }
}


/// After the rollup has processed every attachment pair of a single
/// bottom-up tree chunk, the chunk's root slot holds an element whose model
/// is the whole tree, and every other slot of the chunk is empty.
proof fn lemma_rt_bu_tree<T: CollapseNode + RollupNode>(
    t: GTree<T::Bare>,
    es: Seq<T>,
    vout: Seq<Option<T>>,
)
    requires
        push_appends::<T>(),
        bare_elems(es, payloads(flat_one_bu(t))),
        flat_one_bu(t).len() <= usize::MAX,
        steps_fwd_rel(slots_of(es), pairs_from(flat_one_bu(t), 0, 0), vout),
    ensures
        vout.len() == es.len(),
        es.len() >= 1,
        forall|k: int| 0 <= k < es.len() - 1 ==> (#[trigger] vout[k]) is None,
        vout[es.len() - 1] is Some,
        (vout[es.len() - 1]->0).model() == t,
    decreases t,
{
    let fl1 = flat_one_bu(t);
    let kfl = flat_bu(t.kids);
    let n = kfl.len() as int;
    lemma_flat_one_bu_root(t);
    assert(es.len() == fl1.len());
    lemma_pairs_bu_head(t, 0, 0);
    let y = es[es.len() - 1];
    let esk = es.drop_last();
    assert(slots_of(es) =~= slots_of(esk).push(Option::Some(y)));
    // the payloads of the children's region, and the node's own payload
    lemma_payloads_add(under_bu(kfl, n), seq![(t.node, Option::<int>::None)]);
    lemma_payloads_reindexed(kfl, 0, n);
    assert(payloads(fl1) == payloads(kfl) + payloads(seq![(t.node, Option::<int>::None)]));
    assert(payloads(seq![(t.node, Option::<int>::None)]) =~= seq![t.node]);
    assert(payloads(fl1)[n] == t.node);
    assert(y.model() == (GTree { node: t.node, kids: Seq::<GTree<T::Bare>>::empty() }));
    assert forall|i: int| 0 <= i < esk.len() implies (#[trigger] esk[i].model()) == (GTree {
        node: payloads(kfl)[i],
        kids: Seq::<GTree<T::Bare>>::empty(),
    }) by {
        assert(esk[i] == es[i]);
        assert(payloads(fl1)[i] == (payloads(kfl) + seq![t.node])[i]);
        assert(payloads(fl1)[i] == payloads(kfl)[i]);
    }
    assert(bare_elems(esk, payloads(kfl)));
    assert(decreases_to!(t => t.kids));
    lemma_rt_bu_kids(t.kids, esk, y, vout);
    assert((vout[es.len() - 1]->0).model() == (GTree {
        node: y.model().node,
        kids: y.model().kids + t.kids,
    }));
    assert(Seq::<GTree<T::Bare>>::empty() + t.kids =~= t.kids);
    assert((GTree { node: t.node, kids: Seq::<GTree<T::Bare>>::empty() + t.kids }) =~= t);
}

/// After the rollup has attached a prefix forest of children, chunk by
/// chunk, into the element that sits just past their region, that element's
/// model has gained the children's trees in order, and the children's
/// region is empty.
#[verifier::rlimit(100)]
#[verifier::spinoff_prover]
proof fn lemma_rt_bu_kids<T: CollapseNode + RollupNode>(
    ks: Seq<GTree<T::Bare>>,
    esk: Seq<T>,
    y: T,
    vout: Seq<Option<T>>,
)
    requires
        push_appends::<T>(),
        bare_elems(esk, payloads(flat_bu(ks))),
        flat_bu(ks).len() + 1 <= usize::MAX,
        steps_fwd_rel(
            slots_of(esk).push(Option::Some(y)),
            pairs_att(flat_bu(ks), 0, flat_bu(ks).len() as int, 0),
            vout,
        ),
    ensures
        vout.len() == esk.len() + 1,
        forall|k: int| 0 <= k < esk.len() ==> (#[trigger] vout[k]) is None,
        vout[esk.len() as int] is Some,
        (vout[esk.len() as int]->0).model() == (GTree {
            node: y.model().node,
            kids: y.model().kids + ks,
        }),
    decreases ks,
{
    let kfl = flat_bu(ks);
    let n = kfl.len() as int;
    assert(esk.len() == n);
    if ks.len() == 0 {
        assert(kfl =~= Seq::<(T::Bare, Option<int>)>::empty());
        assert(pairs_att(kfl, 0, n, 0) =~= Seq::<(usize, usize)>::empty());
        assert(vout == slots_of(esk).push(Option::Some(y)));
        assert(vout.len() == 1);
        assert(vout[0] == Option::Some(y));
        assert(y.model().kids + ks =~= y.model().kids);
        assert((GTree { node: y.model().node, kids: y.model().kids + ks }) =~= y.model());
    } else {
        let k0 = ks[0];
        let ksr = ks.drop_first();
        let fl0 = flat_one_bu(k0);
        let h0 = fl0.len() as int;
        let kflr = flat_bu(ksr);
        assert(kfl == fl0 + shift_entries(kflr, h0));
        lemma_flat_one_bu_root(k0);
        // pairs: the first chunk's inner pairs, its root's attachment, then
        // the rest of the children's region
        lemma_pairs_att_concat(fl0, kflr, 0, n, 0);
        lemma_pairs_att_one_bu(k0, 0, n, 0);
        let pa = pairs_from(fl0, 0, 0);
        let pb = seq![((h0 - 1) as usize, n as usize)];
        let pc = pairs_att(kflr, h0, n, 0);
        assert(pairs_att(kfl, 0, n, 0) == (pa + pb) + pc);
        // payload split
        lemma_payloads_add(fl0, shift_entries(kflr, h0));
        lemma_payloads_reindexed(kflr, h0, 0);
        assert(payloads(kfl) == payloads(fl0) + payloads(kflr));
        let es0 = esk.take(h0);
        let esr = esk.skip(h0);
        assert forall|i: int| 0 <= i < es0.len() implies (#[trigger] es0[i].model()) == (GTree {
            node: payloads(fl0)[i],
            kids: Seq::<GTree<T::Bare>>::empty(),
        }) by {
            assert(es0[i] == esk[i]);
            assert(payloads(kfl)[i] == payloads(fl0)[i]);
        }
        assert(bare_elems(es0, payloads(fl0)));
        assert forall|i: int| 0 <= i < esr.len() implies (#[trigger] esr[i].model()) == (GTree {
            node: payloads(kflr)[i],
            kids: Seq::<GTree<T::Bare>>::empty(),
        }) by {
            assert(esr[i] == esk[h0 + i]);
            assert(payloads(kfl)[h0 + i] == payloads(kflr)[i]);
        }
        assert(bare_elems(esr, payloads(kflr)));
        // state split
        let v0full = slots_of(esk).push(Option::Some(y));
        let va = slots_of(es0);
        let vb = slots_of(esr).push(Option::Some(y));
        assert(v0full =~= va + vb);
        lemma_steps_fwd_split(v0full, pa + pb, pc, vout);
        let vmid2 = choose|vmid2: Seq<Option<T>>|
            #[trigger] steps_fwd_rel(v0full, pa + pb, vmid2) && steps_fwd_rel(vmid2, pc, vout);
        lemma_steps_fwd_split(v0full, pa, pb, vmid2);
        let vmid1 = choose|vmid1: Seq<Option<T>>|
            #[trigger] steps_fwd_rel(v0full, pa, vmid1) && steps_fwd_rel(vmid1, pb, vmid2);
        // the first chunk's inner pairs stay inside the first chunk
        lemma_flat_bu_single(k0);
        lemma_flat_bu_parents_above(seq![k0]);
        lemma_pairs_from_shape(fl0, 0, 0);
        assert forall|q: int| 0 <= q < pa.len() implies (#[trigger] pa[q]).0 < va.len() && pa[q].1
            < va.len() by {
            assert(fl0[pa[q].0 - 0].1 is Some);
            assert(fl0[pa[q].0 as int].1 is Some);
        }
        lemma_steps_fwd_frame(va, vb, pa, vmid1);
        let va2 = choose|va2: Seq<Option<T>>|
            #[trigger] steps_fwd_rel(va, pa, va2) && vmid1 == va2 + vb;
        assert(decreases_to!(ks => ks[0]));
        lemma_rt_bu_tree(k0, es0, va2);
        let x0 = va2[h0 - 1]->0;
        assert(x0.model() == k0);
        // the attachment of the first child's root to the node
        assert(pb[0] == (((h0 - 1) as usize), (n as usize)));
        assert(pb.drop_first() =~= Seq::<(usize, usize)>::empty());
        let v1 = choose|v1: Seq<Option<T>>|
            {
                &&& #[trigger] step_fwd_rel(vmid1, pb[0].0 as int, pb[0].1 as int, v1)
                &&& steps_fwd_rel(v1, pb.drop_first(), vmid2)
            };
        assert(vmid2 == v1);
        assert(vmid1[h0 - 1] == va2[h0 - 1]);
        assert(vmid1[n] == vb[n - h0]);
        assert(vb[vb.len() - 1] == Option::Some(y));
        assert(vmid1[n] == Option::Some(y));
        let p2 = choose|p2: T|
            {
                &&& #[trigger] T::pushed(vmid1[n as int]->0, vmid1[h0 - 1]->0, p2)
                &&& v1 == vmid1.update(h0 - 1, Option::<T>::None).update(
                    n as int,
                    Option::Some(p2),
                )
            };
        assert(T::pushed(y, x0, p2));
        assert(p2.model() == (GTree {
            node: y.model().node,
            kids: y.model().kids.push(x0.model()),
        }));
        // the rest of the children act past the first chunk
        let u = vmid2.take(h0);
        let wpart = slots_of(esr).push(Option::Some(p2));
        assert(vmid2 =~= u + wpart);
        lemma_flat_bu_parents_above(ksr);
        lemma_pairs_att_shift(kflr, 0, n - h0, h0, 0);
        assert(pc == shift_pairs(pairs_att(kflr, 0, n - h0, 0), h0));
        lemma_pairs_att_shape(kflr, 0, n - h0, 0);
        assert forall|q: int|
            0 <= q < pairs_att(kflr, 0, n - h0, 0).len() implies (#[trigger] pairs_att(
            kflr,
            0,
            n - h0,
            0,
        )[q]).0 < wpart.len() && pairs_att(kflr, 0, n - h0, 0)[q].1 < wpart.len() by {
        }
        lemma_steps_fwd_unshift(u, wpart, pairs_att(kflr, 0, n - h0, 0), vout);
        let w2 = choose|w2: Seq<Option<T>>|
            #[trigger] steps_fwd_rel(wpart, pairs_att(kflr, 0, n - h0, 0), w2) && vout == u + w2;
        assert(decreases_to!(ks => ksr));
        lemma_rt_bu_kids(ksr, esr, p2, w2);
        // assemble
        assert(vout.len() == esk.len() + 1);
        assert forall|k: int| 0 <= k < esk.len() implies (#[trigger] vout[k]) is None by {
            if k < h0 {
                assert(vout[k] == u[k]);
                if k < h0 - 1 {
                    assert(u[k] == vmid1[k]);
                    assert(vmid1[k] == va2[k]);
                } else {
                    assert(u[k] == v1[h0 - 1]);
                }
            } else {
                assert(vout[k] == w2[k - h0]);
            }
        }
        assert(vout[esk.len() as int] == w2[esr.len() as int]);
        assert((vout[esk.len() as int]->0).model() == (GTree {
            node: p2.model().node,
            kids: p2.model().kids + ksr,
        }));
        assert(y.model().kids.push(x0.model()) + ksr =~= y.model().kids + (seq![k0] + ksr));
        assert(seq![k0] + ksr =~= ks);
        assert((GTree { node: p2.model().node, kids: p2.model().kids + ksr }) =~= (GTree {
            node: y.model().node,
            kids: y.model().kids + ks,
        }));
    }
}

/// After the rollup has processed every pair of a bottom-up collapsed
/// forest, exactly the roots survive, each holding its whole tree back.
proof fn lemma_rt_bu_forest<T: CollapseNode + RollupNode>(
    f: Seq<GTree<T::Bare>>,
    es: Seq<T>,
    vout: Seq<Option<T>>,
)
    requires
        push_appends::<T>(),
        bare_elems(es, payloads(flat_bu(f))),
        flat_bu(f).len() <= usize::MAX,
        steps_fwd_rel(slots_of(es), pairs_of(flat_bu(f)), vout),
    ensures
        rolled_bu(f, vout),
    decreases f,
{
    let fl = flat_bu(f);
    if f.len() == 0 {
        assert(fl =~= Seq::<(T::Bare, Option<int>)>::empty());
        assert(pairs_of(fl) =~= Seq::<(usize, usize)>::empty());
        assert(vout == slots_of(es));
        assert(vout.len() == 0);
    } else {
        let t = f[0];
        let fr = f.drop_first();
        let fl0 = flat_one_bu(t);
        let h = fl0.len() as int;
        let flr = flat_bu(fr);
        assert(fl == fl0 + shift_entries(flr, h));
        lemma_flat_one_bu_root(t);
        lemma_pairs_from_concat(fl0, flr, 0, 0);
        lemma_flat_bu_parents_above(fr);
        lemma_pairs_from_shift(flr, 0, h, 0);
        let pa = pairs_from(fl0, 0, 0);
        let pc = pairs_from(flr, h, 0);
        assert(pairs_of(fl) == pa + pc);
        assert(pc == shift_pairs(pairs_from(flr, 0, 0), h));
        // payload and element split
        lemma_payloads_add(fl0, shift_entries(flr, h));
        lemma_payloads_reindexed(flr, h, 0);
        assert(payloads(fl) == payloads(fl0) + payloads(flr));
        let es0 = es.take(h);
        let esr = es.skip(h);
        assert forall|i: int| 0 <= i < es0.len() implies (#[trigger] es0[i].model()) == (GTree {
            node: payloads(fl0)[i],
            kids: Seq::<GTree<T::Bare>>::empty(),
        }) by {
            assert(es0[i] == es[i]);
            assert(payloads(fl)[i] == payloads(fl0)[i]);
        }
        assert(bare_elems(es0, payloads(fl0)));
        assert forall|i: int| 0 <= i < esr.len() implies (#[trigger] esr[i].model()) == (GTree {
            node: payloads(flr)[i],
            kids: Seq::<GTree<T::Bare>>::empty(),
        }) by {
            assert(esr[i] == es[h + i]);
            assert(payloads(fl)[h + i] == payloads(flr)[i]);
        }
        assert(bare_elems(esr, payloads(flr)));
        let va = slots_of(es0);
        let vb = slots_of(esr);
        assert(slots_of(es) =~= va + vb);
        lemma_steps_fwd_split(slots_of(es), pa, pc, vout);
        let vmid = choose|vmid: Seq<Option<T>>|
            #[trigger] steps_fwd_rel(slots_of(es), pa, vmid) && steps_fwd_rel(vmid, pc, vout);
        lemma_flat_bu_single(t);
        lemma_flat_bu_parents_above(seq![t]);
        lemma_pairs_from_shape(fl0, 0, 0);
        assert forall|q: int| 0 <= q < pa.len() implies (#[trigger] pa[q]).0 < va.len() && pa[q].1
            < va.len() by {
            assert(fl0[pa[q].0 - 0].1 is Some);
            assert(fl0[pa[q].0 as int].1 is Some);
        }
        lemma_steps_fwd_frame(va, vb, pa, vmid);
        let va2 = choose|va2: Seq<Option<T>>|
            #[trigger] steps_fwd_rel(va, pa, va2) && vmid == va2 + vb;
        assert(decreases_to!(f => f[0]));
        lemma_rt_bu_tree(t, es0, va2);
        lemma_pairs_from_shape(flr, 0, 0);
        assert forall|q: int|
            0 <= q < pairs_from(flr, 0, 0).len() implies (#[trigger] pairs_from(flr, 0, 0)[q]).0
            < vb.len() && pairs_from(flr, 0, 0)[q].1 < vb.len() by {
            assert(flr[pairs_from(flr, 0, 0)[q].0 - 0].1 is Some);
            assert(flr[pairs_from(flr, 0, 0)[q].0 as int].1 is Some);
        }
        assert(va2.len() == h);
        lemma_steps_fwd_unshift(va2, vb, pairs_from(flr, 0, 0), vout);
        let w2 = choose|w2: Seq<Option<T>>|
            #[trigger] steps_fwd_rel(vb, pairs_from(flr, 0, 0), w2) && vout == va2 + w2;
        assert(decreases_to!(f => fr));
        lemma_rt_bu_forest(fr, esr, w2);
        // assemble
        assert(vout.len() >= h);
        assert forall|k: int| 0 <= k < h - 1 implies (#[trigger] vout[k]) is None by {
            assert(vout[k] == va2[k]);
        }
        assert(vout[h - 1] == va2[h - 1]);
        assert(vout.skip(h) =~= w2);
    }
}

/// ROUND TRIP, bottom-up: rolling up a bottom-up collapsed forest puts the
/// forest back together. Whatever outcome the rollup's attachment steps
/// reach, the surviving elements, in order, are models of exactly the
/// original trees.
pub proof fn lemma_rollup_bottomup_inverts_collapse<T: CollapseNode + RollupNode>(
    f: Seq<GTree<T::Bare>>,
    es: Seq<T>,
    vout: Seq<Option<T>>,
)
    requires
        push_appends::<T>(),
        elems_extended(Seq::<T>::empty(), es, payloads(flat_bu(f))),
        flat_bu(f).len() <= usize::MAX,
        steps_fwd_rel(slots_of(es), pairs_of(flat_bu(f)), vout),
    ensures
        models(finish_fwd(vout)) == f,
{
    assert forall|i: int| 0 <= i < es.len() implies (#[trigger] es[i].model()) == (GTree {
        node: payloads(flat_bu(f))[i],
        kids: Seq::<GTree<T::Bare>>::empty(),
    }) by {
        assert(es[Seq::<T>::empty().len() + i].model() == (GTree {
            node: payloads(flat_bu(f))[i],
            kids: Seq::<GTree<T::Bare>>::empty(),
        }));
    }
    assert(bare_elems(es, payloads(flat_bu(f))));
    lemma_rt_bu_forest(f, es, vout);
    lemma_rolled_bu_finish(f, vout);
}


/// A chain of top-down steps over concatenated pair groups splits into a
/// chain over the second group followed by one over the first, since the
/// mapping is walked back to front.
proof fn lemma_steps_rev_split<T: ReversableNode>(
    v: Seq<Option<T>>,
    m1: Seq<(usize, usize)>,
    m2: Seq<(usize, usize)>,
    vout: Seq<Option<T>>,
)
    requires
        steps_rev_rel(v, m1 + m2, vout),
    ensures
        exists|vmid: Seq<Option<T>>|
            #[trigger] steps_rev_rel(v, m2, vmid) && steps_rev_rel(vmid, m1, vout),
    decreases m2.len(),
{
    if m2.len() == 0 {
        assert(m1 + m2 =~= m1);
        assert(steps_rev_rel(v, m2, v) && steps_rev_rel(v, m1, vout));
    } else {
        let mm = m1 + m2;
        assert(mm.last() == m2.last());
        assert(mm.drop_last() =~= m1 + m2.drop_last());
        let v1 = choose|v1: Seq<Option<T>>|
            {
                &&& #[trigger] step_rev_rel(v, mm.last().0 as int, mm.last().1 as int, v1)
                &&& steps_rev_rel(v1, mm.drop_last(), vout)
            };
        lemma_steps_rev_split(v1, m1, m2.drop_last(), vout);
        let vmid = choose|vmid: Seq<Option<T>>|
            #[trigger] steps_rev_rel(v1, m2.drop_last(), vmid) && steps_rev_rel(vmid, m1, vout);
        assert(step_rev_rel(v, m2.last().0 as int, m2.last().1 as int, v1) && steps_rev_rel(
            v1,
            m2.drop_last(),
            vmid,
        ));
        assert(steps_rev_rel(v, m2, vmid) && steps_rev_rel(vmid, m1, vout));
    }
}

/// Top-down steps whose pairs stay inside the first part of a split state
/// leave the second part untouched.
proof fn lemma_steps_rev_frame<T: ReversableNode>(
    va: Seq<Option<T>>,
    vb: Seq<Option<T>>,
    m: Seq<(usize, usize)>,
    vout: Seq<Option<T>>,
)
    requires
        forall|q: int| 0 <= q < m.len() ==> (#[trigger] m[q]).0 < va.len() && m[q].1 < va.len(),
        steps_rev_rel(va + vb, m, vout),
    ensures
        exists|va2: Seq<Option<T>>| #[trigger] steps_rev_rel(va, m, va2) && vout == va2 + vb,
    decreases m.len(),
{
    if m.len() == 0 {
        assert(vout == va + vb);
        assert(steps_rev_rel(va, m, va) && vout == va + vb);
    } else {
        let c = m.last().0 as int;
        let p = m.last().1 as int;
        let vv = va + vb;
        let v1 = choose|v1: Seq<Option<T>>|
            {
                &&& #[trigger] step_rev_rel(vv, m.last().0 as int, m.last().1 as int, v1)
                &&& steps_rev_rel(v1, m.drop_last(), vout)
            };
        let (c2, p2) = choose|c2: T, p2: T|
            {
                &&& #[trigger] T::pushed(vv.update(c, Option::<T>::None)[p]->0, c2, p2)
                &&& T::reversed(vv[c]->0, c2)
                &&& v1 == vv.update(c, Option::<T>::None).update(p, Option::Some(p2))
            };
        assert(vv[c] == va[c]);
        assert(vv.update(c, Option::<T>::None)[p] == va.update(c, Option::<T>::None)[p]);
        let va1 = va.update(c, Option::<T>::None).update(p, Option::Some(p2));
        assert(v1 =~= va1 + vb);
        assert(step_rev_rel(va, c, p, va1));
        assert forall|q: int|
            0 <= q < m.drop_last().len() implies (#[trigger] m.drop_last()[q]).0 < va1.len()
            && m.drop_last()[q].1 < va1.len() by {
            assert(m.drop_last()[q] == m[q]);
        }
        lemma_steps_rev_frame(va1, vb, m.drop_last(), vout);
        let va2 = choose|va2: Seq<Option<T>>|
            #[trigger] steps_rev_rel(va1, m.drop_last(), va2) && vout == va2 + vb;
        assert(step_rev_rel(va, m.last().0 as int, m.last().1 as int, va1) && steps_rev_rel(
            va1,
            m.drop_last(),
            va2,
        ));
        assert(steps_rev_rel(va, m, va2) && vout == va2 + vb);
    }
}

/// Top-down steps whose pairs are shifted past a prefix act on the suffix
/// alone.
proof fn lemma_steps_rev_unshift<T: ReversableNode>(
    u: Seq<Option<T>>,
    w: Seq<Option<T>>,
    m: Seq<(usize, usize)>,
    vout: Seq<Option<T>>,
)
    requires
        forall|q: int| 0 <= q < m.len() ==> (#[trigger] m[q]).0 < w.len() && m[q].1 < w.len(),
        u.len() + w.len() <= usize::MAX,
        steps_rev_rel(u + w, shift_pairs(m, u.len() as int), vout),
    ensures
        exists|w2: Seq<Option<T>>| #[trigger] steps_rev_rel(w, m, w2) && vout == u + w2,
    decreases m.len(),
{
    let k = u.len() as int;
    let sm = shift_pairs(m, k);
    if m.len() == 0 {
        assert(sm =~= Seq::<(usize, usize)>::empty());
        assert(vout == u + w);
        assert(steps_rev_rel(w, m, w) && vout == u + w);
    } else {
        let c = m.last().0 as int;
        let p = m.last().1 as int;
        assert(sm.last() == (((m.last().0 + k) as usize), ((m.last().1 + k) as usize)));
        let sc = sm.last().0 as int;
        let sp = sm.last().1 as int;
        assert(sc == c + k);
        assert(sp == p + k);
        assert(sm.drop_last() =~= shift_pairs(m.drop_last(), k));
        let vv = u + w;
        let v1 = choose|v1: Seq<Option<T>>|
            {
                &&& #[trigger] step_rev_rel(vv, sm.last().0 as int, sm.last().1 as int, v1)
                &&& steps_rev_rel(v1, sm.drop_last(), vout)
            };
        let (c2, p2) = choose|c2: T, p2: T|
            {
                &&& #[trigger] T::pushed(vv.update(sc, Option::<T>::None)[sp]->0, c2, p2)
                &&& T::reversed(vv[sc]->0, c2)
                &&& v1 == vv.update(sc, Option::<T>::None).update(sp, Option::Some(p2))
            };
        assert(vv[sc] == w[c]);
        assert(vv.update(sc, Option::<T>::None)[sp] == w.update(c, Option::<T>::None)[p]);
        let w1 = w.update(c, Option::<T>::None).update(p, Option::Some(p2));
        assert(v1 =~= u + w1);
        assert(step_rev_rel(w, c, p, w1));
        lemma_steps_rev_unshift(u, w1, m.drop_last(), vout);
        let w2 = choose|w2: Seq<Option<T>>|
            #[trigger] steps_rev_rel(w1, m.drop_last(), w2) && vout == u + w2;
        assert(step_rev_rel(w, m.last().0 as int, m.last().1 as int, w1) && steps_rev_rel(
            w1,
            m.drop_last(),
            w2,
        ));
        assert(steps_rev_rel(w, m, w2) && vout == u + w2);
    }
}

/// In top-down order the root of a subtree is its first flat entry, and it
/// is the only entry left unattached.
proof fn lemma_flat_one_td_root<P>(t: GTree<P>)
    ensures
        flat_one_td(t).len() >= 1,
        flat_one_td(t)[0].1 is None,
        forall|i: int| 1 <= i < flat_one_td(t).len() ==> (#[trigger] flat_one_td(t)[i]).1 is Some,
{
    let kfl = flat_td(t.kids);
    assert forall|i: int| 1 <= i < flat_one_td(t).len() implies (#[trigger] flat_one_td(
        t,
    )[i]).1 is Some by {
        assert(flat_one_td(t)[i] == under_td(kfl)[i - 1]);
    }
}

proof fn lemma_flat_td_single<P>(t: GTree<P>)
    ensures
        flat_td(seq![t]) == flat_one_td(t),
{
    assert(seq![t][0] == t);
    assert(seq![t].drop_first() =~= Seq::<GTree<P>>::empty());
    assert(flat_td(Seq::<GTree<P>>::empty()) == Seq::<(P, Option<int>)>::empty());
    assert(shift_entries(Seq::<(P, Option<int>)>::empty(), flat_one_td(t).len() as int) =~= Seq::<
        (P, Option<int>),
    >::empty());
    assert(flat_td(seq![t]) =~= flat_one_td(t));
}

/// The pairs of a single top-down tree chunk are the attachment pairs of
/// its children's region, placed one past the node, with the children's
/// roots attached to the node's own position at the start of the chunk.
proof fn lemma_pairs_td_head<P>(t: GTree<P>, base: int, i: int)
    requires
        0 <= i,
    ensures
        pairs_from(flat_one_td(t), base, i + 1) == pairs_att(flat_td(t.kids), base + 1, base, i),
    decreases flat_one_td(t).len() - i,
{
    let fl1 = flat_one_td(t);
    let kfl = flat_td(t.kids);
    if i < kfl.len() {
        lemma_pairs_td_head(t, base, i + 1);
        assert(fl1[i + 1] == under_td(kfl)[i]);
    } else {
        assert(pairs_from(fl1, base, i + 1) =~= Seq::<(usize, usize)>::empty());
        assert(pairs_att(kfl, base + 1, base, i) =~= Seq::<(usize, usize)>::empty());
    }
}

/// The attachment pairs of a single top-down tree chunk: one pair that
/// attaches the chunk's root, its first entry, to `att`, then the chunk's
/// inner pairs.
proof fn lemma_pairs_att_one_td<P>(t: GTree<P>, base: int, att: int)
    ensures
        pairs_att(flat_one_td(t), base, att, 0) == seq![(base as usize, att as usize)]
            + pairs_from(flat_one_td(t), base, 0),
    decreases flat_one_td(t).len(),
{
    let fl1 = flat_one_td(t);
    lemma_flat_one_td_root(t);
    lemma_pairs_att_from_tail(fl1, base, att, 1);
    assert(fl1[0].1 is None);
    assert(pairs_att(fl1, base, att, 0) == seq![(base as usize, att as usize)] + pairs_att(
        fl1,
        base,
        att,
        1,
    ));
    assert(pairs_from(fl1, base, 0) == pairs_from(fl1, base, 1));
}

/// Past any all-attached tail, attachment pairs and plain pairs agree.
proof fn lemma_pairs_att_from_tail<P>(fl: Seq<(P, Option<int>)>, base: int, att: int, i: int)
    requires
        forall|k: int| i <= k < fl.len() ==> (#[trigger] fl[k].1) is Some,
    ensures
        pairs_att(fl, base, att, i) == pairs_from(fl, base, i),
    decreases fl.len() - i,
{
    if 0 <= i < fl.len() {
        lemma_pairs_att_from_tail(fl, base, att, i + 1);
    }
}

/// The slots a fully rolled-up top-down forest leaves behind: one occupied
/// slot per tree, at that tree's root position (the first position of its
/// chunk), holding an element whose model is the tree with its children
/// still in reversed order; all other slots empty.
pub open spec fn rolled_td<T: CollapseNode>(f: Seq<GTree<T::Bare>>, v: Seq<Option<T>>) -> bool
    decreases f,
{
    if f.len() == 0 {
        v.len() == 0
    } else {
        let h = flat_one_td(f[0]).len() as int;
        &&& v.len() >= h
        &&& v[0] is Some
        &&& (v[0]->0).model() == (GTree { node: f[0].node, kids: f[0].kids.reverse() })
        &&& (forall|k: int| 1 <= k < h ==> (#[trigger] v[k]) is None)
        &&& rolled_td(f.drop_first(), v.skip(h))
    }
}

/// After the rollup has processed every attachment pair of a single
/// top-down tree chunk, the chunk's root slot holds an element whose model
/// is the whole tree with its children in reversed order, and every other
/// slot of the chunk is empty.
proof fn lemma_rt_td_tree<T: CollapseNode + ReversableNode>(
    t: GTree<T::Bare>,
    es: Seq<T>,
    vout: Seq<Option<T>>,
)
    requires
        push_appends::<T>(),
        reverse_reverses::<T>(),
        bare_elems(es, payloads(flat_one_td(t))),
        flat_one_td(t).len() <= usize::MAX,
        steps_rev_rel(slots_of(es), pairs_from(flat_one_td(t), 0, 0), vout),
    ensures
        vout.len() == es.len(),
        es.len() >= 1,
        forall|k: int| 1 <= k < es.len() ==> (#[trigger] vout[k]) is None,
        vout[0] is Some,
        (vout[0]->0).model() == (GTree { node: t.node, kids: t.kids.reverse() }),
    decreases t, 0int,
{
    let fl1 = flat_one_td(t);
    let kfl = flat_td(t.kids);
    lemma_flat_one_td_root(t);
    assert(es.len() == fl1.len());
    lemma_pairs_td_head(t, 0, 0);
    assert(fl1[0].1 is None);
    assert(pairs_from(fl1, 0, 0) == pairs_from(fl1, 0, 1));
    assert(pairs_from(fl1, 0, 0) == pairs_att(kfl, 1, 0, 0));
    let y = es[0];
    let esk = es.drop_first();
    assert(slots_of(es) =~= seq![Option::Some(y)] + slots_of(esk));
    lemma_payloads_add(seq![(t.node, Option::<int>::None)], under_td(kfl));
    lemma_payloads_reindexed(kfl, 0, 0);
    assert(payloads(fl1) == payloads(seq![(t.node, Option::<int>::None)]) + payloads(kfl));
    assert(payloads(seq![(t.node, Option::<int>::None)]) =~= seq![t.node]);
    assert(payloads(fl1)[0] == t.node);
    assert(y.model() == (GTree { node: t.node, kids: Seq::<GTree<T::Bare>>::empty() }));
    assert forall|i: int| 0 <= i < esk.len() implies (#[trigger] esk[i].model()) == (GTree {
        node: payloads(kfl)[i],
        kids: Seq::<GTree<T::Bare>>::empty(),
    }) by {
        assert(esk[i] == es[i + 1]);
        assert(es[i + 1].model() == (GTree {
            node: payloads(fl1)[i + 1],
            kids: Seq::<GTree<T::Bare>>::empty(),
        }));
        assert(payloads(fl1)[i + 1] == (seq![t.node] + payloads(kfl))[i + 1]);
    }
    assert(bare_elems(esk, payloads(kfl)));
    assert(decreases_to!(t => t.kids));
    lemma_rt_td_kids(t.kids, esk, y, vout);
    assert((vout[0]->0).model() == (GTree {
        node: y.model().node,
        kids: y.model().kids + t.kids.reverse(),
    }));
    assert(Seq::<GTree<T::Bare>>::empty() + t.kids.reverse() =~= t.kids.reverse());
    assert((GTree { node: y.model().node, kids: y.model().kids + t.kids.reverse() }) =~= (GTree {
        node: t.node,
        kids: t.kids.reverse(),
    }));
}

/// After the rollup has attached a forest of children, chunk by chunk and
/// back to front, into the element that sits just before their region, that
/// element's model has gained the children's trees in reverse order, and
/// the children's region is empty.
#[verifier::rlimit(100)]
proof fn lemma_rt_td_kids<T: CollapseNode + ReversableNode>(
    ks: Seq<GTree<T::Bare>>,
    esk: Seq<T>,
    y: T,
    vout: Seq<Option<T>>,
)
    requires
        push_appends::<T>(),
        reverse_reverses::<T>(),
        bare_elems(esk, payloads(flat_td(ks))),
        flat_td(ks).len() + 1 <= usize::MAX,
        steps_rev_rel(
            seq![Option::Some(y)] + slots_of(esk),
            pairs_att(flat_td(ks), 1, 0, 0),
            vout,
        ),
    ensures
        vout.len() == esk.len() + 1,
        forall|k: int| 1 <= k < vout.len() ==> (#[trigger] vout[k]) is None,
        vout[0] is Some,
        (vout[0]->0).model() == (GTree {
            node: y.model().node,
            kids: y.model().kids + ks.reverse(),
        }),
    decreases ks, 1int,
{

    let kfl = flat_td(ks);
    assert(esk.len() == kfl.len());
    if ks.len() == 0 {
        assert(kfl =~= Seq::<(T::Bare, Option<int>)>::empty());
        assert(pairs_att(kfl, 1, 0, 0) =~= Seq::<(usize, usize)>::empty());
        assert(vout == seq![Option::Some(y)] + slots_of(esk));
        assert(vout.len() == 1);
        assert(vout[0] == Option::Some(y));
        assert(ks.reverse() =~= Seq::<GTree<T::Bare>>::empty());
        assert(y.model().kids + ks.reverse() =~= y.model().kids);
        assert((GTree { node: y.model().node, kids: y.model().kids + ks.reverse() })
            =~= y.model());
    } else {
        lemma_rt_td_kids_rec(ks, esk, y, vout);
    }
}

/// The recursive case of [`lemma_rt_td_kids`]: the forest of children is
/// not empty, so the last child's chunk is rolled up and attached first.
#[verifier::rlimit(100)]
#[verifier::spinoff_prover]
proof fn lemma_rt_td_kids_rec<T: CollapseNode + ReversableNode>(
    ks: Seq<GTree<T::Bare>>,
    esk: Seq<T>,
    y: T,
    vout: Seq<Option<T>>,
)
    requires
        ks.len() > 0,
        push_appends::<T>(),
        reverse_reverses::<T>(),
        bare_elems(esk, payloads(flat_td(ks))),
        flat_td(ks).len() + 1 <= usize::MAX,
        steps_rev_rel(
            seq![Option::Some(y)] + slots_of(esk),
            pairs_att(flat_td(ks), 1, 0, 0),
            vout,
        ),
    ensures
        vout.len() == esk.len() + 1,
        forall|k: int| 1 <= k < vout.len() ==> (#[trigger] vout[k]) is None,
        vout[0] is Some,
        (vout[0]->0).model() == (GTree {
            node: y.model().node,
            kids: y.model().kids + ks.reverse(),
        }),
    decreases ks, 0int,
{
    let kfl = flat_td(ks);
    assert(esk.len() == kfl.len());
    let kl = ks.last();
    let ksl = ks.drop_last();
    let kfll = flat_td(ksl);
    let fll = flat_one_td(kl);
    let hl = fll.len() as int;
    crate::tree_collapse::lemma_flat_push(
        ksl,
        kl,
        crate::tree_collapse::CollapseTreeOrd::TopDown,
    );
    assert(ksl.push(kl) =~= ks);
    assert(kfl == kfll + shift_entries(fll, kfll.len() as int));
    lemma_flat_one_td_root(kl);
    // pairs: the earlier children's region, then the last chunk's root
    // attachment and inner pairs
    lemma_pairs_att_concat(kfll, fll, 1, 0, 0);
    lemma_pairs_att_one_td(kl, 1 + kfll.len() as int, 0);
    let pa = pairs_att(kfll, 1, 0, 0);
    let bl = 1 + kfll.len() as int;
    let pb = seq![(bl as usize, 0usize)];
    let pc = pairs_from(fll, bl, 0);
    assert(pairs_att(kfl, 1, 0, 0) == pa + (pb + pc));
    assert(pa + (pb + pc) =~= (pa + pb) + pc);
    // payload split
    lemma_payloads_add(kfll, shift_entries(fll, kfll.len() as int));
    lemma_payloads_reindexed(fll, kfll.len() as int, 0);
    assert(payloads(kfl) == payloads(kfll) + payloads(fll));
    let esl = esk.take(kfll.len() as int);
    let esr = esk.skip(kfll.len() as int);
    assert forall|i: int| 0 <= i < esl.len() implies (#[trigger] esl[i].model()) == (GTree {
        node: payloads(kfll)[i],
        kids: Seq::<GTree<T::Bare>>::empty(),
    }) by {
        assert(esl[i] == esk[i]);
        assert(payloads(kfl)[i] == payloads(kfll)[i]);
    }
    assert(bare_elems(esl, payloads(kfll)));
    assert forall|i: int| 0 <= i < esr.len() implies (#[trigger] esr[i].model()) == (GTree {
        node: payloads(fll)[i],
        kids: Seq::<GTree<T::Bare>>::empty(),
    }) by {
        assert(esr[i] == esk[kfll.len() + i]);
        assert(payloads(kfl)[kfll.len() + i] == payloads(fll)[i]);
    }
    assert(bare_elems(esr, payloads(fll)));
    // split the trace: the last chunk's pairs go first
    let v0full = seq![Option::Some(y)] + slots_of(esk);
    lemma_steps_rev_split(v0full, pa + pb, pc, vout);
    let vmid2 = choose|vmid2: Seq<Option<T>>|
        #[trigger] steps_rev_rel(v0full, pc, vmid2) && steps_rev_rel(vmid2, pa + pb, vout);
    // the last chunk's inner pairs act past everything else
    let u0 = seq![Option::Some(y)] + slots_of(esl);
    assert(u0.len() == bl);
    assert(v0full =~= u0 + slots_of(esr));
    lemma_flat_td_single(kl);
    lemma_flat_td_parents_below(seq![kl]);
    lemma_pairs_from_shape(fll, 0, 0);
    lemma_pairs_from_shift(fll, 0, bl, 0);
    assert(pc == shift_pairs(pairs_from(fll, 0, 0), bl));
    assert forall|q: int|
        0 <= q < pairs_from(fll, 0, 0).len() implies (#[trigger] pairs_from(fll, 0, 0)[q]).0
        < slots_of(esr).len() && pairs_from(fll, 0, 0)[q].1 < slots_of(esr).len() by {
        assert(fll[pairs_from(fll, 0, 0)[q].0 - 0].1 is Some);
        assert(fll[pairs_from(fll, 0, 0)[q].0 as int].1 is Some);
    }
    lemma_steps_rev_unshift(u0, slots_of(esr), pairs_from(fll, 0, 0), vmid2);
    let w2 = choose|w2: Seq<Option<T>>|
        #[trigger] steps_rev_rel(slots_of(esr), pairs_from(fll, 0, 0), w2) && vmid2 == u0 + w2;
    assert(decreases_to!(ks => kl));
    lemma_rt_td_tree(kl, esr, w2);
    let x0 = w2[0]->0;
    assert(x0.model() == (GTree { node: kl.node, kids: kl.kids.reverse() }));
    // the attachment of the last child's root to the node
    lemma_steps_rev_split(vmid2, pa, pb, vout);
    let vmid1 = choose|vmid1: Seq<Option<T>>|
        #[trigger] steps_rev_rel(vmid2, pb, vmid1) && steps_rev_rel(vmid1, pa, vout);
    assert(pb.last() == ((bl as usize), 0usize));
    assert(pb.drop_last() =~= Seq::<(usize, usize)>::empty());
    let v1 = choose|v1: Seq<Option<T>>|
        {
            &&& #[trigger] step_rev_rel(vmid2, pb.last().0 as int, pb.last().1 as int, v1)
            &&& steps_rev_rel(v1, pb.drop_last(), vmid1)
        };
    assert(vmid1 == v1);
    assert(vmid2[bl] == w2[0]);
    assert(vmid2[0] == u0[0]);
    assert(vmid2[0] == Option::Some(y));
    let (c2, p2) = choose|c2: T, p2: T|
        {
            &&& #[trigger] T::pushed(vmid2.update(bl, Option::<T>::None)[0]->0, c2, p2)
            &&& T::reversed(vmid2[bl]->0, c2)
            &&& v1 == vmid2.update(bl, Option::<T>::None).update(0, Option::Some(p2))
        };
    assert(T::reversed(x0, c2));
    assert(c2.model() == (GTree {
        node: x0.model().node,
        kids: x0.model().kids.reverse(),
    }));
    assert(kl.kids.reverse().reverse() =~= kl.kids);
    assert(c2.model() =~= kl);
    assert(vmid2.update(bl, Option::<T>::None)[0] == Option::Some(y));
    assert(T::pushed(y, c2, p2));
    assert(p2.model() == (GTree {
        node: y.model().node,
        kids: y.model().kids.push(c2.model()),
    }));
    // the earlier children act on the prefix before the emptied chunk
    let va = seq![Option::Some(p2)] + slots_of(esl);
    let vb = vmid1.skip(bl);
    assert(vmid1 =~= va + vb);
    assert forall|k: int| 0 <= k < vb.len() implies (#[trigger] vb[k]) is None by {
        if k == 0 {
            assert(vmid1[bl] == v1[bl]);
        } else {
            assert(vmid1[bl + k] == w2[k]);
        }
    }
    lemma_flat_td_parents_below(ksl);
    lemma_pairs_att_shape(kfll, 1, 0, 0);
    assert forall|q: int| 0 <= q < pa.len() implies (#[trigger] pa[q]).0 < va.len() && pa[q].1
        < va.len() by {
    }
    lemma_steps_rev_frame(va, vb, pa, vout);
    let va2 = choose|va2: Seq<Option<T>>|
        #[trigger] steps_rev_rel(va, pa, va2) && vout == va2 + vb;
    assert(decreases_to!(ks => ksl));
    lemma_rt_td_kids(ksl, esl, p2, va2);
    // assemble
    assert(vout.len() == esk.len() + 1);
    assert forall|k: int| 1 <= k < vout.len() implies (#[trigger] vout[k]) is None by {
        if k < va2.len() {
            assert(vout[k] == va2[k]);
        } else {
            assert(vout[k] == vb[k - va2.len()]);
        }
    }
    assert(vout[0] == va2[0]);
    assert((vout[0]->0).model() == (GTree {
        node: p2.model().node,
        kids: p2.model().kids + ksl.reverse(),
    }));
    assert(y.model().kids.push(c2.model()) + ksl.reverse() =~= y.model().kids + (seq![kl]
        + ksl.reverse()));
    assert(seq![kl] + ksl.reverse() =~= ks.reverse());
    assert((GTree { node: p2.model().node, kids: p2.model().kids + ksl.reverse() }) =~= (GTree {
        node: y.model().node,
        kids: y.model().kids + ks.reverse(),
    }));
}

/// After the rollup has processed every pair of a top-down collapsed
/// forest, exactly the roots survive, each holding its whole tree with its
/// children still reversed.
proof fn lemma_rt_td_forest<T: CollapseNode + ReversableNode>(
    f: Seq<GTree<T::Bare>>,
    es: Seq<T>,
    vout: Seq<Option<T>>,
)
    requires
        push_appends::<T>(),
        reverse_reverses::<T>(),
        bare_elems(es, payloads(flat_td(f))),
        flat_td(f).len() <= usize::MAX,
        steps_rev_rel(slots_of(es), pairs_of(flat_td(f)), vout),
    ensures
        rolled_td(f, vout),
    decreases f,
{
    let fl = flat_td(f);
    if f.len() == 0 {
        assert(fl =~= Seq::<(T::Bare, Option<int>)>::empty());
        assert(pairs_of(fl) =~= Seq::<(usize, usize)>::empty());
        assert(vout == slots_of(es));
        assert(vout.len() == 0);
    } else {
        let t = f[0];
        let fr = f.drop_first();
        let fl0 = flat_one_td(t);
        let h = fl0.len() as int;
        let flr = flat_td(fr);
        assert(fl == fl0 + shift_entries(flr, h));
        lemma_flat_one_td_root(t);
        lemma_pairs_from_concat(fl0, flr, 0, 0);
        lemma_flat_td_parents_below(fr);
        lemma_pairs_from_shift(flr, 0, h, 0);
        let pa = pairs_from(fl0, 0, 0);
        let pc = pairs_from(flr, h, 0);
        assert(pairs_of(fl) == pa + pc);
        assert(pc == shift_pairs(pairs_from(flr, 0, 0), h));
        lemma_payloads_add(fl0, shift_entries(flr, h));
        lemma_payloads_reindexed(flr, h, 0);
        assert(payloads(fl) == payloads(fl0) + payloads(flr));
        let es0 = es.take(h);
        let esr = es.skip(h);
        assert forall|i: int| 0 <= i < es0.len() implies (#[trigger] es0[i].model()) == (GTree {
            node: payloads(fl0)[i],
            kids: Seq::<GTree<T::Bare>>::empty(),
        }) by {
            assert(es0[i] == es[i]);
            assert(payloads(fl)[i] == payloads(fl0)[i]);
        }
        assert(bare_elems(es0, payloads(fl0)));
        assert forall|i: int| 0 <= i < esr.len() implies (#[trigger] esr[i].model()) == (GTree {
            node: payloads(flr)[i],
            kids: Seq::<GTree<T::Bare>>::empty(),
        }) by {
            assert(esr[i] == es[h + i]);
            assert(payloads(fl)[h + i] == payloads(flr)[i]);
        }
        assert(bare_elems(esr, payloads(flr)));
        let va = slots_of(es0);
        let vb = slots_of(esr);
        assert(slots_of(es) =~= va + vb);
        // the rest of the forest is processed first
        lemma_steps_rev_split(slots_of(es), pa, pc, vout);
        let vmid = choose|vmid: Seq<Option<T>>|
            #[trigger] steps_rev_rel(slots_of(es), pc, vmid) && steps_rev_rel(vmid, pa, vout);
        lemma_pairs_from_shape(flr, 0, 0);
        assert forall|q: int|
            0 <= q < pairs_from(flr, 0, 0).len() implies (#[trigger] pairs_from(flr, 0, 0)[q]).0
            < vb.len() && pairs_from(flr, 0, 0)[q].1 < vb.len() by {
            assert(flr[pairs_from(flr, 0, 0)[q].0 - 0].1 is Some);
            assert(flr[pairs_from(flr, 0, 0)[q].0 as int].1 is Some);
        }
        lemma_steps_rev_unshift(va, vb, pairs_from(flr, 0, 0), vmid);
        let w2 = choose|w2: Seq<Option<T>>|
            #[trigger] steps_rev_rel(vb, pairs_from(flr, 0, 0), w2) && vmid == va + w2;
        assert(decreases_to!(f => fr));
        lemma_rt_td_forest(fr, esr, w2);
        // then the first tree's own chunk
        lemma_flat_td_single(t);
        lemma_flat_td_parents_below(seq![t]);
        lemma_pairs_from_shape(fl0, 0, 0);
        assert forall|q: int| 0 <= q < pa.len() implies (#[trigger] pa[q]).0 < va.len() && pa[q].1
            < va.len() by {
            assert(fl0[pa[q].0 - 0].1 is Some);
            assert(fl0[pa[q].0 as int].1 is Some);
        }
        lemma_steps_rev_frame(va, w2, pa, vout);
        let va2 = choose|va2: Seq<Option<T>>|
            #[trigger] steps_rev_rel(va, pa, va2) && vout == va2 + w2;
        assert(decreases_to!(f => f[0]));
        lemma_rt_td_tree(t, es0, va2);
        // assemble
        assert(vout.len() >= h);
        assert(vout[0] == va2[0]);
        assert forall|k: int| 1 <= k < h implies (#[trigger] vout[k]) is None by {
            assert(vout[k] == va2[k]);
        }
        assert(vout.skip(h) =~= w2);
    }
}

proof fn lemma_finish_rev_rel_all_none<T: ReversableNode>(v: Seq<Option<T>>, out: Seq<T>)
    requires
        forall|k: int| 0 <= k < v.len() ==> (#[trigger] v[k]) is None,
        finish_rev_rel(v, out),
    ensures
        out.len() == 0,
    decreases v.len(),
{
    if v.len() > 0 {
        lemma_finish_rev_rel_all_none(v.drop_last(), out);
    }
}

/// A finished top-down collection over a split state splits into the
/// collections over the two parts.
proof fn lemma_finish_rev_rel_concat<T: ReversableNode>(
    a: Seq<Option<T>>,
    b: Seq<Option<T>>,
    out: Seq<T>,
)
    requires
        finish_rev_rel(a + b, out),
    ensures
        exists|k: int|
            0 <= k <= out.len() && #[trigger] finish_rev_rel(a, out.take(k)) && finish_rev_rel(
                b,
                out.skip(k),
            ),
    decreases b.len(),
{
    if b.len() == 0 {
        assert(a + b =~= a);
        assert(out.take(out.len() as int) =~= out);
        assert(out.skip(out.len() as int) =~= Seq::<T>::empty());
        assert(finish_rev_rel(a, out.take(out.len() as int)) && finish_rev_rel(
            b,
            out.skip(out.len() as int),
        ));
    } else {
        assert((a + b).last() == b.last());
        assert((a + b).drop_last() =~= a + b.drop_last());
        match b.last() {
            Option::Some(x) => {
                assert(out.len() >= 1);
                assert(T::reversed(x, out.last()));
                assert(finish_rev_rel(a + b.drop_last(), out.drop_last()));
                lemma_finish_rev_rel_concat(a, b.drop_last(), out.drop_last());
                let k = choose|k: int|
                    0 <= k <= out.drop_last().len() && #[trigger] finish_rev_rel(
                        a,
                        out.drop_last().take(k),
                    ) && finish_rev_rel(b.drop_last(), out.drop_last().skip(k));
                assert(out.drop_last().take(k) =~= out.take(k));
                assert(out.skip(k).last() == out.last());
                assert(out.skip(k).drop_last() =~= out.drop_last().skip(k));
                assert(out.skip(k).len() >= 1);
                assert(finish_rev_rel(b, out.skip(k)));
                assert(finish_rev_rel(a, out.take(k)) && finish_rev_rel(b, out.skip(k)));
            },
            Option::None => {
                assert(finish_rev_rel(a + b.drop_last(), out));
                lemma_finish_rev_rel_concat(a, b.drop_last(), out);
                let k = choose|k: int|
                    0 <= k <= out.len() && #[trigger] finish_rev_rel(a, out.take(k))
                        && finish_rev_rel(b.drop_last(), out.skip(k));
                assert(finish_rev_rel(b, out.skip(k)));
                assert(finish_rev_rel(a, out.take(k)) && finish_rev_rel(b, out.skip(k)));
            },
        }
    }
}

/// Collecting the survivors of a rolled-up top-down forest, with the final
/// reversing pass, yields one element per tree, in order, whose models are
/// exactly the trees.
proof fn lemma_rolled_td_finish<T: CollapseNode + ReversableNode>(
    f: Seq<GTree<T::Bare>>,
    v: Seq<Option<T>>,
    out: Seq<T>,
)
    requires
        reverse_reverses::<T>(),
        rolled_td(f, v),
        finish_rev_rel(v, out),
    ensures
        models(out) == f,
    decreases f,
{
    if f.len() == 0 {
        assert(v.len() == 0);
        assert(out.len() == 0);
        assert(models(out) =~= f);
    } else {
        let h = flat_one_td(f[0]).len() as int;
        let c = v.take(h);
        let rest = v.skip(h);
        assert(v =~= c + rest);
        lemma_finish_rev_rel_concat(c, rest, out);
        let k = choose|k: int|
            0 <= k <= out.len() && #[trigger] finish_rev_rel(c, out.take(k)) && finish_rev_rel(
                rest,
                out.skip(k),
            );
        // the chunk holds exactly one survivor, its root
        assert(c[0] == v[0]);
        let x = v[0]->0;
        assert(c.drop_first() =~= Seq::<Option<T>>::empty().push(c[0]).add(
            c.drop_first(),
        ).drop_first());
        lemma_finish_rev_chunk(c, out.take(k), x);
        assert(out.take(k).len() == 1);
        let x2 = out.take(k)[0];
        assert(T::reversed(x, x2));
        assert(x2.model() == (GTree { node: x.model().node, kids: x.model().kids.reverse() }));
        assert(f[0].kids.reverse().reverse() =~= f[0].kids);
        assert(x2.model() =~= f[0]);
        lemma_rolled_td_finish(f.drop_first(), rest, out.skip(k));
        assert(models(out.skip(k)).len() == out.skip(k).len());
        assert(out.len() == 1 + out.skip(k).len());
        assert(models(out).len() == f.len());
        assert forall|i: int| 0 <= i < f.len() implies models(out)[i] == f[i] by {
            assert(models(out)[i] == out[i].model());
            if i == 0 {
                assert(out[0] == out.take(k)[0]);
            } else {
                assert(out[i] == out.skip(k)[i - 1]);
                assert(models(out.skip(k))[i - 1] == out.skip(k)[i - 1].model());
                assert(models(out.skip(k))[i - 1] == f.drop_first()[i - 1]);
                assert(f.drop_first()[i - 1] == f[i]);
            }
        }
        assert(models(out) =~= f);
    }
}

/// Collecting a chunk whose only occupied slot is its first yields exactly
/// one element, the reversal of that slot's content.
proof fn lemma_finish_rev_chunk<T: ReversableNode>(c: Seq<Option<T>>, oc: Seq<T>, x: T)
    requires
        c.len() >= 1,
        c[0] == Option::Some(x),
        forall|k: int| 1 <= k < c.len() ==> (#[trigger] c[k]) is None,
        finish_rev_rel(c, oc),
    ensures
        oc.len() == 1,
        T::reversed(x, oc[0]),
    decreases c.len(),
{
    if c.len() == 1 {
        assert(c.last() == Option::Some(x));
        assert(oc.len() >= 1);
        assert(T::reversed(x, oc.last()));
        assert(finish_rev_rel(c.drop_last(), oc.drop_last()));
        assert(c.drop_last().len() == 0);
        assert(oc.drop_last().len() == 0);
        assert(oc.len() == 1);
        assert(oc.last() == oc[0]);
    } else {
        assert(c.last() is None);
        assert(c.drop_last()[0] == Option::Some(x));
        lemma_finish_rev_chunk(c.drop_last(), oc, x);
    }
}

/// ROUND TRIP, top-down: rolling up a top-down collapsed forest puts the
/// forest back together. Whatever outcome the rollup's attachment steps and
/// final reversing pass reach, the collected elements, in order, are models
/// of exactly the original trees.
pub proof fn lemma_rollup_inverts_collapse<T: CollapseNode + ReversableNode>(
    f: Seq<GTree<T::Bare>>,
    es: Seq<T>,
    vout: Seq<Option<T>>,
    out: Seq<T>,
)
    requires
        push_appends::<T>(),
        reverse_reverses::<T>(),
        elems_extended(Seq::<T>::empty(), es, payloads(flat_td(f))),
        flat_td(f).len() <= usize::MAX,
        steps_rev_rel(slots_of(es), pairs_of(flat_td(f)), vout),
        finish_rev_rel(vout, out),
    ensures
        models(out) == f,
{
    assert forall|i: int| 0 <= i < es.len() implies (#[trigger] es[i].model()) == (GTree {
        node: payloads(flat_td(f))[i],
        kids: Seq::<GTree<T::Bare>>::empty(),
    }) by {
        assert(es[Seq::<T>::empty().len() + i].model() == (GTree {
            node: payloads(flat_td(f))[i],
            kids: Seq::<GTree<T::Bare>>::empty(),
        }));
    }
    assert(bare_elems(es, payloads(flat_td(f))));
    lemma_rt_td_forest(f, es, vout);
    lemma_rolled_td_finish(f, vout, out);
}


proof fn lemma_asc_pairs_split<P>(fl: Seq<(P, Option<int>)>, i: int)
    requires
        0 <= i <= fl.len(),
        fl.len() <= usize::MAX,
        forall|k: int| 0 <= k < fl.len() && (#[trigger] fl[k].1) is Some ==> 0 <= fl[k].1->0
            < fl.len(),
    ensures
        pairs_of(fl) == asc_pairs(mapping_of(fl), i as nat) + pairs_from(fl, 0, i),
    decreases i,
{
    let mo = mapping_of(fl);
    if i == 0 {
        assert(asc_pairs(mo, 0) =~= Seq::<(usize, usize)>::empty());
        assert(asc_pairs(mo, 0) + pairs_from(fl, 0, 0) =~= pairs_from(fl, 0, 0));
    } else {
        lemma_asc_pairs_split(fl, i - 1);
        let c = (i - 1) as usize;
        assert(mo.contains_key(c) <==> fl[i - 1].1 is Some);
        if fl[i - 1].1 is Some {
            let j = fl[i - 1].1->0;
            assert(mo[c] == (0 + j) as usize);
            assert(pairs_from(fl, 0, i - 1) == seq![((0 + (i - 1)) as usize, (0 + j) as usize)]
                + pairs_from(fl, 0, i));
            assert(asc_pairs(mo, i as nat) =~= asc_pairs(mo, (i - 1) as nat) + seq![(c, mo[c])]);
            assert(asc_pairs(mo, (i - 1) as nat) + pairs_from(fl, 0, i - 1) =~= (asc_pairs(
                mo,
                i as nat,
            ) + pairs_from(fl, 0, i)));
        } else {
            assert(pairs_from(fl, 0, i - 1) == pairs_from(fl, 0, i));
            assert(asc_pairs(mo, i as nat) =~= asc_pairs(mo, (i - 1) as nat));
        }
    }
}

/// Listing a flat forest's mapping in ascending child order gives exactly
/// the forest's pair list: the form a collapsed tree hands to a rollup is
/// the one the round-trip laws speak of.
pub proof fn lemma_asc_pairs_of_mapping<P>(fl: Seq<(P, Option<int>)>)
    requires
        fl.len() <= usize::MAX,
        forall|k: int| 0 <= k < fl.len() && (#[trigger] fl[k].1) is Some ==> 0 <= fl[k].1->0
            < fl.len(),
    ensures
        asc_pairs(mapping_of(fl), fl.len()) == pairs_of(fl),
{
    lemma_asc_pairs_split(fl, fl.len() as int);
    assert(pairs_from(fl, 0, fl.len() as int) =~= Seq::<(usize, usize)>::empty());
    assert(asc_pairs(mapping_of(fl), fl.len()) + pairs_from(fl, 0, fl.len() as int) =~= asc_pairs(
        mapping_of(fl),
        fl.len(),
    ));
}


/// Round trip, top-down, end to end: collapse a forest, list its mapping in
/// ascending child order, and roll it back up. The rollup goes through, and
/// whatever outcome its steps and final reversing pass reach, the collected
/// elements are models of exactly the original roots.
pub proof fn lemma_collapse_then_rollup<T: CollapseNode + ReversableNode>(
    f: Seq<GTree<T::Bare>>,
    es: Seq<T>,
    vout: Seq<Option<T>>,
    out: Seq<T>,
)
    requires
        push_appends::<T>(),
        reverse_reverses::<T>(),
        elems_extended(Seq::<T>::empty(), es, payloads(flat_td(f))),
        flat_td(f).len() <= usize::MAX,
    ensures
        steps_rev_ok(
            occupancy(slots_of(es)),
            asc_pairs(mapping_of(flat_td(f)), es.len() as nat),
        ),
        steps_rev_rel(slots_of(es), asc_pairs(mapping_of(flat_td(f)), es.len() as nat), vout)
            && finish_rev_rel(vout, out) ==> models(out) == f,
{
    let fl = flat_td(f);
    lemma_flat_td_parents_below(f);
    lemma_asc_pairs_of_mapping(fl);
    assert(es.len() == fl.len());
    lemma_rollup_of_collapse_succeeds::<T, T::Bare>(es, f);
    if steps_rev_rel(slots_of(es), asc_pairs(mapping_of(fl), es.len() as nat), vout)
        && finish_rev_rel(vout, out) {
        lemma_rollup_inverts_collapse(f, es, vout, out);
    }
}

/// Round trip, bottom-up, end to end: collapse a forest bottom-up, list its
/// mapping in ascending child order, and roll it back up front to back. The
/// rollup goes through, and whatever outcome its steps reach, the surviving
/// elements are models of exactly the original roots.
pub proof fn lemma_collapse_then_rollup_bottomup<T: CollapseNode + RollupNode>(
    f: Seq<GTree<T::Bare>>,
    es: Seq<T>,
    vout: Seq<Option<T>>,
)
    requires
        push_appends::<T>(),
        elems_extended(Seq::<T>::empty(), es, payloads(flat_bu(f))),
        flat_bu(f).len() <= usize::MAX,
    ensures
        steps_fwd_ok(
            occupancy(slots_of(es)),
            asc_pairs(mapping_of(flat_bu(f)), es.len() as nat),
        ),
        steps_fwd_rel(slots_of(es), asc_pairs(mapping_of(flat_bu(f)), es.len() as nat), vout)
            ==> models(finish_fwd(vout)) == f,
{
    let fl = flat_bu(f);
    lemma_flat_bu_parents_above(f);
    lemma_asc_pairs_of_mapping(fl);
    assert(es.len() == fl.len());
    lemma_rollup_bottomup_of_collapse_succeeds::<T, T::Bare>(es, f);
    if steps_fwd_rel(slots_of(es), asc_pairs(mapping_of(fl), es.len() as nat), vout) {
        lemma_rollup_bottomup_inverts_collapse(f, es, vout);
    }
}

} // verus!
