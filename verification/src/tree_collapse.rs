//! Flattening a forest of nodes into a flat sequence plus a child-to-parent
//! index mapping, in pre-order ("top-down") or post-order ("bottom-up").

use vstd::prelude::*;
use std::collections::BTreeMap;

verus! {

broadcast use vstd::laws_cmp::group_laws_cmp;

/// The mathematical shape of a node: its childless payload together with the
/// models of its children, in order.
#[verifier::ext_equal]
pub ghost struct GTree<T> {
    pub node: T,
    pub kids: Seq<GTree<T>>,
}

/// A tree node that can hand over its children.
pub trait Node: Sized {
    /// What one node carries once its children are detached.
    type Bare;

    /// The model of this node as a mathematical tree of bare payloads.
    spec fn model(self) -> GTree<Self::Bare>;

    /// Detach and return the children, in order, leaving the node childless.
    fn take_children(&mut self) -> (cs: Vec<Self>)
        ensures
            cs@.len() == old(self).model().kids.len(),
            forall|i: int|
                0 <= i < cs@.len() ==> (#[trigger] cs@[i].model()) == old(self).model().kids[i],
            final(self).model() == (GTree { node: old(self).model().node, kids: Seq::<
                GTree<Self::Bare>,
            >::empty() }),
    ;
}

/// The models of a sequence of nodes.
pub open spec fn models<T: Node>(s: Seq<T>) -> Seq<GTree<T::Bare>> {
    s.map_values(|x: T| x.model())
}

/// `es` is `es0` followed by one childless element per payload of `ps`, in
/// order: the appended elements' models are exactly the bare trees of `ps`.
pub open spec fn elems_extended<T: Node>(es0: Seq<T>, es: Seq<T>, ps: Seq<T::Bare>) -> bool {
    &&& es.len() == es0.len() + ps.len()
    &&& forall|i: int| 0 <= i < es0.len() ==> es[i] == es0[i]
    &&& forall|i: int|
        0 <= i < ps.len() ==> (#[trigger] es[es0.len() + i].model()) == (GTree { node: ps[i], kids: Seq::<GTree<T::Bare>>::empty() })
}

proof fn lemma_elems_extended_trans<T: Node>(
    a: Seq<T>,
    b: Seq<T>,
    c: Seq<T>,
    ps1: Seq<T::Bare>,
    ps2: Seq<T::Bare>,
)
    requires
        elems_extended(a, b, ps1),
        elems_extended(b, c, ps2),
    ensures
        elems_extended(a, c, ps1 + ps2),
{
    assert forall|i: int| 0 <= i < (ps1 + ps2).len() implies (#[trigger] c[a.len() + i].model())
        == (GTree { node: (ps1 + ps2)[i], kids: Seq::<GTree<T::Bare>>::empty() }) by {
        if i < ps1.len() {
            assert(c[a.len() + i] == b[a.len() + i]);
            assert(b[a.len() + i].model() == (GTree {
                node: ps1[i],
                kids: Seq::<GTree<T::Bare>>::empty(),
            }));
        } else {
            assert(c[b.len() + (i - ps1.len())].model() == (GTree {
                node: ps2[i - ps1.len()],
                kids: Seq::<GTree<T::Bare>>::empty(),
            }));
            assert(a.len() + i == b.len() + (i - ps1.len()));
        }
    }
}

/// A flat tree paired with its child-to-parent index mapping.
#[derive(Clone, Debug, PartialEq, Eq)]
pub struct CollapsedTree<T> {
    pub elems: Vec<T>,
    /// mapping from child to parent index
    pub mapping: BTreeMap<usize, usize>,
}

/// The order in which a collapsed tree lists a node and its descendants.
#[derive(Clone, Copy, Debug, PartialEq, Eq, Structural)]
pub enum CollapseTreeOrd {
    TopDown,
    BottomUp,
}

/// Shift every parent position in `fl` by `k`, leaving roots alone.
///
/// An entry of a flat tree is the payload of one node paired with the
/// position of its parent relative to the start of the chunk (`None` for a
/// root).
pub open spec fn shift_entries<T>(fl: Seq<(T, Option<int>)>, k: int) -> Seq<(T, Option<int>)> {
    fl.map_values(
        |p: (T, Option<int>)|
            (p.0, match p.1 {
                Option::None => Option::None,
                Option::Some(j) => Option::Some(j + k),
            }),
    )
}

/// Reindex the flat form of a node's children so that it sits directly below
/// the node in top-down order: the node itself takes relative position 0,
/// every child entry moves up by one, and the children's roots point at 0.
pub open spec fn under_td<T>(fl: Seq<(T, Option<int>)>) -> Seq<(T, Option<int>)> {
    fl.map_values(
        |p: (T, Option<int>)|
            (p.0, match p.1 {
                Option::None => Option::Some(0int),
                Option::Some(j) => Option::Some(j + 1),
            }),
    )
}

/// Reindex the flat form of a node's children for bottom-up order: positions
/// stay, and the children's roots point at `root`, the node's own position.
pub open spec fn under_bu<T>(fl: Seq<(T, Option<int>)>, root: int) -> Seq<(T, Option<int>)> {
    fl.map_values(
        |p: (T, Option<int>)|
            (p.0, match p.1 {
                Option::None => Option::Some(root),
                Option::Some(j) => Option::Some(j),
            }),
    )
}

/// The flat form of a forest in top-down (pre-order) order.
pub open spec fn flat_td<T>(f: Seq<GTree<T>>) -> Seq<(T, Option<int>)>
    decreases f,
{
    if f.len() == 0 {
        Seq::empty()
    } else {
        let head = flat_one_td(f[0]);
        head + shift_entries(flat_td(f.drop_first()), head.len() as int)
    }
}

/// The flat form of a single tree in top-down order: the node first, its
/// descendants after it.
pub open spec fn flat_one_td<T>(t: GTree<T>) -> Seq<(T, Option<int>)>
    decreases t,
{
    seq![(t.node, Option::<int>::None)] + under_td(flat_td(t.kids))
}

/// The flat form of a forest in bottom-up (post-order) order.
pub open spec fn flat_bu<T>(f: Seq<GTree<T>>) -> Seq<(T, Option<int>)>
    decreases f,
{
    if f.len() == 0 {
        Seq::empty()
    } else {
        let head = flat_one_bu(f[0]);
        head + shift_entries(flat_bu(f.drop_first()), head.len() as int)
    }
}

/// The flat form of a single tree in bottom-up order: the descendants first,
/// the node last.
pub open spec fn flat_one_bu<T>(t: GTree<T>) -> Seq<(T, Option<int>)>
    decreases t,
{
    under_bu(flat_bu(t.kids), flat_bu(t.kids).len() as int) + seq![(t.node, Option::<int>::None)]
}

/// The flat form of a forest in the given order.
pub open spec fn flat_of<T>(f: Seq<GTree<T>>, order: CollapseTreeOrd) -> Seq<(T, Option<int>)> {
    match order {
        CollapseTreeOrd::TopDown => flat_td(f),
        CollapseTreeOrd::BottomUp => flat_bu(f),
    }
}

/// The flat form of a single tree in the given order.
pub open spec fn flat_one<T>(t: GTree<T>, order: CollapseTreeOrd) -> Seq<(T, Option<int>)> {
    match order {
        CollapseTreeOrd::TopDown => flat_one_td(t),
        CollapseTreeOrd::BottomUp => flat_one_bu(t),
    }
}

/// The payloads of a flat tree, in order.
pub open spec fn payloads<T>(fl: Seq<(T, Option<int>)>) -> Seq<T> {
    fl.map_values(|p: (T, Option<int>)| p.0)
}

/// The absolute parent position of entry `i` of a chunk of flat entries
/// placed at absolute position `base`, when the chunk's own roots are
/// attached to `parent`.
pub open spec fn entry_parent<T>(
    fl: Seq<(T, Option<int>)>,
    i: int,
    base: int,
    parent: Option<usize>,
) -> Option<int> {
    match fl[i].1 {
        Option::Some(j) => Option::Some(base + j),
        Option::None => match parent {
            Option::Some(q) => Option::Some(q as int),
            Option::None => Option::None,
        },
    }
}

/// The child-to-parent map contributed by a chunk of flat entries placed at
/// absolute position `base`, with the chunk's roots attached to `parent`.
pub open spec fn chunk_map<T>(fl: Seq<(T, Option<int>)>, base: int, parent: Option<usize>) -> Map<
    usize,
    usize,
> {
    Map::new(
        |c: usize|
            base <= c < base + fl.len() && entry_parent(fl, c - base, base, parent) is Some,
        |c: usize| (entry_parent(fl, c - base, base, parent)->0) as usize,
    )
}

/// The child-to-parent map of a whole flat forest.
pub open spec fn mapping_of<T>(fl: Seq<(T, Option<int>)>) -> Map<usize, usize> {
    chunk_map(fl, 0, Option::None)
}

/// The entries of a child-to-parent map with child below `bound`, listed
/// in ascending child order.
pub open spec fn asc_pairs(m: Map<usize, usize>, bound: nat) -> Seq<(usize, usize)>
    decreases bound,
{
    if bound == 0 {
        Seq::empty()
    } else {
        let c = (bound - 1) as usize;
        asc_pairs(m, (bound - 1) as nat) + (if m.contains_key(c) {
            seq![(c, m[c])]
        } else {
            Seq::empty()
        })
    }
}

impl<T> CollapsedTree<T> {
    /// The mapping as a list of child-to-parent pairs in ascending child
    /// order, for every child position inside the element list: the form in
    /// which a rollup consumes it.
    #[verifier::loop_isolation(false)]
    pub fn mapping_pairs(&self) -> (m: Vec<(usize, usize)>)
        ensures
            m@ == asc_pairs(self.mapping@, self.elems@.len()),
    {
        let mut m: Vec<(usize, usize)> = Vec::new();
        proof {
            assert(m@ =~= asc_pairs(self.mapping@, 0));
        }
        let mut c: usize = 0;
        while c < self.elems.len()
            invariant
                c <= self.elems@.len(),
                m@ == asc_pairs(self.mapping@, c as nat),
            decreases self.elems@.len() - c,
        {
            match self.mapping.get(&c) {
                Option::Some(p) => {
                    m.push((c, *p));
                },
                Option::None => {},
            }
            c = c + 1;
            proof {
                assert(m@ =~= asc_pairs(self.mapping@, c as nat));
            }
        }
        m
    }
}

/// The mapping entry of a chunk's root, if the chunk is attached at all.
pub open spec fn root_entry(pos: usize, parent: Option<usize>) -> Map<usize, usize> {
    match parent {
        Option::None => Map::empty(),
        Option::Some(q) => Map::empty().insert(pos, q),
    }
}

pub proof fn lemma_shift_zero<T>(fl: Seq<(T, Option<int>)>)
    ensures
        shift_entries(fl, 0) == fl,
{
    assert(shift_entries(fl, 0) =~= fl);
}

pub proof fn lemma_shift_shift<T>(fl: Seq<(T, Option<int>)>, j: int, k: int)
    ensures
        shift_entries(shift_entries(fl, j), k) == shift_entries(fl, j + k),
{
    assert(shift_entries(shift_entries(fl, j), k) =~= shift_entries(fl, j + k));
}

pub proof fn lemma_shift_add<T>(a: Seq<(T, Option<int>)>, b: Seq<(T, Option<int>)>, k: int)
    ensures
        shift_entries(a + b, k) == shift_entries(a, k) + shift_entries(b, k),
{
    assert(shift_entries(a + b, k) =~= shift_entries(a, k) + shift_entries(b, k));
}

pub proof fn lemma_payloads_add<T>(a: Seq<(T, Option<int>)>, b: Seq<(T, Option<int>)>)
    ensures
        payloads(a + b) == payloads(a) + payloads(b),
{
    assert(payloads(a + b) =~= payloads(a) + payloads(b));
}

pub proof fn lemma_payloads_reindexed<T>(fl: Seq<(T, Option<int>)>, k: int, root: int)
    ensures
        payloads(shift_entries(fl, k)) == payloads(fl),
        payloads(under_td(fl)) == payloads(fl),
        payloads(under_bu(fl, root)) == payloads(fl),
{
    assert(payloads(shift_entries(fl, k)) =~= payloads(fl));
    assert(payloads(under_td(fl)) =~= payloads(fl));
    assert(payloads(under_bu(fl, root)) =~= payloads(fl));
}

/// Appending one tree to a forest appends its flat form, shifted past the
/// flat form of the forest.
pub proof fn lemma_flat_push<T>(f: Seq<GTree<T>>, t: GTree<T>, order: CollapseTreeOrd)
    ensures
        flat_of(f.push(t), order) == flat_of(f, order) + shift_entries(
            flat_one(t, order),
            flat_of(f, order).len() as int,
        ),
    decreases f.len(),
{
    let g = f.push(t);
    if f.len() == 0 {
        assert(g[0] == t);
        assert(g.drop_first() =~= Seq::<GTree<T>>::empty());
        assert(flat_of(Seq::<GTree<T>>::empty(), order) =~= Seq::<(T, Option<int>)>::empty());
        let head = flat_one(t, order);
        assert(shift_entries(Seq::<(T, Option<int>)>::empty(), head.len() as int) =~= Seq::<
            (T, Option<int>),
        >::empty());
        assert(flat_of(g, order) =~= head);
        lemma_shift_zero(head);
        assert(flat_of(f, order) + shift_entries(head, 0) =~= head);
    } else {
        assert(g[0] == f[0]);
        assert(g.drop_first() =~= f.drop_first().push(t));
        lemma_flat_push(f.drop_first(), t, order);
        let head = flat_one(f[0], order);
        let fd = flat_of(f.drop_first(), order);
        let ft = flat_one(t, order);
        // flat(g) = head + shift(fd + shift(ft, |fd|), |head|)
        lemma_shift_add(fd, shift_entries(ft, fd.len() as int), head.len() as int);
        lemma_shift_shift(ft, fd.len() as int, head.len() as int);
        assert(flat_of(g, order) == head + (shift_entries(fd, head.len() as int) + shift_entries(
            ft,
            fd.len() + head.len() as int,
        )));
        assert(flat_of(f, order) == head + shift_entries(fd, head.len() as int));
        assert(flat_of(f, order).len() == head.len() + fd.len());
        assert(flat_of(g, order) =~= flat_of(f, order) + shift_entries(
            ft,
            flat_of(f, order).len() as int,
        ));
    }
}

/// A chunk made of two parts maps like the two parts placed one after the
/// other.
proof fn lemma_chunk_map_concat<T>(
    a: Seq<(T, Option<int>)>,
    b: Seq<(T, Option<int>)>,
    base: usize,
    parent: Option<usize>,
)
    ensures
        chunk_map(a + shift_entries(b, a.len() as int), base as int, parent) == chunk_map(
            a,
            base as int,
            parent,
        ).union_prefer_right(chunk_map(b, base + a.len(), parent)),
{
    let ab = a + shift_entries(b, a.len() as int);
    let lhs = chunk_map(ab, base as int, parent);
    let rhs = chunk_map(a, base as int, parent).union_prefer_right(
        chunk_map(b, base + a.len(), parent),
    );
    assert forall|c: usize| #![auto] lhs.contains_key(c) <==> rhs.contains_key(c) by {
        if base <= c < base + ab.len() {
            let i = c - base;
            if i < a.len() {
                assert(ab[i] == a[i]);
            } else {
                assert(ab[i] == shift_entries(b, a.len() as int)[i - a.len()]);
            }
        }
    }
    assert forall|c: usize| #![auto] lhs.contains_key(c) implies lhs[c] == rhs[c] by {
        let i = c - base;
        if i < a.len() {
            assert(ab[i] == a[i]);
        } else {
            assert(ab[i] == shift_entries(b, a.len() as int)[i - a.len()]);
        }
    }
    assert(lhs =~= rhs);
}

/// The flat form of a single top-down tree maps its root to `parent` and its
/// children's subtrees to positions below the root.
proof fn lemma_chunk_map_td_head<T>(t: GTree<T>, base: usize, parent: Option<usize>)
    requires
        base + 1 + flat_td(t.kids).len() <= usize::MAX,
    ensures
        chunk_map(flat_one_td(t), base as int, parent) == root_entry(
            base,
            parent,
        ).union_prefer_right(chunk_map(flat_td(t.kids), base + 1, Option::Some(base))),
{
    let fl = flat_one_td(t);
    let kfl = flat_td(t.kids);
    let lhs = chunk_map(fl, base as int, parent);
    let rhs = root_entry(base, parent).union_prefer_right(
        chunk_map(kfl, base + 1, Option::Some(base)),
    );
    assert forall|c: usize| #![auto] lhs.contains_key(c) <==> rhs.contains_key(c) by {
        if base <= c < base + fl.len() {
            let i = c - base;
            if i >= 1 {
                assert(fl[i] == under_td(kfl)[i - 1]);
            }
        }
    }
    assert forall|c: usize| #![auto] lhs.contains_key(c) implies lhs[c] == rhs[c] by {
        let i = c - base;
        if i >= 1 {
            assert(fl[i] == under_td(kfl)[i - 1]);
        }
    }
    assert(lhs =~= rhs);
}

/// The flat form of a single bottom-up tree maps its children's subtrees to
/// positions at and above `base`, their roots to the node's own position, and
/// the node itself to `parent`.
proof fn lemma_chunk_map_bu_head<T>(t: GTree<T>, base: usize, nodepos: usize, parent: Option<
    usize,
>)
    requires
        nodepos == base + flat_bu(t.kids).len(),
    ensures
        chunk_map(flat_one_bu(t), base as int, parent) == chunk_map(
            flat_bu(t.kids),
            base as int,
            Option::Some(nodepos),
        ).union_prefer_right(root_entry(nodepos, parent)),
{
    let fl = flat_one_bu(t);
    let kfl = flat_bu(t.kids);
    let lhs = chunk_map(fl, base as int, parent);
    let rhs = chunk_map(kfl, base as int, Option::Some(nodepos)).union_prefer_right(
        root_entry(nodepos, parent),
    );
    assert forall|c: usize| #![auto] lhs.contains_key(c) <==> rhs.contains_key(c) by {
        if base <= c < base + fl.len() {
            let i = c - base;
            if i < kfl.len() {
                assert(fl[i] == under_bu(kfl, kfl.len() as int)[i]);
            }
        }
    }
    assert forall|c: usize| #![auto] lhs.contains_key(c) implies lhs[c] == rhs[c] by {
        let i = c - base;
        if i < kfl.len() {
            assert(fl[i] == under_bu(kfl, kfl.len() as int)[i]);
        }
    }
    assert(lhs =~= rhs);
}

/// The map that attaches every position in `rs` to the parent `p`.
pub open spec fn roots_map(rs: Seq<usize>, p: usize) -> Map<usize, usize>
    decreases rs.len(),
{
    if rs.len() == 0 {
        Map::empty()
    } else {
        roots_map(rs.drop_last(), p).insert(rs.last(), p)
    }
}

proof fn lemma_roots_map_props(rs: Seq<usize>, p: usize)
    ensures
        forall|c: usize| #[trigger] roots_map(rs, p).contains_key(c) <==> rs.contains(c),
        forall|c: usize| #[trigger] roots_map(rs, p).contains_key(c) ==> roots_map(rs, p)[c] == p,
    decreases rs.len(),
{
    if rs.len() > 0 {
        let rd = rs.drop_last();
        lemma_roots_map_props(rd, p);
        assert forall|c: usize| #[trigger] roots_map(rs, p).contains_key(c) <==> rs.contains(
            c,
        ) by {
            if roots_map(rs, p).contains_key(c) {
                if c == rs.last() {
                    assert(rs[rs.len() - 1] == c);
                } else {
                    assert(roots_map(rd, p).contains_key(c));
                    assert(rd.contains(c));
                    let j = choose|j: int| 0 <= j < rd.len() && rd[j] == c;
                    assert(rs[j] == rd[j]);
                }
            }
            if rs.contains(c) {
                let j = choose|j: int| 0 <= j < rs.len() && rs[j] == c;
                if j < rs.len() - 1 {
                    assert(rd[j] == rs[j]);
                    assert(rd.contains(c));
                    assert(roots_map(rd, p).contains_key(c));
                } else {
                    assert(c == rs.last());
                }
            }
        }
        assert forall|c: usize| #[trigger] roots_map(rs, p).contains_key(c) implies roots_map(
            rs,
            p,
        )[c] == p by {
            if c != rs.last() {
                assert(roots_map(rd, p).contains_key(c));
            }
        }
    }
}

/// In bottom-up order the root of a subtree is its last flat entry, and it
/// is the only entry left unattached.
pub proof fn lemma_flat_one_bu_root<T>(t: GTree<T>)
    ensures
        flat_one_bu(t).len() >= 1,
        flat_one_bu(t).last().1 is None,
        forall|i: int| 0 <= i < flat_one_bu(t).len() - 1 ==> (#[trigger] flat_one_bu(t)[i]).1
            is Some,
{
    let kfl = flat_bu(t.kids);
    assert forall|i: int| 0 <= i < flat_one_bu(t).len() - 1 implies (#[trigger] flat_one_bu(
        t,
    )[i]).1 is Some by {
        assert(flat_one_bu(t)[i] == under_bu(kfl, kfl.len() as int)[i]);
    }
}

/// Append the whole subtree of `node` to `out` in top-down order, attaching
/// the subtree's root to `parent` if one is given; returns the position at
/// which the root of the subtree was placed.
#[verifier::loop_isolation(false)]
fn collapse_into_td<T: Node>(node: T, parent: Option<usize>, out: &mut CollapsedTree<T>) -> (
    rootpos: usize)
    ensures
        elems_extended(old(out).elems@, final(out).elems@, payloads(flat_one_td(node.model()))),
        final(out).mapping@ == old(out).mapping@.union_prefer_right(
            chunk_map(flat_one_td(node.model()), old(out).elems@.len() as int, parent),
        ),
        rootpos as int == old(out).elems@.len() as int,
    decreases node.model(),
{
    let ghost t = node.model();
    let ghost b0 = old(out).elems@.len() as int;
    let ghost m0 = old(out).mapping@;
    let mut cur = node;
    let mut cs = cur.take_children();

    let p = out.elems.len();
    match parent {
        Option::Some(q) => {
            out.mapping.insert(p, q);
        },
        Option::None => {},
    }
    out.elems.push(cur);
    proof {
        assert(out.elems@ == old(out).elems@.push(cur));
        assert(out.elems@[b0].model() == (GTree {
            node: t.node,
            kids: Seq::<GTree<T::Bare>>::empty(),
        }));
        assert(elems_extended(old(out).elems@, out.elems@, seq![t.node]));
        assert(out.mapping@ =~= m0.union_prefer_right(root_entry(p, parent)));
        assert(t.kids.take(0) =~= Seq::<GTree<T::Bare>>::empty());
        assert(flat_td(t.kids.take(0)) =~= Seq::<(T::Bare, Option<int>)>::empty());
        assert(payloads(flat_td(t.kids.take(0))) =~= Seq::<T::Bare>::empty());
        assert(seq![t.node] + payloads(flat_td(t.kids.take(0))) =~= seq![t.node]);
        assert(elems_extended(
            old(out).elems@,
            out.elems@,
            seq![t.node] + payloads(flat_td(t.kids.take(0))),
        ));
        assert(chunk_map(flat_td(t.kids.take(0)), b0 + 1, Option::Some(p)) =~= Map::<
            usize,
            usize,
        >::empty());
        assert(out.mapping@ =~= m0.union_prefer_right(root_entry(p, parent)).union_prefer_right(
            chunk_map(flat_td(t.kids.take(0)), b0 + 1, Option::Some(p)),
        ));
    }
    while cs.len() > 0
        invariant
            cs@.len() <= t.kids.len(),
            forall|k: int|
                0 <= k < cs@.len() ==> (#[trigger] cs@[k].model()) == t.kids[t.kids.len()
                    - cs@.len() + k],
            p as int == b0,
            elems_extended(
                old(out).elems@,
                out.elems@,
                seq![t.node] + payloads(flat_td(t.kids.take(t.kids.len() - cs@.len()))),
            ),
            out.mapping@ == m0.union_prefer_right(root_entry(p, parent)).union_prefer_right(
                chunk_map(
                    flat_td(t.kids.take(t.kids.len() - cs@.len())),
                    b0 + 1,
                    Option::Some(p),
                ),
            ),
        decreases cs.len(),
    {
        let ghost kdone = t.kids.len() - cs@.len();
        let ghost kflp = flat_td(t.kids.take(kdone));
        let ghost prev_es = out.elems@;
        let c = cs.remove(0);
        proof {
            assert(c.model() == t.kids[kdone]);
            assert(decreases_to!(t => t.kids));
            assert(decreases_to!(t.kids => t.kids[kdone]));
            assert(out.elems@.len() == b0 + 1 + kflp.len());
        }
        collapse_into_td(c, Option::Some(p), out);
        proof {
            let kid = t.kids[kdone];
            let flk = flat_one_td(kid);
            assert(t.kids.take(kdone + 1) =~= t.kids.take(kdone).push(kid));
            lemma_flat_push(t.kids.take(kdone), kid, CollapseTreeOrd::TopDown);
            assert(flat_td(t.kids.take(kdone + 1)) == kflp + shift_entries(
                flk,
                kflp.len() as int,
            ));
            lemma_payloads_add(kflp, shift_entries(flk, kflp.len() as int));
            lemma_payloads_reindexed(flk, kflp.len() as int, 0);
            lemma_elems_extended_trans(
                old(out).elems@,
                prev_es,
                out.elems@,
                seq![t.node] + payloads(kflp),
                payloads(flk),
            );
            assert(seq![t.node] + payloads(kflp) + payloads(flk) =~= seq![t.node] + payloads(
                flat_td(t.kids.take(kdone + 1)),
            ));
            assert(elems_extended(
                old(out).elems@,
                out.elems@,
                seq![t.node] + payloads(flat_td(t.kids.take(kdone + 1))),
            ));
            lemma_chunk_map_concat(kflp, flk, (b0 + 1) as usize, Option::Some(p));
            assert(out.elems.len() == out.elems@.len());
            assert((b0 + 1) as usize as int == b0 + 1);
            assert(out.mapping@ =~= m0.union_prefer_right(
                root_entry(p, parent),
            ).union_prefer_right(
                chunk_map(flat_td(t.kids.take(kdone + 1)), b0 + 1, Option::Some(p)),
            ));
            assert(cs@.len() == t.kids.len() - (kdone + 1));
        }
    }
    proof {
        assert(t.kids.take(t.kids.len() - cs@.len()) =~= t.kids);
        let kfl = flat_td(t.kids);
        assert(out.elems.len() == out.elems@.len());
        assert(out.elems@.len() == b0 + 1 + kfl.len());
        lemma_chunk_map_td_head(t, p, parent);
        lemma_payloads_add(seq![(t.node, Option::<int>::None)], under_td(kfl));
        lemma_payloads_reindexed(kfl, 0, 0);
        assert(payloads(seq![(t.node, Option::<int>::None)]) =~= seq![t.node]);
        assert(payloads(flat_one_td(t)) =~= seq![t.node] + payloads(kfl));
        assert(elems_extended(old(out).elems@, out.elems@, payloads(flat_one_td(t))));
        assert(out.mapping@ =~= m0.union_prefer_right(
            chunk_map(flat_one_td(t), b0, parent),
        ));
    }
    p
}

/// Append the whole subtree of `node` to `out` in bottom-up order, attaching
/// the subtree's root to `parent` if one is given; returns the position at
/// which the root of the subtree was placed.
#[verifier::loop_isolation(false)]
#[verifier::rlimit(60)]
fn collapse_into_bu<T: Node>(node: T, parent: Option<usize>, out: &mut CollapsedTree<T>) -> (
    rootpos: usize)
    ensures
        elems_extended(old(out).elems@, final(out).elems@, payloads(flat_one_bu(node.model()))),
        final(out).mapping@ == old(out).mapping@.union_prefer_right(
            chunk_map(flat_one_bu(node.model()), old(out).elems@.len() as int, parent),
        ),
        rootpos as int == old(out).elems@.len() + flat_one_bu(node.model()).len() - 1,
    decreases node.model(),
{
    let ghost t = node.model();
    let ghost b0 = old(out).elems@.len() as int;
    let ghost m0 = old(out).mapping@;
    let mut cur = node;
    let mut cs = cur.take_children();

    let mut roots: Vec<usize> = Vec::new();
    proof {
        assert(t.kids.take(0) =~= Seq::<GTree<T::Bare>>::empty());
        assert(flat_bu(t.kids.take(0)) =~= Seq::<(T::Bare, Option<int>)>::empty());
        assert(payloads(flat_bu(t.kids.take(0))) =~= Seq::<T::Bare>::empty());
        assert(elems_extended(old(out).elems@, out.elems@, payloads(flat_bu(t.kids.take(0)))));
        assert(chunk_map(flat_bu(t.kids.take(0)), b0, Option::None) =~= Map::<
            usize,
            usize,
        >::empty());
        assert(out.mapping@ =~= m0.union_prefer_right(
            chunk_map(flat_bu(t.kids.take(0)), b0, Option::None),
        ));
    }
    while cs.len() > 0
        invariant
            cs@.len() <= t.kids.len(),
            forall|k: int|
                0 <= k < cs@.len() ==> (#[trigger] cs@[k].model()) == t.kids[t.kids.len()
                    - cs@.len() + k],
            elems_extended(
                old(out).elems@,
                out.elems@,
                payloads(flat_bu(t.kids.take(t.kids.len() - cs@.len()))),
            ),
            out.mapping@ == m0.union_prefer_right(
                chunk_map(
                    flat_bu(t.kids.take(t.kids.len() - cs@.len())),
                    b0,
                    Option::None,
                ),
            ),
            roots@.len() == t.kids.len() - cs@.len(),
            forall|j: int|
                0 <= j < roots@.len() ==> b0 <= (#[trigger] roots@[j]) < b0 + flat_bu(
                    t.kids.take(t.kids.len() - cs@.len()),
                ).len() && (flat_bu(t.kids.take(t.kids.len() - cs@.len()))[roots@[j]
                    - b0]).1 is None,
            forall|c: int|
                0 <= c < flat_bu(t.kids.take(t.kids.len() - cs@.len())).len() && (
                #[trigger] flat_bu(t.kids.take(t.kids.len() - cs@.len()))[c]).1 is None
                    ==> roots@.contains((b0 + c) as usize),
        decreases cs.len(),
    {
        let ghost kdone = t.kids.len() - cs@.len();
        let ghost kflp = flat_bu(t.kids.take(kdone));
        let ghost prev_roots = roots@;
        let ghost prev_es = out.elems@;
        let c = cs.remove(0);
        proof {
            assert(c.model() == t.kids[kdone]);
            assert(decreases_to!(t => t.kids));
            assert(decreases_to!(t.kids => t.kids[kdone]));
            assert(out.elems@.len() == b0 + kflp.len());
        }
        let rp = collapse_into_bu(c, Option::None, out);
        roots.push(rp);
        proof {
            let kid = t.kids[kdone];
            let flk = flat_one_bu(kid);
            let kfln = flat_bu(t.kids.take(kdone + 1));
            assert(t.kids.take(kdone + 1) =~= t.kids.take(kdone).push(kid));
            lemma_flat_push(t.kids.take(kdone), kid, CollapseTreeOrd::BottomUp);
            assert(kfln == kflp + shift_entries(flk, kflp.len() as int));
            lemma_payloads_add(kflp, shift_entries(flk, kflp.len() as int));
            lemma_payloads_reindexed(flk, kflp.len() as int, 0);
            lemma_elems_extended_trans(
                old(out).elems@,
                prev_es,
                out.elems@,
                payloads(kflp),
                payloads(flk),
            );
            assert(payloads(kflp) + payloads(flk) =~= payloads(kfln));
            assert(elems_extended(old(out).elems@, out.elems@, payloads(kfln)));
            lemma_chunk_map_concat(kflp, flk, b0 as usize, Option::None);
            assert(out.elems.len() == out.elems@.len());
            assert(b0 as usize as int == b0);
            assert(out.mapping@ =~= m0.union_prefer_right(
                chunk_map(kfln, b0, Option::None),
            ));
            lemma_flat_one_bu_root(kid);
            assert(rp as int == b0 + kfln.len() - 1);
            assert(roots@ == prev_roots.push(rp));
            assert forall|j: int|
                0 <= j < roots@.len() implies b0 <= (#[trigger] roots@[j]) < b0 + kfln.len()
                && (kfln[roots@[j] - b0]).1 is None by {
                if j < prev_roots.len() {
                    assert(roots@[j] == prev_roots[j]);
                    assert(kfln[prev_roots[j] - b0] == kflp[prev_roots[j] - b0]);
                } else {
                    assert(roots@[j] == rp);
                    assert(kfln[rp - b0] == shift_entries(flk, kflp.len() as int)[flk.len()
                        - 1]);
                    assert(flk[flk.len() - 1].1 is None);
                }
            }
            assert forall|c2: int|
                0 <= c2 < kfln.len() && (#[trigger] kfln[c2]).1 is None implies roots@.contains(
                (b0 + c2) as usize,
            ) by {
                if c2 < kflp.len() {
                    assert(kflp[c2] == kfln[c2]);
                    assert(prev_roots.contains((b0 + c2) as usize));
                    let j = choose|j: int|
                        0 <= j < prev_roots.len() && prev_roots[j] == (b0 + c2) as usize;
                    assert(roots@[j] == (b0 + c2) as usize);
                } else {
                    assert(kfln[c2] == shift_entries(flk, kflp.len() as int)[c2 - kflp.len()]);
                    if c2 - kflp.len() < flk.len() - 1 {
                        assert(flk[c2 - kflp.len()].1 is Some);
                        assert(false);
                    }
                    assert(c2 == kfln.len() - 1);
                    assert(roots@[roots@.len() - 1] == rp);
                    assert(rp == (b0 + c2) as usize);
                }
            }
            assert(cs@.len() == t.kids.len() - (kdone + 1));
        }
    }
    proof {
        assert(t.kids.take(t.kids.len() - cs@.len()) =~= t.kids);
    }
    let ghost kfl = flat_bu(t.kids);
    let p = out.elems.len();
    let ghost es_before_node = out.elems@;
    out.elems.push(cur);
    proof {
        assert(out.elems@ == es_before_node.push(cur));
        assert(cur.model() == (GTree { node: t.node, kids: Seq::<GTree<T::Bare>>::empty() }));
        assert(elems_extended(es_before_node, out.elems@, seq![t.node]));
        lemma_elems_extended_trans(
            old(out).elems@,
            es_before_node,
            out.elems@,
            payloads(kfl),
            seq![t.node],
        );
    }
    match parent {
        Option::Some(q) => {
            out.mapping.insert(p, q);
        },
        Option::None => {},
    }
    let ghost m1 = m0.union_prefer_right(
        chunk_map(kfl, b0, Option::None),
    ).union_prefer_right(root_entry(p, parent));
    proof {
        assert(p as int == b0 + kfl.len());
        assert(out.mapping@ =~= m1);
        assert(roots@.take(0) =~= Seq::<usize>::empty());
        assert(roots_map(roots@.take(0), p) =~= Map::<usize, usize>::empty());
        assert(out.mapping@ =~= m1.union_prefer_right(roots_map(roots@.take(0), p)));
    }
    let ghost roots_all = roots@;
    let mut j: usize = 0;
    while j < roots.len()
        invariant
            j <= roots@.len(),
            roots@ == roots_all,
            out.mapping@ == m1.union_prefer_right(roots_map(roots@.take(j as int), p)),
            elems_extended(old(out).elems@, out.elems@, payloads(kfl) + seq![t.node]),
        decreases roots.len() - j,
    {
        let r = roots[j];
        let ghost prev = roots@.take(j as int);
        out.mapping.insert(r, p);
        j += 1;
        proof {
            let now = roots@.take(j as int);
            assert(now =~= prev.push(r));
            assert(now.drop_last() =~= prev);
            assert(now.last() == r);
            assert(roots_map(now, p) == roots_map(prev, p).insert(r, p));
            assert(out.mapping@ =~= m1.union_prefer_right(roots_map(now, p)));
        }
    }
    proof {
        assert(roots@.take(roots@.len() as int) =~= roots@);
        assert(out.elems.len() == out.elems@.len());
        assert(b0 as usize as int == b0);
        lemma_chunk_map_bu_head(t, b0 as usize, p, parent);
        lemma_roots_map_props(roots@, p);
        let target = m0.union_prefer_right(chunk_map(flat_one_bu(t), b0, parent));
        assert forall|c: usize| #![auto]
            out.mapping@.contains_key(c) <==> target.contains_key(c) by {
            if roots_map(roots@, p).contains_key(c) {
                let jj = choose|jj: int| 0 <= jj < roots@.len() && roots@[jj] == c;
                assert(b0 <= roots@[jj] < b0 + kfl.len() && kfl[roots@[jj] - b0].1 is None);
            }
            if chunk_map(kfl, b0, Option::Some(p)).contains_key(c) {
                if kfl[c - b0].1 is None {
                    assert(roots@.contains((b0 + (c - b0)) as usize));
                    assert(roots_map(roots@, p).contains_key(c));
                } else {
                    assert(chunk_map(kfl, b0, Option::None).contains_key(c));
                }
            }
        }
        assert forall|c: usize| #![auto]
            out.mapping@.contains_key(c) implies out.mapping@[c] == target[c] by {
            if roots_map(roots@, p).contains_key(c) {
                let jj = choose|jj: int| 0 <= jj < roots@.len() && roots@[jj] == c;
                assert(b0 <= roots@[jj] < b0 + kfl.len() && kfl[roots@[jj] - b0].1 is None);
                assert(kfl[c - b0].1 is None);
            } else {
                if chunk_map(kfl, b0, Option::None).contains_key(c) {
                    assert(kfl[c - b0].1 is Some);
                }
            }
        }
        assert(out.mapping@ =~= m0.union_prefer_right(
            chunk_map(flat_one_bu(t), b0, parent),
        ));
        assert(flat_one_bu(t) == under_bu(kfl, kfl.len() as int) + seq![
            (t.node, Option::<int>::None),
        ]);
        lemma_payloads_add(under_bu(kfl, kfl.len() as int), seq![(t.node, Option::<int>::None)]);
        lemma_payloads_reindexed(kfl, 0, kfl.len() as int);
        assert(payloads(seq![(t.node, Option::<int>::None)]) =~= seq![t.node]);
        assert(payloads(flat_one_bu(t)) == payloads(kfl) + seq![t.node]);
        assert(elems_extended(old(out).elems@, out.elems@, payloads(flat_one_bu(t))));
    }
    p
}

/// Append the whole subtree of `node` to `out` in the given order, attaching
/// the subtree's root to `parent` if one is given; returns the position at
/// which the root of the subtree was placed.
fn collapse_into<T: Node>(
    node: T,
    parent: Option<usize>,
    out: &mut CollapsedTree<T>,
    order: CollapseTreeOrd,
) -> (rootpos: usize)
    ensures
        elems_extended(old(out).elems@, final(out).elems@, payloads(flat_one(node.model(), order))),
        final(out).mapping@ == old(out).mapping@.union_prefer_right(
            chunk_map(flat_one(node.model(), order), old(out).elems@.len() as int, parent),
        ),
        rootpos as int == (match order {
            CollapseTreeOrd::TopDown => old(out).elems@.len() as int,
            CollapseTreeOrd::BottomUp => old(out).elems@.len() + flat_one(node.model(), order).len()
                - 1,
        }),
{
    if order == CollapseTreeOrd::TopDown {
        collapse_into_td(node, parent, out)
    } else {
        collapse_into_bu(node, parent, out)
    }
}

/// Collapse a forest into a flat structure and a child-to-parent mapping.
///
/// This is the opposite operation of the rollup of a tree: in top-down order
/// every node comes before its descendants, in bottom-up order after them.
/// The mapping holds every non-root position as a key; roots of the forest
/// never appear as keys.
#[verifier::loop_isolation(false)]
pub fn collapse_tree<T: Node>(input: Vec<T>, order: CollapseTreeOrd) -> (ret: CollapsedTree<T>)
    ensures
        elems_extended(Seq::<T>::empty(), ret.elems@, payloads(flat_of(models(input@), order))),
        ret.mapping@ == mapping_of(flat_of(models(input@), order)),
{
    let ghost forest = models(input@);
    let mut ret = CollapsedTree { elems: Vec::new(), mapping: BTreeMap::new() };
    let mut rest = input;
    proof {
        assert(forest.take(0) =~= Seq::<GTree<T::Bare>>::empty());
        assert(flat_of(forest.take(0), order) =~= Seq::<(T::Bare, Option<int>)>::empty());
        assert(payloads(flat_of(forest.take(0), order)) =~= Seq::<T::Bare>::empty());
        assert(ret.elems@ =~= Seq::<T>::empty());
        assert(elems_extended(
            Seq::<T>::empty(),
            ret.elems@,
            payloads(flat_of(forest.take(0), order)),
        ));
        assert(ret.mapping@ =~= chunk_map(flat_of(forest.take(0), order), 0, Option::None));
    }
    while rest.len() > 0
        invariant
            rest@.len() <= forest.len(),
            forall|k: int|
                0 <= k < rest@.len() ==> (#[trigger] rest@[k].model()) == forest[forest.len()
                    - rest@.len() + k],
            elems_extended(
                Seq::<T>::empty(),
                ret.elems@,
                payloads(flat_of(forest.take(forest.len() - rest@.len()), order)),
            ),
            ret.mapping@ == chunk_map(
                flat_of(forest.take(forest.len() - rest@.len()), order),
                0,
                Option::None,
            ),
        decreases rest.len(),
    {
        let ghost done = forest.len() - rest@.len();
        let ghost flp = flat_of(forest.take(done), order);
        let ghost prev_es = ret.elems@;
        let r = rest.remove(0);
        proof {
            assert(r.model() == forest[done]);
            assert(ret.elems@.len() == flp.len());
        }
        collapse_into(r, Option::None, &mut ret, order);
        proof {
            let root = forest[done];
            let flk = flat_one(root, order);
            assert(forest.take(done + 1) =~= forest.take(done).push(root));
            lemma_flat_push(forest.take(done), root, order);
            assert(flat_of(forest.take(done + 1), order) == flp + shift_entries(
                flk,
                flp.len() as int,
            ));
            lemma_payloads_add(flp, shift_entries(flk, flp.len() as int));
            lemma_payloads_reindexed(flk, flp.len() as int, 0);
            lemma_elems_extended_trans(
                Seq::<T>::empty(),
                prev_es,
                ret.elems@,
                payloads(flp),
                payloads(flk),
            );
            assert(payloads(flp) + payloads(flk) =~= payloads(
                flat_of(forest.take(done + 1), order),
            ));
            assert(elems_extended(
                Seq::<T>::empty(),
                ret.elems@,
                payloads(flat_of(forest.take(done + 1), order)),
            ));
            lemma_chunk_map_concat(flp, flk, 0, Option::None);
            assert(ret.mapping@ =~= chunk_map(
                flat_of(forest.take(done + 1), order),
                0,
                Option::None,
            ));
            assert(rest@.len() == forest.len() - (done + 1));
        }
    }
    proof {
        assert(forest.take(forest.len() - rest@.len()) =~= forest);
    }
    ret
}

} // verus!
