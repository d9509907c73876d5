//! Rebuilding a hierarchy from a flat sequence plus a child-to-parent index
//! mapping, in either of the two orders that collapsing produces.

use vstd::prelude::*;

verus! {

/// A tree node that can accept a child.
pub trait Node: Sized {
    /// What pushing a child does: relates the parent before the push, the
    /// child, and the parent after the push.
    spec fn pushed(pre: Self, child: Self, post: Self) -> bool;

    /// Add a child to a parent `self`; ownership moves into the parent.
    ///
    /// NOTE if used with [`rollup_tree`]: the children are pushed in reverse
    /// order and pushing is finished with a call to
    /// [`reverse`](ReversableNode::reverse).
    fn push_child(&mut self, child: Self)
        ensures
            Self::pushed(*old(self), child, *final(self)),
    ;
}

/// A tree node whose attached children can be put back in input order.
pub trait ReversableNode: Node {
    /// What reversing does: relates the node before and after its children
    /// are reversed.
    spec fn reversed(pre: Self, post: Self) -> bool;

    /// Reverse the order of the children to match the input order.
    fn reverse(&mut self)
        ensures
            Self::reversed(*old(self), *final(self)),
    ;
}

/// A sequence of elements, each sitting in its own occupied slot.
pub open spec fn slots_of<T>(s: Seq<T>) -> Seq<Option<T>> {
    s.map_values(|x: T| Option::Some(x))
}

/// Which slots are still occupied.
pub open spec fn occupancy<T>(v: Seq<Option<T>>) -> Seq<bool> {
    v.map_values(|o: Option<T>| o is Some)
}

/// Whether one attachment step can go through: both indices must be in
/// bounds, distinct, and both slots still occupied.
pub open spec fn step_ok(o: Seq<bool>, child: int, parent: int) -> bool {
    &&& 0 <= child < o.len() && o[child]
    &&& 0 <= parent < o.len() && parent != child && o[parent]
}

/// Whether the whole top-down rollup goes through, walking the mapping from
/// its last pair to its first; each step empties the child slot.
pub open spec fn steps_rev_ok(o: Seq<bool>, m: Seq<(usize, usize)>) -> bool
    decreases m.len(),
{
    if m.len() == 0 {
        true
    } else {
        &&& step_ok(o, m.last().0 as int, m.last().1 as int)
        &&& steps_rev_ok(o.update(m.last().0 as int, false), m.drop_last())
    }
}

/// Whether the whole bottom-up rollup goes through, walking the mapping from
/// its first pair to its last; each step empties the child slot.
pub open spec fn steps_fwd_ok(o: Seq<bool>, m: Seq<(usize, usize)>) -> bool
    decreases m.len(),
{
    if m.len() == 0 {
        true
    } else {
        &&& step_ok(o, m[0].0 as int, m[0].1 as int)
        &&& steps_fwd_ok(o.update(m[0].0 as int, false), m.drop_first())
    }
}

/// One attachment step of the top-down rollup: the element at `child` leaves
/// its slot, its children are reversed, and it is pushed into the element at
/// `parent`.
pub open spec fn step_rev_rel<T: ReversableNode>(
    v: Seq<Option<T>>,
    child: int,
    parent: int,
    v2: Seq<Option<T>>,
) -> bool {
    &&& 0 <= child < v.len() && v[child] is Some
    &&& 0 <= parent < v.len() && parent != child && v[parent] is Some
    &&& exists|c2: T, p2: T|
        {
            &&& #[trigger] T::pushed(v[parent]->0, c2, p2)
            &&& T::reversed(v[child]->0, c2)
            &&& v2 == v.update(child, Option::<T>::None).update(parent, Option::Some(p2))
        }
}

/// The slots after the top-down rollup applied the mapping pairs from the
/// last to the first.
pub open spec fn steps_rev_rel<T: ReversableNode>(
    v: Seq<Option<T>>,
    m: Seq<(usize, usize)>,
    vout: Seq<Option<T>>,
) -> bool
    decreases m.len(),
{
    if m.len() == 0 {
        vout == v
    } else {
        exists|vmid: Seq<Option<T>>|
            {
                &&& #[trigger] step_rev_rel(v, m.last().0 as int, m.last().1 as int, vmid)
                &&& steps_rev_rel(vmid, m.drop_last(), vout)
            }
    }
}

/// The surviving elements of the slots, in order, each reversed back into
/// input order.
pub open spec fn finish_rev_rel<T: ReversableNode>(v: Seq<Option<T>>, out: Seq<T>) -> bool
    decreases v.len(),
{
    if v.len() == 0 {
        out.len() == 0
    } else {
        match v.last() {
            Option::Some(x) => {
                &&& out.len() >= 1
                &&& T::reversed(x, out.last())
                &&& finish_rev_rel(v.drop_last(), out.drop_last())
            },
            Option::None => finish_rev_rel(v.drop_last(), out),
        }
    }
}

/// One attachment step of the bottom-up rollup: the element at `child`
/// leaves its slot and is pushed into the element at `parent` directly.
pub open spec fn step_fwd_rel<T: Node>(
    v: Seq<Option<T>>,
    child: int,
    parent: int,
    v2: Seq<Option<T>>,
) -> bool {
    &&& 0 <= child < v.len() && v[child] is Some
    &&& 0 <= parent < v.len() && parent != child && v[parent] is Some
    &&& exists|p2: T|
        {
            &&& #[trigger] T::pushed(v[parent]->0, v[child]->0, p2)
            &&& v2 == v.update(child, Option::<T>::None).update(parent, Option::Some(p2))
        }
}

/// The slots after the bottom-up rollup applied the mapping pairs from the
/// first to the last.
pub open spec fn steps_fwd_rel<T: Node>(
    v: Seq<Option<T>>,
    m: Seq<(usize, usize)>,
    vout: Seq<Option<T>>,
) -> bool
    decreases m.len(),
{
    if m.len() == 0 {
        vout == v
    } else {
        exists|vmid: Seq<Option<T>>|
            {
                &&& #[trigger] step_fwd_rel(v, m[0].0 as int, m[0].1 as int, vmid)
                &&& steps_fwd_rel(vmid, m.drop_first(), vout)
            }
    }
}

/// The surviving elements of the slots, in order.
pub open spec fn finish_fwd<T: Node>(v: Seq<Option<T>>) -> Seq<T>
    decreases v.len(),
{
    if v.len() == 0 {
        Seq::empty()
    } else {
        let rest = finish_fwd(v.drop_last());
        match v.last() {
            Option::Some(x) => rest.push(x),
            Option::None => rest,
        }
    }
}

/// A finished chain of top-down steps can be extended by one more step,
/// applied after the whole chain; the new pair stands before the chain's
/// pairs, since the mapping is walked back to front.
proof fn lemma_steps_rev_rel_snoc<T: ReversableNode>(
    v0: Seq<Option<T>>,
    m: Seq<(usize, usize)>,
    v: Seq<Option<T>>,
    pair: (usize, usize),
    v2: Seq<Option<T>>,
)
    requires
        steps_rev_rel(v0, m, v),
        step_rev_rel(v, pair.0 as int, pair.1 as int, v2),
    ensures
        steps_rev_rel(v0, seq![pair] + m, v2),
    decreases m.len(),
{
    let mm = seq![pair] + m;
    if m.len() == 0 {
        assert(mm.last() == pair);
        assert(mm.drop_last() =~= Seq::<(usize, usize)>::empty());
        assert(v == v0);
        assert(steps_rev_rel(v2, mm.drop_last(), v2));
        assert(step_rev_rel(v0, mm.last().0 as int, mm.last().1 as int, v2));
    } else {
        assert(mm.last() == m.last());
        assert(mm.drop_last() =~= seq![pair] + m.drop_last());
        let vx = choose|vx: Seq<Option<T>>|
            {
                &&& #[trigger] step_rev_rel(v0, m.last().0 as int, m.last().1 as int, vx)
                &&& steps_rev_rel(vx, m.drop_last(), v)
            };
        lemma_steps_rev_rel_snoc(vx, m.drop_last(), v, pair, v2);
        assert(step_rev_rel(v0, mm.last().0 as int, mm.last().1 as int, vx));
        assert(steps_rev_rel(vx, mm.drop_last(), v2));
    }
}

/// A finished chain of bottom-up steps can be extended by one more step,
/// applied after the whole chain; the new pair stands after the chain's
/// pairs, since the mapping is walked front to back.
proof fn lemma_steps_fwd_rel_snoc<T: Node>(
    v0: Seq<Option<T>>,
    m: Seq<(usize, usize)>,
    v: Seq<Option<T>>,
    pair: (usize, usize),
    v2: Seq<Option<T>>,
)
    requires
        steps_fwd_rel(v0, m, v),
        step_fwd_rel(v, pair.0 as int, pair.1 as int, v2),
    ensures
        steps_fwd_rel(v0, m.push(pair), v2),
    decreases m.len(),
{
    let mm = m.push(pair);
    if m.len() == 0 {
        assert(mm[0] == pair);
        assert(mm.drop_first() =~= Seq::<(usize, usize)>::empty());
        assert(v == v0);
        assert(steps_fwd_rel(v2, mm.drop_first(), v2));
        assert(step_fwd_rel(v0, mm[0].0 as int, mm[0].1 as int, v2));
    } else {
        assert(mm[0] == m[0]);
        assert(mm.drop_first() =~= m.drop_first().push(pair));
        let vx = choose|vx: Seq<Option<T>>|
            {
                &&& #[trigger] step_fwd_rel(v0, m[0].0 as int, m[0].1 as int, vx)
                &&& steps_fwd_rel(vx, m.drop_first(), v)
            };
        lemma_steps_fwd_rel_snoc(vx, m.drop_first(), v, pair, v2);
        assert(step_fwd_rel(v0, mm[0].0 as int, mm[0].1 as int, vx));
        assert(steps_fwd_rel(vx, mm.drop_first(), v2));
    }
}

/// Take the element at slot `i` out, leaving the slot empty.
fn slot_take<T>(v: &mut Vec<Option<T>>, i: usize) -> (r: Option<T>)
    requires
        i < old(v)@.len(),
    ensures
        final(v)@ == old(v)@.update(i as int, Option::None),
        r == old(v)@[i as int],
{
    let x = v.remove(i);
    v.insert(i, Option::None);
    proof {
        assert(final(v)@ =~= old(v)@.update(i as int, Option::None));
    }
    x
}

#[verifier::loop_isolation(false)]
fn rollup_tree_intern<T: ReversableNode>(v: Vec<Option<T>>, mapping: Vec<(usize, usize)>) -> (r:
    Option<Vec<T>>)
    ensures
        r is Some <==> steps_rev_ok(occupancy(v@), mapping@),
        r is Some ==> exists|vout: Seq<Option<T>>|
            #[trigger] steps_rev_rel(v@, mapping@, vout) && finish_rev_rel(vout, (r->0)@),
{
    let ghost v0 = v@;
    let mut v = v;
    let mut idx = mapping.len();
    proof {
        assert(mapping@.skip(mapping@.len() as int) =~= Seq::<(usize, usize)>::empty());
        assert(mapping@.take(mapping@.len() as int) =~= mapping@);
    }
    while idx > 0
        invariant
            idx <= mapping@.len(),
            v@.len() == v0.len(),
            steps_rev_rel(v0, mapping@.skip(idx as int), v@),
            steps_rev_ok(occupancy(v0), mapping@) <==> steps_rev_ok(
                occupancy(v@),
                mapping@.take(idx as int),
            ),
        decreases idx,
    {
        idx = idx - 1;
        let ghost mtk = mapping@.take(idx as int + 1);
        proof {
            assert(mtk.drop_last() =~= mapping@.take(idx as int));
            assert(mtk.last() == mapping@[idx as int]);
            assert(mapping@.skip(idx as int) =~= seq![mapping@[idx as int]] + mapping@.skip(
                idx as int + 1,
            ));
        }
        let pr = mapping[idx];
        let child_id = pr.0;
        let parent_id = pr.1;
        if child_id >= v.len() {
            proof {
                assert(!step_ok(occupancy(v@), child_id as int, parent_id as int));
                assert(!steps_rev_ok(occupancy(v@), mtk));
            }
            return Option::None;
        }
        let ghost vin = v@;
        let taken = slot_take(&mut v, child_id);
        match taken {
            Option::None => {
                proof {
                    assert(!occupancy(vin)[child_id as int]);
                    assert(!step_ok(occupancy(vin), child_id as int, parent_id as int));
                    assert(!steps_rev_ok(occupancy(vin), mtk));
                }
                return Option::None;
            },
            Option::Some(mut cnode) => {
                cnode.reverse();
                let ghost c2 = cnode;
                if parent_id >= v.len() {
                    proof {
                        assert(!step_ok(occupancy(vin), child_id as int, parent_id as int));
                        assert(!steps_rev_ok(occupancy(vin), mtk));
                    }
                    return Option::None;
                }
                let pslot = slot_take(&mut v, parent_id);
                match pslot {
                    Option::None => {
                        proof {
                            if parent_id == child_id {
                                assert(!step_ok(
                                    occupancy(vin),
                                    child_id as int,
                                    parent_id as int,
                                ));
                            } else {
                                assert(vin[parent_id as int] is None);
                                assert(!occupancy(vin)[parent_id as int]);
                                assert(!step_ok(
                                    occupancy(vin),
                                    child_id as int,
                                    parent_id as int,
                                ));
                            }
                            assert(!steps_rev_ok(occupancy(vin), mtk));
                        }
                        return Option::None;
                    },
                    Option::Some(mut pnode) => {
                        pnode.push_child(cnode);
                        let ghost p2 = pnode;
                        v.set(parent_id, Option::Some(pnode));
                        proof {
                            assert(parent_id != child_id);
                            assert(v@ =~= vin.update(child_id as int, Option::<T>::None).update(
                                parent_id as int,
                                Option::Some(p2),
                            ));
                            assert(T::pushed(vin[parent_id as int]->0, c2, p2));
                            assert(T::reversed(vin[child_id as int]->0, c2));
                            assert(step_rev_rel(vin, child_id as int, parent_id as int, v@));
                            lemma_steps_rev_rel_snoc(
                                v0,
                                mapping@.skip(idx as int + 1),
                                vin,
                                mapping@[idx as int],
                                v@,
                            );
                            assert(steps_rev_rel(v0, mapping@.skip(idx as int), v@));
                            assert(occupancy(v@) =~= occupancy(vin).update(
                                child_id as int,
                                false,
                            ));
                            assert(step_ok(occupancy(vin), child_id as int, parent_id as int));
                            assert(steps_rev_ok(occupancy(vin), mtk) == steps_rev_ok(
                                occupancy(v@),
                                mapping@.take(idx as int),
                            ));
                        }
                    },
                }
            },
        }
    }
    proof {
        assert(mapping@.take(0) =~= Seq::<(usize, usize)>::empty());
        assert(steps_rev_ok(occupancy(v0), mapping@));
        assert(mapping@.skip(0) =~= mapping@);
        assert(steps_rev_rel(v0, mapping@, v@));
    }
    let ghost v2 = v@;
    let mut res: Vec<T> = Vec::new();
    let mut i: usize = 0;
    while i < v.len()
        invariant
            i <= v2.len(),
            v@.len() == v2.len(),
            forall|k: int| i <= k < v2.len() ==> v@[k] == v2[k],
            finish_rev_rel(v2.take(i as int), res@),
        decreases v.len() - i,
    {
        let s = slot_take(&mut v, i);
        proof {
            assert(v2.take(i as int + 1).drop_last() =~= v2.take(i as int));
            assert(v2.take(i as int + 1).last() == v2[i as int]);
        }
        let ghost res_prev = res@;
        match s {
            Option::Some(mut node) => {
                node.reverse();
                res.push(node);
                proof {
                    assert(res@.drop_last() =~= res_prev);
                    assert(finish_rev_rel(v2.take(i as int + 1), res@));
                }
            },
            Option::None => {
                proof {
                    assert(finish_rev_rel(v2.take(i as int + 1), res@));
                }
            },
        }
        i = i + 1;
    }
    proof {
        assert(v2.take(v2.len() as int) =~= v2);
        assert(steps_rev_rel(v0, mapping@, v2) && finish_rev_rel(v2, res@));
    }
    Option::Some(res)
}

/// Roll up a tree given as a flat structure and a mapping from child to
/// parent index into a hierarchical structure.
///
/// The mapping is applied pair by pair from its last entry to its first:
/// each pair takes the element at the child index out of its slot, reverses
/// its children, and attaches it to the element at the parent index. A pair
/// whose child or parent index is out of bounds, or whose child or parent
/// slot was already emptied, makes the whole rollup return `None`; the
/// success condition depends on the indices alone. On success the surviving
/// top-level elements are returned in their original relative order, each
/// with its children reversed back into input order.
pub fn rollup_tree<T: ReversableNode>(input: Vec<T>, mapping: Vec<(usize, usize)>) -> (r: Option<
    Vec<T>,
>)
    ensures
        r is Some <==> steps_rev_ok(occupancy(slots_of(input@)), mapping@),
        r is Some ==> exists|vout: Seq<Option<T>>|
            #[trigger] steps_rev_rel(slots_of(input@), mapping@, vout) && finish_rev_rel(
                vout,
                (r->0)@,
            ),
{
    let ghost s0 = input@;
    let mut v: Vec<Option<T>> = Vec::new();
    let mut rest = input;
    while rest.len() > 0
        invariant
            rest@.len() <= s0.len(),
            rest@ == s0.skip(s0.len() - rest@.len()),
            v@ == slots_of(s0.take(s0.len() - rest@.len())),
        decreases rest.len(),
    {
        let ghost done = s0.len() - rest@.len();
        let x = rest.remove(0);
        v.push(Option::Some(x));
        proof {
            assert(x == s0[done]);
            assert(rest@ =~= s0.skip(done + 1));
            assert(v@ =~= slots_of(s0.take(done + 1)));
        }
    }
    proof {
        assert(s0.take(s0.len() as int) =~= s0);
    }
    rollup_tree_intern(v, mapping)
}

#[verifier::loop_isolation(false)]
fn rollup_tree_bottomup_intern<T: Node>(v: Vec<Option<T>>, mapping: Vec<(usize, usize)>) -> (r:
    Option<Vec<T>>)
    ensures
        r is Some <==> steps_fwd_ok(occupancy(v@), mapping@),
        r is Some ==> exists|vout: Seq<Option<T>>|
            #[trigger] steps_fwd_rel(v@, mapping@, vout) && (r->0)@ == finish_fwd(vout),
{
    let ghost v0 = v@;
    let mut v = v;
    let mut idx: usize = 0;
    proof {
        assert(mapping@.skip(0) =~= mapping@);
        assert(mapping@.take(0) =~= Seq::<(usize, usize)>::empty());
    }
    while idx < mapping.len()
        invariant
            idx <= mapping@.len(),
            v@.len() == v0.len(),
            steps_fwd_rel(v0, mapping@.take(idx as int), v@),
            steps_fwd_ok(occupancy(v0), mapping@) <==> steps_fwd_ok(
                occupancy(v@),
                mapping@.skip(idx as int),
            ),
        decreases mapping.len() - idx,
    {
        let ghost msk = mapping@.skip(idx as int);
        proof {
            assert(msk.drop_first() =~= mapping@.skip(idx as int + 1));
            assert(msk[0] == mapping@[idx as int]);
            assert(mapping@.take(idx as int + 1) =~= mapping@.take(idx as int).push(
                mapping@[idx as int],
            ));
        }
        let pr = mapping[idx];
        let child_id = pr.0;
        let parent_id = pr.1;
        if child_id >= v.len() {
            proof {
                assert(!step_ok(occupancy(v@), child_id as int, parent_id as int));
                assert(!steps_fwd_ok(occupancy(v@), msk));
            }
            return Option::None;
        }
        let ghost vin = v@;
        let taken = slot_take(&mut v, child_id);
        match taken {
            Option::None => {
                proof {
                    assert(!occupancy(vin)[child_id as int]);
                    assert(!step_ok(occupancy(vin), child_id as int, parent_id as int));
                    assert(!steps_fwd_ok(occupancy(vin), msk));
                }
                return Option::None;
            },
            Option::Some(cnode) => {
                if parent_id >= v.len() {
                    proof {
                        assert(!step_ok(occupancy(vin), child_id as int, parent_id as int));
                        assert(!steps_fwd_ok(occupancy(vin), msk));
                    }
                    return Option::None;
                }
                let pslot = slot_take(&mut v, parent_id);
                match pslot {
                    Option::None => {
                        proof {
                            if parent_id == child_id {
                                assert(!step_ok(
                                    occupancy(vin),
                                    child_id as int,
                                    parent_id as int,
                                ));
                            } else {
                                assert(vin[parent_id as int] is None);
                                assert(!occupancy(vin)[parent_id as int]);
                                assert(!step_ok(
                                    occupancy(vin),
                                    child_id as int,
                                    parent_id as int,
                                ));
                            }
                            assert(!steps_fwd_ok(occupancy(vin), msk));
                        }
                        return Option::None;
                    },
                    Option::Some(mut pnode) => {
                        let ghost c2 = cnode;
                        pnode.push_child(cnode);
                        let ghost p2 = pnode;
                        v.set(parent_id, Option::Some(pnode));
                        proof {
                            assert(parent_id != child_id);
                            assert(v@ =~= vin.update(child_id as int, Option::<T>::None).update(
                                parent_id as int,
                                Option::Some(p2),
                            ));
                            assert(c2 == vin[child_id as int]->0);
                            assert(T::pushed(vin[parent_id as int]->0, vin[child_id as int]->0, p2));
                            assert(step_fwd_rel(vin, child_id as int, parent_id as int, v@));
                            lemma_steps_fwd_rel_snoc(
                                v0,
                                mapping@.take(idx as int),
                                vin,
                                mapping@[idx as int],
                                v@,
                            );
                            assert(steps_fwd_rel(v0, mapping@.take(idx as int + 1), v@));
                            assert(occupancy(v@) =~= occupancy(vin).update(
                                child_id as int,
                                false,
                            ));
                            assert(step_ok(occupancy(vin), child_id as int, parent_id as int));
                            assert(steps_fwd_ok(occupancy(vin), msk) == steps_fwd_ok(
                                occupancy(v@),
                                mapping@.skip(idx as int + 1),
                            ));
                        }
                    },
                }
            },
        }
        idx = idx + 1;
    }
    proof {
        assert(mapping@.skip(mapping@.len() as int) =~= Seq::<(usize, usize)>::empty());
        assert(steps_fwd_ok(occupancy(v0), mapping@));
        assert(mapping@.take(mapping@.len() as int) =~= mapping@);
        assert(steps_fwd_rel(v0, mapping@, v@));
    }
    let ghost v2 = v@;
    let mut res: Vec<T> = Vec::new();
    let mut i: usize = 0;
    while i < v.len()
        invariant
            i <= v2.len(),
            v@.len() == v2.len(),
            forall|k: int| i <= k < v2.len() ==> v@[k] == v2[k],
            res@ == finish_fwd(v2.take(i as int)),
        decreases v.len() - i,
    {
        let s = slot_take(&mut v, i);
        proof {
            assert(v2.take(i as int + 1).drop_last() =~= v2.take(i as int));
            assert(v2.take(i as int + 1).last() == v2[i as int]);
        }
        match s {
            Option::Some(node) => {
                res.push(node);
            },
            Option::None => {},
        }
        i = i + 1;
    }
    proof {
        assert(v2.take(v2.len() as int) =~= v2);
        assert(steps_fwd_rel(v0, mapping@, v2) && res@ == finish_fwd(v2));
    }
    Option::Some(res)
}

/// Roll up a tree given as a flat structure and a mapping from child to
/// parent index into a hierarchical structure.
///
/// The mapping is applied pair by pair from its first entry to its last:
/// each pair takes the element at the child index out of its slot and
/// attaches it to the element at the parent index directly, so no reversal
/// is needed. A pair whose child or parent index is out of bounds, or whose
/// child or parent slot was already emptied, makes the whole rollup return
/// `None`; the success condition depends on the indices alone. On success
/// the surviving top-level elements are returned in their original relative
/// order.
pub fn rollup_tree_bottomup<T: Node>(input: Vec<T>, mapping: Vec<(usize, usize)>) -> (r: Option<
    Vec<T>,
>)
    ensures
        r is Some <==> steps_fwd_ok(occupancy(slots_of(input@)), mapping@),
        r is Some ==> exists|vout: Seq<Option<T>>|
            #[trigger] steps_fwd_rel(slots_of(input@), mapping@, vout) && (r->0)@ == finish_fwd(
                vout,
            ),
{
    let ghost s0 = input@;
    let mut v: Vec<Option<T>> = Vec::new();
    let mut rest = input;
    while rest.len() > 0
        invariant
            rest@.len() <= s0.len(),
            rest@ == s0.skip(s0.len() - rest@.len()),
            v@ == slots_of(s0.take(s0.len() - rest@.len())),
        decreases rest.len(),
    {
        let ghost done = s0.len() - rest@.len();
        let x = rest.remove(0);
        v.push(Option::Some(x));
        proof {
            assert(x == s0[done]);
            assert(rest@ =~= s0.skip(done + 1));
            assert(v@ =~= slots_of(s0.take(done + 1)));
        }
    }
    proof {
        assert(s0.take(s0.len() as int) =~= s0);
    }
    rollup_tree_bottomup_intern(v, mapping)
}

} // verus!
