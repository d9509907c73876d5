//! Ready-made node types: a tree element carrying a number and its child
//! elements, and a bare numeric accumulator.

use vstd::prelude::*;
use crate::tree_collapse;
use crate::tree_collapse::GTree;
use crate::tree_rollup;

verus! {

/// A simple tree element: a numeric payload and child elements.
#[derive(Debug, PartialEq, Eq)]
pub struct CplxElement {
    pub data: usize,
    pub children: Vec<CplxElement>,
}

/// The model of one element as a tree of its numeric payloads.
pub open spec fn cplx_model(e: CplxElement) -> GTree<usize>
    decreases e,
{
    GTree { node: e.data, kids: cplx_forest(e.children@) }
}

/// The models of a sequence of elements, in order.
pub open spec fn cplx_forest(s: Seq<CplxElement>) -> Seq<GTree<usize>>
    decreases s,
{
    if s.len() == 0 {
        Seq::empty()
    } else {
        seq![cplx_model(s[0])] + cplx_forest(s.drop_first())
    }
}

pub proof fn lemma_cplx_forest(s: Seq<CplxElement>)
    ensures
        cplx_forest(s).len() == s.len(),
        forall|i: int| 0 <= i < s.len() ==> cplx_forest(s)[i] == cplx_model(#[trigger] s[i]),
    decreases s.len(),
{
    if s.len() > 0 {
        lemma_cplx_forest(s.drop_first());
        assert forall|i: int| 0 <= i < s.len() implies cplx_forest(s)[i] == cplx_model(
            #[trigger] s[i],
        ) by {
            if i > 0 {
                assert(cplx_forest(s)[i] == cplx_forest(s.drop_first())[i - 1]);
                assert(s.drop_first()[i - 1] == s[i]);
            }
        }
    }
}

impl CplxElement {
    /// A childless element carrying `data`.
    pub fn new(data: usize) -> (r: CplxElement)
        ensures
            r.data == data,
            r.children@.len() == 0,
            cplx_model(r) == (GTree { node: data, kids: Seq::<GTree<usize>>::empty() }),
    {
        let r = CplxElement { data, children: Vec::new() };
        proof {
            assert(cplx_forest(r.children@) =~= Seq::<GTree<usize>>::empty());
        }
        r
    }
}

impl tree_collapse::Node for CplxElement {
    type Bare = usize;

    open spec fn model(self) -> GTree<usize> {
        cplx_model(self)
    }

    fn take_children(&mut self) -> (cs: Vec<CplxElement>) {
        let mut cs: Vec<CplxElement> = Vec::new();
        core::mem::swap(&mut cs, &mut self.children);
        proof {
            lemma_cplx_forest(cs@);
            assert(self.children@ =~= Seq::<CplxElement>::empty());
            assert(cplx_forest(self.children@) =~= Seq::<GTree<usize>>::empty());
        }
        cs
    }
}

impl tree_rollup::Node for CplxElement {
    open spec fn pushed(pre: Self, child: Self, post: Self) -> bool {
        post.data == pre.data && post.children@ == pre.children@.push(child)
    }

    fn push_child(&mut self, child: Self) {
        self.children.push(child);
    }
}

impl tree_rollup::ReversableNode for CplxElement {
    open spec fn reversed(pre: Self, post: Self) -> bool {
        post.data == pre.data && post.children@ == pre.children@.reverse()
    }

    #[verifier::loop_isolation(false)]
    fn reverse(&mut self) {
        let ghost orig = self.children@;
        let mut out: Vec<CplxElement> = Vec::new();
        while self.children.len() > 0
            invariant
                self.data == old(self).data,
                out@.len() + self.children@.len() == orig.len(),
                self.children@ == orig.take(self.children@.len() as int),
                forall|k: int| 0 <= k < out@.len() ==> out@[k] == orig[orig.len() - 1 - k],
            decreases self.children.len(),
        {
            let ghost n = self.children@.len() as int;
            let x = self.children.pop().unwrap();
            proof {
                assert(x == orig.take(n).last());
                assert(orig.take(n).last() == orig[n - 1]);
                assert(self.children@ =~= orig.take(n - 1));
            }
            out.push(x);
        }
        self.children = out;
        proof {
            assert(self.children@ =~= orig.reverse());
        }
    }
}

pub proof fn lemma_cplx_forest_push(s: Seq<CplxElement>, x: CplxElement)
    ensures
        cplx_forest(s.push(x)) == cplx_forest(s).push(cplx_model(x)),
{
    lemma_cplx_forest(s.push(x));
    lemma_cplx_forest(s);
    assert forall|i: int| 0 <= i < s.len() + 1 implies cplx_forest(s.push(x))[i] == cplx_forest(
        s,
    ).push(cplx_model(x))[i] by {
        assert(cplx_forest(s.push(x))[i] == cplx_model(s.push(x)[i]));
        if i < s.len() {
            assert(s.push(x)[i] == s[i]);
            assert(cplx_forest(s)[i] == cplx_model(s[i]));
        } else {
            assert(s.push(x)[i] == x);
        }
    }
    assert(cplx_forest(s.push(x)) =~= cplx_forest(s).push(cplx_model(x)));
}

pub proof fn lemma_cplx_forest_reverse(s: Seq<CplxElement>)
    ensures
        cplx_forest(s.reverse()) == cplx_forest(s).reverse(),
{
    lemma_cplx_forest(s.reverse());
    lemma_cplx_forest(s);
    assert forall|i: int| 0 <= i < s.len() implies cplx_forest(s.reverse())[i] == cplx_forest(
        s,
    ).reverse()[i] by {
        assert(cplx_forest(s.reverse())[i] == cplx_model(s.reverse()[i]));
        assert(s.reverse()[i] == s[s.len() - 1 - i]);
        assert(cplx_forest(s)[s.len() - 1 - i] == cplx_model(s[s.len() - 1 - i]));
    }
    assert(cplx_forest(s.reverse()) =~= cplx_forest(s).reverse());
}

/// For this node type, pushing a child appends the child's model to the
/// parent's children: its collapse model and its rollup attachment cohere,
/// so the round-trip laws apply to it.
pub proof fn lemma_cplx_push_appends()
    ensures
        crate::roundtrip::push_appends::<CplxElement>(),
{
    assert forall|pre: CplxElement, c: CplxElement, post: CplxElement| #[trigger] tree_rollup::Node::pushed(
        pre,
        c,
        post,
    ) implies cplx_model(post) == (GTree {
        node: cplx_model(pre).node,
        kids: cplx_model(pre).kids.push(cplx_model(c)),
    }) by {
        lemma_cplx_forest_push(pre.children@, c);
        assert(post.children@ == pre.children@.push(c));
        assert(cplx_model(post) == (GTree {
            node: pre.data,
            kids: cplx_forest(pre.children@).push(cplx_model(c)),
        }));
    }
}

/// For this node type, reversing a node reverses its children's models: its
/// collapse model and its rollup reversal cohere, so the round-trip laws
/// apply to it.
pub proof fn lemma_cplx_reverse_reverses()
    ensures
        crate::roundtrip::reverse_reverses::<CplxElement>(),
{
    assert forall|pre: CplxElement, post: CplxElement| #[trigger] tree_rollup::ReversableNode::reversed(
        pre,
        post,
    ) implies cplx_model(post) == (GTree {
        node: cplx_model(pre).node,
        kids: cplx_model(pre).kids.reverse(),
    }) by {
        lemma_cplx_forest_reverse(pre.children@);
        assert(post.children@ == pre.children@.reverse());
        assert(cplx_model(post) == (GTree {
            node: pre.data,
            kids: cplx_forest(pre.children@).reverse(),
        }));
    }
}

/// A bare numeric accumulator: attaching a child adds its value, wrapping
/// around on overflow.
#[derive(Debug, PartialEq, Eq)]
pub struct Element(pub usize);

impl tree_rollup::Node for Element {
    open spec fn pushed(pre: Self, child: Self, post: Self) -> bool {
        post.0 == pre.0.wrapping_add(child.0)
    }

    fn push_child(&mut self, child: Self) {
        self.0 = self.0.wrapping_add(child.0);
    }
}

impl tree_rollup::ReversableNode for Element {
    open spec fn reversed(pre: Self, post: Self) -> bool {
        post == pre
    }

    fn reverse(&mut self) {
    }
}

} // verus!
