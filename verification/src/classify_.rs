//! Segmenting a sequence into maximal runs that share a classification key.
//!
//! Every element of the input is mapped to a key by a caller-supplied
//! function; consecutive elements whose keys are equal belong to one run.
//! The output lists the runs in order, each paired with its key.

use vstd::prelude::*;
use vstd::std_specs::cmp::PartialEqSpec;

verus! {

/// Key types for classification: copyable, equality-comparable, and with a
/// default initial value.
pub trait Classification: Copy + Default + PartialEq {
}

impl<TC: Copy + Default + PartialEq> Classification for TC {
}

/// Length of the first run of `ks`: the largest `n` such that each of the
/// first `n` keys is equal (under `eq_spec`) to the key before it.
pub open spec fn run_split<TC: PartialEq>(ks: Seq<TC>) -> int
    decreases ks.len(),
{
    if ks.len() <= 1 {
        ks.len() as int
    } else if ks[1].eq_spec(&ks[0]) {
        1 + run_split(ks.drop_first())
    } else {
        1
    }
}

pub proof fn lemma_run_split_bounds<TC: PartialEq>(ks: Seq<TC>)
    ensures
        ks.len() == 0 ==> run_split(ks) == 0,
        ks.len() >= 1 ==> 1 <= run_split(ks) <= ks.len(),
    decreases ks.len(),
{
    if ks.len() > 1 {
        lemma_run_split_bounds(ks.drop_first());
    }
}

/// The runs of `s`, where `ks` gives the key of each element: each run is a
/// maximal contiguous block of elements with pairwise-equal keys, paired with
/// the key of its last element.
pub open spec fn runs_of<TT, TC: PartialEq>(s: Seq<TT>, ks: Seq<TC>) -> Seq<(TC, Seq<TT>)>
    recommends
        s.len() == ks.len(),
    decreases ks.len(),
        via runs_of_dec::<TT, TC>
{
    if ks.len() == 0 {
        Seq::empty()
    } else {
        let n = run_split(ks);
        seq![(ks[n - 1], s.take(n))] + runs_of(s.skip(n), ks.skip(n))
    }
}

#[via_fn]
proof fn runs_of_dec<TT, TC: PartialEq>(s: Seq<TT>, ks: Seq<TC>) {
    lemma_run_split_bounds(ks);
}

/// `ks` records, element by element, a result that the classification
/// function `fnx` can return on the elements of `s`.
pub open spec fn keyed_by<TT, TC, F: Fn(&TT) -> TC>(fnx: F, s: Seq<TT>, ks: Seq<TC>) -> bool {
    &&& ks.len() == s.len()
    &&& forall|i: int| 0 <= i < s.len() ==> call_ensures(fnx, (&s[i],), #[trigger] ks[i])
}

/// The mathematical value of an executable run list.
pub open spec fn runs_view<TT, TC>(r: Seq<(TC, Vec<TT>)>) -> Seq<(TC, Seq<TT>)> {
    r.map_values(|p: (TC, Vec<TT>)| (p.0, p.1@))
}

/// The first `n` keys of `ks` are exactly one run: they join pairwise and
/// either the sequence ends at `n` or the run breaks there.
proof fn lemma_run_split_is<TC: PartialEq>(ks: Seq<TC>, n: int)
    requires
        1 <= n <= ks.len(),
        forall|j: int| 1 <= j < n ==> (#[trigger] ks[j]).eq_spec(&ks[j - 1]),
        n < ks.len() ==> !ks[n].eq_spec(&ks[n - 1]),
    ensures
        run_split(ks) == n,
    decreases n,
{
    if n == 1 {
        if ks.len() > 1 {
            assert(!ks[1].eq_spec(&ks[0]));
        }
    } else {
        let kt = ks.drop_first();
        assert(ks[1].eq_spec(&ks[0]));
        assert forall|j: int| 1 <= j < n - 1 implies (#[trigger] kt[j]).eq_spec(&kt[j - 1]) by {
            assert(ks[j + 1].eq_spec(&ks[j + 1 - 1]));
            assert(kt[j] == ks[j + 1]);
            assert(kt[j - 1] == ks[j + 1 - 1]);
        }
        if n - 1 < kt.len() {
            assert(kt[n - 1] == ks[n]);
            assert(kt[n - 2] == ks[n - 1]);
        }
        lemma_run_split_is(kt, n - 1);
    }
}

/// Concatenation of the elements of a run list, in order.
pub open spec fn concat_runs<TT, TC>(runs: Seq<(TC, Seq<TT>)>) -> Seq<TT>
    decreases runs.len(),
{
    if runs.len() == 0 {
        Seq::empty()
    } else {
        runs[0].1 + concat_runs(runs.drop_first())
    }
}

/// Classification loses nothing: concatenating the runs of `s` in order
/// gives back `s` itself; in particular, an empty input gives no runs.
pub proof fn lemma_runs_concat<TT, TC: PartialEq>(s: Seq<TT>, ks: Seq<TC>)
    requires
        s.len() == ks.len(),
    ensures
        concat_runs(runs_of(s, ks)) == s,
        s.len() == 0 ==> runs_of(s, ks) == Seq::<(TC, Seq<TT>)>::empty(),
    decreases s.len(),
{
    if s.len() == 0 {
        assert(concat_runs(runs_of(s, ks)) =~= s);
    } else {
        lemma_run_split_bounds(ks);
        let n = run_split(ks);
        let first = seq![(ks[n - 1], s.take(n))];
        let runs = runs_of(s, ks);
        assert(runs == first + runs_of(s.skip(n), ks.skip(n)));
        lemma_runs_concat(s.skip(n), ks.skip(n));
        assert(runs.drop_first() =~= runs_of(s.skip(n), ks.skip(n)));
        assert(concat_runs(runs) == s.take(n) + concat_runs(runs_of(s.skip(n), ks.skip(n))));
        assert(s.take(n) + s.skip(n) =~= s);
    }
}

/// Every run that classification produces holds at least one element.
pub proof fn lemma_runs_nonempty<TT, TC: PartialEq>(s: Seq<TT>, ks: Seq<TC>)
    requires
        s.len() == ks.len(),
    ensures
        forall|i: int| 0 <= i < runs_of(s, ks).len() ==> (#[trigger] runs_of(s, ks)[i]).1.len()
            >= 1,
    decreases s.len(),
{
    if s.len() > 0 {
        lemma_run_split_bounds(ks);
        let n = run_split(ks);
        lemma_runs_nonempty(s.skip(n), ks.skip(n));
        let runs = runs_of(s, ks);
        let rest = runs_of(s.skip(n), ks.skip(n));
        assert forall|i: int| 0 <= i < runs.len() implies (#[trigger] runs[i]).1.len() >= 1 by {
            if i > 0 {
                assert(runs[i] == rest[i - 1]);
            }
        }
    }
}

/// Within the first run of `ks`, every key is equal to the first key
/// (assuming `eq_spec` is symmetric and transitive).
proof fn lemma_run_keys_eq<TC: PartialEq>(ks: Seq<TC>)
    requires
        forall|a: TC, b: TC| #[trigger] a.eq_spec(&b) ==> b.eq_spec(&a),
        forall|a: TC, b: TC, c: TC|
            #[trigger] a.eq_spec(&b) && #[trigger] b.eq_spec(&c) ==> a.eq_spec(&c),
    ensures
        forall|j: int| 0 <= j < run_split(ks) && j > 0 ==> (#[trigger] ks[j]).eq_spec(&ks[0]),
    decreases ks.len(),
{
    if ks.len() > 1 && ks[1].eq_spec(&ks[0]) {
        let kt = ks.drop_first();
        lemma_run_split_bounds(ks);
        lemma_run_split_bounds(kt);
        lemma_run_keys_eq(kt);
        assert forall|j: int| 0 <= j < run_split(ks) && j > 0 implies (#[trigger] ks[j]).eq_spec(
            &ks[0],
        ) by {
            if j > 1 {
                assert(kt[j - 1] == ks[j]);
                assert(kt[j - 1].eq_spec(&kt[0]));
                assert(kt[0] == ks[1]);
            }
        }
    }
}

/// All keys of the first run join to the key before the run of the rest.
proof fn lemma_run_break<TC: PartialEq>(ks: Seq<TC>)
    ensures
        run_split(ks) < ks.len() ==> !ks[run_split(ks)].eq_spec(&ks[run_split(ks) - 1]),
    decreases ks.len(),
{
    if ks.len() > 1 && ks[1].eq_spec(&ks[0]) {
        let kt = ks.drop_first();
        lemma_run_break(kt);
        lemma_run_split_bounds(kt);
        let n = run_split(ks);
        if n < ks.len() {
            assert(kt[n - 1] == ks[n]);
            assert(kt[n - 2] == ks[n - 1]);
        }
    }
}

/// No two adjacent runs share an equal key (assuming `eq_spec` is symmetric
/// and transitive, as lawful equality is).
pub proof fn lemma_runs_adjacent_keys_differ<TT, TC: PartialEq>(s: Seq<TT>, ks: Seq<TC>)
    requires
        s.len() == ks.len(),
        forall|a: TC, b: TC| #[trigger] a.eq_spec(&b) ==> b.eq_spec(&a),
        forall|a: TC, b: TC, c: TC|
            #[trigger] a.eq_spec(&b) && #[trigger] b.eq_spec(&c) ==> a.eq_spec(&c),
    ensures
        forall|i: int|
            0 <= i && i + 1 < runs_of(s, ks).len() ==> !(#[trigger] runs_of(s, ks)[i
                + 1]).0.eq_spec(&runs_of(s, ks)[i].0),
    decreases s.len(),
{
    if s.len() > 0 {
        lemma_run_split_bounds(ks);
        let n = run_split(ks);
        let st = s.skip(n);
        let kt = ks.skip(n);
        lemma_runs_adjacent_keys_differ(st, kt);
        let runs = runs_of(s, ks);
        let rest = runs_of(st, kt);
        assert forall|i: int| 0 <= i && i + 1 < runs.len() implies !(#[trigger] runs[i
            + 1]).0.eq_spec(&runs[i].0) by {
            if i == 0 {
                // the first key of the rest breaks against ks[n - 1]; the
                // emitted key of the rest's first run chains back to it
                assert(n < ks.len());
                lemma_run_break(ks);
                assert(!ks[n].eq_spec(&ks[n - 1]));
                lemma_run_split_bounds(kt);
                let m = run_split(kt);
                assert(rest[0] == runs_of(st, kt)[0]);
                assert(runs[1].0 == kt[m - 1]);
                assert(runs[0].0 == ks[n - 1]);
                lemma_run_keys_eq(kt);
                if m > 1 {
                    assert(kt[m - 1].eq_spec(&kt[0]));
                }
                assert(kt[0] == ks[n]);
                if runs[1].0.eq_spec(&runs[0].0) {
                    // then ks[n] ~ kt[m-1] ~ ks[n-1], contradiction
                    if m > 1 {
                        assert(ks[n].eq_spec(&kt[m - 1]));
                        assert(ks[n].eq_spec(&ks[n - 1]));
                    } else {
                        assert(kt[m - 1] == ks[n]);
                    }
                    assert(false);
                }
            } else {
                assert(runs[i] == rest[i - 1]);
                assert(runs[i + 1] == rest[i]);
                assert(!rest[i - 1 + 1].0.eq_spec(&rest[i - 1].0));
            }
        }
    }
}

/// Segment `input` into maximal runs of equal classification key, eagerly.
///
/// The result is pinned by the keys that `fnx` returned: there is a key
/// sequence `ks`, one possible result of `fnx` on each element in turn, such
/// that the result is exactly `runs_of(input, ks)`.
pub fn classify<TT, TC: Classification, F: Fn(&TT) -> TC>(input: Vec<TT>, fnx: F) -> (res: Vec<
    (TC, Vec<TT>),
>)
    requires
        forall|x: &TT| #[trigger] call_requires(fnx, (x,)),
        TC::obeys_eq_spec(),
    ensures
        exists|ks: Seq<TC>|
            #[trigger] keyed_by(fnx, input@, ks) && runs_view(res@) == runs_of(input@, ks),
{
    let ghost orig_s = input@;
    let mut keys: Vec<TC> = Vec::new();
    let mut i: usize = 0;
    while i < input.len()
        invariant
            forall|x: &TT| #[trigger] call_requires(fnx, (x,)),
            i <= input.len(),
            keys@.len() == i as int,
            input@ == orig_s,
            forall|j: int| 0 <= j < i ==> call_ensures(fnx, (&input@[j],), #[trigger] keys@[j]),
        decreases input.len() - i,
    {
        let k = fnx(&input[i]);
        keys.push(k);
        i += 1;
    }
    let ghost orig_ks = keys@;
    assert(keyed_by(fnx, orig_s, orig_ks));

    let mut rest = input;
    let mut rkeys = keys;
    let mut res: Vec<(TC, Vec<TT>)> = Vec::new();
    while rest.len() > 0
        invariant
            TC::obeys_eq_spec(),
            rkeys@.len() == rest@.len(),
            runs_view(res@) + runs_of(rest@, rkeys@) == runs_of(orig_s, orig_ks),
        decreases rest.len(),
    {
        let mut n: usize = 1;
        while n < rkeys.len() && rkeys[n] == rkeys[n - 1]
            invariant
                TC::obeys_eq_spec(),
                rkeys@.len() >= 1,
                1 <= n <= rkeys@.len(),
                forall|j: int| 1 <= j < n ==> (#[trigger] rkeys@[j]).eq_spec(&rkeys@[j - 1]),
            decreases rkeys.len() - n,
        {
            n += 1;
        }
        proof {
            lemma_run_split_is(rkeys@, n as int);
        }
        let ghost prev_res = res@;
        let ghost prev_rest = rest@;
        let ghost prev_rkeys = rkeys@;
        let key = rkeys[n - 1];
        let tail = rest.split_off(n);
        let tailk = rkeys.split_off(n);
        res.push((key, rest));
        rest = tail;
        rkeys = tailk;
        proof {
            assert(rest@ =~= prev_rest.skip(n as int));
            assert(rkeys@ =~= prev_rkeys.skip(n as int));
            assert(res@.last().1@ =~= prev_rest.take(n as int));
            assert(runs_of(prev_rest, prev_rkeys) == seq![(key, prev_rest.take(n as int))]
                + runs_of(rest@, rkeys@));
            assert(runs_view(res@) =~= runs_view(prev_res) + seq![
                (key, prev_rest.take(n as int)),
            ]);
            assert(runs_view(res@) + runs_of(rest@, rkeys@) =~= runs_of(orig_s, orig_ks));
        }
    }
    proof {
        assert(rkeys@.len() == 0);
        assert(runs_of(rest@, rkeys@) =~= Seq::<(TC, Seq<TT>)>::empty());
        assert(runs_view(res@) =~= runs_view(res@) + runs_of(rest@, rkeys@));
        assert(keyed_by(fnx, orig_s, orig_ks) && runs_view(res@) == runs_of(orig_s, orig_ks));
    }
    res
}

/// An iterator over the runs of a sequence: the runs are computed up front
/// and handed out one by one.
pub struct ClassifyIT<TT, TC> {
    runs: Vec<(TC, Vec<TT>)>,
}

impl<TT, TC> ClassifyIT<TT, TC> {
    /// The runs this iterator has not yet handed out.
    pub closed spec fn remaining(self) -> Seq<(TC, Seq<TT>)> {
        runs_view(self.runs@)
    }
}

impl<TT, TC: Classification> ClassifyIT<TT, TC> {
    /// Build the run iterator over `inner` with the classification `fnx`.
    pub fn new<F: Fn(&TT) -> TC>(inner: Vec<TT>, fnx: F) -> (it: Self)
        requires
            forall|x: &TT| #[trigger] call_requires(fnx, (x,)),
            TC::obeys_eq_spec(),
        ensures
            exists|ks: Seq<TC>|
                #[trigger] keyed_by(fnx, inner@, ks) && it.remaining() == runs_of(inner@, ks),
    {
        ClassifyIT { runs: classify(inner, fnx) }
    }

    /// Hand out the next run, or `None` once all runs are gone.
    pub fn next(&mut self) -> (r: Option<(TC, Vec<TT>)>)
        ensures
            old(self).remaining().len() == 0 ==> r is None && final(self).remaining()
                == old(self).remaining(),
            old(self).remaining().len() > 0 ==> r is Some && ((r->0).0, (r->0).1@) == old(
                self,
            ).remaining()[0] && final(self).remaining() == old(self).remaining().drop_first(),
    {
        if self.runs.len() > 0 {
            let run = self.runs.remove(0);
            proof {
                assert(final(self).remaining() =~= old(self).remaining().drop_first());
            }
            Some(run)
        } else {
            None
        }
    }

    /// How many runs are left: an exact count, given as bounds.
    pub fn size_hint(&self) -> (r: (usize, Option<usize>))
        ensures
            r.0 == self.remaining().len(),
            r.1 == Some(self.remaining().len() as usize),
    {
        (self.runs.len(), Some(self.runs.len()))
    }
}

/// Collections whose contents can be segmented into runs.
pub trait Classify<TT, TC: Classification, F: Fn(&TT) -> TC>: Sized {
    /// The sequence of elements that will be classified.
    spec fn elems_view(self) -> Seq<TT>;

    /// Segment `self` into maximal runs of equal classification key.
    fn classify(self, fnx: F) -> (it: ClassifyIT<TT, TC>)
        requires
            forall|x: &TT| #[trigger] call_requires(fnx, (x,)),
            TC::obeys_eq_spec(),
        ensures
            exists|ks: Seq<TC>|
                #[trigger] keyed_by(fnx, self.elems_view(), ks) && it.remaining() == runs_of(
                    self.elems_view(),
                    ks,
                ),
    ;
}

impl<TT, TC: Classification, F: Fn(&TT) -> TC> Classify<TT, TC, F> for Vec<TT> {
    open spec fn elems_view(self) -> Seq<TT> {
        self@
    }

    fn classify(self, fnx: F) -> (it: ClassifyIT<TT, TC>) {
        let it = ClassifyIT::new(self, fnx);
        proof {
            let ks = choose|ks: Seq<TC>|
                #[trigger] keyed_by(fnx, self@, ks) && it.remaining() == runs_of(self@, ks);
            assert(keyed_by(fnx, <Vec<TT> as Classify<TT, TC, F>>::elems_view(self), ks)
                && it.remaining() == runs_of(
                <Vec<TT> as Classify<TT, TC, F>>::elems_view(self),
                ks,
            ));
        }
        it
    }
}

/// Segment `input` into maximal runs of equal classification key.
///
/// The same operation as [`classify`], named for the shape of its result.
pub fn classify_as_vec<TT, TC: Classification, F: Fn(&TT) -> TC>(input: Vec<TT>, fnx: F) -> (res:
    Vec<(TC, Vec<TT>)>)
    requires
        forall|x: &TT| #[trigger] call_requires(fnx, (x,)),
        TC::obeys_eq_spec(),
    ensures
        exists|ks: Seq<TC>|
            #[trigger] keyed_by(fnx, input@, ks) && runs_view(res@) == runs_of(input@, ks),
{
    classify(input, fnx)
}

} // verus!
