use vstd::prelude::*;
use vstd::multiset::Multiset;
use crate::field::{grids, Field, Grid};
use crate::piece::{is_variant_list, shapes, Piece, Shape};

verus! {

/// The complete configurations reached from `state` by placing, in order, one
/// orientation of each piece whose orientations `rem` lists.
pub open spec fn completions(state: Grid, rem: Seq<Seq<Shape>>) -> Seq<Grid>
    decreases rem.len(), 2nat, 0nat,
{
    if rem.len() == 0 {
        seq![state]
    } else {
        over_orientations(state, rem[0], rem.drop_first())
    }
}

/// The complete configurations reached by placing one of the orientations `os`
/// in `state` and then the pieces of `rest`, orientation by orientation.
pub open spec fn over_orientations(state: Grid, os: Seq<Shape>, rest: Seq<Seq<Shape>>) -> Seq<Grid>
    decreases rest.len() + 1, 1nat, os.len(),
{
    if os.len() == 0 {
        Seq::empty()
    } else {
        over_orientations(state, os.drop_last(), rest) + over_placements(
            state.placements(os.last()),
            rest,
        )
    }
}

/// The complete configurations reached from each of the grids `ps` in turn.
pub open spec fn over_placements(ps: Seq<Grid>, rest: Seq<Seq<Shape>>) -> Seq<Grid>
    decreases rest.len() + 1, 0nat, ps.len(),
{
    if ps.len() == 0 {
        Seq::empty()
    } else {
        over_placements(ps.drop_last(), rest) + completions(ps.last(), rest)
    }
}

/// The orientation lists of a sequence of pieces, as shapes.
pub open spec fn shape_sets(v: Seq<Vec<Piece>>) -> Seq<Seq<Shape>> {
    v.map_values(|ps: Vec<Piece>| shapes(ps@))
}

/// Every piece in every list is well formed.
pub open spec fn all_wf(v: Seq<Vec<Piece>>) -> bool {
    forall|i: int, j: int| 0 <= i < v.len() && 0 <= j < v[i]@.len() ==> (#[trigger] v[i]@[j]).wf()
}

/// The highest score among the grids, 0 for none.
pub open spec fn max_score(sols: Seq<Grid>) -> nat
    decreases sols.len(),
{
    if sols.len() == 0 {
        0
    } else {
        let m = max_score(sols.drop_last());
        if sols.last().score() > m {
            sols.last().score()
        } else {
            m
        }
    }
}

/// The grids whose score is the highest, in their order.
pub open spec fn best(sols: Seq<Grid>) -> Seq<Grid> {
    sols.filter(|g: Grid| g.score() == max_score(sols))
}

/// The start field, the orientations of each piece, and every complete
/// configuration found.
pub struct Solution {
    pub start: Field,
    pub pieces: Vec<Vec<Piece>>,
    pub solutions: Vec<Field>,
}

impl Solution {
    pub open spec fn wf(&self) -> bool {
        &&& self.start.wf()
        &&& all_wf(self.pieces@)
        &&& forall|i: int| 0 <= i < self.solutions@.len() ==> (#[trigger] self.solutions@[i]).wf()
    }

    /// Computes the orientations of each piece and every complete
    /// configuration of the pieces, placed in order, on the start field.
    pub fn new(start: &Field, pieces: &[Piece]) -> (r: Solution)
        requires
            start.wf(),
            pieces@.len() > 0,
            forall|i: int| 0 <= i < pieces@.len() ==> (#[trigger] pieces@[i]).wf(),
        ensures
            r.wf(),
            r.start@ == start@,
            r.pieces@.len() == pieces@.len(),
            forall|i: int|
                0 <= i < pieces@.len() ==> is_variant_list(#[trigger] r.pieces@[i]@, pieces@[i]@),
            grids(r.solutions@) == completions(start@, shape_sets(r.pieces@)),
    {
        let mut variants: Vec<Vec<Piece>> = Vec::new();
        let mut i: usize = 0;
        while i < pieces.len()
            invariant
                i <= pieces@.len(),
                variants@.len() == i,
                forall|k: int| 0 <= k < pieces@.len() ==> (#[trigger] pieces@[k]).wf(),
                forall|k: int| 0 <= k < i ==> is_variant_list(#[trigger] variants@[k]@, pieces@[k]@),
            decreases pieces@.len() - i,
        {
            variants.push(pieces[i].all_variants());
            i += 1;
        }
        let mut solutions: Vec<Field> = Vec::new();
        Solution::solve(start, variants.as_slice(), &mut solutions);
        assert(grids(solutions@) =~= completions(start@, shape_sets(variants@)));
        Solution { start: start.copied(), pieces: variants, solutions }
    }

    /// The highest score among the complete configurations, 0 where there is none.
    pub fn highest_score(&self) -> (r: u128)
        ensures
            r == max_score(grids(self.solutions@)),
    {
        let ghost sols = grids(self.solutions@);
        let mut highest: u128 = 0;
        let mut i: usize = 0;
        while i < self.solutions.len()
            invariant
                sols == grids(self.solutions@),
                i <= sols.len(),
                highest == max_score(sols.take(i as int)),
            decreases sols.len() - i,
        {
            assert(sols.take(i + 1).drop_last() =~= sols.take(i as int));
            let c = self.solutions[i].count();
            if c > highest {
                highest = c;
            }
            i += 1;
        }
        assert(sols.take(i as int) =~= sols);
        highest
    }

    /// The complete configurations whose score is the highest, in the order found.
    pub fn best_solutions(&self) -> (r: Vec<Field>)
        ensures
            grids(r@) == best(grids(self.solutions@)),
    {
        let ghost sols = grids(self.solutions@);
        let highest = self.highest_score();
        let ghost pred = |g: Grid| g.score() == max_score(sols);
        let mut out: Vec<Field> = Vec::new();
        let mut i: usize = 0;
        while i < self.solutions.len()
            invariant
                sols == grids(self.solutions@),
                highest == max_score(sols),
                pred == (|g: Grid| g.score() == max_score(sols)),
                i <= sols.len(),
                grids(out@) == sols.take(i as int).filter(pred),
            decreases sols.len() - i,
        {
            proof {
                reveal(Seq::filter);
            }
            let ghost before = grids(out@);
            let ghost next = sols.take(i + 1);
            assert(next.drop_last() =~= sols.take(i as int));
            assert(next.last() == sols[i as int]);
            assert(sols[i as int] == self.solutions@[i as int]@);
            assert(next.filter(pred) == (if pred(next.last()) {
                next.drop_last().filter(pred).push(next.last())
            } else {
                next.drop_last().filter(pred)
            }));
            if self.solutions[i].count() == highest {
                out.push(self.solutions[i].copied());
                assert(grids(out@) =~= before.push(sols[i as int]));
            }
            i += 1;
            assert(grids(out@) == next.filter(pred));
        }
        assert(sols.take(i as int) =~= sols);
        out
    }

    /// Appends to `solutions` every complete configuration reached from `state`
    /// by placing one orientation of each entry of `remaining_pieces` in turn.
    pub fn solve(state: &Field, remaining_pieces: &[Vec<Piece>], solutions: &mut Vec<Field>)
        requires
            state.wf(),
            remaining_pieces@.len() > 0,
            all_wf(remaining_pieces@),
        ensures
            grids(final(solutions)@) == grids(old(solutions)@) + completions(
                state@,
                shape_sets(remaining_pieces@),
            ),
            forall|i: int|
                0 <= i < old(solutions)@.len() ==> final(solutions)@[i] == old(solutions)@[i],
            forall|i: int|
                old(solutions)@.len() <= i < final(solutions)@.len()
                    ==> (#[trigger] final(solutions)@[i]).wf(),
        decreases remaining_pieces@.len(),
    {
        let ghost sol0 = solutions@;
        let ghost rem = shape_sets(remaining_pieces@);
        let top = &remaining_pieces[0];
        let rest = &remaining_pieces[1..remaining_pieces.len()];
        let ghost os = shapes(top@);
        let ghost rest_s = shape_sets(rest@);
        assert(rest_s =~= rem.drop_first());
        assert(rem[0] == os);
        assert(all_wf(rest@)) by {
            assert forall|i: int, j: int| 0 <= i < rest@.len() && 0 <= j < rest@[i]@.len() implies (
            #[trigger] rest@[i]@[j]).wf() by {
                assert(rest@[i] == remaining_pieces@[i + 1]);
            }
        }
        let mut oi: usize = 0;
        while oi < top.len()
            invariant
                state.wf(),
                all_wf(rest@),
                forall|j: int| 0 <= j < top@.len() ==> (#[trigger] top@[j]).wf(),
                os == shapes(top@),
                rest_s == shape_sets(rest@),
                rest@.len() < remaining_pieces@.len(),
                oi <= top@.len(),
                grids(solutions@) == grids(sol0) + over_orientations(state@, os.take(oi as int), rest_s),
                forall|i: int| 0 <= i < sol0.len() ==> solutions@[i] == sol0[i],
                solutions@.len() >= sol0.len(),
                forall|i: int| sol0.len() <= i < solutions@.len() ==> (#[trigger] solutions@[i]).wf(),
            decreases top@.len() - oi,
        {
            let placements = state.place_iter(&top[oi]);
            let ghost ps = grids(placements@);
            let ghost mid = grids(solutions@);
            let mut pi: usize = 0;
            while pi < placements.len()
                invariant
                    state.wf(),
                    all_wf(rest@),
                    rest_s == shape_sets(rest@),
                    rest@.len() < remaining_pieces@.len(),
                    ps == grids(placements@),
                    forall|j: int| 0 <= j < placements@.len() ==> (#[trigger] placements@[j]).wf(),
                    pi <= placements@.len(),
                    grids(solutions@) == mid + over_placements(ps.take(pi as int), rest_s),
                    forall|i: int| 0 <= i < sol0.len() ==> solutions@[i] == sol0[i],
                    solutions@.len() >= sol0.len(),
                    forall|i: int| sol0.len() <= i < solutions@.len() ==> (#[trigger] solutions@[i]).wf(),
                decreases placements@.len() - pi,
            {
                let ghost before = solutions@;
                assert(ps.take(pi + 1).drop_last() =~= ps.take(pi as int));
                if rest.len() == 0 {
                    solutions.push(placements[pi].copied());
                    assert(grids(solutions@) =~= grids(before).push(ps[pi as int]));
                    assert(completions(ps[pi as int], rest_s) == seq![ps[pi as int]]);
                } else {
                    Solution::solve(&placements[pi], rest, solutions);
                }
                pi += 1;
                assert(grids(solutions@) =~= mid + over_placements(ps.take(pi as int), rest_s));
            }
            assert(ps.take(pi as int) =~= ps);
            assert(os.take(oi + 1).drop_last() =~= os.take(oi as int));
            oi += 1;
            assert(grids(solutions@) =~= grids(sol0) + over_orientations(state@, os.take(oi as int), rest_s));
        }
        assert(os.take(oi as int) =~= os);
    }
}


proof fn lemma_max_score(sols: Seq<Grid>)
    ensures
        forall|i: int| 0 <= i < sols.len() ==> (#[trigger] sols[i]).score() <= max_score(sols),
        sols.len() > 0 ==> exists|i: int| 0 <= i < sols.len() && (#[trigger] sols[i]).score() == max_score(sols),
    decreases sols.len(),
{
    if sols.len() > 0 {
        let prev = sols.drop_last();
        lemma_max_score(prev);
        assert forall|i: int| 0 <= i < sols.len() implies (#[trigger] sols[i]).score() <= max_score(sols) by {
            if i < prev.len() {
                assert(sols[i] == prev[i]);
            }
        }
        if sols.last().score() > max_score(prev) || prev.len() == 0 {
            assert(sols[sols.len() - 1].score() == max_score(sols));
        } else {
            let k = choose|k: int| 0 <= k < prev.len() && (#[trigger] prev[k]).score() == max_score(prev);
            assert(sols[k] == prev[k]);
        }
    }
}

/// The best configurations are there exactly when some configuration is;
/// each of them scores the highest score, and no configuration scores more.
pub proof fn lemma_best_solutions(sols: Seq<Grid>)
    ensures
        best(sols).len() > 0 <==> sols.len() > 0,
        forall|i: int| 0 <= i < best(sols).len() ==> (#[trigger] best(sols)[i]).score() == max_score(sols),
        forall|i: int| 0 <= i < sols.len() ==> (#[trigger] sols[i]).score() <= max_score(sols),
{
    broadcast use vstd::seq_lib::group_filter_ensures;
    let pred = |g: Grid| g.score() == max_score(sols);
    lemma_max_score(sols);
    sols.lemma_filter_len(pred);
    if sols.len() > 0 {
        let k = choose|k: int| 0 <= k < sols.len() && (#[trigger] sols[k]).score() == max_score(sols);
        sols.lemma_filter_contains(pred, k);
    }
    assert forall|i: int| 0 <= i < best(sols).len() implies (#[trigger] best(sols)[i]).score() == max_score(sols) by {
        sols.lemma_filter_pred(pred, i);
    }
}


/// Entry by entry, the lists hold the same orientations, each once.
pub open spec fn same_orientation_sets(rem1: Seq<Seq<Shape>>, rem2: Seq<Seq<Shape>>) -> bool {
    &&& rem1.len() == rem2.len()
    &&& forall|i: int|
        0 <= i < rem1.len() ==> {
            &&& (#[trigger] rem1[i]).no_duplicates()
            &&& rem2[i].no_duplicates()
            &&& rem1[i].to_set() == rem2[i].to_set()
        }
}

/// What one orientation contributes to `over_orientations`.
spec fn by_orientation(state: Grid, o: Shape, rest: Seq<Seq<Shape>>) -> Multiset<Grid> {
    over_placements(state.placements(o), rest).to_multiset()
}

proof fn lemma_over_orientations_remove(state: Grid, os: Seq<Shape>, k: int, rest: Seq<Seq<Shape>>)
    requires
        0 <= k < os.len(),
    ensures
        over_orientations(state, os, rest).to_multiset() == over_orientations(
            state,
            os.remove(k),
            rest,
        ).to_multiset().add(by_orientation(state, os[k], rest)),
    decreases os.len(),
{
    broadcast use vstd::seq_lib::lemma_multiset_commutative;

    let n = os.len();
    if k == n - 1 {
        assert(os.remove(k) =~= os.drop_last());
    } else {
        lemma_over_orientations_remove(state, os.drop_last(), k, rest);
        let r = os.remove(k);
        assert(r.drop_last() =~= os.drop_last().remove(k));
        assert(r.last() == os.last());
        assert(over_orientations(state, os, rest).to_multiset() =~= over_orientations(
            state,
            os.remove(k),
            rest,
        ).to_multiset().add(by_orientation(state, os[k], rest)));
    }
}

proof fn lemma_over_orientations_perm(state: Grid, os1: Seq<Shape>, os2: Seq<Shape>, rest: Seq<Seq<Shape>>)
    requires
        os1.no_duplicates(),
        os2.no_duplicates(),
        os1.to_set() == os2.to_set(),
    ensures
        over_orientations(state, os1, rest).to_multiset() == over_orientations(
            state,
            os2,
            rest,
        ).to_multiset(),
    decreases os1.len(),
{
    broadcast use vstd::seq_lib::lemma_multiset_commutative;

    if os1.len() == 0 {
        if os2.len() > 0 {
            assert(os2.to_set().contains(os2[0]));
        }
    } else {
        let x = os1.last();
        assert(os1.to_set().contains(x));
        assert(os2.contains(x));
        let k = choose|k: int| 0 <= k < os2.len() && os2[k] == x;
        let a = os1.drop_last();
        let b = os2.remove(k);
        assert forall|i: int, j: int| 0 <= i < j < b.len() implies b[i] != b[j] by {
            let i2 = if i < k { i } else { i + 1 };
            let j2 = if j < k { j } else { j + 1 };
            assert(b[i] == os2[i2] && b[j] == os2[j2]);
        }
        assert forall|y: Shape| a.contains(y) <==> b.contains(y) by {
            if a.contains(y) {
                let i = choose|i: int| 0 <= i < a.len() && a[i] == y;
                assert(os1[i] == y && i != os1.len() - 1);
                assert(os1.to_set().contains(y));
                let j = choose|j: int| 0 <= j < os2.len() && os2[j] == y;
                assert(j != k);
                if j < k {
                    assert(b[j] == y);
                } else {
                    assert(b[j - 1] == y);
                }
            }
            if b.contains(y) {
                let j = choose|j: int| 0 <= j < b.len() && b[j] == y;
                let j2 = if j < k { j } else { j + 1 };
                assert(os2[j2] == y && j2 != k);
                assert(os2.to_set().contains(y));
                let i = choose|i: int| 0 <= i < os1.len() && os1[i] == y;
                assert(i != os1.len() - 1);
                assert(a[i] == y);
            }
        }
        assert(a.to_set() =~= b.to_set());
        lemma_over_orientations_perm(state, a, b, rest);
        lemma_over_orientations_remove(state, os2, k, rest);
    }
}

proof fn lemma_completions_perm(state: Grid, rem1: Seq<Seq<Shape>>, rem2: Seq<Seq<Shape>>)
    requires
        same_orientation_sets(rem1, rem2),
    ensures
        completions(state, rem1).to_multiset() == completions(state, rem2).to_multiset(),
    decreases rem1.len(), 2nat, 0nat,
{
    if rem1.len() > 0 {
        let rest1 = rem1.drop_first();
        let rest2 = rem2.drop_first();
        assert forall|i: int| 0 <= i < rest1.len() implies {
            &&& (#[trigger] rest1[i]).no_duplicates()
            &&& rest2[i].no_duplicates()
            &&& rest1[i].to_set() == rest2[i].to_set()
        } by {
            assert(rest1[i] == rem1[i + 1] && rest2[i] == rem2[i + 1]);
        }
        lemma_over_orientations_rest(state, rem1[0], rest1, rest2);
        lemma_over_orientations_perm(state, rem1[0], rem2[0], rest2);
    }
}

proof fn lemma_over_orientations_rest(
    state: Grid,
    os: Seq<Shape>,
    rest1: Seq<Seq<Shape>>,
    rest2: Seq<Seq<Shape>>,
)
    requires
        same_orientation_sets(rest1, rest2),
    ensures
        over_orientations(state, os, rest1).to_multiset() == over_orientations(
            state,
            os,
            rest2,
        ).to_multiset(),
    decreases rest1.len() + 1, 1nat, os.len(),
{
    broadcast use vstd::seq_lib::lemma_multiset_commutative;

    if os.len() > 0 {
        lemma_over_orientations_rest(state, os.drop_last(), rest1, rest2);
        lemma_over_placements_rest(state.placements(os.last()), rest1, rest2);
    }
}

proof fn lemma_over_placements_rest(ps: Seq<Grid>, rest1: Seq<Seq<Shape>>, rest2: Seq<Seq<Shape>>)
    requires
        same_orientation_sets(rest1, rest2),
    ensures
        over_placements(ps, rest1).to_multiset() == over_placements(ps, rest2).to_multiset(),
    decreases rest1.len() + 1, 0nat, ps.len(),
{
    broadcast use vstd::seq_lib::lemma_multiset_commutative;

    if ps.len() > 0 {
        lemma_over_placements_rest(ps.drop_last(), rest1, rest2);
        lemma_completions_perm(ps.last(), rest1, rest2);
    }
}

/// The complete configurations do not depend on the order in which each
/// piece's orientations are listed: any two lists that hold every orientation
/// of each piece once give the same configurations, each as often.
pub proof fn lemma_solutions_independent_of_order(
    start: Grid,
    pieces: Seq<Shape>,
    sets1: Seq<Seq<Shape>>,
    sets2: Seq<Seq<Shape>>,
)
    requires
        sets1.len() == pieces.len(),
        sets2.len() == pieces.len(),
        forall|i: int|
            0 <= i < pieces.len() ==> {
                &&& (#[trigger] sets1[i]).no_duplicates()
                &&& sets1[i].to_set() == pieces[i].orientations()
                &&& sets2[i].no_duplicates()
                &&& sets2[i].to_set() == pieces[i].orientations()
            },
    ensures
        completions(start, sets1).to_multiset() == completions(start, sets2).to_multiset(),
{
    assert forall|i: int| 0 <= i < sets1.len() implies {
        &&& (#[trigger] sets1[i]).no_duplicates()
        &&& sets2[i].no_duplicates()
        &&& sets1[i].to_set() == sets2[i].to_set()
    } by {
        assert(sets1[i].to_set() == pieces[i].orientations());
    }
    lemma_completions_perm(start, sets1, sets2);
}


/// Where every orientation of the next piece is wider or taller than the
/// field, no complete configuration comes down that branch.
pub proof fn lemma_no_orientation_fits(state: Grid, os: Seq<Shape>, rest: Seq<Seq<Shape>>)
    requires
        forall|i: int|
            0 <= i < os.len() ==> (#[trigger] os[i]).width > state.width || os[i].height
                > state.height,
    ensures
        over_orientations(state, os, rest).len() == 0,
        completions(state, seq![os] + rest).len() == 0,
    decreases os.len(),
{
    if os.len() > 0 {
        assert forall|i: int| 0 <= i < os.drop_last().len() implies (#[trigger] os.drop_last()[i]).width
            > state.width || os.drop_last()[i].height > state.height by {
            assert(os.drop_last()[i] == os[i]);
        }
        lemma_no_orientation_fits(state, os.drop_last(), rest);
        assert(os.last() == os[os.len() - 1]);
        crate::field::lemma_piece_larger_than_field(state, os.last());
        assert(state.placements(os.last()) =~= Seq::<Grid>::empty());
        assert(over_placements(Seq::<Grid>::empty(), rest) =~= Seq::<Grid>::empty());
    }
    let rem = seq![os] + rest;
    assert(rem[0] == os);
    assert(rem.drop_first() =~= rest);
}

proof fn lemma_over_placements_score(ps: Seq<Grid>, rest: Seq<Seq<Shape>>, bound: nat)
    requires
        forall|i: int| 0 <= i < ps.len() ==> (#[trigger] ps[i]).score() <= bound,
    ensures
        forall|i: int|
            0 <= i < over_placements(ps, rest).len() ==> (#[trigger] over_placements(ps, rest)[i]).score()
                <= bound,
    decreases rest.len() + 1, 0nat, ps.len(),
{
    if ps.len() > 0 {
        let a = over_placements(ps.drop_last(), rest);
        let b = completions(ps.last(), rest);
        lemma_over_placements_score(ps.drop_last(), rest, bound);
        lemma_completions_score(ps.last(), rest);
        assert(ps.last() == ps[ps.len() - 1]);
        assert forall|i: int| 0 <= i < (a + b).len() implies (#[trigger] (a + b)[i]).score() <= bound by {
            if i >= a.len() {
                assert((a + b)[i] == b[i - a.len()]);
            }
        }
    }
}

proof fn lemma_over_orientations_score(state: Grid, os: Seq<Shape>, rest: Seq<Seq<Shape>>)
    ensures
        forall|i: int|
            0 <= i < over_orientations(state, os, rest).len() ==> (#[trigger] over_orientations(
                state,
                os,
                rest,
            )[i]).score() <= state.score(),
    decreases rest.len() + 1, 1nat, os.len(),
{
    if os.len() > 0 {
        let ps = state.placements(os.last());
        let a = over_orientations(state, os.drop_last(), rest);
        let b = over_placements(ps, rest);
        lemma_over_orientations_score(state, os.drop_last(), rest);
        assert forall|i: int| 0 <= i < ps.len() implies (#[trigger] ps[i]).score() <= state.score() by {
            crate::field::lemma_placement_never_raises_score(state, os.last(), ps[i]);
        }
        lemma_over_placements_score(ps, rest, state.score());
        assert forall|i: int| 0 <= i < (a + b).len() implies (#[trigger] (a + b)[i]).score() <= state.score() by {
            if i >= a.len() {
                assert((a + b)[i] == b[i - a.len()]);
            }
        }
    }
}

/// No complete configuration scores more than the field it started from:
/// each placement can only cover free cells.
pub proof fn lemma_completions_score(state: Grid, rem: Seq<Seq<Shape>>)
    ensures
        forall|i: int|
            0 <= i < completions(state, rem).len() ==> (#[trigger] completions(state, rem)[i]).score()
                <= state.score(),
    decreases rem.len(), 2nat, 0nat,
{
    if rem.len() > 0 {
        lemma_over_orientations_score(state, rem[0], rem.drop_first());
        assert(completions(state, rem) == over_orientations(state, rem[0], rem.drop_first()));
    } else {
        assert(completions(state, rem)[0] == state);
    }
}

} // verus!
