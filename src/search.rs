use vstd::prelude::*;

use crate::rng::Rng;
use crate::tree::{fails_with, lemma_reaches_self, GameState, Node, SearchError, Tree};

verus! {

/// The combined outcome of all workers of one search.
pub struct BestResult<T: GameState> {
    pub iterations: u32,
    pub best_move: T::Move,
}

/// Sum of the iteration counts of `reports`.
pub open spec fn total_iterations(reports: Seq<(u32, Vec<u32>)>) -> int
    decreases reports.len(),
{
    if reports.len() == 0 {
        0
    } else {
        total_iterations(reports.drop_last()) + reports.last().0
    }
}

/// Sum over `reports` of the votes at position `i`.
pub open spec fn summed_votes(reports: Seq<(u32, Vec<u32>)>, i: int) -> int
    decreases reports.len(),
{
    if reports.len() == 0 {
        0
    } else {
        summed_votes(reports.drop_last(), i) + reports.last().1@[i]
    }
}

/// At least one report, at least one move, and every vote vector has one entry per move.
pub open spec fn reports_aligned(reports: Seq<(u32, Vec<u32>)>, n: nat) -> bool {
    &&& reports.len() >= 1
    &&& n >= 1
    &&& forall|j: int| 0 <= j < reports.len() ==> (#[trigger] reports[j]).1@.len() == n
}

/// The combined iteration count and every combined vote fit in a `u32`.
pub open spec fn sums_fit(reports: Seq<(u32, Vec<u32>)>, n: nat) -> bool {
    &&& total_iterations(reports) <= u32::MAX
    &&& forall|i: int| 0 <= i < n ==> #[trigger] summed_votes(reports, i) <= u32::MAX
}

/// `b` is the first position among `0..n` with the largest combined vote.
pub open spec fn is_best_index(reports: Seq<(u32, Vec<u32>)>, n: nat, b: int) -> bool {
    &&& 0 <= b < n
    &&& forall|i: int| 0 <= i < n ==> #[trigger] summed_votes(reports, i) <= summed_votes(reports, b)
    &&& forall|i: int| 0 <= i < b ==> #[trigger] summed_votes(reports, i) < summed_votes(reports, b)
}

/// Combined counts only grow as more reports are taken in.
proof fn lemma_sums_grow(s: Seq<(u32, Vec<u32>)>, j: int, m: int)
    requires
        0 <= j <= m <= s.len(),
    ensures
        total_iterations(s.take(j)) <= total_iterations(s.take(m)),
        forall|i: int| #[trigger] summed_votes(s.take(j), i) <= summed_votes(s.take(m), i),
    decreases m - j,
{
    if j < m {
        lemma_sums_grow(s, j, m - 1);
        assert(s.take(m).drop_last() =~= s.take(m - 1));
    }
}

/// Combines the workers' reports `(iterations, votes per root move)`: the iteration
/// counts are added, the vote vectors are added position by position, and the move at
/// the first position with the largest combined vote is chosen. `None` when there is no
/// report or no move, when a vote vector does not have one entry per move, or when a
/// sum does not fit in a `u32`.
pub fn aggregate<T: GameState>(reports: &Vec<(u32, Vec<u32>)>, moves: &Vec<T::Move>) -> (r: Option<
    BestResult<T>,
>)
    ensures
        r is Some <==> reports_aligned(reports@, moves@.len()) && sums_fit(
            reports@,
            moves@.len(),
        ),
        r matches Some(b) ==> b.iterations == total_iterations(reports@) && exists|k: int|
            is_best_index(reports@, moves@.len(), k) && b.best_move == moves@[k],
{
    let n = moves.len();
    if reports.len() == 0 || n == 0 {
        return None;
    }
    let mut j: usize = 0;
    while j < reports.len()
        invariant
            n == moves@.len(),
            j <= reports.len(),
            forall|q: int| 0 <= q < j ==> (#[trigger] reports@[q]).1@.len() == n,
        decreases reports.len() - j,
    {
        if reports[j].1.len() != n {
            return None;
        }
        j = j + 1;
    }
    let ghost s = reports@;
    let mut total: u32 = 0;
    let mut sums: Vec<u32> = Vec::new();
    let mut i: usize = 0;
    while i < n
        invariant
            i <= n,
            sums@.len() == i,
            forall|p: int| 0 <= p < i ==> #[trigger] sums@[p] == 0,
        decreases n - i,
    {
        sums.push(0);
        i = i + 1;
    }
    proof {
        assert(s.take(0) =~= Seq::<(u32, Vec<u32>)>::empty());
    }
    j = 0;
    while j < reports.len()
        invariant
            s == reports@,
            n == moves@.len(),
            n >= 1,
            reports_aligned(s, n as nat),
            j <= s.len(),
            sums@.len() == n,
            total == total_iterations(s.take(j as int)),
            forall|p: int| 0 <= p < n ==> #[trigger] sums@[p] == summed_votes(s.take(j as int), p),
        decreases s.len() - j,
    {
        let ghost next = s.take(j + 1);
        proof {
            assert(next.drop_last() =~= s.take(j as int));
            assert(next.last() == s[j as int]);
            lemma_sums_grow(s, j + 1, s.len() as int);
            assert(s.take(s.len() as int) =~= s);
        }
        let it = reports[j].0;
        if total > u32::MAX - it {
            return None;
        }
        total = total + it;
        let votes = &reports[j].1;
        let mut p: usize = 0;
        while p < n
            invariant
                s == reports@,
                n == moves@.len(),
                j < s.len(),
                votes == s[j as int].1,
                votes@.len() == n,
                next == s.take(j + 1),
                next.drop_last() == s.take(j as int),
                next.last() == s[j as int],
                p <= n,
                sums@.len() == n,
                forall|q: int| 0 <= q < p ==> #[trigger] sums@[q] == summed_votes(next, q),
                forall|q: int|
                    p <= q < n ==> #[trigger] sums@[q] == summed_votes(s.take(j as int), q),
                forall|q: int|
                    #[trigger] summed_votes(next, q) <= summed_votes(s.take(s.len() as int), q),
                s.take(s.len() as int) == s,
            decreases n - p,
        {
            proof {
                assert(summed_votes(next, p as int) == summed_votes(s.take(j as int), p as int)
                    + votes@[p as int]);
            }
            if sums[p] > u32::MAX - votes[p] {
                proof {
                    assert(summed_votes(s, p as int) > u32::MAX);
                }
                return None;
            }
            let v = sums[p] + votes[p];
            sums.set(p, v);
            p = p + 1;
        }
        j = j + 1;
    }
    proof {
        assert(s.take(s.len() as int) =~= s);
    }
    let mut best: usize = 0;
    let mut k: usize = 1;
    while k < n
        invariant
            s == reports@,
            n == moves@.len(),
            sums@.len() == n,
            forall|p: int| 0 <= p < n ==> #[trigger] sums@[p] == summed_votes(s, p),
            best < k <= n,
            forall|p: int| 0 <= p < k ==> #[trigger] summed_votes(s, p) <= summed_votes(s, best as int),
            forall|p: int| 0 <= p < best ==> #[trigger] summed_votes(s, p) < summed_votes(s, best as int),
        decreases n - k,
    {
        if sums[k] > sums[best] {
            best = k;
        }
        k = k + 1;
    }
    proof {
        assert(is_best_index(s, n as nat, best as int));
        assert forall|p: int| 0 <= p < n implies #[trigger] summed_votes(s, p) <= u32::MAX by {
            assert(sums@[p] == summed_votes(s, p));
        }
        assert(sums_fit(s, n as nat));
    }
    Some(BestResult { iterations: total, best_move: moves[best] })
}

/// Sum of `v - 1` over `votes`: the visits that the root's children gained beyond the
/// one each was created with.
pub open spec fn vote_excess(votes: Seq<u32>) -> int
    decreases votes.len(),
{
    if votes.len() == 0 {
        0
    } else {
        vote_excess(votes.drop_last()) + votes.last() - 1
    }
}

proof fn lemma_vote_excess<T: GameState>(tree: &Tree<T>, votes: Seq<u32>, cs: Seq<usize>)
    requires
        votes.len() == cs.len(),
        forall|k: int| 0 <= k < cs.len() ==> #[trigger] votes[k] == tree.nodes()[cs[k] as int].visits(),
    ensures
        vote_excess(votes) == tree.excess(cs),
    decreases cs.len(),
{
    if cs.len() > 0 {
        let v = votes.drop_last();
        let c = cs.drop_last();
        assert forall|k: int| 0 <= k < c.len() implies #[trigger] v[k] == tree.nodes()[c[k] as int].visits() by {
            assert(v[k] == votes[k] && c[k] == cs[k]);
        }
        lemma_vote_excess(tree, v, c);
        assert(votes.last() == votes[votes.len() - 1]);
    }
}

/// The stop rule of a fixed total budget split evenly over `nthreads` workers: true once
/// a worker has done `num_iterations / nthreads` iterations (rounded down).
pub fn iteration_budget_reached(nthreads: usize, iterations: u32, num_iterations: u32) -> (r: bool)
    requires
        nthreads >= 1,
    ensures
        r == (iterations as int >= num_iterations as int / nthreads as int),
{
    if nthreads > num_iterations as usize {
        assert(num_iterations as int / nthreads as int == 0) by (nonlinear_arith)
            requires
                nthreads as int > num_iterations as int,
                num_iterations >= 0,
        ;
        true
    } else {
        iterations >= num_iterations / (nthreads as u32)
    }
}

/// The work of one worker: a fresh tree rooted at `state`, searched until
/// `end_condition(nthreads, iterations done)` holds after an iteration. Reports the
/// number of iterations and the visit counts of the root's children, in move order;
/// beyond the one visit each child was created with, they add up to the iterations.
/// A terminal root always succeeds without drawing a random number; an error comes only
/// with a playout from `state` that shows it.
pub fn run_worker<T: GameState, R: Rng, F: Fn(u32, u32, u32) -> u64, E: Fn(usize, u32) -> bool>(
    state: T,
    rng: &mut R,
    uct: &F,
    end_condition: &E,
    nthreads: usize,
) -> (r: Result<(u32, Vec<u32>), SearchError>)
    requires
        forall|w: u32, n: u32, p: u32| #[trigger] uct.requires((w, n, p)),
        forall|t: usize, i: u32| #[trigger] end_condition.requires((t, i)),
    ensures
        r matches Ok((k, votes)) ==> k >= 1 && forall|i: int|
            0 <= i < votes@.len() ==> 1 <= #[trigger] votes@[i] <= k + 1,
        r matches Ok((k, votes)) ==> (state.terminal_spec() is Some ==> votes@.len() == 0) && (
        state.terminal_spec() is None ==> votes@.len() == state.moves_spec().len()),
        r matches Ok((k, votes)) ==> end_condition.ensures((nthreads, k), true) || k == u32::MAX
            - 1,
        r matches Ok((k, votes)) ==> forall|j: u32|
            1 <= j < k ==> #[trigger] end_condition.ensures((nthreads, j), false),
        r matches Ok((k, votes)) ==> state.terminal_spec() is None ==> vote_excess(votes@) == k,
        r matches Err(e) ==> fails_with(state, e),
        state.terminal_spec() is Some ==> r is Ok && *final(rng) == *old(rng),
{
    let mut tree: Tree<T> = Tree::new();
    tree.add_node_with_parent(Node::new(state, None));
    proof {
        assert(tree.node_grown(0));
        lemma_reaches_self(tree.nodes()[0].state_of());
        assert(tree.rooted());
    }
    match tree.search(rng, uct, end_condition, nthreads) {
        Ok(iterations) => {
            let votes = tree.root_votes();
            proof {
                lemma_vote_excess(&tree, votes@, tree.nodes()[0].child_ids());
                assert(tree.node_grown(0));
                assert forall|i: int| 0 <= i < votes@.len() implies 1 <= #[trigger] votes@[i]
                    <= iterations + 1 by {
                    let c = tree.nodes()[0].child_ids()[i] as int;
                    assert(tree.node_wf(0));
                    assert(tree.node_wf(c));
                }
            }
            Ok((iterations, votes))
        },
        Err(e) => Err(e),
    }
}

} // verus!
