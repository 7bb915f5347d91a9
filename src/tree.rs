use vstd::prelude::*;

use crate::rng::Rng;

verus! {

/// A game or decision process that the search explores.
pub trait GameState: Sized + Clone {
    type Move: Copy + Eq;
    type UserData: Eq;

    // The four spec functions below describe an implementation; one written in Verus
    // gives them their meaning, and for any other they stay unspecified.
    /// The legal moves of this state, in their fixed order.
    open spec fn moves_spec(&self) -> Seq<Self::Move> {
        arbitrary()
    }

    /// The state that `action` leads to.
    open spec fn apply_spec(&self, action: Self::Move) -> Self {
        arbitrary()
    }

    /// The outcome of this state, when it is terminal.
    open spec fn terminal_spec(&self) -> Option<Self::UserData> {
        arbitrary()
    }

    /// Whether `condition` is favourable for this state.
    open spec fn win_spec(&self, condition: Self::UserData) -> bool {
        arbitrary()
    }

    /// All moves that can be performed from this state, in a fixed order.
    fn all_moves(&self) -> (r: Vec<Self::Move>)
        ensures
            r@ == self.moves_spec(),
    ;

    /// One of `all_moves()` drawn uniformly, or `None` when there is no move.
    fn random_move<R: Rng>(&self, rng: &mut R) -> (r: Option<Self::Move>)
        ensures
            r is None <==> self.moves_spec().len() == 0,
            r matches Some(m) ==> self.moves_spec().contains(m),
            self.moves_spec().len() == 0 ==> *final(rng) == *old(rng),
    {
        let children = self.all_moves();
        if children.len() == 0 {
            None
        } else {
            let idx = rng.gen_range(0..children.len());
            Some(children[idx])
        }
    }

    /// The state reached by applying `action`; the receiver is left unchanged.
    fn apply_move(&self, action: Self::Move) -> (r: Self)
        ensures
            r == self.apply_spec(action),
    ;

    /// The outcome, when this state is terminal.
    fn is_terminal_state(&self) -> (r: Option<Self::UserData>)
        ensures
            r == self.terminal_spec(),
    ;

    /// Whether the terminal outcome `condition` is favourable for this state.
    fn terminal_is_win(&self, condition: &Self::UserData) -> (r: bool)
        ensures
            r == self.win_spec(*condition),
    ;
}

/// Why a search could not go on.
#[derive(Clone, Copy, Debug, PartialEq, Eq, Structural)]
pub enum SearchError {
    /// A non-terminal state offered no move.
    NoMoves,
    /// A random playout ran for `u64::MAX` moves without reaching a terminal state.
    PlayoutTooLong,
}

/// One vertex of the search tree.
pub struct Node<T: GameState> {
    n: u32,
    w: u32,
    pub state: T,
    children: Vec<usize>,
    parent: Option<usize>,
}

impl<T: GameState> Node<T> {
    pub closed spec fn visits(&self) -> nat {
        self.n as nat
    }

    pub closed spec fn wins(&self) -> nat {
        self.w as nat
    }

    pub closed spec fn child_ids(&self) -> Seq<usize> {
        self.children@
    }

    pub closed spec fn state_of(&self) -> T {
        self.state
    }

    pub closed spec fn parent_id(&self) -> Option<usize> {
        self.parent
    }

    /// A fresh node: one baseline visit, no wins, no children.
    pub fn new(t: T, parent: Option<usize>) -> (r: Self)
        ensures
            r.visits() == 1,
            r.wins() == 0,
            r.child_ids().len() == 0,
            r.parent_id() == parent,
            r.state_of() == t,
    {
        Node { n: 1, w: 0, state: t, children: Vec::new(), parent }
    }

    /// How often the node was visited, the creation baseline included.
    pub fn visit_count(&self) -> (r: u32)
        ensures
            r == self.visits(),
    {
        self.n
    }

    /// How many of those visits ended in an outcome favourable to the node's state.
    pub fn win_count(&self) -> (r: u32)
        ensures
            r == self.wins(),
    {
        self.w
    }

    /// The arena indices of the node's children, in move order.
    pub fn children(&self) -> (r: &Vec<usize>)
        ensures
            r@ == self.child_ids(),
    {
        &self.children
    }

    /// The arena index of the node's parent; `None` for the root.
    pub fn parent(&self) -> (r: Option<usize>)
        ensures
            r == self.parent_id(),
    {
        self.parent
    }
}

/// An arena of nodes; the root is at index 0.
pub struct Tree<T: GameState> {
    nodes: Vec<Node<T>>,
}

impl<T: GameState> Tree<T> {
    pub closed spec fn nodes(&self) -> Seq<Node<T>> {
        self.nodes@
    }

    pub open spec fn len(&self) -> nat {
        self.nodes().len()
    }

    pub open spec fn root_visits(&self) -> nat {
        self.nodes()[0].visits()
    }

    /// The invariants of one node at index `i`.
    pub open spec fn node_wf(&self, i: int) -> bool {
        let nd = self.nodes()[i];
        &&& 1 <= nd.visits() <= self.root_visits()
        &&& nd.wins() <= nd.visits()
        &&& (i == 0 <==> nd.parent_id() is None)
        &&& (nd.parent_id() matches Some(p) ==> p < i && self.nodes()[p as int].child_ids().contains(
            i as usize,
        ))
        &&& forall|k: int|
            0 <= k < nd.child_ids().len() ==> i < #[trigger] nd.child_ids()[k] < self.len()
                && self.nodes()[nd.child_ids()[k] as int].parent_id() == Some(i as usize)
        &&& forall|k1: int, k2: int|
            0 <= k1 < k2 < nd.child_ids().len() ==> #[trigger] nd.child_ids()[k1]
                != #[trigger] nd.child_ids()[k2]
    }

    /// Node `i` was grown by the search's rules: a terminal node has no children, and an
    /// expanded node has one child per move of its state, in move order, each holding
    /// the state that its move leads to.
    pub open spec fn node_grown(&self, i: int) -> bool {
        let nd = self.nodes()[i];
        let st = nd.state_of();
        &&& (st.terminal_spec() is Some ==> nd.child_ids().len() == 0)
        &&& (nd.child_ids().len() > 0 ==> {
            &&& nd.child_ids().len() == st.moves_spec().len()
            &&& forall|k: int|
                0 <= k < nd.child_ids().len() ==> self.nodes()[#[trigger] nd.child_ids()[k] as int].state_of()
                    == st.apply_spec(st.moves_spec()[k])
        })
    }

    /// Every node was grown by the search's rules.
    pub open spec fn grown(&self) -> bool {
        forall|i: int| 0 <= i < self.len() ==> #[trigger] self.node_grown(i)
    }

    /// Every node's state is reached from the root's state by a playout.
    pub open spec fn rooted(&self) -> bool {
        forall|i: int|
            0 <= i < self.len() ==> #[trigger] reaches(self.nodes()[0].state_of(), self.nodes()[i].state_of())
    }

    /// Two trees with the same length and parents have the same paths.
    proof fn lemma_on_path_kept(&self, other: &Self, i: int, j: int)
        requires
            self.len() == other.len(),
            forall|k: int|
                0 <= k < self.len() ==> #[trigger] self.nodes()[k].parent_id() == other.nodes()[k].parent_id(),
        ensures
            self.on_path(i, j) == other.on_path(i, j),
        decreases j,
    {
        if 0 <= j < self.len() && i != j {
            assert(self.nodes()[j].parent_id() == other.nodes()[j].parent_id());
            if self.nodes()[j].parent_id() is Some {
                let p = self.nodes()[j].parent_id()->Some_0 as int;
                if p < j {
                    self.lemma_on_path_kept(other, i, p);
                }
            }
        }
    }

    /// Well-formedness: the root is the only node without a parent, a parent comes
    /// before its children in the arena and lists each node whose parent it is, once, and `1 <= visits <= root visits`,
    /// `wins <= visits` hold at every node.
    pub open spec fn wf(&self) -> bool {
        forall|i: int| 0 <= i < self.len() ==> #[trigger] self.node_wf(i)
    }

    /// Node `i` of `self` still has the statistics, parent and state it had in `before`.
    pub open spec fn node_kept(&self, before: &Self, i: int) -> bool {
        &&& self.nodes()[i].visits() == before.nodes()[i].visits()
        &&& self.nodes()[i].wins() == before.nodes()[i].wins()
        &&& self.nodes()[i].parent_id() == before.nodes()[i].parent_id()
        &&& self.nodes()[i].state_of() == before.nodes()[i].state_of()
    }

    /// Node `i` is node `j` or one of its ancestors.
    pub open spec fn on_path(&self, i: int, j: int) -> bool
        decreases j,
    {
        if j < 0 || j >= self.len() {
            false
        } else if i == j {
            true
        } else {
            match self.nodes()[j].parent_id() {
                Some(p) => p < j && self.on_path(i, p as int),
                None => false,
            }
        }
    }

    proof fn lemma_path_le(&self, i: int, j: int)
        requires
            self.on_path(i, j),
        ensures
            0 <= i <= j < self.len(),
        decreases j,
    {
        if i != j {
            let p = self.nodes()[j].parent_id()->Some_0;
            self.lemma_path_le(i, p as int);
        }
    }

    /// Two nodes on the path from `j` to the root lie on one path.
    proof fn lemma_path_chain(&self, i: int, c: int, j: int)
        requires
            self.on_path(i, j),
            self.on_path(c, j),
        ensures
            self.on_path(i, c) || self.on_path(c, i),
        decreases j,
    {
        if i != j && c != j {
            let p = self.nodes()[j].parent_id()->Some_0;
            self.lemma_path_chain(i, c, p as int);
        }
    }

    /// The parent of a node on the path from `j` is on that path too.
    proof fn lemma_path_parent(&self, c: int, j: int)
        requires
            self.wf(),
            self.on_path(c, j),
            self.nodes()[c].parent_id() is Some,
        ensures
            self.on_path(self.nodes()[c].parent_id()->Some_0 as int, j),
        decreases j,
    {
        let p = self.nodes()[c].parent_id()->Some_0 as int;
        self.lemma_path_le(c, j);
        assert(self.node_wf(c));
        if c == j {
            assert(self.on_path(p, p));
        } else {
            let q = self.nodes()[j].parent_id()->Some_0 as int;
            self.lemma_path_parent(c, q);
        }
    }

    /// One win for node `i` from backing up `result` from `idx`: `i` is on the path from
    /// `idx` to the root and `result` is favourable for its state.
    pub open spec fn win_gain(&self, i: int, idx: int, result: T::UserData) -> int {
        if self.on_path(i, idx) && self.nodes()[i].state_of().win_spec(result) {
            1
        } else {
            0
        }
    }

    /// Node `i` of `self` has the parent, state and children it had in `before`.
    pub open spec fn shape_kept(&self, before: &Self, i: int) -> bool {
        &&& self.nodes()[i].parent_id() == before.nodes()[i].parent_id()
        &&& self.nodes()[i].state_of() == before.nodes()[i].state_of()
        &&& self.nodes()[i].child_ids() == before.nodes()[i].child_ids()
    }

    /// Adds one visit to `idx` and to every ancestor of it up to the root, and one win to
    /// those of them for whose state `terminal_is_win(result)` holds.
    pub fn backpropagate(&mut self, idx: usize, result: T::UserData)
        requires
            old(self).wf(),
            idx < old(self).len(),
            old(self).root_visits() < u32::MAX,
        ensures
            final(self).wf(),
            final(self).len() == old(self).len(),
            final(self).root_visits() == old(self).root_visits() + 1,
            final(self).nodes()[idx as int].visits() == old(self).nodes()[idx as int].visits() + 1,
            forall|i: int|
                0 <= i < old(self).len() ==> #[trigger] final(self).shape_kept(old(self), i),
            forall|i: int|
                0 <= i < old(self).len() ==> {
                    let a = old(self).nodes()[i];
                    let b = (#[trigger] final(self).nodes()[i]);
                    &&& b.visits() == a.visits() + if old(self).on_path(i, idx as int) {
                        1int
                    } else {
                        0int
                    }
                    &&& b.wins() == a.wins() + old(self).win_gain(i, idx as int, result)
                },
    {
        let ghost before = *self;
        let mut cur: usize = idx;
        proof {
            assert forall|i: int| 0 <= i < self.len() implies #[trigger] self.nodes()[i].wins()
                <= self.nodes()[i].visits() by {
                assert(before.node_wf(i));
            }
            assert(before.on_path(idx as int, idx as int));
            assert forall|i: int| idx < i < self.len() implies !before.on_path(i, idx as int) by {
                if before.on_path(i, idx as int) {
                    before.lemma_path_le(i, idx as int);
                }
            }
        }
        loop
            invariant_except_break
                forall|i: int|
                    0 <= i <= cur ==> #[trigger] self.nodes()[i].visits()
                        == before.nodes()[i].visits() && self.nodes()[i].wins()
                        == before.nodes()[i].wins(),
            invariant
                before.wf(),
                idx < before.len(),
                before.root_visits() < u32::MAX,
                self.len() == before.len(),
                cur <= idx,
                before.on_path(cur as int, idx as int),
                forall|i: int| 0 <= i < self.len() ==> #[trigger] self.shape_kept(&before, i),
                forall|i: int|
                    cur < i < self.len() ==> {
                        let a = before.nodes()[i];
                        let b = (#[trigger] self.nodes()[i]);
                        let d = if before.on_path(i, idx as int) {
                            1int
                        } else {
                            0int
                        };
                        &&& b.visits() == a.visits() + d
                        &&& b.wins() == a.wins() + before.win_gain(i, idx as int, result)
                        &&& b.wins() <= b.visits()
                    },
            ensures
                self.wf(),
                self.len() == before.len(),
                self.root_visits() == before.root_visits() + 1,
                self.nodes()[idx as int].visits() == before.nodes()[idx as int].visits() + 1,
                forall|i: int| 0 <= i < self.len() ==> #[trigger] self.shape_kept(&before, i),
                forall|i: int|
                    0 <= i < self.len() ==> {
                        let a = before.nodes()[i];
                        let b = (#[trigger] self.nodes()[i]);
                        let d = if before.on_path(i, idx as int) {
                            1int
                        } else {
                            0int
                        };
                        &&& b.visits() == a.visits() + d
                        &&& b.wins() == a.wins() + before.win_gain(i, idx as int, result)
                    },
            decreases cur,
        {
            proof {
                assert(before.node_wf(cur as int));
                assert(before.node_wf(0));
                assert(self.nodes()[cur as int].visits() == before.nodes()[cur as int].visits());
            }
            let win = self.nodes[cur].state.terminal_is_win(&result);
            let ghost pre = *self;
            self.nodes[cur].n = self.nodes[cur].n + 1;
            if win {
                self.nodes[cur].w = self.nodes[cur].w + 1;
            }
            proof {
                assert forall|i: int| 0 <= i < self.len() && i != cur implies #[trigger] self.nodes()[i]
                    == pre.nodes()[i] by {}
                assert forall|i: int| 0 <= i < self.len() implies #[trigger] self.shape_kept(
                    &before,
                    i,
                ) by {
                    assert(pre.shape_kept(&before, i));
                    if i != cur {
                        assert(self.nodes()[i] == pre.nodes()[i]);
                    }
                }
                assert(self.nodes()[cur as int].parent_id() == self.nodes@[cur as int].parent);
                assert(self.shape_kept(&before, cur as int));
                assert(pre.nodes()[cur as int].visits() == before.nodes()[cur as int].visits());
                assert(pre.nodes()[cur as int].wins() == before.nodes()[cur as int].wins());
            }
            match self.nodes[cur].parent {
                Some(p) => {
                    proof {
                        assert(p < cur);
                        before.lemma_path_parent(cur as int, idx as int);
                        assert(before.on_path(p as int, idx as int));
                        assert forall|i: int| 0 <= i <= p implies #[trigger] self.nodes()[i].visits()
                            == before.nodes()[i].visits() && self.nodes()[i].wins()
                            == before.nodes()[i].wins() by {
                            assert(self.nodes()[i] == pre.nodes()[i]);
                            assert(pre.nodes()[i].visits() == before.nodes()[i].visits());
                        }
                        assert forall|i: int| p < i < self.len() implies {
                            let a = before.nodes()[i];
                            let b = (#[trigger] self.nodes()[i]);
                            let d = if before.on_path(i, idx as int) {
                                1int
                            } else {
                                0int
                            };
                            &&& b.visits() == a.visits() + d
                            &&& b.wins() == a.wins() + before.win_gain(i, idx as int, result)
                            &&& b.wins() <= b.visits()
                        } by {
                            assert(before.node_wf(i));
                            if i > cur {
                                assert(self.nodes()[i] == pre.nodes()[i]);
                                assert(pre.nodes()[i].visits() == pre.nodes()[i].visits());
                            } else if i < cur {
                                assert(self.nodes()[i] == pre.nodes()[i]);
                                assert(pre.nodes()[i].visits() == before.nodes()[i].visits());
                                if before.on_path(i, idx as int) {
                                    before.lemma_path_chain(i, cur as int, idx as int);
                                    if before.on_path(i, cur as int) {
                                        before.lemma_path_le(i, p as int);
                                    } else {
                                        before.lemma_path_le(cur as int, i);
                                    }
                                }
                            }
                        }
                    }
                    cur = p;
                },
                None => {
                    proof {
                        assert(cur == 0);
                        assert(pre.nodes()[0].visits() == before.nodes()[0].visits());
                        assert(pre.nodes()[0].wins() == before.nodes()[0].wins());
                        assert forall|i: int| 0 <= i < self.len() implies {
                            let a = before.nodes()[i];
                            let b = (#[trigger] self.nodes()[i]);
                            let d = if before.on_path(i, idx as int) {
                                1int
                            } else {
                                0int
                            };
                            &&& b.visits() == a.visits() + d
                            &&& b.wins() == a.wins() + before.win_gain(i, idx as int, result)
                            &&& b.wins() <= b.visits()
                        } by {
                            assert(before.node_wf(i));
                            if i != 0 {
                                assert(self.nodes()[i] == pre.nodes()[i]);
                            }
                        }
                        assert(before.on_path(idx as int, idx as int));
                        assert forall|i: int| 0 <= i < self.len() implies #[trigger] self.node_wf(
                            i,
                        ) by {
                            assert(before.node_wf(i));
                            assert(self.shape_kept(&before, i));
                            let nd = before.nodes()[i];
                            if nd.parent_id() is Some {
                                assert(self.shape_kept(&before, nd.parent_id()->Some_0 as int));
                            }
                            assert forall|k: int| 0 <= k < nd.child_ids().len() implies i
                                < #[trigger] nd.child_ids()[k] < self.len() && self.nodes()[nd.child_ids()[k] as int].parent_id()
                                == Some(i as usize) by {
                                assert(self.shape_kept(&before, nd.child_ids()[k] as int));
                            }
                        }
                    }
                    break ;
                },
            }
        }
    }

    /// `keys[k]` is a value that `uct` may return for child `k` of node `a`, called with
    /// the child's wins and visits and with `a`'s visits.
    pub open spec fn keys_ok<F: Fn(u32, u32, u32) -> u64>(&self, a: int, keys: Seq<u64>, uct: &F) -> bool {
        let cs = self.nodes()[a].child_ids();
        &&& keys.len() == cs.len()
        &&& forall|k: int|
            0 <= k < cs.len() ==> #[trigger] uct.ensures(
                (
                    self.nodes()[cs[k] as int].wins() as u32,
                    self.nodes()[cs[k] as int].visits() as u32,
                    self.nodes()[a].visits() as u32,
                ),
                keys[k],
            )
    }

    /// Child `j` of node `a` is the first child with the largest `uct` key.
    pub open spec fn uct_choice<F: Fn(u32, u32, u32) -> u64>(&self, a: int, j: int, uct: &F) -> bool {
        exists|keys: Seq<u64>| #[trigger] self.keys_ok(a, keys, uct) && first_max(keys, j)
    }

    /// Walks down from the root, at each node moving to the child with the largest
    /// `uct(wins, visits, parent visits)` key (the first such child on a tie), and stops
    /// at a terminal node or at a node without children. Every step moves to a larger
    /// arena index, so the walk ends. Every node above the result on its path is
    /// non-terminal, has children, and was left through its `uct_choice` child.
    pub fn select<F: Fn(u32, u32, u32) -> u64>(&self, uct: &F) -> (r: usize)
        requires
            self.wf(),
            self.len() > 0,
            forall|w: u32, n: u32, p: u32| #[trigger] uct.requires((w, n, p)),
        ensures
            r < self.len(),
            self.nodes()[r as int].child_ids().len() == 0 || self.nodes()[r as int].state_of().terminal_spec() is Some,
            self.nodes()[0].state_of().terminal_spec() is Some ==> r == 0,
            forall|a: int|
                #![trigger self.on_path(a, r as int)]
                self.on_path(a, r as int) && a != r ==> self.nodes()[a].child_ids().len() > 0
                    && self.nodes()[a].state_of().terminal_spec() is None,
            forall|a: int|
                #![trigger self.on_path(a, r as int)]
                self.on_path(a, r as int) && a != r ==> exists|j: int|
                    #[trigger] self.uct_choice(a, j, uct) && self.on_path(
                        self.nodes()[a].child_ids()[j] as int,
                        r as int,
                    ),
    {
        let mut nidx: usize = 0;
        loop
            invariant
                self.wf(),
                nidx < self.len(),
                self.nodes()[0].state_of().terminal_spec() is Some ==> nidx == 0,
                forall|a: int|
                    #![trigger self.on_path(a, nidx as int)]
                    self.on_path(a, nidx as int) && a != nidx ==> self.nodes()[a].child_ids().len() > 0
                        && self.nodes()[a].state_of().terminal_spec() is None,
                forall|a: int|
                    #![trigger self.on_path(a, nidx as int)]
                    self.on_path(a, nidx as int) && a != nidx ==> exists|j: int|
                        #[trigger] self.uct_choice(a, j, uct) && self.on_path(
                            self.nodes()[a].child_ids()[j] as int,
                            nidx as int,
                        ),
                forall|w: u32, n: u32, p: u32| #[trigger] uct.requires((w, n, p)),
            decreases self.len() - nidx,
        {
            let p = &self.nodes[nidx];
            if p.state.is_terminal_state().is_some() {
                return nidx;
            }
            if p.children.len() == 0 {
                return nidx;
            }
            proof {
                assert(self.node_wf(nidx as int));
            }
            let mut best: usize = p.children[0];
            proof {
                assert(p.child_ids()[0] == best);
            }
            let mut best_key: u64 = uct(self.nodes[best].w, self.nodes[best].n, p.n);
            let ghost mut keys: Seq<u64> = seq![best_key];
            let ghost mut bj: int = 0;
            let ghost cs = p.child_ids();
            let mut k: usize = 1;
            while k < p.children.len()
                invariant
                    self.wf(),
                    nidx < best < self.len(),
                    p.child_ids().contains(best),
                    1 <= k <= p.children.len(),
                    cs == p.child_ids(),
                    keys.len() == k,
                    0 <= bj < k,
                    cs[bj] == best,
                    keys[bj] == best_key,
                    forall|q: int| 0 <= q < k ==> #[trigger] keys[q] <= best_key,
                    forall|q: int| 0 <= q < bj ==> #[trigger] keys[q] < best_key,
                    forall|q: int|
                        0 <= q < k ==> #[trigger] uct.ensures(
                            (
                                self.nodes()[cs[q] as int].wins() as u32,
                                self.nodes()[cs[q] as int].visits() as u32,
                                self.nodes()[nidx as int].visits() as u32,
                            ),
                            keys[q],
                        ),
                    p == self.nodes()[nidx as int],
                    forall|i: int|
                        0 <= i < p.child_ids().len() ==> nidx < #[trigger] p.child_ids()[i]
                            < self.len(),
                    forall|w: u32, n: u32, q: u32| #[trigger] uct.requires((w, n, q)),
                decreases p.children.len() - k,
            {
                let c = p.children[k];
                proof {
                    assert(p.child_ids()[k as int] == c);
                }
                let key = uct(self.nodes[c].w, self.nodes[c].n, p.n);
                proof {
                    keys = keys.push(key);
                }
                if key > best_key {
                    best = c;
                    best_key = key;
                    proof {
                        bj = k as int;
                    }
                }
                k = k + 1;
            }
            proof {
                let bp = self.nodes()[best as int].parent_id();
                let w = choose|w: int| 0 <= w < p.child_ids().len() && p.child_ids()[w] == best;
                assert(p.child_ids()[w] == best);
                assert(bp == Some(nidx));
                assert forall|a: int|
                    #![trigger self.on_path(a, best as int)]
                    self.on_path(a, best as int) && a != best implies self.nodes()[a].child_ids().len()
                        > 0 && self.nodes()[a].state_of().terminal_spec() is None by {
                    assert(self.on_path(a, nidx as int));
                }
                assert(self.keys_ok(nidx as int, keys, uct));
                assert(first_max(keys, bj));
                assert(self.uct_choice(nidx as int, bj, uct));
                assert(self.on_path(best as int, best as int));
                assert forall|a: int|
                    #![trigger self.on_path(a, best as int)]
                    self.on_path(a, best as int) && a != best implies exists|j: int|
                        #[trigger] self.uct_choice(a, j, uct) && self.on_path(
                            self.nodes()[a].child_ids()[j] as int,
                            best as int,
                        ) by {
                    assert(self.on_path(a, nidx as int));
                    if a == nidx {
                        assert(self.uct_choice(a, bj, uct) && self.on_path(
                            self.nodes()[a].child_ids()[bj] as int,
                            best as int,
                        ));
                    } else {
                        let j = choose|j: int|
                            #[trigger] self.uct_choice(a, j, uct) && self.on_path(
                                self.nodes()[a].child_ids()[j] as int,
                                nidx as int,
                            );
                        assert(self.on_path(self.nodes()[a].child_ids()[j] as int, best as int));
                    }
                }
            }
            nidx = best;
        }
    }

    /// Creates one child of `idx` per move of `all_moves()`, in that order, and returns
    /// their indices.
    pub fn expand(&mut self, idx: usize) -> (r: Vec<usize>)
        requires
            old(self).wf(),
            idx < old(self).len(),
        ensures
            final(self).wf(),
            final(self).len() == old(self).len() + r@.len(),
            forall|k: int| 0 <= k < r@.len() ==> #[trigger] r@[k] == old(self).len() + k,
            forall|k: int|
                old(self).len() <= k < final(self).len() ==> {
                    let c = #[trigger] final(self).nodes()[k];
                    &&& c.visits() == 1
                    &&& c.wins() == 0
                    &&& c.child_ids().len() == 0
                    &&& c.parent_id() == Some(idx)
                },
            forall|i: int|
                0 <= i < old(self).len() ==> #[trigger] final(self).node_kept(old(self), i),
            final(self).nodes()[idx as int].child_ids() == old(self).nodes()[idx as int].child_ids()
                + r@,
            r@.len() == old(self).nodes()[idx as int].state_of().moves_spec().len(),
            forall|k: int|
                0 <= k < r@.len() ==> (#[trigger] final(self).nodes()[r@[k] as int]).state_of()
                    == old(self).nodes()[idx as int].state_of().apply_spec(
                    old(self).nodes()[idx as int].state_of().moves_spec()[k],
                ),
            forall|i: int|
                0 <= i < old(self).len() && i != idx ==> (#[trigger] final(self).nodes()[i]).child_ids()
                    == old(self).nodes()[i].child_ids(),
    {
        let ghost before = *self;
        let moves = self.nodes[idx].state.all_moves();
        let ghost st = before.nodes()[idx as int].state_of();
        let mut out: Vec<usize> = Vec::new();
        let mut k: usize = 0;
        while k < moves.len()
            invariant
                self.wf(),
                idx < before.len(),
                k <= moves.len(),
                out@.len() == k,
                self.len() == before.len() + k,
                forall|j: int| 0 <= j < out@.len() ==> #[trigger] out@[j] == before.len() + j,
                forall|j: int|
                    before.len() <= j < self.len() ==> {
                        let c = #[trigger] self.nodes()[j];
                        &&& c.visits() == 1
                        &&& c.wins() == 0
                        &&& c.child_ids().len() == 0
                        &&& c.parent_id() == Some(idx)
                    },
                forall|i: int| 0 <= i < before.len() ==> #[trigger] self.node_kept(&before, i),
                self.nodes()[idx as int].child_ids() == before.nodes()[idx as int].child_ids()
                    + out@,
                forall|i: int|
                    0 <= i < before.len() && i != idx ==> (#[trigger] self.nodes()[i]).child_ids()
                        == before.nodes()[i].child_ids(),
                st == before.nodes()[idx as int].state_of(),
                moves@ == st.moves_spec(),
                forall|j: int|
                    0 <= j < k ==> (#[trigger] self.nodes()[before.len() + j]).state_of()
                        == st.apply_spec(moves@[j]),
            decreases moves.len() - k,
        {
            proof {
                assert(self.node_kept(&before, idx as int));
            }
            let child = self.nodes[idx].state.apply_move(moves[k]);
            let nd = Node::new(child, Some(idx));
            let ghost mid = *self;
            let c = self.add_node_with_parent(nd);
            out.push(c);
            proof {
                assert forall|i: int| 0 <= i < before.len() implies #[trigger] self.node_kept(
                    &before,
                    i,
                ) by {
                    assert(self.node_kept(&mid, i));
                    assert(mid.node_kept(&before, i));
                }
                assert(self.nodes()[idx as int].child_ids() =~= before.nodes()[idx as int].child_ids()
                    + out@);
                assert forall|j: int|
                    before.len() <= j < self.len() implies {
                    let c = #[trigger] self.nodes()[j];
                    &&& c.visits() == 1
                    &&& c.wins() == 0
                    &&& c.child_ids().len() == 0
                    &&& c.parent_id() == Some(idx)
                } by {
                    if j < mid.len() {
                        assert(self.node_kept(&mid, j));
                        assert(mid.nodes()[j].parent_id() == Some(idx));
                        assert(Some(idx) != Some(j as usize));
                    }
                }
                assert forall|j: int| 0 <= j < k + 1 implies (#[trigger] self.nodes()[before.len()
                    + j]).state_of() == st.apply_spec(moves@[j]) by {
                    if j < k {
                        assert(self.node_kept(&mid, before.len() + j));
                        assert(mid.nodes()[before.len() + j].state_of() == st.apply_spec(moves@[j]));
                    }
                }
            }
            k = k + 1;
        }
        out
    }

    /// Plays uniformly random moves from the state of node `n` until a terminal state,
    /// and returns its outcome. Fails with `NoMoves` at a non-terminal state without
    /// moves, and with `PlayoutTooLong` after `u64::MAX` moves; each result comes with
    /// the playout that produced it. A terminal start draws nothing.
    pub fn random_playout<R: Rng>(&self, n: usize, rng: &mut R) -> (r: Result<T::UserData, SearchError>)
        requires
            n < self.len(),
        ensures
            self.nodes()[n as int].state_of().terminal_spec() matches Some(o) ==> r == Ok::<
                T::UserData,
                SearchError,
            >(o),
            self.nodes()[n as int].state_of().terminal_spec() is None
                && self.nodes()[n as int].state_of().moves_spec().len() == 0 ==> r == Err::<
                T::UserData,
                SearchError,
            >(SearchError::NoMoves),
            r matches Ok(o) ==> exists|path: Seq<T>|
                #[trigger] is_playout(path) && path[0] == self.nodes()[n as int].state_of()
                    && path.last().terminal_spec() == Some(o),
            r matches Err(e) ==> fails_with(self.nodes()[n as int].state_of(), e),
            self.nodes()[n as int].state_of().terminal_spec() is Some ==> *final(rng) == *old(rng),
    {
        let ghost start = self.nodes()[n as int].state_of();
        match self.nodes[n].state.is_terminal_state() {
            Some(reward) => {
                proof {
                    let p1 = seq![start];
                    assert(is_playout(p1) && p1[0] == start && p1.last().terminal_spec() == Some(
                        reward,
                    ));
                }
                return Ok(reward);
            },
            None => {},
        }
        let first = match self.nodes[n].state.random_move(rng) {
            Some(m) => m,
            None => {
                proof {
                    let p1 = seq![start];
                    assert(is_playout(p1) && p1[0] == start && p1.last().terminal_spec() is None
                        && p1.last().moves_spec().len() == 0);
                    assert(fails_with(start, SearchError::NoMoves));
                }
                return Err(SearchError::NoMoves);
            },
        };
        let mut state = self.nodes[n].state.apply_move(first);
        let ghost mut path: Seq<T> = seq![start, state];
        proof {
            assert(step_ok(path[0], path[1]));
            assert(is_playout(path));
        }
        let mut steps: u64 = 0;
        while steps < u64::MAX
            invariant
                is_playout(path),
                path[0] == start,
                path.last() == state,
                n < self.len(),
                start == self.nodes()[n as int].state_of(),
                start.terminal_spec() is None,
                start.moves_spec().len() > 0,
                path.len() == steps + 2,
            decreases u64::MAX - steps,
        {
            match state.is_terminal_state() {
                Some(reward) => {
                    proof {
                        assert(is_playout(path) && path[0] == start && path.last().terminal_spec()
                            == Some(reward));
                    }
                    return Ok(reward);
                },
                None => match state.random_move(rng) {
                    Some(m) => {
                        let next = state.apply_move(m);
                        proof {
                            let old_path = path;
                            path = path.push(next);
                            assert(step_ok(old_path.last(), next));
                            assert forall|i: int| 0 <= i < path.len() - 1 implies #[trigger] step_ok(
                                path[i],
                                path[i + 1],
                            ) by {
                                if i < old_path.len() - 1 {
                                    assert(step_ok(old_path[i], old_path[i + 1]));
                                }
                            }
                        }
                        state = next;
                    },
                    None => {
                        proof {
                            assert(is_playout(path) && path[0] == start && path.last().terminal_spec()
                                is None && path.last().moves_spec().len() == 0);
                            assert(fails_with(start, SearchError::NoMoves));
                        }
                        return Err(SearchError::NoMoves);
                    },
                },
            }
            steps = steps + 1;
        }
        proof {
            assert(fails_with(start, SearchError::PlayoutTooLong));
        }
        Err(SearchError::PlayoutTooLong)
    }

    /// The visit counts of the root's children, in move order.
    pub fn root_votes(&self) -> (r: Vec<u32>)
        requires
            self.wf(),
            self.len() > 0,
        ensures
            r@.len() == self.nodes()[0].child_ids().len(),
            forall|k: int|
                0 <= k < r@.len() ==> #[trigger] r@[k] == self.nodes()[self.nodes()[0].child_ids()[k] as int].visits(),
    {
        proof {
            assert(self.node_wf(0));
        }
        let root = &self.nodes[0];
        let mut out: Vec<u32> = Vec::new();
        let mut k: usize = 0;
        while k < root.children.len()
            invariant
                self.wf(),
                root == self.nodes()[0],
                k <= root.children.len(),
                out@.len() == k,
                forall|i: int|
                    0 <= i < root.child_ids().len() ==> 0 < #[trigger] root.child_ids()[i] < self.len(),
                forall|j: int|
                    0 <= j < k ==> #[trigger] out@[j] == self.nodes()[root.child_ids()[j] as int].visits(),
            decreases root.children.len() - k,
        {
            let c = root.children[k];
            proof {
                assert(root.child_ids()[k as int] == c);
            }
            out.push(self.nodes[c].n);
            k = k + 1;
        }
        out
    }

    /// The root is on the path from every node.
    proof fn lemma_root_on_path(&self, i: int)
        requires
            self.wf(),
            0 <= i < self.len(),
        ensures
            self.on_path(0, i),
        decreases i,
    {
        assert(self.node_wf(i));
        if i != 0 {
            let p = self.nodes()[i].parent_id()->Some_0 as int;
            self.lemma_root_on_path(p);
        }
    }

    /// Changing only statistics keeps a grown tree grown.
    proof fn lemma_grown_kept(&self, before: &Self)
        requires
            before.wf(),
            before.grown(),
            self.len() == before.len(),
            forall|i: int| 0 <= i < self.len() ==> #[trigger] self.shape_kept(before, i),
        ensures
            self.grown(),
    {
        assert forall|i: int| 0 <= i < self.len() implies #[trigger] self.node_grown(i) by {
            assert(before.node_grown(i));
            assert(before.node_wf(i));
            assert(self.shape_kept(before, i));
            let cs = before.nodes()[i].child_ids();
            assert forall|k: int| 0 <= k < cs.len() implies self.nodes()[#[trigger] cs[k] as int].state_of()
                == before.nodes()[cs[k] as int].state_of() by {
                assert(self.shape_kept(before, cs[k] as int));
            }
        }
    }

    /// Sum of `visits - 1` over the nodes `cs`.
    pub open spec fn excess(&self, cs: Seq<usize>) -> int
        decreases cs.len(),
    {
        if cs.len() == 0 {
            0
        } else {
            self.excess(cs.drop_last()) + self.nodes()[cs.last() as int].visits() - 1
        }
    }

    /// Raising the nodes of `cs` that lie on the path from `c` by one raises their
    /// excess by the number of such nodes, at most one. With `fresh`, every node of
    /// `cs` had one visit before.
    proof fn lemma_excess_shift(a: &Self, b: &Self, cs: Seq<usize>, c: int, fresh: bool)
        requires
            forall|k: int|
                0 <= k < cs.len() ==> #[trigger] b.nodes()[cs[k] as int].visits() == (if fresh {
                    1int
                } else {
                    a.nodes()[cs[k] as int].visits() as int
                }) + (if b.on_path(cs[k] as int, c) {
                    1int
                } else {
                    0int
                }),
            forall|k1: int, k2: int|
                0 <= k1 < cs.len() && 0 <= k2 < cs.len() && #[trigger] b.on_path(cs[k1] as int, c)
                    && #[trigger] b.on_path(cs[k2] as int, c) ==> k1 == k2,
        ensures
            b.excess(cs) == (if fresh {
                0
            } else {
                a.excess(cs)
            }) + (if exists|k: int| 0 <= k < cs.len() && #[trigger] b.on_path(cs[k] as int, c) {
                1int
            } else {
                0int
            }),
        decreases cs.len(),
    {
        if cs.len() > 0 {
            let pre = cs.drop_last();
            assert forall|k: int| 0 <= k < pre.len() implies #[trigger] b.nodes()[pre[k] as int].visits()
                == (if fresh {
                1int
            } else {
                a.nodes()[pre[k] as int].visits() as int
            }) + (if b.on_path(pre[k] as int, c) {
                1int
            } else {
                0int
            }) by {
                assert(pre[k] == cs[k]);
            }
            assert forall|k1: int, k2: int|
                0 <= k1 < pre.len() && 0 <= k2 < pre.len() && #[trigger] b.on_path(pre[k1] as int, c)
                    && #[trigger] b.on_path(pre[k2] as int, c) implies k1 == k2 by {
                assert(pre[k1] == cs[k1] && pre[k2] == cs[k2]);
            }
            Self::lemma_excess_shift(a, b, pre, c, fresh);
            let l = cs.len() - 1;
            assert(cs[l] == cs.last());
            if b.on_path(cs[l] as int, c) {
                assert forall|k: int| 0 <= k < pre.len() implies !#[trigger] b.on_path(pre[k] as int, c) by {
                    assert(pre[k] == cs[k]);
                }
            } else {
                if exists|k: int| 0 <= k < cs.len() && #[trigger] b.on_path(cs[k] as int, c) {
                    let k = choose|k: int| 0 <= k < cs.len() && #[trigger] b.on_path(cs[k] as int, c);
                    assert(pre[k] == cs[k]);
                }
                if exists|k: int| 0 <= k < pre.len() && #[trigger] b.on_path(pre[k] as int, c) {
                    let k = choose|k: int| 0 <= k < pre.len() && #[trigger] b.on_path(pre[k] as int, c);
                    assert(pre[k] == cs[k]);
                }
            }
        }
    }

    /// What one iteration did, when it started from node `s` of `before`: `s` was a
    /// terminal node or a node without children; a terminal `s` was backed up without
    /// expansion; a non-terminal `s` without moves stopped the iteration with `NoMoves`,
    /// the tree unchanged; any other `s` got one child per move.
    pub open spec fn iterated_from(&self, before: &Self, s: int, r: Result<(), SearchError>) -> bool {
        let leaf = before.nodes()[s];
        let st = leaf.state_of();
        &&& 0 <= s < before.len()
        &&& leaf.child_ids().len() == 0 || st.terminal_spec() is Some
        &&& (before.nodes()[0].state_of().terminal_spec() is Some ==> s == 0)
        &&& (s != 0 ==> before.nodes()[0].child_ids().len() > 0)
        &&& (st.terminal_spec() is Some ==> r is Ok && self.len() == before.len()
            && self.backed_up_from(before, s))
        &&& (st.terminal_spec() is None && st.moves_spec().len() == 0 ==> r == Err::<(), SearchError>(
            SearchError::NoMoves,
        ) && self.len() == before.len())
        &&& (st.terminal_spec() is None && st.moves_spec().len() > 0 ==> {
            &&& self.len() == before.len() + st.moves_spec().len()
            &&& self.nodes()[s].child_ids().len() == st.moves_spec().len()
            &&& forall|k: int|
                0 <= k < st.moves_spec().len() ==> #[trigger] self.nodes()[s].child_ids()[k]
                    == before.len() + k
            &&& r is Ok ==> exists|c: int|
                before.len() <= c < self.len() && #[trigger] self.backed_up_from(before, c)
                    && forall|i: int|
                    before.len() <= i < self.len() && i != c ==> (#[trigger] self.nodes()[i]).wins()
                        == 0
            &&& r matches Err(e) ==> exists|c: int|
                before.len() <= c < self.len() && #[trigger] fails_with(self.nodes()[c].state_of(), e)
        })
    }

    /// The visits of `self` are those of `before`, a node new in `self` counting one, plus
    /// one on each node of the path from `c` to the root.
    pub open spec fn backed_up_from(&self, before: &Self, c: int) -> bool {
        forall|i: int|
            0 <= i < self.len() ==> #[trigger] self.nodes()[i].visits() == (if i < before.len() {
                before.nodes()[i].visits() as int
            } else {
                1int
            }) + (if self.on_path(i, c) {
                1int
            } else {
                0int
            })
    }

    /// One search iteration: select a node; if it is terminal, back up its own outcome
    /// from it; otherwise expand it, play out from one of the new children drawn
    /// uniformly, and back the outcome up from that child. A successful iteration adds
    /// exactly one visit to the root.
    pub fn iterate<R: Rng, F: Fn(u32, u32, u32) -> u64>(&mut self, rng: &mut R, uct: &F) -> (r: Result<(), SearchError>)
        requires
            old(self).wf(),
            old(self).grown(),
            old(self).rooted(),
            old(self).len() > 0,
            old(self).root_visits() < u32::MAX,
            forall|w: u32, n: u32, p: u32| #[trigger] uct.requires((w, n, p)),
        ensures
            final(self).wf(),
            final(self).grown(),
            final(self).rooted(),
            final(self).len() >= old(self).len(),
            r matches Err(e) ==> fails_with(old(self).nodes()[0].state_of(), e),
            old(self).nodes()[0].state_of().terminal_spec() is Some ==> *final(rng) == *old(rng),
            r is Ok ==> final(self).root_visits() == old(self).root_visits() + 1,
            r is Err ==> final(self).root_visits() == old(self).root_visits(),
            exists|s: int| #[trigger] final(self).iterated_from(old(self), s, r),
            final(self).nodes()[0].state_of() == old(self).nodes()[0].state_of(),
            old(self).nodes()[0].child_ids().len() > 0 ==> final(self).nodes()[0].child_ids()
                == old(self).nodes()[0].child_ids(),
            r is Ok && old(self).nodes()[0].state_of().terminal_spec() is None ==> final(self).nodes()[0].child_ids().len() > 0,
    {
        let ghost before = *self;
        let sel = self.select(uct);
        proof {
            self.lemma_root_on_path(sel as int);
            assert(self.on_path(0, sel as int));
            if sel != 0 {
                assert(self.nodes()[0].child_ids().len() > 0);
            }
        }
        match self.nodes[sel].state.is_terminal_state() {
            Some(reward) => {
                self.backpropagate(sel, reward);
                proof {
                    self.lemma_grown_kept(&before);
                    assert(self.shape_kept(&before, 0));
                    assert forall|k: int| 0 <= k < self.len() implies #[trigger] self.nodes()[k].parent_id()
                        == before.nodes()[k].parent_id() by {
                        assert(self.shape_kept(&before, k));
                    }
                    assert forall|i: int| 0 <= i < self.len() implies #[trigger] reaches(
                        self.nodes()[0].state_of(),
                        self.nodes()[i].state_of(),
                    ) by {
                        assert(self.shape_kept(&before, i));
                        assert(reaches(before.nodes()[0].state_of(), before.nodes()[i].state_of()));
                    }
                    assert forall|i: int| 0 <= i < self.len() implies #[trigger] self.nodes()[i].visits()
                        == before.nodes()[i].visits() as int + (if self.on_path(i, sel as int) {
                        1int
                    } else {
                        0int
                    }) by {
                        self.lemma_on_path_kept(&before, i, sel as int);
                    }
                    assert(self.backed_up_from(&before, sel as int));
                    assert(self.iterated_from(&before, sel as int, Ok(())));
                }
                Ok(())
            },
            None => {
                let new_children = self.expand(sel);
                let ghost mid = *self;
                proof {
                    assert(self.node_kept(&before, 0));
                    assert(before.node_grown(sel as int));
                    let st = before.nodes()[sel as int].state_of();
                    assert forall|i: int| 0 <= i < self.len() implies #[trigger] self.node_grown(i) by {
                        if i < before.len() {
                            assert(before.node_grown(i));
                            assert(self.node_kept(&before, i));
                            if i != sel {
                                let cs = before.nodes()[i].child_ids();
                                assert forall|k: int| 0 <= k < cs.len() implies self.nodes()[#[trigger] cs[k]
                                    as int].state_of() == before.nodes()[cs[k] as int].state_of() by {
                                    assert(before.node_wf(i));
                                    assert(self.node_kept(&before, cs[k] as int));
                                }
                            } else {
                                assert(self.nodes()[i].child_ids() =~= new_children@);
                            }
                        } else {
                            assert(self.nodes()[i].child_ids().len() == 0);
                        }
                    }
                    if sel != 0 {
                        assert(before.nodes()[0].child_ids().len() > 0);
                        assert(self.nodes()[0].child_ids() == before.nodes()[0].child_ids());
                    } else {
                        assert(self.nodes()[0].child_ids() =~= new_children@);
                    }
                    let root_st = before.nodes()[0].state_of();
                    assert(reaches(root_st, st));
                    assert forall|i: int| 0 <= i < self.len() implies #[trigger] reaches(
                        self.nodes()[0].state_of(),
                        self.nodes()[i].state_of(),
                    ) by {
                        if i < before.len() {
                            assert(self.node_kept(&before, i));
                            assert(reaches(root_st, before.nodes()[i].state_of()));
                        } else {
                            let k = i - before.len();
                            assert(new_children@[k] == i);
                            let m = st.moves_spec()[k];
                            assert(st.moves_spec().contains(m));
                            assert(step_ok(st, st.apply_spec(m)));
                            lemma_reaches_step(root_st, st, st.apply_spec(m));
                        }
                    }
                }
                if new_children.len() == 0 {
                    proof {
                        let st = before.nodes()[sel as int].state_of();
                        let p1 = seq![st];
                        assert(is_playout(p1) && p1[0] == st);
                        assert(fails_with(st, SearchError::NoMoves));
                        lemma_fails_after(before.nodes()[0].state_of(), st, SearchError::NoMoves);
                        assert(self.iterated_from(&before, sel as int, Err(SearchError::NoMoves)));
                    }
                    return Err(SearchError::NoMoves);
                }
                let pick = rng.gen_range(0..new_children.len());
                let child = new_children[pick];
                proof {
                    assert(new_children@[pick as int] == before.len() + pick);
                }
                match self.random_playout(child, rng) {
                    Ok(result) => {
                        self.backpropagate(child, result);
                        proof {
                            self.lemma_grown_kept(&mid);
                            assert(self.shape_kept(&mid, 0));
                            assert(self.shape_kept(&mid, sel as int));
                            assert forall|k: int| 0 <= k < self.len() implies #[trigger] self.nodes()[k].parent_id()
                                == mid.nodes()[k].parent_id() by {
                                assert(self.shape_kept(&mid, k));
                            }
                            assert forall|i: int| 0 <= i < self.len() implies #[trigger] reaches(
                                self.nodes()[0].state_of(),
                                self.nodes()[i].state_of(),
                            ) by {
                                assert(self.shape_kept(&mid, i));
                                assert(reaches(mid.nodes()[0].state_of(), mid.nodes()[i].state_of()));
                            }
                            assert(mid.nodes()[child as int].parent_id() == Some(sel));
                            assert forall|i: int| 0 <= i < self.len() implies #[trigger] self.nodes()[i].visits()
                                == (if i < before.len() {
                                before.nodes()[i].visits() as int
                            } else {
                                1int
                            }) + (if self.on_path(i, child as int) {
                                1int
                            } else {
                                0int
                            }) by {
                                self.lemma_on_path_kept(&mid, i, child as int);
                                if i < before.len() {
                                    assert(mid.node_kept(&before, i));
                                }
                            }
                            assert(self.backed_up_from(&before, child as int));
                            assert(self.nodes()[sel as int].child_ids() == mid.nodes()[sel as int].child_ids());
                            assert forall|i: int|
                                before.len() <= i < self.len() && i != child implies (
                                #[trigger] self.nodes()[i]).wins() == 0 by {
                                if mid.on_path(i, child as int) {
                                    assert(mid.on_path(i, sel as int));
                                    mid.lemma_path_le(i, sel as int);
                                }
                            }
                            assert(self.iterated_from(&before, sel as int, Ok(())));
                        }
                        Ok(())
                    },
                    Err(e) => {
                        proof {
                            assert(self.nodes()[sel as int].child_ids() == mid.nodes()[sel as int].child_ids());
                            let cst = self.nodes()[child as int].state_of();
                            assert(fails_with(cst, e));
                            assert(reaches(self.nodes()[0].state_of(), cst));
                            lemma_fails_after(self.nodes()[0].state_of(), cst, e);
                            assert(self.iterated_from(&before, sel as int, Err(e)));
                        }
                        Err(e)
                    },
                }
            },
        }
    }

    /// Runs iterations until `end_condition(nthreads, iterations done)` returns true
    /// after one, or until the root's visit count reaches `u32::MAX`, and returns how
    /// many ran. At least one iteration runs; the condition is asked once after each
    /// iteration and answered false at every earlier count. Each completed iteration
    /// adds one visit to the root and one to exactly one of the root's children. An
    /// error comes only with a playout from the root's state that shows it.
    pub fn search<R: Rng, F: Fn(u32, u32, u32) -> u64, E: Fn(usize, u32) -> bool>(
        &mut self,
        rng: &mut R,
        uct: &F,
        end_condition: &E,
        nthreads: usize,
    ) -> (r: Result<u32, SearchError>)
        requires
            old(self).wf(),
            old(self).grown(),
            old(self).rooted(),
            old(self).len() > 0,
            old(self).root_visits() < u32::MAX,
            forall|w: u32, n: u32, p: u32| #[trigger] uct.requires((w, n, p)),
            forall|t: usize, i: u32| #[trigger] end_condition.requires((t, i)),
        ensures
            r matches Err(e) ==> fails_with(old(self).nodes()[0].state_of(), e),
            old(self).nodes()[0].state_of().terminal_spec() is Some ==> r is Ok && *final(rng)
                == *old(rng),
            r is Ok && old(self).nodes()[0].state_of().terminal_spec() is None ==> final(self).excess(
                final(self).nodes()[0].child_ids(),
            ) == (if old(self).nodes()[0].child_ids().len() == 0 {
                0
            } else {
                old(self).excess(old(self).nodes()[0].child_ids())
            }) + r->Ok_0,
            final(self).wf(),
            final(self).grown(),
            final(self).len() > 0,
            final(self).nodes()[0].state_of() == old(self).nodes()[0].state_of(),
            r is Ok ==> r->Ok_0 >= 1 && final(self).root_visits() == old(self).root_visits()
                + r->Ok_0,
            r is Ok ==> end_condition.ensures((nthreads, r->Ok_0), true) || final(self).root_visits()
                == u32::MAX,
            r is Ok ==> forall|j: u32|
                1 <= j < r->Ok_0 ==> #[trigger] end_condition.ensures((nthreads, j), false),
            r is Ok && old(self).nodes()[0].state_of().terminal_spec() is None ==> final(self).nodes()[0].child_ids().len() > 0,
            r is Ok && old(self).nodes()[0].state_of().terminal_spec() is Some ==> final(self).nodes()[0].child_ids().len() == 0,
    {
        let ghost start = self.root_visits();
        let ghost root_state = self.nodes()[0].state_of();
        let ghost root_children = self.nodes()[0].child_ids();
        let ghost e0: int = if root_children.len() == 0 {
            0
        } else {
            self.excess(root_children)
        };
        let mut iterations: u32 = 0;
        loop
            invariant
                e0 == (if old(self).nodes()[0].child_ids().len() == 0 {
                    0
                } else {
                    old(self).excess(old(self).nodes()[0].child_ids())
                }),
                root_state.terminal_spec() is None && (iterations > 0 || root_children.len() > 0)
                    ==> self.excess(self.nodes()[0].child_ids()) == e0 + iterations,
                self.wf(),
                self.grown(),
                self.rooted(),
                self.len() > 0,
                root_state.terminal_spec() is Some ==> *rng == *old(rng),
                start == old(self).root_visits(),
                root_state == old(self).nodes()[0].state_of(),
                root_children == old(self).nodes()[0].child_ids(),
                self.nodes()[0].state_of() == root_state,
                iterations == 0 ==> self.nodes()[0].child_ids() == root_children,
                iterations > 0 && root_state.terminal_spec() is None ==> self.nodes()[0].child_ids().len()
                    > 0,
                self.root_visits() == start + iterations,
                self.root_visits() < u32::MAX,
                forall|j: u32|
                    1 <= j <= iterations ==> #[trigger] end_condition.ensures((nthreads, j), false),
                forall|w: u32, n: u32, p: u32| #[trigger] uct.requires((w, n, p)),
                forall|t: usize, i: u32| #[trigger] end_condition.requires((t, i)),
            decreases u32::MAX - self.root_visits(),
        {
            let ghost pre = *self;
            let res = self.iterate(rng, uct);
            match res {
                Ok(()) => {
                    proof {
                        if root_state.terminal_spec() is None {
                            let s = choose|s: int| #[trigger] self.iterated_from(&pre, s, res);
                            assert(pre.nodes()[0].state_of() == root_state);
                            let cs = self.nodes()[0].child_ids();
                            assert(pre.node_wf(0));
                            assert(self.node_wf(0));
                            assert(pre.node_grown(0));
                            if pre.nodes()[0].child_ids().len() > 0 {
                                assert(s != 0);
                                let st = pre.nodes()[s].state_of();
                                let c: int = if st.terminal_spec() is Some {
                                    s
                                } else {
                                    choose|c: int|
                                        pre.len() <= c < self.len() && #[trigger] self.backed_up_from(&pre, c)
                                            && forall|i: int|
                                            pre.len() <= i < self.len() && i != c ==> (#[trigger] self.nodes()[i]).wins()
                                                == 0
                                };
                                assert(self.backed_up_from(&pre, c));
                                assert(0 < c < self.len());
                                assert forall|k: int| 0 <= k < cs.len() implies #[trigger] self.nodes()[cs[k] as int].visits()
                                    == pre.nodes()[cs[k] as int].visits() as int + (if self.on_path(cs[k] as int, c) {
                                    1int
                                } else {
                                    0int
                                }) by {
                                    assert(pre.node_wf(0));
                                    assert(cs[k] < pre.len());
                                }
                                lemma_one_root_child_on_path(self, c);
                                Self::lemma_excess_shift(&pre, self, cs, c, false);
                            } else {
                                assert(s == 0);
                                let st = pre.nodes()[0].state_of();
                                let c = choose|c: int|
                                    pre.len() <= c < self.len() && #[trigger] self.backed_up_from(&pre, c)
                                        && forall|i: int|
                                        pre.len() <= i < self.len() && i != c ==> (#[trigger] self.nodes()[i]).wins()
                                            == 0;
                                assert(self.backed_up_from(&pre, c));
                                assert forall|k: int| 0 <= k < cs.len() implies #[trigger] self.nodes()[cs[k] as int].visits()
                                    == 1int + (if self.on_path(cs[k] as int, c) {
                                    1int
                                } else {
                                    0int
                                }) by {
                                    assert(cs[k] == pre.len() + k);
                                }
                                let k0 = c - pre.len();
                                assert(cs[k0] == c);
                                assert(self.on_path(c, c));
                                lemma_one_root_child_on_path(self, c);
                                Self::lemma_excess_shift(&pre, self, cs, c, true);
                            }
                        }
                    }
                },
                Err(e) => {
                    proof {
                        if root_state.terminal_spec() is Some {
                            let s = choose|s: int| #[trigger] self.iterated_from(&pre, s, Err(e));
                            assert(s == 0);
                        }
                    }
                    return Err(e);
                },
            }
            iterations = iterations + 1;
            proof {
                assert(self.node_wf(0));
                assert(self.node_grown(0));
            }
            let stop = end_condition(nthreads, iterations);
            if stop || self.nodes[0].n == u32::MAX {
                return Ok(iterations);
            }
        }
    }

    /// An empty arena.
    pub fn new() -> (r: Self)
        ensures
            r.len() == 0,
            r.wf(),
    {
        Tree { nodes: Vec::new() }
    }

    /// Number of nodes in the arena.
    pub fn node_count(&self) -> (r: usize)
        ensures
            r == self.len(),
    {
        self.nodes.len()
    }

    /// The node at arena index `idx`.
    pub fn node(&self, idx: usize) -> (r: &Node<T>)
        requires
            idx < self.len(),
        ensures
            *r == self.nodes()[idx as int],
    {
        &self.nodes[idx]
    }

    /// Appends a fresh node and links it into its parent's children; returns its index.
    /// The first node must be the root (no parent); later nodes name an existing parent.
    pub fn add_node_with_parent(&mut self, n: Node<T>) -> (r: usize)
        requires
            old(self).wf(),
            n.visits() == 1,
            n.wins() == 0,
            n.child_ids().len() == 0,
            match n.parent_id() {
                None => old(self).len() == 0,
                Some(p) => p < old(self).len(),
            },
        ensures
            final(self).wf(),
            r == old(self).len(),
            final(self).len() == old(self).len() + 1,
            final(self).nodes()[r as int] == n,
            forall|i: int|
                0 <= i < old(self).len() ==> #[trigger] final(self).node_kept(old(self), i),
            forall|i: int|
                0 <= i < old(self).len() ==> (#[trigger] final(self).nodes()[i]).child_ids() == (
                if n.parent_id() == Some(i as usize) {
                    old(self).nodes()[i].child_ids().push(r)
                } else {
                    old(self).nodes()[i].child_ids()
                }),
    {
        let parent = n.parent;
        let len = self.nodes.len();
        self.nodes.push(n);
        match parent {
            Some(p) => {
                self.nodes[p].children.push(len);
            },
            None => {},
        }
        proof {
            assert forall|i: int| 0 <= i < old(self).len() implies #[trigger] self.node_kept(
                old(self),
                i,
            ) by {}
            if old(self).len() > 0 {
                assert(old(self).node_wf(0));
                assert(self.root_visits() == old(self).root_visits());
            }
            assert forall|i: int| 0 <= i < self.len() implies #[trigger] self.node_wf(i) by {
                if i < old(self).len() {
                    assert(old(self).node_wf(i));
                    let cs = self.nodes()[i].child_ids();
                    let ocs = old(self).nodes()[i].child_ids();
                    assert forall|k: int| 0 <= k < cs.len() implies i < #[trigger] cs[k]
                        < self.len() && self.nodes()[cs[k] as int].parent_id() == Some(i as usize) by {
                        if k < ocs.len() {
                            assert(cs[k] == ocs[k]);
                            assert(self.node_kept(old(self), ocs[k] as int));
                        }
                    }
                    let pp = old(self).nodes()[i].parent_id();
                    if pp is Some {
                        let q = pp->Some_0 as int;
                        let oq = old(self).nodes()[q].child_ids();
                        assert(oq.contains(i as usize));
                        let w = choose|w: int| 0 <= w < oq.len() && oq[w] == i as usize;
                        assert(self.nodes()[q].child_ids()[w] == i as usize);
                    }
                } else {
                    match parent {
                        Some(p) => {
                            assert(self.nodes()[p as int].child_ids()[old(self).nodes()[p as int].child_ids().len() as int]
                                == i as usize);
                        },
                        None => {},
                    }
                }
            }
        }
        len
    }
}

/// Position `j` holds the largest of `keys`, and every earlier position a smaller one.
pub open spec fn first_max(keys: Seq<u64>, j: int) -> bool {
    &&& 0 <= j < keys.len()
    &&& forall|k: int| 0 <= k < keys.len() ==> #[trigger] keys[k] <= keys[j]
    &&& forall|k: int| 0 <= k < j ==> #[trigger] keys[k] < keys[j]
}

/// `b` follows `a` in a game: `a` is not terminal and `b` is the state one of its moves
/// leads to.
pub open spec fn step_ok<T: GameState>(a: T, b: T) -> bool {
    &&& a.terminal_spec() is None
    &&& exists|m: T::Move| a.moves_spec().contains(m) && b == a.apply_spec(m)
}

/// Some playout from `start` ends in error `e`: one that reaches a non-terminal state
/// without moves for `NoMoves`, one of more than `u64::MAX` states for `PlayoutTooLong`.
pub open spec fn fails_with<T: GameState>(start: T, e: SearchError) -> bool {
    exists|path: Seq<T>|
        #[trigger] is_playout(path) && path[0] == start && match e {
            SearchError::NoMoves => path.last().terminal_spec() is None
                && path.last().moves_spec().len() == 0,
            SearchError::PlayoutTooLong => path.len() > u64::MAX,
        }
}

/// `path` is a non-empty sequence of states, each following the one before it.
pub open spec fn is_playout<T: GameState>(path: Seq<T>) -> bool {
    &&& path.len() >= 1
    &&& forall|i: int| 0 <= i < path.len() - 1 ==> #[trigger] step_ok(path[i], path[i + 1])
}

/// `b` is reached from `a` by a playout.
pub open spec fn reaches<T: GameState>(a: T, b: T) -> bool {
    exists|path: Seq<T>| #[trigger] is_playout(path) && path[0] == a && path.last() == b
}

pub(crate) proof fn lemma_reaches_self<T: GameState>(a: T)
    ensures
        reaches(a, a),
{
    let p = seq![a];
    assert(is_playout(p) && p[0] == a && p.last() == a);
}

proof fn lemma_reaches_step<T: GameState>(a: T, b: T, c: T)
    requires
        reaches(a, b),
        step_ok(b, c),
    ensures
        reaches(a, c),
{
    let p = choose|p: Seq<T>| #[trigger] is_playout(p) && p[0] == a && p.last() == b;
    let q = p.push(c);
    assert forall|i: int| 0 <= i < q.len() - 1 implies #[trigger] step_ok(q[i], q[i + 1]) by {
        if i < p.len() - 1 {
            assert(step_ok(p[i], p[i + 1]));
        }
    }
    assert(is_playout(q) && q[0] == a && q.last() == c);
}

/// A failing playout from a state reached from `a` is a failing playout from `a`.
proof fn lemma_fails_after<T: GameState>(a: T, b: T, e: SearchError)
    requires
        reaches(a, b),
        fails_with(b, e),
    ensures
        fails_with(a, e),
{
    let p = choose|p: Seq<T>| #[trigger] is_playout(p) && p[0] == a && p.last() == b;
    let q = choose|q: Seq<T>|
        #[trigger] is_playout(q) && q[0] == b && match e {
            SearchError::NoMoves => q.last().terminal_spec() is None && q.last().moves_spec().len()
                == 0,
            SearchError::PlayoutTooLong => q.len() > u64::MAX,
        };
    let c = p + q.skip(1);
    assert(c.len() == p.len() + q.len() - 1);
    assert forall|i: int| 0 <= i < c.len() - 1 implies #[trigger] step_ok(c[i], c[i + 1]) by {
        if i < p.len() - 1 {
            assert(step_ok(p[i], p[i + 1]));
        } else {
            let j = i - (p.len() - 1);
            assert(c[i] == q[j]);
            assert(c[i + 1] == q[j + 1]);
            assert(step_ok(q[j], q[j + 1]));
        }
    }
    assert(c.last() == q.last());
    assert(is_playout(c) && c[0] == a);
}

/// In a well-formed tree every node has at least one visit and `0 <= wins <= visits`.
/// Every operation that changes a tree keeps it well formed, so this holds at all times.
pub proof fn lemma_win_bound<T: GameState>(tree: &Tree<T>, i: int)
    requires
        tree.wf(),
        0 <= i < tree.len(),
    ensures
        1 <= tree.nodes()[i].visits(),
        0 <= tree.nodes()[i].wins() <= tree.nodes()[i].visits(),
{
    assert(tree.node_wf(i));
}

/// From any node other than the root, the path to the root passes through exactly one
/// child of the root. With the exact visit counts of `Tree::backpropagate`, one
/// backpropagation from such a node raises exactly one child of the root, by one.
pub proof fn lemma_one_root_child_on_path<T: GameState>(tree: &Tree<T>, idx: int)
    requires
        tree.wf(),
        0 < idx < tree.len(),
    ensures
        exists|k: int|
            0 <= k < tree.nodes()[0].child_ids().len() && #[trigger] tree.on_path(
                tree.nodes()[0].child_ids()[k] as int,
                idx,
            ),
        forall|c1: usize, c2: usize|
            tree.nodes()[0].child_ids().contains(c1) && tree.nodes()[0].child_ids().contains(c2)
                && #[trigger] tree.on_path(c1 as int, idx) && #[trigger] tree.on_path(c2 as int, idx)
                ==> c1 == c2,
    decreases idx,
{
    let cs = tree.nodes()[0].child_ids();
    assert(tree.node_wf(idx));
    assert(tree.node_wf(0));
    let p = tree.nodes()[idx].parent_id()->Some_0 as int;
    if p == 0 {
        assert(cs.contains(idx as usize));
        let k = choose|k: int| 0 <= k < cs.len() && cs[k] == idx as usize;
        assert(cs[k] == idx as usize);
        assert(tree.nodes.len() == tree.nodes@.len());
        assert(tree.on_path(idx, idx));
        assert(tree.on_path(cs[k] as int, idx));
    } else {
        lemma_one_root_child_on_path(tree, p);
        let k = choose|k: int|
            0 <= k < cs.len() && #[trigger] tree.on_path(cs[k] as int, p);
        tree.lemma_path_le(cs[k] as int, p);
        assert(tree.on_path(cs[k] as int, idx));
    }
    assert forall|c1: usize, c2: usize|
        cs.contains(c1) && cs.contains(c2) && #[trigger] tree.on_path(c1 as int, idx)
            && #[trigger] tree.on_path(c2 as int, idx) implies c1 == c2 by {
        let k1 = choose|k: int| 0 <= k < cs.len() && cs[k] == c1;
        let k2 = choose|k: int| 0 <= k < cs.len() && cs[k] == c2;
        assert(cs[k1] == c1 && cs[k2] == c2);
        assert(tree.nodes()[c1 as int].parent_id() == Some(0usize));
        assert(tree.nodes()[c2 as int].parent_id() == Some(0usize));
        tree.lemma_path_chain(c1 as int, c2 as int, idx);
        if c1 != c2 {
            if tree.on_path(c1 as int, c2 as int) {
                assert(tree.on_path(c1 as int, 0));
                tree.lemma_path_le(c1 as int, 0);
            } else {
                assert(tree.on_path(c2 as int, 0));
                tree.lemma_path_le(c2 as int, 0);
            }
        }
    }
}

/// In a well-formed tree every child stands after its parent in the arena, so a walk
/// from the root that always moves to a child ends after fewer than `len()` steps.
pub proof fn lemma_child_after_parent<T: GameState>(tree: &Tree<T>, i: int, k: int)
    requires
        tree.wf(),
        0 <= i < tree.len(),
        0 <= k < tree.nodes()[i].child_ids().len(),
    ensures
        i < tree.nodes()[i].child_ids()[k] < tree.len(),
{
    assert(tree.node_wf(i));
}

} // verus!
