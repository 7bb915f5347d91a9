use yamcts::rng::{DefaultRng, Rng, RngProvider};
use yamcts::{aggregate, iteration_budget_reached, run_worker, GameState, Node, SearchError, Tree};

const TARGET: i32 = 21;

#[derive(PartialEq, Eq, Clone, Copy, Debug)]
struct NimMove {
    start_player: bool,
    nums: i32,
}

#[derive(PartialEq, Eq, Debug)]
enum WinCondition {
    StartPlayer,
    NotStartPlayer,
    Invalid,
}

#[derive(Clone, Copy, Debug)]
struct NimState {
    start_player: bool,
    current_num: i32,
}

impl GameState for NimState {
    type Move = NimMove;
    type UserData = WinCondition;

    fn all_moves(&self) -> Vec<NimMove> {
        let max = (TARGET - self.current_num).min(3);
        (1..=max)
            .map(|n| NimMove { start_player: !self.start_player, nums: n })
            .collect()
    }

    fn apply_move(&self, action: NimMove) -> Self {
        NimState { start_player: action.start_player, current_num: self.current_num + action.nums }
    }

    fn is_terminal_state(&self) -> Option<WinCondition> {
        // Whoever reaches the target wins; `start_player` tells who made the last move.
        if self.current_num == TARGET {
            if self.start_player {
                Some(WinCondition::StartPlayer)
            } else {
                Some(WinCondition::NotStartPlayer)
            }
        } else if self.current_num > TARGET {
            Some(WinCondition::Invalid)
        } else {
            None
        }
    }

    fn terminal_is_win(&self, condition: &WinCondition) -> bool {
        match condition {
            WinCondition::StartPlayer => self.start_player,
            WinCondition::NotStartPlayer => !self.start_player,
            WinCondition::Invalid => false,
        }
    }
}

/// A state that is never terminal and has no move.
#[derive(Clone, Copy)]
struct Stuck;

impl GameState for Stuck {
    type Move = u8;
    type UserData = u8;

    fn all_moves(&self) -> Vec<u8> {
        Vec::new()
    }

    fn apply_move(&self, _action: u8) -> Self {
        Stuck
    }

    fn is_terminal_state(&self) -> Option<u8> {
        None
    }

    fn terminal_is_win(&self, _condition: &u8) -> bool {
        false
    }
}

fn start() -> NimState {
    NimState { start_player: true, current_num: 0 }
}

/// Order key of a float under `f64::total_cmp`, as an unsigned integer.
fn total_order_key(x: f64) -> u64 {
    let bits = x.to_bits() as i64;
    let key = bits ^ ((((bits >> 63) as u64) >> 1) as i64);
    (key as u64) ^ (1u64 << 63)
}

fn uct(w: u32, n: u32, p: u32) -> u64 {
    let c = 2.0_f64.sqrt();
    let score = w as f64 / n as f64 + c * ((p as f64).ln() / n as f64).sqrt();
    total_order_key(score)
}

fn rooted(state: NimState) -> Tree<NimState> {
    let mut tree = Tree::new();
    let root = tree.add_node_with_parent(Node::new(state, None));
    assert_eq!(root, 0);
    tree
}

fn budget(total: u32) -> impl Fn(usize, u32) -> bool {
    move |nthreads, iters| iteration_budget_reached(nthreads, iters, total)
}

#[test]
fn aggregate_sums_votes_and_picks_the_largest() {
    let reports = vec![(10u32, vec![3u32, 7]), (10, vec![8, 2])];
    let moves = vec![start().all_moves()[0], start().all_moves()[1]];
    let r = aggregate::<NimState>(&reports, &moves).unwrap();
    assert_eq!(r.iterations, 20);
    assert_eq!(r.best_move, moves[0]);
}

#[test]
fn aggregate_first_index_wins_ties() {
    let reports = vec![(1u32, vec![4u32, 5, 5]), (2, vec![1, 0, 0])];
    let moves = start().all_moves();
    let r = aggregate::<NimState>(&reports, &moves).unwrap();
    assert_eq!(r.iterations, 3);
    assert_eq!(r.best_move.nums, 1);
    let reports = vec![(1u32, vec![4u32, 6, 6])];
    let r = aggregate::<NimState>(&reports, &moves).unwrap();
    assert_eq!(r.best_move.nums, 2);
}

#[test]
fn aggregate_rejects_bad_reports() {
    let moves = start().all_moves();
    assert!(aggregate::<NimState>(&Vec::new(), &moves).is_none());
    assert!(aggregate::<NimState>(&vec![(1u32, Vec::new())], &Vec::new()).is_none());
    assert!(aggregate::<NimState>(&vec![(1u32, vec![1u32, 2])], &moves).is_none());
    let over = vec![(u32::MAX, vec![1u32, 1, 1]), (1, vec![1, 1, 1])];
    assert!(aggregate::<NimState>(&over, &moves).is_none());
    let over = vec![(1u32, vec![1u32, u32::MAX, 1]), (1, vec![1, 1, 1])];
    assert!(aggregate::<NimState>(&over, &moves).is_none());
    let fits = vec![(u32::MAX - 1, vec![1u32, u32::MAX - 1, 1]), (1, vec![1, 1, 1])];
    let r = aggregate::<NimState>(&fits, &moves).unwrap();
    assert_eq!(r.iterations, u32::MAX);
    assert_eq!(r.best_move.nums, 2);
}

#[test]
fn budget_is_split_evenly_over_workers() {
    assert!(iteration_budget_reached(2, 5, 10));
    assert!(!iteration_budget_reached(2, 4, 10));
    assert!(iteration_budget_reached(3, 3, 10));
    assert!(!iteration_budget_reached(3, 2, 10));
    assert!(iteration_budget_reached(20, 0, 10));
    assert!(iteration_budget_reached(1, 10, 10));
    assert!(!iteration_budget_reached(1, 9, 10));
}

#[test]
fn node_starts_with_one_visit() {
    let n = Node::new(start(), Some(4));
    assert_eq!(n.visit_count(), 1);
    assert_eq!(n.win_count(), 0);
    assert!(n.children().is_empty());
    assert_eq!(n.parent(), Some(4));
    assert_eq!(n.state.current_num, 0);
}

#[test]
fn add_node_links_parent_and_child() {
    let mut tree = rooted(start());
    let a = tree.add_node_with_parent(Node::new(start().apply_move(start().all_moves()[0]), Some(0)));
    let b = tree.add_node_with_parent(Node::new(start(), Some(a)));
    assert_eq!((a, b), (1, 2));
    assert_eq!(tree.node(0).children(), &vec![1]);
    assert_eq!(tree.node(1).children(), &vec![2]);
    assert_eq!(tree.node(2).parent(), Some(1));
    assert_eq!(tree.node_count(), 3);
}

#[test]
fn expand_creates_one_child_per_move_in_order() {
    let mut tree = rooted(start());
    let kids = tree.expand(0);
    assert_eq!(kids, vec![1, 2, 3]);
    assert_eq!(tree.node(0).children(), &vec![1, 2, 3]);
    for (i, &k) in kids.iter().enumerate() {
        assert_eq!(tree.node(k).state.current_num, i as i32 + 1);
        assert_eq!(tree.node(k).visit_count(), 1);
        assert_eq!(tree.node(k).win_count(), 0);
        assert_eq!(tree.node(k).parent(), Some(0));
    }
    let near_end = rooted(NimState { start_player: false, current_num: 20 });
    let mut near_end = near_end;
    assert_eq!(near_end.expand(0), vec![1]);
}

#[test]
fn backpropagate_updates_the_path_to_the_root() {
    let mut tree = rooted(start());
    let kids = tree.expand(0);
    let grand = tree.expand(kids[1]);
    // The state at grand[0] has start_player == true, the root too; the child kids[1] has false.
    tree.backpropagate(grand[0], WinCondition::StartPlayer);
    assert_eq!(tree.node(grand[0]).visit_count(), 2);
    assert_eq!(tree.node(grand[0]).win_count(), 1);
    assert_eq!(tree.node(kids[1]).visit_count(), 2);
    assert_eq!(tree.node(kids[1]).win_count(), 0);
    assert_eq!(tree.node(0).visit_count(), 2);
    assert_eq!(tree.node(0).win_count(), 1);
    assert_eq!(tree.node(kids[0]).visit_count(), 1);
    assert_eq!(tree.node(grand[1]).visit_count(), 1);
}

#[test]
fn select_prefers_the_largest_key_and_first_on_ties() {
    let mut tree = rooted(start());
    tree.expand(0);
    assert_eq!(tree.select(&|_w: u32, _n: u32, _p: u32| 7u64), 1);
    assert_eq!(tree.select(&|w: u32, _n: u32, _p: u32| w as u64), 1);
    tree.backpropagate(3, WinCondition::NotStartPlayer);
    // node 3 now has two visits; a key that favours visits picks it
    assert_eq!(tree.select(&|_w: u32, n: u32, _p: u32| n as u64), 3);
}

#[test]
fn select_stops_at_a_leaf_or_terminal_node() {
    let mut tree = rooted(start());
    let mut rng = DefaultRng::init();
    tree.search(&mut rng, &uct, &budget(300), 1).unwrap();
    for _ in 0..20 {
        let s = tree.select(&uct);
        let n = tree.node(s);
        assert!(n.children().is_empty() || n.state.is_terminal_state().is_some());
    }
}

#[test]
fn random_playout_reaches_a_terminal_state() {
    let tree = rooted(NimState { start_player: true, current_num: 15 });
    let mut rng = DefaultRng::init();
    for _ in 0..20 {
        let out = tree.random_playout(0, &mut rng).unwrap();
        assert!(out == WinCondition::StartPlayer || out == WinCondition::NotStartPlayer);
    }
    let done = rooted(NimState { start_player: false, current_num: 21 });
    assert_eq!(done.random_playout(0, &mut rng), Ok(WinCondition::NotStartPlayer));
}

#[test]
fn random_playout_fails_without_moves() {
    let mut tree = Tree::new();
    tree.add_node_with_parent(Node::new(Stuck, None));
    let mut rng = DefaultRng::init();
    assert_eq!(tree.random_playout(0, &mut rng), Err(SearchError::NoMoves));
    assert_eq!(tree.iterate(&mut rng, &uct), Err(SearchError::NoMoves));
    assert_eq!(tree.node(0).visit_count(), 1);
}

#[test]
fn terminal_root_is_backed_up_without_expansion() {
    let mut tree = rooted(NimState { start_player: false, current_num: 21 });
    let mut rng = DefaultRng::init();
    assert_eq!(tree.iterate(&mut rng, &uct), Ok(()));
    assert_eq!(tree.node_count(), 1);
    assert_eq!(tree.node(0).visit_count(), 2);
    assert_eq!(tree.node(0).win_count(), 1);
    assert!(tree.node(0).children().is_empty());
}

#[test]
fn root_visits_count_the_iterations() {
    for k in [1u32, 2, 17, 500] {
        let mut tree = rooted(start());
        let mut rng = DefaultRng::init();
        let done = tree.search(&mut rng, &uct, &budget(k), 1).unwrap();
        assert_eq!(done, k);
        assert_eq!(tree.node(0).visit_count(), k + 1);
    }
    // A budget of zero still runs one iteration.
    let mut tree = rooted(start());
    let mut rng = DefaultRng::init();
    assert_eq!(tree.search(&mut rng, &uct, &budget(0), 1), Ok(1));
}

#[test]
fn wins_never_exceed_visits() {
    let mut tree = rooted(start());
    let mut rng = DefaultRng::init();
    tree.search(&mut rng, &uct, &budget(2000), 1).unwrap();
    for i in 0..tree.node_count() {
        let n = tree.node(i);
        assert!(n.visit_count() >= 1);
        assert!(n.win_count() <= n.visit_count());
    }
}

#[test]
fn move_order_is_the_same_on_equal_states() {
    let a = NimState { start_player: true, current_num: 7 };
    let b = a;
    assert_eq!(a.all_moves(), b.all_moves());
    assert_eq!(format!("{:?}", a.all_moves()), format!("{:?}", a.all_moves()));
}

#[test]
fn run_worker_reports_root_child_visits() {
    let mut rng = DefaultRng::init();
    let (iters, votes) = run_worker(start(), &mut rng, &uct, &budget(1000), 1).unwrap();
    assert_eq!(iters, 1000);
    assert_eq!(votes.len(), 3);
    // every iteration backs up through exactly one root child, each of which began at one visit
    assert_eq!(votes.iter().map(|&v| v - 1).sum::<u32>(), iters);
    let mut rng = DefaultRng::init();
    assert_eq!(run_worker(Stuck, &mut rng, &uct, &budget(10), 1), Err(SearchError::NoMoves));
}

#[test]
fn default_rng_stays_in_range() {
    let mut rng = DefaultRng::init();
    let mut seen = [false; 4];
    for _ in 0..400 {
        let v = rng.gen_range(3..7);
        assert!((3..7).contains(&v));
        seen[v - 3] = true;
    }
    assert!(seen.iter().all(|&s| s));
    assert_eq!(rng.gen_range(9..10), 9);
}

#[test]
fn subtraction_game_opening_is_one() {
    let trials = 20;
    let mut ones = 0;
    for _ in 0..trials {
        let mut rng = DefaultRng::init();
        let report = run_worker(start(), &mut rng, &uct, &budget(100_000), 1).unwrap();
        let best = aggregate::<NimState>(&vec![report], &start().all_moves()).unwrap();
        if best.best_move.nums == 1 {
            ones += 1;
        }
    }
    assert!(ones * 100 >= trials * 95, "{} of {}", ones, trials);
}

