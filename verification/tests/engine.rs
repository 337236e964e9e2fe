use mcts::game_state::GameState;
use mcts::search::{SearchParameters, Searcher};
use mcts::toy::GS;
use mcts::tree::SearchTree;

const FRAC_1_SQRT_2_FP: i64 = 46341;

fn searcher(iterations: i32) -> Searcher<GS> {
    Searcher::new(SearchParameters {
        exploration_factor: FRAC_1_SQRT_2_FP,
        search_iterations: iterations,
    })
}

#[test]
fn rollout_terminates() {
    let value = Searcher::rollout(&GS(0), true);
    assert!(value.abs() >= 10);
}

#[test]
fn rollout_returns_terminal_value_directly() {
    assert_eq!(Searcher::rollout(&GS(10), true), 10);
    assert_eq!(Searcher::rollout(&GS(10), false), -10);
    assert_eq!(Searcher::rollout(&GS(-11), false), -11);
}

#[test]
fn search_returns_legal_move() {
    let mut s = searcher(20);
    let m = s.search(GS(0));
    assert!(m == 1 || m == 3);
}

#[test]
fn search_remembers_something() {
    let mut s = searcher(20);
    s.search(GS(0));
    assert!(s.previous_choice.is_some());
}

#[test]
fn search_remembers_correct_choice() {
    let mut s = searcher(20);
    let m = s.search(GS(0));
    let chosen = s.previous_choice.unwrap();
    assert_eq!(s.tree.get(chosen).game_state, GS(m));
}

#[test]
fn search_terminates() {
    let mut s = searcher(1000);
    let m = s.search(GS(0));
    assert!(m == 1 || m == 3);
}

#[test]
fn toy_search_entry_returns_legal_move() {
    let m = mcts::toy::search();
    assert!(m == 1 || m == 3);
}

#[test]
fn end_to_end_toy_game_finishes() {
    // the toy game from zero: totals only grow, so at most ten plies
    let mut s = searcher(200);
    let mut state = GS(0);
    let mut plies = 0;
    while state.terminal_value(state.next_to_play()).is_none() {
        let m = s.search(state);
        assert!(m == 1 || m == 3);
        state = GS(state.0 + m);
        plies += 1;
        assert!(plies <= 10, "the toy game must end within ten plies");
    }
    assert!(state.0.abs() >= 10);
}

#[test]
fn backup_negamax_backs_up() {
    // a chain of four nodes built by legal expansion
    let mut t: SearchTree<GS> = SearchTree::new();
    let n1 = t.new_node(GS(0));
    let n2 = t.expand_child(n1, 0);
    let n3 = t.expand_child(n2, 0);
    let n4 = t.expand_child(n3, 0);

    t.backup(n4, 7);

    assert_eq!(t.get(n4).score, 7);
    assert_eq!(t.get(n3).score, -7);
    assert_eq!(t.get(n2).score, 7);
    assert_eq!(t.get(n1).score, -7);
    assert_eq!(t.get(n4).visits, 1);
    assert_eq!(t.get(n1).visits, 1);
}

#[test]
fn backup_negamax_avoids_unrelated_nodes() {
    let mut t: SearchTree<GS> = SearchTree::new();
    let n1 = t.new_node(GS(0));
    let n2 = t.expand_child(n1, 0);
    let n5 = t.expand_child(n1, 0); // sibling of n2
    let n3 = t.expand_child(n2, 0);
    let n6 = t.expand_child(n2, 0); // sibling of n3
    let n4 = t.expand_child(n3, 0);

    t.backup(n4, 5);

    assert_eq!(t.get(n5).score, 0);
    assert_eq!(t.get(n5).visits, 0);
    assert_eq!(t.get(n6).score, 0);
    assert_eq!(t.get(n6).visits, 0);
    assert_eq!(t.get(n4).score, 5);
    assert_eq!(t.get(n1).score, -5);
}

#[test]
fn best_child_maximizes_ucb1() {
    // child a: score 5 over 50 visits (mean 0.1); child b: score 1 over 20
    // visits (mean 0.05). Pure exploitation picks a; a factor of one picks
    // the less-visited b.
    let mut s = searcher(1);
    let p = s.tree.new_node(GS(0));
    let a = s.tree.expand_child(p, 0);
    let b = s.tree.expand_child(p, 0);
    for i in 0..50 {
        s.tree.backup(a, if i == 0 { 5 } else { 0 });
    }
    for i in 0..20 {
        s.tree.backup(b, if i == 0 { 1 } else { 0 });
    }
    assert_eq!(s.tree.get(a).score, 5);
    assert_eq!(s.tree.get(a).visits, 50);
    assert_eq!(s.tree.get(b).score, 1);
    assert_eq!(s.tree.get(b).visits, 20);

    let exploit_only = s.best_child(p, 0);
    assert_eq!(exploit_only, a);

    let exploring = s.best_child(p, 65536);
    assert_eq!(exploring, b);
}

#[test]
fn unvisited_child_is_explored_first() {
    let mut s = searcher(1);
    let p = s.tree.new_node(GS(0));
    let a = s.tree.expand_child(p, 0);
    let b = s.tree.expand_child(p, 0);
    // a has been visited and holds a good score; b was never visited
    for _ in 0..3 {
        s.tree.backup(a, 1);
    }
    let _ = b;
    let chosen = s.best_child(p, FRAC_1_SQRT_2_FP);
    assert_eq!(chosen, b);
}

#[test]
fn starting_tree_creates_new_tree() {
    let mut s = searcher(1);
    let root = s.starting_tree(GS(5));
    assert_eq!(s.tree.get(root).game_state, GS(5));
    assert!(s.tree.get(root).parent.is_none());
}

#[test]
fn starting_tree_finds_old_tree_and_detaches() {
    let mut s = searcher(1);
    let root = s.tree.new_node(GS(0));
    let a = s.tree.expand_child(root, 0); // GS(1)
    let b = s.tree.expand_child(root, 0); // GS(3)
    let a1 = s.tree.expand_child(a, 0); // GS(2)
    let a2 = s.tree.expand_child(a, 0); // GS(4)
    s.tree.backup(a1, 3);

    s.previous_choice = Some(root);
    let new_root = s.starting_tree(GS(1));

    assert_eq!(new_root, a);
    assert_eq!(s.tree.get(new_root).game_state, GS(1));
    assert!(s.tree.get(new_root).parent.is_none());
    // the reused subtree keeps its statistics and children
    assert_eq!(s.tree.get(new_root).visits, 1);
    assert_eq!(s.tree.get(new_root).score, -3);
    assert_eq!(s.tree.get(new_root).children, vec![a1, a2]);
    assert_eq!(s.tree.get(a1).score, 3);
    assert_eq!(s.tree.get(a2).game_state, GS(4));
    // the old root and the unused sibling are gone
    assert!(s.tree.is_removed(root));
    assert!(s.tree.is_removed(b));
}

#[test]
fn starting_tree_creates_new_if_children_dont_match() {
    let mut s = searcher(1);
    let root = s.tree.new_node(GS(0));
    let a = s.tree.expand_child(root, 0); // GS(1)
    let b = s.tree.expand_child(root, 0); // GS(3)

    s.previous_choice = Some(root);
    let new_root = s.starting_tree(GS(7));

    assert_eq!(s.tree.get(new_root).game_state, GS(7));
    assert!(s.tree.get(new_root).parent.is_none());
    assert!(s.tree.get(new_root).children.is_empty());
    // exactly one node: the whole old tree was discarded, and only the
    // fresh root's identifier is valid (old identifiers must not be reused)
    assert_eq!(s.tree.len(), 1);
    assert!(s.tree.is_removed(a));
    assert!(s.tree.is_removed(b));
    let _ = root;
}

#[test]
fn root_gains_one_visit_per_iteration() {
    let mut s = searcher(50);
    s.search(GS(0));
    let chosen = s.previous_choice.unwrap();
    let root = s.tree.get(chosen).parent.unwrap();
    assert_eq!(s.tree.get(root).visits, 50);
}

#[test]
fn reused_root_keeps_its_visits() {
    // the child promoted by tree reuse keeps its seven earlier visits and
    // gains one more per iteration of the new search
    let mut s = searcher(40);
    let root = s.tree.new_node(GS(0));
    let a = s.tree.expand_child(root, 0); // GS(1)
    let _b = s.tree.expand_child(root, 0); // GS(3)
    for _ in 0..7 {
        s.tree.backup(a, 1);
    }
    s.previous_choice = Some(root);
    s.search(GS(1));
    let chosen = s.previous_choice.unwrap();
    let new_root = s.tree.get(chosen).parent.unwrap();
    assert_eq!(s.tree.get(new_root).game_state, GS(1));
    assert_eq!(s.tree.get(new_root).visits, 7 + 40);
}

#[test]
fn tree_reuse_preserves_statistics_across_searches() {
    let mut s = searcher(100);
    let first = s.search(GS(0));
    let chosen = s.previous_choice.unwrap();
    let visits_before = s.tree.get(chosen).visits;
    assert!(visits_before > 0);
    // play the chosen move and search again from the resulting state
    let next_state = GS(first);
    let second = s.search(next_state);
    assert!(second == 1 || second == 3);
}
