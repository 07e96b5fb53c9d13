use std::collections::HashSet;
use ttt_compiler::ttt::decode;
use ttt_compiler::ttt::encode;
use ttt_compiler::ttt::enumerate_moves;
use ttt_compiler::ttt::get_winner;
use ttt_compiler::ttt::TTTCompilation;
use ttt_compiler::u128_to_string;
use ttt_compiler::Compilation;
use ttt_compiler::CompilationError;
use ttt_compiler::Compiler;
use ttt_compiler::Node;
use ttt_compiler::AI;

/// Number of reachable 3x3 states under this encoding (winners are not
/// expanded further), pinned once as the reference constant.
const REACHABLE_STATES: usize = 5478;
const WINNER_STATES: usize = 942;
const SCORED_STATES: usize = 4536;

fn compiled() -> Compiler<TTTCompilation> {
    let mut compiler: Compiler<TTTCompilation> = Compiler::new();
    compiler.compilation = Some(TTTCompilation::new());
    compiler.init_compilation().unwrap();
    while compiler.process().is_ok() {}
    while compiler.post_process().is_ok() {}
    while compiler.score_nodes().is_ok() {}
    compiler
}

#[test]
fn encode_decode_round_trip() {
    let boards: [[u8; 9]; 3] = [
        [0, 0, 0, 0, 0, 0, 0, 0, 0],
        [1, 1, 1, 0, 0, 0, 0, 0, 0],
        [0, 0, 0, 0, 2, 0, 1, 0, 0],
    ];
    for b in boards.iter() {
        let v: Vec<u8> = b.to_vec();
        let id = encode(&v);
        assert_eq!(decode(id, 9), v);
    }
    assert_eq!(encode(&vec![0, 0, 0, 0, 2, 0, 1, 0, 0]), 891);
    assert_eq!(encode(&vec![0; 9]), 0);
}

#[test]
fn encode_decode_round_trip_all_reachable() {
    let compiler = compiled();
    let map = compiler.get_compilation().unwrap().get_cloned_map();
    for (&id, _) in map.iter() {
        assert_eq!(encode(&decode(id, 9)), id);
    }
}

#[test]
fn full_enumeration_node_count() {
    let mut compiler: Compiler<TTTCompilation> = Compiler::new();
    compiler.compilation = Some(TTTCompilation::new());
    compiler.init_compilation().unwrap();
    while compiler.process().is_ok() {}
    assert_eq!(compiler.get_nodes_processed().unwrap(), REACHABLE_STATES);
    let map = compiler.get_compilation().unwrap().get_cloned_map();
    assert_eq!(map.len(), REACHABLE_STATES);
}

#[test]
fn stage_counters_after_full_compilation() {
    let compiler = compiled();
    assert_eq!(compiler.get_nodes_processed().unwrap(), REACHABLE_STATES);
    assert_eq!(compiler.get_winners_processed().unwrap(), WINNER_STATES);
    assert_eq!(compiler.get_nodes_scored().unwrap(), SCORED_STATES);
}

#[test]
fn every_score_is_a_minimax_value() {
    let compiler = compiled();
    let map = compiler.get_compilation().unwrap().get_cloned_map();
    for (_, node) in map.iter() {
        assert!(node.score == -100 || node.score == 0 || node.score == 100);
    }
}

#[test]
fn empty_board_is_a_draw() {
    let compiler = compiled();
    let map = compiler.get_compilation().unwrap().get_cloned_map();
    assert_eq!(map.get(&0).unwrap().score, 0);
}

#[test]
fn childless_nodes_are_full_drawn_boards() {
    let compiler = compiled();
    let map = compiler.get_compilation().unwrap().get_cloned_map();
    let mut drawn = 0;
    for (&id, node) in map.iter() {
        if node.children.is_empty() && get_winner(&id, 3) == 0 {
            // Full board: every cell holds a mark.
            assert!(decode(id, 9).iter().all(|&d| d != 0));
            assert_eq!(node.score, 0);
            drawn += 1;
        }
        if !decode(id, 9).iter().all(|&d| d != 0) && get_winner(&id, 3) == 0 {
            // A non-full board without a winner always has children.
            assert!(!node.children.is_empty());
        }
    }
    assert_eq!(drawn, 16);
}

#[test]
fn children_scored_before_parent_is_popped() {
    let mut compiler: Compiler<TTTCompilation> = Compiler::new();
    compiler.compilation = Some(TTTCompilation::new());
    compiler.init_compilation().unwrap();
    while compiler.process().is_ok() {}
    while compiler.post_process().is_ok() {}
    // After stage 2, exactly the winner states carry a score.
    let mut scored: HashSet<u128> = HashSet::new();
    let map = compiler.get_compilation().unwrap().get_cloned_map();
    for (&id, _) in map.iter() {
        if get_winner(&id, 3) != 0 {
            scored.insert(id);
        }
    }
    loop {
        let top = match compiler.unscored_nodes.last() {
            None => break,
            Some(&id) => id,
        };
        let children = compiler.get_node(top).unwrap().children.clone();
        for child in children.iter() {
            assert!(scored.contains(child));
        }
        let prev_level = compiler.get_node(top).unwrap().level;
        for child in children.iter() {
            assert_eq!(compiler.get_node(*child).unwrap().level, prev_level + 1);
        }
        compiler.score_nodes().unwrap();
        scored.insert(top);
    }
}

#[test]
fn end_to_end_scenario() {
    // Row 0 all team A.
    let digits: Vec<u8> = "XXXNNNNNN"
        .chars()
        .map(|c| match c {
            'X' => 1,
            'O' => 2,
            _ => 0,
        })
        .collect();
    let id = encode(&digits);
    assert_eq!(get_winner(&id, 3), 1);
    // The empty board: no winner, nine candidate moves for team A.
    assert_eq!(get_winner(&0, 3), 0);
    let moves = enumerate_moves(0, 1, 3);
    assert_eq!(moves.len(), 9);
    // From the compiled graph, the best first move preserves the draw.
    let compiler = compiled();
    let map = compiler.get_compilation().unwrap().get_cloned_map();
    let root_children = map.get(&0).unwrap().children.clone();
    let mut ai = AI::new();
    ai.load(map);
    let best = ai.get_move(0, 1).unwrap();
    assert!(root_children.contains(&best));
    let best_score = ai.get_score(&best).unwrap();
    for child in root_children.iter() {
        assert!(ai.get_score(child).unwrap() <= best_score);
    }
    assert_eq!(best_score, 0);
}

#[test]
fn enumerate_moves_ascending_cells() {
    let moves = enumerate_moves(0, 1, 3);
    let mut expected: Vec<u128> = Vec::new();
    let mut p: u128 = 1;
    for _ in 0..9 {
        expected.push(p);
        p *= 3;
    }
    assert_eq!(moves, expected);
    // Team B writes digit 2 instead.
    let moves_b = enumerate_moves(0, 2, 3);
    assert_eq!(moves_b[0], 2);
    // A full board offers no moves.
    let full = encode(&vec![1, 2, 1, 2, 1, 2, 1, 2, 1]);
    assert!(enumerate_moves(full, 2, 3).is_empty());
}

#[test]
fn export_keys_are_decimal_strings() {
    let compiler = compiled();
    let export = compiler.export().unwrap();
    assert_eq!(export.len(), REACHABLE_STATES);
    let root = export.get("0").unwrap();
    assert_eq!(root.id, 0);
    assert_eq!(root.score, 0);
    assert_eq!(root.children.len(), 9);
    // Every entry's key is the decimal rendering of the node's identifier.
    for (key, node) in export.iter() {
        assert_eq!(key, &u128_to_string(node.id));
    }
}

#[test]
fn u128_decimal_rendering() {
    assert_eq!(u128_to_string(0), "0");
    assert_eq!(u128_to_string(9641), "9641");
    assert_eq!(u128_to_string(340282366920938463463374607431768211455), "340282366920938463463374607431768211455");
}

#[test]
fn unbound_store_reports_no_compilation() {
    let mut compiler: Compiler<TTTCompilation> = Compiler::new();
    assert!(matches!(compiler.init_compilation(), Err(CompilationError::NoCompilation)));
    assert!(matches!(compiler.is_node(&0), Err(CompilationError::NoCompilation)));
    assert!(matches!(compiler.get_winner(&0), Err(CompilationError::NoCompilation)));
    assert!(matches!(compiler.export(), Err(CompilationError::NoCompilation)));
}

#[test]
fn exhausted_stages_report_queue_empty() {
    let mut compiler: Compiler<TTTCompilation> = Compiler::new();
    compiler.compilation = Some(TTTCompilation::new());
    assert!(matches!(compiler.process(), Err(CompilationError::QueueEmpty)));
    assert!(matches!(compiler.post_process(), Err(CompilationError::QueueEmpty)));
    assert!(matches!(compiler.score_nodes(), Err(CompilationError::QueueEmpty)));
}

#[test]
fn winner_nodes_are_not_expanded() {
    let compiler = compiled();
    let map = compiler.get_compilation().unwrap().get_cloned_map();
    for (&id, node) in map.iter() {
        if get_winner(&id, 3) != 0 {
            assert!(node.children.is_empty());
            let expected: i8 = if get_winner(&id, 3) == 1 { 100 } else { -100 };
            assert_eq!(node.score, expected);
        }
    }
}

#[test]
fn transpositions_share_one_node() {
    // X a1, O b2, X c3 and X c3, O b2, X a1 meet in the same state.
    let compiler = compiled();
    let map = compiler.get_compilation().unwrap().get_cloned_map();
    let shared = encode(&vec![1, 0, 0, 0, 2, 0, 0, 0, 1]);
    let node = map.get(&shared).unwrap();
    assert!(node.parents.len() > 1);
    assert_eq!(node.level, 3);
}

#[test]
fn ai_tie_breaks_on_first_candidate() {
    let mut nodes = std::collections::HashMap::new();
    nodes.insert(
        7u128,
        Node { id: 7, level: 0, parents: vec![], children: vec![10, 11], score: 0 },
    );
    nodes.insert(10u128, Node { id: 10, level: 1, parents: vec![7], children: vec![], score: 5 });
    nodes.insert(11u128, Node { id: 11, level: 1, parents: vec![7], children: vec![], score: 5 });
    let mut ai = AI::new();
    ai.load(nodes);
    assert_eq!(ai.get_move(7, 1), Some(10));
    assert_eq!(ai.get_move(7, 2), Some(10));
    assert_eq!(ai.get_move(99, 1), None);
    assert_eq!(ai.get_score(&99), None);
    assert_eq!(ai.get_score(&10), Some(5));
    // A terminal node (no children) yields no move.
    assert_eq!(ai.get_move(10, 1), None);
}

#[test]
fn store_reset_clears_everything() {
    let mut store = TTTCompilation::new();
    store.set_board_size(4);
    let mut compiler: Compiler<TTTCompilation> = Compiler::new();
    compiler.compilation = Some(TTTCompilation::new());
    compiler.init_compilation().unwrap();
    compiler.process().unwrap();
    let mut bound = compiler.compilation.take().unwrap();
    assert_eq!(bound.get_nodes_processed(), 1);
    bound.reset();
    assert_eq!(bound.get_nodes_processed(), 0);
    assert!(bound.get_cloned_map().is_empty());
    assert_eq!(bound.board_size, 3);
    assert_eq!(store.board_size, 4);
}

#[test]
fn out_of_order_stepping_gives_stale_scores() {
    // The three stages must each run to exhaustion in order; this run does
    // back-propagation before terminal scoring and silently produces wrong
    // (stale) scores for some nodes, without any error.
    let good = compiled();
    let good_map = good.get_compilation().unwrap().get_cloned_map();
    let mut bad: Compiler<TTTCompilation> = Compiler::new();
    bad.compilation = Some(TTTCompilation::new());
    bad.init_compilation().unwrap();
    while bad.process().is_ok() {}
    while bad.score_nodes().is_ok() {}
    while bad.post_process().is_ok() {}
    let bad_map = bad.get_compilation().unwrap().get_cloned_map();
    let mut differs = false;
    for (k, v) in good_map.iter() {
        if bad_map.get(k).unwrap().score != v.score {
            differs = true;
        }
    }
    assert!(differs);
}

#[test]
fn absent_node_reports_node_not_found() {
    let mut compiler: Compiler<TTTCompilation> = Compiler::new();
    compiler.compilation = Some(TTTCompilation::new());
    compiler.init_compilation().unwrap();
    assert!(matches!(compiler.get_node(12345), Err(CompilationError::NodeNotFound)));
    assert_eq!(compiler.get_node(0).unwrap().id, 0);
}

#[test]
fn export_entries_carry_every_node() {
    let compiler = compiled();
    let entries = compiler.export_entries().unwrap();
    assert_eq!(entries.len(), REACHABLE_STATES);
    let map = compiler.get_compilation().unwrap().get_cloned_map();
    for (key, node) in entries.iter() {
        assert_eq!(key, &u128_to_string(node.id));
        let stored = map.get(&node.id).unwrap();
        assert_eq!(stored.level, node.level);
        assert_eq!(stored.parents, node.parents);
        assert_eq!(stored.children, node.children);
        assert_eq!(stored.score, node.score);
    }
}
