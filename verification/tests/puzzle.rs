use number8::{
    calculate_cost, generate, goal_board, legal_moves, new_node, reconstruct_path, select_min,
    solve, validate, Board, BoardError, Entry, Message, Node, SolveResult,
};

fn board(size: usize, cells: Vec<u8>) -> Board {
    Board { size, cells }
}

fn goal_cells(n: usize) -> Vec<u8> {
    let mut v: Vec<u8> = Vec::new();
    for i in 0..n * n {
        if i == n * n - 1 {
            v.push(0);
        } else {
            v.push((i + 1) as u8);
        }
    }
    v
}

fn is_one_slide(n: usize, a: &[u8], b: &[u8]) -> bool {
    if a.len() != b.len() {
        return false;
    }
    let mut diffs: Vec<usize> = Vec::new();
    for i in 0..a.len() {
        if a[i] != b[i] {
            diffs.push(i);
        }
    }
    if diffs.len() != 2 {
        return false;
    }
    let (i, j) = (diffs[0], diffs[1]);
    let swapped = a[i] == b[j] && a[j] == b[i] && (a[i] == 0 || a[j] == 0);
    let adj = (i / n == j / n && j == i + 1) || (i % n == j % n && j == i + n);
    swapped && adj
}

fn assert_solved_path(input: &Board, result: SolveResult) -> Vec<Board> {
    match result {
        SolveResult::Solved(path) => {
            assert!(!path.is_empty());
            assert!(path.len() <= 33);
            assert_eq!(path[0].size, input.size);
            assert_eq!(path[0].cells, input.cells);
            assert_eq!(path[path.len() - 1].cells, goal_cells(input.size));
            for w in path.windows(2) {
                assert!(is_one_slide(input.size, &w[0].cells, &w[1].cells));
            }
            path
        }
        SolveResult::BoundExceeded => panic!("expected a solution, search gave up"),
        SolveResult::InvalidBoard(e) => panic!("expected a solution, board rejected: {:?}", e),
    }
}

#[test]
fn cost_of_goal_is_zero_for_every_size() {
    for size in 2..=4usize {
        let g = goal_board(size);
        assert_eq!(calculate_cost(&g), 0);
    }
}

#[test]
fn cost_concrete_two_tiles_swapped() {
    let b = board(3, vec![2, 1, 3, 4, 5, 6, 7, 8, 0]);
    assert_eq!(calculate_cost(&b), 2);
}

#[test]
fn cost_concrete_blank_not_counted() {
    // Blank sits where tile 1 belongs and tile 1 where the blank belongs:
    // only tile 1 counts as misplaced.
    let b = board(3, vec![0, 2, 3, 4, 5, 6, 7, 8, 1]);
    assert_eq!(calculate_cost(&b), 1);
}

#[test]
fn cost_of_generated_boards_stays_below_cell_count() {
    for size in 2..=4usize {
        let b = generate(size);
        let c = calculate_cost(&b) as usize;
        assert!(c <= size * size - 1);
    }
}

#[test]
fn generate_yields_a_permutation_with_one_blank() {
    for size in 2..=4usize {
        let b = generate(size);
        assert_eq!(b.size, size);
        assert_eq!(b.cells.len(), size * size);
        for v in 0..(size * size) as u8 {
            let occurrences = b.cells.iter().filter(|&&c| c == v).count();
            assert_eq!(occurrences, 1, "value {} of a size-{} board", v, size);
        }
    }
}

#[test]
fn generated_size_two_boards_are_solved_within_the_bound() {
    for _ in 0..5 {
        let b = generate(2);
        assert_solved_path(&b, solve(&b));
    }
}

#[test]
fn generated_size_three_board_is_solved_within_the_bound() {
    let b = generate(3);
    assert_solved_path(&b, solve(&b));
}

#[test]
fn solve_of_goal_returns_the_single_element_path() {
    for size in 2..=4usize {
        let g = goal_board(size);
        let path = assert_solved_path(&g, solve(&g));
        assert_eq!(path.len(), 1);
    }
}

#[test]
fn solve_goal_scenario_size_three() {
    // [[1,2,3],[4,5,6],[7,8,0]] is already the goal.
    let b = board(3, vec![1, 2, 3, 4, 5, 6, 7, 8, 0]);
    let path = assert_solved_path(&b, solve(&b));
    assert_eq!(path.len(), 1);
    assert_eq!(path[0].cells, vec![1, 2, 3, 4, 5, 6, 7, 8, 0]);
}

#[test]
fn solve_one_slide_from_goal_gives_two_step_path() {
    // The blank swapped with its left neighbour.
    let b = board(3, vec![1, 2, 3, 4, 5, 6, 7, 0, 8]);
    let path = assert_solved_path(&b, solve(&b));
    assert_eq!(path.len(), 2);
    assert_eq!(path[0].cells, vec![1, 2, 3, 4, 5, 6, 7, 0, 8]);
    assert_eq!(path[1].cells, vec![1, 2, 3, 4, 5, 6, 7, 8, 0]);
}

#[test]
fn solve_rejects_duplicated_tile() {
    let b = board(3, vec![0, 1, 2, 3, 4, 5, 6, 7, 7]);
    match solve(&b) {
        SolveResult::InvalidBoard(e) => assert_eq!(e, BoardError::DuplicateValue(7)),
        _ => panic!("a board with a duplicated tile must be rejected"),
    }
}

#[test]
fn solve_rejects_missing_blank() {
    let b = board(3, vec![1, 2, 3, 4, 5, 6, 7, 8, 9]);
    match solve(&b) {
        SolveResult::InvalidBoard(e) => assert_eq!(e, BoardError::MissingValue(0)),
        _ => panic!("a board without a blank must be rejected"),
    }
}

#[test]
fn solve_rejects_bad_sizes() {
    let too_small = board(1, vec![0]);
    match solve(&too_small) {
        SolveResult::InvalidBoard(e) => assert_eq!(e, BoardError::BadSize),
        _ => panic!("side 1 must be rejected"),
    }
    let too_large = board(5, (0..25).collect());
    match solve(&too_large) {
        SolveResult::InvalidBoard(e) => assert_eq!(e, BoardError::BadSize),
        _ => panic!("side 5 must be rejected"),
    }
}

#[test]
fn solve_rejects_wrong_cell_count() {
    let b = board(3, vec![1, 2, 3, 4, 5, 6, 7, 0]);
    match solve(&b) {
        SolveResult::InvalidBoard(e) => assert_eq!(e, BoardError::WrongLength),
        _ => panic!("eight cells on a size-3 board must be rejected"),
    }
}

#[test]
fn validate_accepts_valid_boards() {
    for size in 2..=4usize {
        assert_eq!(validate(&goal_board(size)), Ok(()));
    }
    assert_eq!(validate(&board(3, vec![8, 6, 7, 2, 5, 4, 3, 0, 1])), Ok(()));
}

#[test]
fn validate_reports_least_missing_value() {
    let b = board(3, vec![2, 2, 3, 4, 5, 6, 7, 8, 0]);
    assert_eq!(validate(&b), Err(BoardError::MissingValue(1)));
}

#[test]
fn select_min_prefers_cost_then_depth_then_insertion() {
    let frontier = vec![
        Entry { idx: 0, cost: 2, depth: 5 },
        Entry { idx: 1, cost: 1, depth: 7 },
        Entry { idx: 2, cost: 1, depth: 3 },
        Entry { idx: 3, cost: 1, depth: 3 },
    ];
    assert_eq!(select_min(&frontier), 2);
    let all_equal = vec![
        Entry { idx: 9, cost: 4, depth: 1 },
        Entry { idx: 8, cost: 4, depth: 1 },
    ];
    assert_eq!(select_min(&all_equal), 0);
}

#[test]
fn new_node_slides_blank_and_rescores() {
    let root = Node {
        parent: None,
        board: goal_board(3),
        blank: 8,
        cost: 0,
        depth: 0,
    };
    let child = new_node(&root, 0, 7);
    assert_eq!(child.board.cells, vec![1, 2, 3, 4, 5, 6, 7, 0, 8]);
    assert_eq!(child.blank, 7);
    assert_eq!(child.cost, 1);
    assert_eq!(child.depth, 1);
    assert_eq!(child.parent, Some(0));
}

#[test]
fn legal_moves_are_bounds_checked() {
    // Centre of a size-3 board: all four directions.
    assert_eq!(legal_moves(3, 4), vec![7, 3, 1, 5]);
    // Top-left corner: only down and right.
    assert_eq!(legal_moves(3, 0), vec![3, 1]);
    // Middle of the top edge: down, left and right.
    assert_eq!(legal_moves(3, 1), vec![4, 0, 2]);
}

#[test]
fn reconstruct_path_orders_root_to_terminal() {
    let root = Node {
        parent: None,
        board: goal_board(3),
        blank: 8,
        cost: 0,
        depth: 0,
    };
    let child = new_node(&root, 0, 7);
    let child_cells = child.board.cells.clone();
    let arena = vec![root, child];
    let path = reconstruct_path(&arena, 1);
    assert_eq!(path.len(), 2);
    assert_eq!(path[0].cells, goal_cells(3));
    assert_eq!(path[1].cells, child_cells);
}

#[test]
fn encode_board_packs_four_bits_per_cell() {
    let g = goal_board(2);
    // cells [1, 2, 3, 0] -> 0x0321
    assert_eq!(number8::board::encode_board(&g), 0x321);
    let other = board(2, vec![1, 2, 0, 3]);
    assert_ne!(
        number8::board::encode_board(&g),
        number8::board::encode_board(&other)
    );
}

#[test]
fn messages_carry_the_chosen_grid_size() {
    let m = Message::ChangeGridSize(4);
    match m {
        Message::ChangeGridSize(s) => assert_eq!(s, 4),
        _ => panic!("wrong variant"),
    }
    assert!(matches!(Message::Generate, Message::Generate));
    assert!(matches!(Message::Solve, Message::Solve));
}
