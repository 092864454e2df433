use balls::astar::{solve, State};
use balls::game::{Action, Ball, Game, GameSuccessors, Tube, ValidationError};
use balls::h10s::{
    colors_fit, compressed_dig_clutter, compressed_diggly, consecutive_enjoyer, count_clutter, dig_clutter, diggly,
    ignoramus, relaxed_bucket_solve, solve_compressed,
};
use balls::input::InputError;

fn tube(s: &str) -> Tube {
    let b: Vec<u8> = s.bytes().collect();
    assert_eq!(b.len(), 4);
    let slot = |c: u8| if c == b' ' { None } else { Some(Ball { color: c }) };
    Tube { balls: [slot(b[0]), slot(b[1]), slot(b[2]), slot(b[3])] }
}

fn board(tubes: &[&str]) -> Game {
    Game { tubes: tubes.iter().map(|s| tube(s)).collect() }
}

fn act(from: u8, to: u8) -> Action {
    Action { from, to }
}

fn sample() -> Game {
    board(&["abab", "bbaa", "    ", "a   "])
}

#[test]
fn tube_queries() {
    let t = tube("ab  ");
    assert_eq!(t.last(), 2);
    assert!(t.is_valid());
    assert!(!t.is_solved());
    assert!(!tube(" a  ").is_valid());
    assert!(tube("cccc").is_solved());
    assert!(Tube::empty().is_solved());
    assert_eq!(Tube::empty().last(), 0);
}

#[test]
fn heuristic_scores() {
    let g = sample();
    assert_eq!(ignoramus(&g), 0);
    assert_eq!(consecutive_enjoyer(&g), 4);
    assert_eq!(count_clutter(&g), 5);
    assert_eq!(diggly(&g), 5);
    assert_eq!(dig_clutter(&g), 6);
}

#[test]
fn compressed_heuristics_agree() {
    let mut g = sample();
    g.compress();
    assert!(colors_fit(&g));
    assert_eq!(compressed_diggly(&g), 5);
    assert_eq!(compressed_dig_clutter(&g), 6);
    assert_eq!(diggly(&g), 5);
}

#[test]
fn compress_numbers_colors_by_first_appearance() {
    let mut g = board(&["xy  ", "zx  ", "    "]);
    g.compress();
    let expected = Game {
        tubes: vec![
            Tube { balls: [Some(Ball { color: 1 }), Some(Ball { color: 2 }), None, None] },
            Tube { balls: [Some(Ball { color: 3 }), Some(Ball { color: 1 }), None, None] },
            Tube::empty(),
        ],
    };
    assert_eq!(g, expected);
}

#[test]
fn try_action_moves_top_ball() {
    let g = board(&["ab  ", "c   ", "    "]);
    let moved = g.try_action(act(0, 1)).expect("legal move");
    assert_eq!(moved, board(&["a   ", "cb  ", "    "]));
    let to_empty = g.try_action(act(1, 2)).expect("legal move");
    assert_eq!(to_empty, board(&["ab  ", "    ", "c   "]));
}

#[test]
fn try_action_refuses_illegal_moves() {
    let g = board(&["abcd", "c   ", "    "]);
    assert!(g.try_action(act(0, 0)).is_none());
    assert!(g.try_action(act(2, 1)).is_none());
    assert!(g.try_action(act(1, 0)).is_none());
    assert!(g.try_action(act(0, 3)).is_none());
    assert!(g.try_action(act(7, 1)).is_none());
}

#[test]
fn successors_in_order() {
    let g = board(&["ab  ", "c   ", "    "]);
    let mut it = GameSuccessors::new(g.clone());
    let mut actions = Vec::new();
    while let Some((next, cost, a)) = it.next() {
        assert_eq!(cost, 1);
        assert_eq!(Some(next), g.try_action(a));
        actions.push(a);
    }
    assert_eq!(actions, vec![act(0, 1), act(0, 2), act(1, 0), act(1, 2)]);
    let listed: Vec<Action> = g.clone().iter_successors().into_iter().map(|t| t.2).collect();
    assert_eq!(listed, actions);
    let ordered: Vec<Action> = g.clone().successors().into_iter().map(|t| t.2).collect();
    assert_eq!(ordered, actions);
    // Once exhausted, the listing stays exhausted.
    assert!(it.next().is_none());
    assert!(it.next().is_none());
}

#[test]
fn validate_accepts_a_valid_board() {
    assert_eq!(board(&["abab", "baba", "    ", "    "]).validate(), Ok(()));
    assert_eq!(board(&["aaaa", "bbbb", "cccc", "    "]).validate(), Ok(()));
}

#[test]
fn validate_errors() {
    assert_eq!(board(&["aaaa", "    "]).validate(), Err(ValidationError::NotEnoughTubes));
    let many: Vec<&str> = vec!["    "; 14];
    assert_eq!(board(&many).validate(), Err(ValidationError::TooManyTubes));
    assert_eq!(board(&["aaaa", " a  ", "    "]).validate(), Err(ValidationError::SpaceBalls));
    assert_eq!(board(&["aaa ", "    ", "    "]).validate(), Err(ValidationError::NotEnoughBallsOfColor));
    assert_eq!(board(&["aaaa", "a   ", "    "]).validate(), Err(ValidationError::TooManyBallsOfColor));
    assert_eq!(board(&["aaa ", "bbbb", "accc"]).validate(), Err(ValidationError::NotEnoughEmpties));
    assert_eq!(board(&["    ", "    ", "    ", "    "]).validate(), Err(ValidationError::TooManyEmpties));
    assert_eq!(board(&["aaaa", "bbbb", "cccc"]).validate(), Err(ValidationError::NotEnoughEmpties));
}

#[test]
fn read_board_from_text() {
    let text = b"// two colours\n2\n1\n\n  abab  \r\nbbaa\n";
    let g = Game::from_input(text).expect("valid input");
    assert_eq!(g, board(&["    ", "abab", "bbaa"]));
    let signed = Game::from_input(b"+2\n+1\nabab\nbaba").expect("valid input");
    assert_eq!(signed, board(&["    ", "abab", "baba"]));
}

#[test]
fn read_errors() {
    assert_eq!(Game::from_input(b""), Err(InputError::MissingHeader));
    assert_eq!(Game::from_input(b"2\n"), Err(InputError::MissingHeader));
    assert_eq!(Game::from_input(b"x\n"), Err(InputError::BadFullCount));
    assert_eq!(Game::from_input(b"99999999999\n"), Err(InputError::BadFullCount));
    assert_eq!(Game::from_input(b"2\n-\n"), Err(InputError::BadEmptyCount));
    assert_eq!(Game::from_input(b"2\n1\nabab\n"), Err(InputError::MissingTubes));
    assert_eq!(Game::from_input(b"2\n1\nab\xc3\xa9\n"), Err(InputError::NonAscii));
    assert_eq!(Game::from_input(b"2\n1\nabc\n"), Err(InputError::WrongWidth));
    assert_eq!(Game::from_input(b"2\n1\na\x01bb\n"), Err(InputError::Unprintable));
    assert_eq!(Game::from_input(b"0\n3\nabab\n"), Err(InputError::UnexpectedLine));
    assert_eq!(
        Game::from_input(b"1\n1\naaaa\n"),
        Err(InputError::Invalid(ValidationError::NotEnoughTubes))
    );
    assert_eq!(Game::from_input(b"-1\n-5\n"), Err(InputError::Invalid(ValidationError::NotEnoughTubes)));
    assert_eq!(Game::from_input(b"0\n2000000000\n"), Err(InputError::Invalid(ValidationError::TooManyTubes)));
}

#[test]
fn solve_a_board_and_replay() {
    let start = board(&["abab", "baba", "    ", "    "]);
    let (path, stats) = solve(start.clone(), dig_clutter).expect("solvable");
    assert_eq!(stats.path_len, path.len());
    let mut state = start;
    for a in &path {
        state = state.try_action(*a).expect("each move applies");
    }
    assert!(state.is_solved());
}

#[test]
fn zero_heuristic_path_is_shortest() {
    let start = board(&["aab ", "abb ", "ab  ", "    "]);
    let (zero_path, _) = solve(start.clone(), ignoramus).expect("solvable");
    let (other_path, _) = solve(start.clone(), dig_clutter).expect("solvable");
    assert!(zero_path.len() <= other_path.len());
    let already = board(&["aaaa", "bbbb", "    "]);
    let (path, stats) = solve(already, ignoramus).expect("solved board");
    assert!(path.is_empty());
    assert_eq!(stats.work_count, 1);
    assert_eq!(stats.path_len, 0);
    assert_eq!(stats.work_queue_len, 0);
}

#[test]
fn solve_compressed_board() {
    let mut g = board(&["abab", "baba", "    ", "    "]);
    g.compress();
    assert!(colors_fit(&g));
    let (path, _) = solve_compressed(g.clone()).expect("solvable");
    let mut state = g;
    for a in &path {
        state = state.try_action(*a).expect("each move applies");
    }
    assert!(state.is_solved());
}

#[test]
fn relaxed_bound() {
    let g = board(&["abab", "baba", "    "]);
    let r = relaxed_bucket_solve(&g);
    assert!(r > 0);
    let solved = board(&["aaaa", "bbbb", "    "]);
    assert_eq!(relaxed_bucket_solve(&solved), 0);
}

#[test]
fn show_balls_and_boards() {
    assert_eq!(Ball { color: 5 }.to_string(), "5");
    assert_eq!(Ball { color: 11 }.to_string(), "b");
    assert_eq!(Ball { color: b'x' }.to_string(), "x");
    assert_eq!(tube("ab  ").to_string(), "ab  ");
    let g = board(&["abab", "    "]);
    assert_eq!(g.to_string(), "[ 0] abab\n[ 1]     \n");
    let many: Vec<&str> = vec!["a   "; 11];
    let text = board(&many).to_string();
    assert!(text.ends_with("[10] a   \n"));
}

/// The fewest moves that solve `start`, by breadth-first search.
fn fewest_moves(start: &Game) -> Option<usize> {
    let mut seen = std::collections::HashSet::new();
    let mut layer = vec![start.clone()];
    seen.insert(start.clone());
    let mut depth = 0;
    while !layer.is_empty() {
        let mut next_layer = Vec::new();
        for g in &layer {
            if g.is_solved() {
                return Some(depth);
            }
            for (next, _, _) in g.clone().iter_successors() {
                if seen.insert(next.clone()) {
                    next_layer.push(next);
                }
            }
        }
        layer = next_layer;
        depth += 1;
    }
    None
}

#[test]
fn zero_heuristic_matches_breadth_first_search() {
    let boards = [
        board(&["aab ", "abb ", "ab  ", "    "]),
        board(&["abab", "baba", "    ", "    "]),
        board(&["aaab", "bbba", "cccc", "    "]),
    ];
    for start in boards.iter() {
        let expected = fewest_moves(start);
        let found = solve(start.clone(), ignoramus).map(|(p, _)| p.len());
        assert_eq!(found, expected);
    }
}

#[test]
fn three_colours_with_every_heuristic() {
    let start = board(&["aaab", "bbba", "ccc ", "c   "]);
    let best = fewest_moves(&start).expect("solvable");
    let (path, _) = solve(start.clone(), ignoramus).expect("solvable");
    assert_eq!(path.len(), best);
    for h in [consecutive_enjoyer, count_clutter, diggly, dig_clutter] {
        let (path, _) = solve(start.clone(), h).expect("solvable");
        let mut state = start.clone();
        for a in &path {
            state = state.try_action(*a).expect("each move applies");
        }
        assert!(state.is_solved());
    }
}

#[test]
fn unsolvable_board_is_exhausted() {
    // Three full tubes and no room: no move is legal and the board is not solved.
    let start = board(&["abab", "baba", "abab"]);
    assert!(solve(start, ignoramus).is_none());
}

#[test]
fn unicode_whitespace_is_trimmed() {
    let plain = Game::from_input(b"1\n2\nAAAA").expect("valid input");
    assert_eq!(plain, board(&["    ", "    ", "AAAA"]));
    // A line holding only a no-break space is blank.
    assert_eq!(Game::from_input(b"\xc2\xa0\n1\n2\nAAAA"), Ok(plain.clone()));
    // A tube line padded with no-break, ideographic and em spaces.
    assert_eq!(Game::from_input(b"1\n2\n\xe3\x80\x80AAAA\xc2\xa0\xe2\x80\x83"), Ok(plain.clone()));
    // Next line (U+0085) and line separator (U+2028) around a count.
    assert_eq!(Game::from_input(b"\xc2\x851\xe2\x80\xa8\n2\nAAAA"), Ok(plain.clone()));
    // A non-breaking character that is not white space stays.
    assert_eq!(Game::from_input(b"1\n2\nAAAA\xc2\xa9"), Err(InputError::NonAscii));
}
