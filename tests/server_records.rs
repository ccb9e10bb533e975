use bitboard_chess::lichess::{GameFull, GameState, UserBasic};

#[test]
fn empty_move_list_has_no_moves() {
    let s = GameState::default();
    assert!(s.moves_to_vec().is_empty());
}

#[test]
fn moves_split_on_spaces() {
    let mut s = GameState::default();
    s.moves = "e2e4 e7e5 g1f3".to_string();
    assert_eq!(s.moves_to_vec(), vec!["e2e4".to_string(), "e7e5".to_string(), "g1f3".to_string()]);
    s.moves = "e2e4".to_string();
    assert_eq!(s.moves_to_vec(), vec!["e2e4".to_string()]);
}

#[test]
fn defaults_are_empty() {
    let u = UserBasic::default();
    assert_eq!(u.rating, 0);
    assert!(u.title.is_none());
    let g = GameFull::default();
    assert!(g.initial_fen.is_empty());
    assert!(g.state.moves.is_empty());
}
