//! Records exchanged with an online game server, and the move list of a
//! game state.
use vstd::prelude::*;
use crate::fen::{split_seq, chars_of};

verus! {

/// A player as the server describes one.
#[derive(Debug)]
pub struct UserBasic {
    pub id: String,
    pub name: String,
    pub title: Option<String>,
    pub rating: u32,
    pub provisional: bool,
}

impl Default for UserBasic {
    fn default() -> (r: Self)
        ensures
            r.id@ == Seq::<char>::empty(),
            r.name@ == Seq::<char>::empty(),
            r.title is None,
            r.rating == 0,
            !r.provisional,
    {
        UserBasic {
            id: String::new(),
            name: String::new(),
            title: None,
            rating: 0,
            provisional: false,
        }
    }
}

/// The state of a game in progress: the moves so far and the clocks.
#[derive(Debug)]
pub struct GameState {
    /// The kind of event this record came in.
    pub event_type: String,
    /// The moves played, separated by single spaces.
    pub moves: String,
    pub wtime: u32,
    pub btime: u32,
    pub winc: u32,
    pub binc: u32,
    pub status: String,
}

impl Default for GameState {
    fn default() -> (r: Self)
        ensures
            r.event_type@ == Seq::<char>::empty(),
            r.moves@ == Seq::<char>::empty(),
            r.wtime == 0 && r.btime == 0 && r.winc == 0 && r.binc == 0,
            r.status@ == Seq::<char>::empty(),
    {
        GameState {
            event_type: String::new(),
            moves: String::new(),
            wtime: 0,
            btime: 0,
            winc: 0,
            binc: 0,
            status: String::new(),
        }
    }
}

/// The views of a sequence of strings.
pub open spec fn string_views(v: Seq<String>) -> Seq<Seq<char>> {
    v.map_values(|x: String| x@)
}

/// The moves of a move list: none for the empty list, else the pieces
/// between single spaces.
pub open spec fn move_list(moves: Seq<char>) -> Seq<Seq<char>> {
    if moves.len() == 0 {
        Seq::empty()
    } else {
        split_seq(moves, ' ')
    }
}

impl GameState {
    /// The moves played, one string per move.
    pub fn moves_to_vec(&self) -> (r: Vec<String>)
        ensures
            string_views(r@) == move_list(self.moves@),
    {
        broadcast use vstd::string::group_string_axioms;

        let text = self.moves.as_str();
        let chars = chars_of(text);
        let mut out: Vec<String> = Vec::new();
        if chars.len() == 0 {
            proof {
                assert(string_views(out@) =~= Seq::<Seq<char>>::empty());
            }
            return out;
        }
        let ghost s = text@;
        let mut start: usize = 0;
        let mut i: usize = 0;
        proof {
            assert(s.take(0) =~= Seq::<char>::empty());
            assert(s.subrange(0, 0) =~= Seq::<char>::empty());
            assert(string_views(out@).push(s.subrange(0, 0)) =~= split_seq(s.take(0), ' '));
        }
        while i < chars.len()
            invariant
                chars@ == s,
                text@ == s,
                start <= i <= s.len(),
                string_views(out@).push(s.subrange(start as int, i as int)) == split_seq(
                    s.take(i as int),
                    ' ',
                ),
            decreases s.len() - i,
        {
            let c = chars[i];
            proof {
                assert(s.take(i + 1).drop_last() =~= s.take(i as int));
                assert(s.take(i + 1).last() == c);
            }
            if c == ' ' {
                let piece = text.substring_char(start, i).to_string();
                out.push(piece);
                start = i + 1;
                proof {
                    assert(s.subrange(start as int, start as int) =~= Seq::<char>::empty());
                    assert(string_views(out@).push(s.subrange(start as int, (i + 1) as int))
                        =~= split_seq(s.take(i + 1), ' '));
                }
            } else {
                proof {
                    assert(s.subrange(start as int, i + 1) =~= s.subrange(start as int, i as int).push(c));
                    assert(string_views(out@).push(s.subrange(start as int, (i + 1) as int))
                        =~= split_seq(s.take(i + 1), ' '));
                }
            }
            i = i + 1;
        }
        let last = text.substring_char(start, i).to_string();
        out.push(last);
        proof {
            assert(s.take(s.len() as int) =~= s);
            assert(string_views(out@) =~= split_seq(s, ' '));
        }
        out
    }
}

/// The full description of a game: its players, its state and the
/// position it started from.
#[derive(Debug)]
pub struct GameFull {
    pub event_type: String,
    pub id: String,
    pub white: UserBasic,
    pub black: UserBasic,
    pub state: GameState,
    /// The starting position, as FEN text.
    pub initial_fen: String,
}

impl Default for GameFull {
    fn default() -> (r: Self)
        ensures
            r.event_type@ == Seq::<char>::empty(),
            r.id@ == Seq::<char>::empty(),
            r.initial_fen@ == Seq::<char>::empty(),
            r.state.moves@ == Seq::<char>::empty(),
    {
        GameFull {
            event_type: String::new(),
            id: String::new(),
            white: UserBasic::default(),
            black: UserBasic::default(),
            state: GameState::default(),
            initial_fen: String::new(),
        }
    }
}

} // verus!
