//! A toy integer game, small enough to search exhaustively in tests.
//!
//! The state is a running total starting at zero. The player to move is the
//! parity of the total: `true` plays on even numbers, `false` on odd ones.
//! The two moves add one or three to the total, and the game ends as soon as
//! the total's magnitude reaches ten; the finished game is then worth the
//! total (negated for the odd player) to whoever asks.

use vstd::prelude::*;
use crate::game_state::GameState;
use crate::search::{SearchParameters, Searcher};

verus! {

/// The running total of the toy game.
#[derive(PartialEq, Eq, Structural, Clone, Copy, Debug)]
pub struct GS(pub i32);

impl GS {
    /// The signed value of the total from `for_player`'s point of view.
    pub open spec fn spec_signed_total(&self, for_player: bool) -> int {
        if for_player == (self.0 as int % 2 == 0) {
            self.0 as int
        } else {
            -(self.0 as int)
        }
    }

    /// Whether the game is over: the total's magnitude reached ten.
    pub open spec fn spec_over(&self) -> bool {
        self.0 as int >= 10 || self.0 as int <= -10
    }
}

impl GameState for GS {
    type Move = i32;

    type Player = bool;

    open spec fn spec_moves(&self) -> Seq<i32> {
        if self.spec_over() {
            Seq::empty()
        } else {
            seq![1i32, 3i32]
        }
    }

    open spec fn spec_player(&self) -> bool {
        self.0 as int % 2 == 0
    }

    open spec fn spec_apply(&self, m: i32) -> GS {
        GS((self.0 + m) as i32)
    }

    open spec fn spec_terminal(&self, p: bool) -> Option<i64> {
        if self.spec_signed_total(p) >= 10 || self.spec_signed_total(p) <= -10 {
            Some(self.spec_signed_total(p) as i64)
        } else {
            None
        }
    }

    open spec fn finite_game() -> bool {
        true
    }

    open spec fn measure(&self) -> nat {
        if self.spec_over() {
            0
        } else {
            (10 - self.0) as nat
        }
    }

    proof fn moves_nonempty(&self) {
    }

    proof fn move_decreases(&self, m: i32) {
        assert(m == 1 || m == 3);
    }

    proof fn terminal_definedness(&self, p: bool, q: bool) {
    }

    fn initial_state() -> Self {
        GS(0)
    }

    fn available_moves(&self) -> (r: Vec<i32>) {
        if self.terminal_value(self.next_to_play()).is_some() {
            let r: Vec<i32> = Vec::new();
            proof {
                assert(r@ =~= self.spec_moves());
            }
            r
        } else {
            let mut r: Vec<i32> = Vec::new();
            r.push(1);
            r.push(3);
            proof {
                assert(r@ =~= self.spec_moves());
            }
            r
        }
    }

    fn next_to_play(&self) -> (r: bool) {
        parity_even(self.0)
    }

    fn apply_move(&self, m: &i32) -> (r: Self) {
        GS(self.0 + *m)
    }

    fn terminal_value(&self, for_player: bool) -> (r: Option<i64>) {
        let signed: i64 = if for_player == self.next_to_play() {
            self.0 as i64
        } else {
            -(self.0 as i64)
        };
        if signed >= 10 || signed <= -10 {
            Some(signed)
        } else {
            None
        }
    }

    fn clone_move(m: &i32) -> (r: i32) {
        *m
    }

    fn states_equal(&self, other: &Self) -> (r: bool) {
        self.0 == other.0
    }
}

/// Whether `n` is even, agreeing with the mathematical `n % 2 == 0`.
fn parity_even(n: i32) -> (r: bool)
    ensures
        r == (n as int % 2 == 0),
{
    if n >= 0 {
        (n as u64) % 2 == 0
    } else {
        let p = (-(n as i64)) as u64;
        proof {
            vstd::arithmetic::div_mod::lemma_mod_multiples_vanish(-(n as int), n as int, 2);
        }
        p % 2 == 0
    }
}

/// Searches the toy game from its initial state with a thousand
/// simulations and the conventional exploration factor of one over the
/// square root of two; the result is one of the two legal moves.
pub fn search() -> (m: i32)
    ensures
        m == 1 || m == 3,
{
    let mut searcher: Searcher<GS> = Searcher::new(
        SearchParameters { exploration_factor: 46341, search_iterations: 1000 },
    );
    let start = GS(0);
    let m = searcher.search(start);
    proof {
        assert(start.spec_moves() == seq![1i32, 3i32]);
        let k = choose|k: int|
            0 <= k < start.spec_moves().len() && #[trigger] start.spec_moves()[k] == m;
    }
    m
}

} // verus!
