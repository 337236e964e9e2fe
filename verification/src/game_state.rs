//! The capability a game must offer the search engine.
//!
//! A game is a type whose values are positions. The engine only needs to
//! enumerate the legal moves of a position, learn whose turn it is, apply a
//! move, and read the value of a finished game. The spec functions fix what
//! the executable methods return, and the proof obligations state the facts
//! the engine's own proofs rest on: a game that declares itself finite must
//! supply a ply measure that every legal move strictly decreases.

use vstd::prelude::*;
use rand::RngExt;
use crate::ucb::VALUE_LIMIT;

verus! {

/// Relies on rand::RngExt::random_range: returns a uniformly random index
/// below `n`. It panics only on an empty range, which `requires` excludes.
#[verifier::external_body]
pub(crate) fn random_index(n: usize) -> (r: usize)
    requires
        n > 0,
    ensures
        r < n,
{
    rand::rng().random_range(0..n)
}

/// A state is over when the game has a value for the player to move; by
/// `terminal_definedness` that does not depend on the player asked.
pub open spec fn is_over<G: GameState>(s: G) -> bool {
    s.spec_terminal(s.spec_player()) is Some
}

/// `to` can be reached from `from` by at most `n` legal moves.
pub open spec fn reachable_in<G: GameState>(from: G, to: G, n: nat) -> bool
    decreases n,
{
    to == from || (n > 0 && exists|m: G::Move|
        (#[trigger] from.spec_moves().contains(m)) && reachable_in(
            from.spec_apply(m),
            to,
            (n - 1) as nat,
        ))
}

/// `to` can be reached from `from` by some sequence of legal moves.
pub open spec fn reachable<G: GameState>(from: G, to: G) -> bool {
    exists|n: nat| reachable_in(from, to, n)
}

/// Reachability extends by one more legal move at the far end.
pub proof fn lemma_reachable_step<G: GameState>(a: G, b: G, m: G::Move, n: nat)
    requires
        reachable_in(a, b, n),
        b.spec_moves().contains(m),
    ensures
        reachable_in(a, b.spec_apply(m), n + 1),
    decreases n,
{
    if b == a {
        assert(a.spec_moves().contains(m));
        assert(reachable_in(a.spec_apply(m), b.spec_apply(m), n));
    } else {
        let m0 = choose|m0: G::Move|
            (#[trigger] a.spec_moves().contains(m0)) && reachable_in(
                a.spec_apply(m0),
                b,
                (n - 1) as nat,
            );
        lemma_reachable_step(a.spec_apply(m0), b, m, (n - 1) as nat);
        assert(a.spec_moves().contains(m0) && reachable_in(
            a.spec_apply(m0),
            b.spec_apply(m),
            n,
        ));
    }
}

/// What the search engine asks of a two-player, zero-sum game.
pub trait GameState: Sized {
    /// A transition between two states. The engine never looks inside a
    /// move; it only stores moves and hands them back.
    type Move;

    /// A small, copyable player identity.
    type Player: Copy;

    /// The legal moves of this state, in the order `available_moves` yields
    /// them.
    spec fn spec_moves(&self) -> Seq<Self::Move>;

    /// The player whose turn it is.
    spec fn spec_player(&self) -> Self::Player;

    /// The successor state a legal move produces.
    spec fn spec_apply(&self, m: Self::Move) -> Self;

    /// The value of a finished game to `p`; `None` while the game goes on.
    spec fn spec_terminal(&self, p: Self::Player) -> Option<i64>;

    /// Whether every playout of this game ends after a bounded number of
    /// plies. Simulations can only be run, and proved terminating, for games
    /// that declare this; a game without such a bound may still implement
    /// the trait, but the engine will refuse to search it.
    spec fn finite_game() -> bool;

    /// An upper bound on the number of plies the game can still last,
    /// meaningful only when `finite_game()` holds.
    spec fn measure(&self) -> nat;

    /// A finite game always offers a move while it is not over.
    proof fn moves_nonempty(&self)
        requires
            Self::finite_game(),
            self.spec_terminal(self.spec_player()) is None,
        ensures
            self.spec_moves().len() > 0,
    ;

    /// In a finite game every legal move strictly decreases the measure.
    proof fn move_decreases(&self, m: Self::Move)
        requires
            Self::finite_game(),
            self.spec_terminal(self.spec_player()) is None,
            self.spec_moves().contains(m),
        ensures
            self.spec_apply(m).measure() < self.measure(),
    ;

    /// Whether the game is over does not depend on which player asks.
    proof fn terminal_definedness(&self, p: Self::Player, q: Self::Player)
        ensures
            self.spec_terminal(p) is Some <==> self.spec_terminal(q) is Some,
    ;

    /// The state at the start of a game.
    fn initial_state() -> Self;

    /// The moves that are legal for the current player to take.
    fn available_moves(&self) -> (r: Vec<Self::Move>)
        ensures
            r@ == self.spec_moves(),
    ;

    /// In more words, the player whose turn it is.
    fn next_to_play(&self) -> (r: Self::Player)
        ensures
            r == self.spec_player(),
    ;

    /// Expects the move to be legal for this state; illegal moves are ruled
    /// out by the precondition rather than checked.
    fn apply_move(&self, m: &Self::Move) -> (r: Self)
        requires
            self.spec_moves().contains(*m),
        ensures
            r == self.spec_apply(*m),
    ;

    /// Returns `None` if this state is non-terminal (the game is still going
    /// on), and `Some(value)` if the game has finished and this state is
    /// worth `value` to `for_player`. Values are bounded so that the engine
    /// can accumulate them without overflow.
    fn terminal_value(&self, for_player: Self::Player) -> (r: Option<i64>)
        ensures
            r == self.spec_terminal(for_player),
            r matches Some(v) ==> -VALUE_LIMIT <= v <= VALUE_LIMIT,
    ;

    /// An exact copy of a move.
    fn clone_move(m: &Self::Move) -> (r: Self::Move)
        ensures
            r == *m,
    ;

    /// Value equality of two states, used when a new search looks for its
    /// root among the children of the previous choice.
    fn states_equal(&self, other: &Self) -> (r: bool)
        ensures
            r == (self == other),
    ;

    /// Used in simulations and expansion to choose either promising or
    /// pseudo-random moves: removes one element of `moves` (by default a
    /// uniformly random one) and applies it to this state. Games may
    /// override this with a biased choice; every override removes exactly
    /// one legal move and applies exactly that move.
    fn default_policy(&self, moves: &mut Vec<Self::Move>) -> (r: Option<(Self::Move, Self)>)
        requires
            forall|i: int|
                0 <= i < old(moves)@.len() ==> self.spec_moves().contains(
                    #[trigger] old(moves)@[i],
                ),
        ensures
            old(moves)@.len() == 0 ==> r is None && final(moves)@ == old(moves)@,
            old(moves)@.len() > 0 ==> (r matches Some((m, s)) && exists|i: int|
                0 <= i < old(moves)@.len() && old(moves)@[i] == m && final(moves)@ == old(
                    moves,
                )@.remove(i) && s == self.spec_apply(m)),
    {
        if moves.len() == 0 {
            return None;
        }
        let i = random_index(moves.len());
        let m = moves.remove(i);
        let s = self.apply_move(&m);
        Some((m, s))
    }
}

} // verus!
