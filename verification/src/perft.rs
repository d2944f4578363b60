//! The exhaustive node counter used as the primary correctness oracle:
//! for every pseudo-legal move, apply it speculatively and count the
//! accepted positions, recursing to the requested depth.

use vstd::prelude::*;
use vstd::std_specs::bits::u64_trailing_zeros;
use crate::attacks::Tables;
use crate::moves::Move;
use crate::state::{State, gen_move_ok, same_move, in_list};
use crate::movemake::{
    attacked, moved_state, flip_side, in_check_spec, lemma_moved_wf, lemma_moved_coherent,
    lemma_no_king_capture,
};

verus! {

/// The position invariant `perft` maintains through the game tree: a
/// sound board, one king per side with sound en-passant and castling
/// data, and a side not on move whose king is not attacked (their last
/// move was legal).
pub open spec fn search_ok(s: State) -> bool {
    &&& s.wf()
    &&& s.coherent()
    &&& !attacked(s, u64_trailing_zeros(s.kings.0 & s.enemy_bb()) as int, s.color)
}

/// The move record a 16-bit code names.
pub open spec fn move_of_code(c: int) -> Move {
    Move { data: c as u16 }
}

/// The move is generator-admissible and survives the legality filter.
pub open spec fn node_ok(s: State, m: Move) -> bool {
    m.valid() && gen_move_ok(s, m) && !in_check_spec(moved_state(s, m))
}

/// Addition that tops out at the counter's maximum.
pub open spec fn sat_add(a: nat, b: nat) -> nat {
    if a + b > 0xffffffffffffffff {
        0xffffffffffffffff
    } else {
        a + b
    }
}

/// The saturating node count of the legal-move tree: 1 at depth 0, else
/// the sum, over every accepted generator-admissible move, of the
/// subtree count of its successor.
pub open spec fn spec_perft(s: State, depth: nat) -> nat
    decreases depth, 65537int,
{
    if depth == 0 {
        1
    } else {
        code_sum(s, depth, 0)
    }
}

/// The tail of the node-count sum from move code `c` upward.
pub open spec fn code_sum(s: State, depth: nat, c: int) -> nat
    decreases depth, 65536 - c,
{
    if c < 0 || c >= 65536 || depth == 0 {
        0
    } else {
        sat_add(
            if node_ok(s, move_of_code(c)) {
                spec_perft(flip_side(moved_state(s, move_of_code(c))), (depth - 1) as nat)
            } else {
                0
            },
            code_sum(s, depth, c + 1),
        )
    }
}

/// The same sum restricted to the codes a move list holds.
pub open spec fn lcode_sum(s: State, depth: nat, moves: Seq<Move>, c: int) -> nat
    decreases depth, 65536 - c,
{
    if c < 0 || c >= 65536 || depth == 0 {
        0
    } else {
        sat_add(
            if moves.contains(move_of_code(c)) && node_ok(s, move_of_code(c)) {
                spec_perft(flip_side(moved_state(s, move_of_code(c))), (depth - 1) as nat)
            } else {
                0
            },
            lcode_sum(s, depth, moves, c + 1),
        )
    }
}

/// The node-count contributions of a move list's tail from entry `i` on.
pub open spec fn list_sum(s: State, depth: nat, moves: Seq<Move>, i: int) -> nat
    decreases moves.len() - i,
{
    if i < 0 || i >= moves.len() || depth == 0 {
        0
    } else {
        sat_add(
            if node_ok(s, moves[i]) {
                spec_perft(flip_side(moved_state(s, moves[i])), (depth - 1) as nat)
            } else {
                0
            },
            list_sum(s, depth, moves, i + 1),
        )
    }
}

/// Every term of every one of these sums stays within the counter.
proof fn lemma_sums_bounded(s: State, depth: nat, moves: Seq<Move>, c: int)
    ensures
        spec_perft(s, depth) <= 0xffffffffffffffff,
        code_sum(s, depth, c) <= 0xffffffffffffffff,
        lcode_sum(s, depth, moves, c) <= 0xffffffffffffffff,
    decreases 65536 - c,
{
    if depth > 0 && 0 <= c < 65536 {
        lemma_sums_bounded(s, depth, moves, c + 1);
    }
}

/// A valid move is its own code's move.
proof fn lemma_code_roundtrip(m: Move)
    ensures
        move_of_code(m.data as int) == m,
{
}

/// The restricted and unrestricted sums agree when the list holds every
/// admissible move.
proof fn lemma_code_vs_lcode(s: State, depth: nat, moves: Seq<Move>, c: int)
    requires
        forall|m: Move|
            m.valid() && #[trigger] gen_move_ok(s, m) ==> moves.contains(m),
    ensures
        code_sum(s, depth, c) == lcode_sum(s, depth, moves, c),
    decreases 65536 - c,
{
    if depth > 0 && 0 <= c < 65536 {
        lemma_code_vs_lcode(s, depth, moves, c + 1);
        if node_ok(s, move_of_code(c)) {
            assert(moves.contains(move_of_code(c)));
        }
    }
}

/// The restricted sum from `c` on reads only the lists' membership at
/// codes from `c` on.
proof fn lemma_lcode_agree(s: State, depth: nat, l1: Seq<Move>, l2: Seq<Move>, m0: Move, c: int)
    requires
        m0.data < c,
        forall|m: Move| m != m0 ==> (#[trigger] l1.contains(m) <==> l2.contains(m)),
    ensures
        lcode_sum(s, depth, l1, c) == lcode_sum(s, depth, l2, c),
    decreases 65536 - c,
{
    if depth > 0 && 0 <= c < 65536 {
        lemma_lcode_agree(s, depth, l1, l2, m0, c + 1);
        assert(move_of_code(c) != m0) by {
            lemma_code_roundtrip(m0);
        }
    }
}

/// Dropping one code from the list's membership takes exactly that
/// code's contribution out of the restricted sum.
proof fn lemma_lcode_insert(s: State, depth: nat, big: Seq<Move>, small: Seq<Move>, m0: Move, c: int)
    requires
        depth > 0,
        m0.valid(),
        0 <= c <= m0.data,
        big.contains(m0),
        !small.contains(m0),
        forall|m: Move| m != m0 ==> (#[trigger] big.contains(m) <==> small.contains(m)),
    ensures
        lcode_sum(s, depth, big, c) == sat_add(
            if node_ok(s, m0) {
                spec_perft(flip_side(moved_state(s, m0)), (depth - 1) as nat)
            } else {
                0
            },
            lcode_sum(s, depth, small, c),
        ),
    decreases 65536 - c,
{
    lemma_code_roundtrip(m0);
    let c0 = m0.data as int;
    assert(c0 < 65536);
    if c == c0 {
        assert(move_of_code(c) == m0);
        lemma_lcode_agree(s, depth, big, small, m0, c + 1);
        assert(!(small.contains(move_of_code(c)) && node_ok(s, move_of_code(c))));
        lemma_sums_bounded(s, depth, small, c);
        lemma_sums_bounded(s, depth, small, c + 1);
    } else {
        lemma_lcode_insert(s, depth, big, small, m0, c + 1);
        assert(move_of_code(c) != m0) by {
            if move_of_code(c) == m0 {
                assert(c == c0);
            }
        }
        assert(big.contains(move_of_code(c)) <==> small.contains(move_of_code(c)));
        lemma_sums_bounded(s, depth, small, c + 1);
        lemma_sums_bounded(s, depth, big, c + 1);
    }
}

/// A duplicate-free list of valid admissible moves contributes, entry by
/// entry, exactly its membership-restricted code sum.
proof fn lemma_list_vs_lcode(s: State, depth: nat, moves: Seq<Move>)
    requires
        depth > 0,
        forall|i: int|
            0 <= i < moves.len() ==> (#[trigger] moves[i]).valid() && gen_move_ok(s, moves[i]),
        forall|i: int, j: int|
            0 <= i < j < moves.len() ==> !same_move(#[trigger] moves[i], #[trigger] moves[j]),
    ensures
        list_sum(s, depth, moves, 0) == lcode_sum(s, depth, moves, 0),
    decreases moves.len(),
{
    if moves.len() == 0 {
        assert forall|c: int| true implies !moves.contains(move_of_code(c)) by {}
        lemma_lcode_empty(s, depth, moves, 0);
    } else {
        let m0 = moves[0];
        let rest = moves.subrange(1, moves.len() as int);
        assert(forall|i: int|
            0 <= i < rest.len() ==> #[trigger] rest[i] == moves[i + 1]);
        lemma_list_vs_lcode(s, depth, rest);
        assert(list_sum(s, depth, moves, 0) == sat_add(
            if node_ok(s, m0) {
                spec_perft(flip_side(moved_state(s, m0)), (depth - 1) as nat)
            } else {
                0
            },
            list_sum(s, depth, moves, 1),
        ));
        lemma_list_shift(s, depth, moves, rest, 1);
        assert(!rest.contains(m0)) by {
            if rest.contains(m0) {
                let i = choose|i: int| 0 <= i < rest.len() && rest[i] == m0;
                assert(moves[i + 1] == m0);
                assert(same_move(moves[0], moves[i + 1]));
            }
        }
        assert(moves.contains(m0)) by {
            assert(moves[0] == m0);
        }
        assert forall|m: Move| m != m0 implies (#[trigger] moves.contains(m) <==> rest.contains(
            m,
        )) by {
            if moves.contains(m) {
                let i = choose|i: int| 0 <= i < moves.len() && moves[i] == m;
                assert(i != 0);
                assert(rest[i - 1] == m);
            }
            if rest.contains(m) {
                let i = choose|i: int| 0 <= i < rest.len() && rest[i] == m;
                assert(moves[i + 1] == m);
            }
        }
        lemma_lcode_insert(s, depth, moves, rest, m0, 0);
    }
}

/// An empty list contributes nothing.
proof fn lemma_lcode_empty(s: State, depth: nat, moves: Seq<Move>, c: int)
    requires
        moves.len() == 0,
    ensures
        lcode_sum(s, depth, moves, c) == 0,
    decreases 65536 - c,
{
    if depth > 0 && 0 <= c < 65536 {
        lemma_lcode_empty(s, depth, moves, c + 1);
    }
}

/// Shifting the reading position by one reads the dropped-head tail.
proof fn lemma_list_shift(s: State, depth: nat, moves: Seq<Move>, rest: Seq<Move>, i: int)
    requires
        rest == moves.subrange(1, moves.len() as int),
        1 <= i <= moves.len(),
    ensures
        list_sum(s, depth, moves, i) == list_sum(s, depth, rest, i - 1),
    decreases moves.len() - i,
{
    if i < moves.len() && depth > 0 {
        assert(rest[i - 1] == moves[i]);
        lemma_list_shift(s, depth, moves, rest, i + 1);
    }
}

/// Counts the nodes of the legal-move tree under `board` to the given
/// depth, saturating at the counter's maximum: exactly `spec_perft`.
#[verifier::loop_isolation(false)]
#[verifier::rlimit(100)]
pub fn perft(board: &State, tables: &Tables, depth: u8) -> (r: u64)
    requires
        tables.wf(),
        search_ok(*board),
    ensures
        r == spec_perft(*board, depth as nat),
    decreases depth,
{
    if depth == 0 {
        return 1;
    }
    let mlist = board.pseudo_legal_moves(tables, false);
    proof {
        assert forall|m: Move|
            m.valid() && #[trigger] gen_move_ok(*board, m) implies mlist.moves@.contains(m) by {
            assert(in_list(mlist.moves@, m.s_from(), m.s_to(), m.s_flags()));
            let i = choose|i: int|
                0 <= i < mlist.moves@.len() && (#[trigger] mlist.moves@[i]).s_from() == m.s_from()
                    && mlist.moves@[i].s_to() == m.s_to() && mlist.moves@[i].s_flags()
                    == m.s_flags();
            crate::movemake::lemma_move_data_determined(mlist.moves@[i], m);
            assert(mlist.moves@[i] == m);
        }
        assert forall|i: int|
            0 <= i < mlist.moves@.len() implies (#[trigger] mlist.moves@[i]).valid() by {
            assert(gen_move_ok(*board, mlist.moves@[i]));
        }
        lemma_list_vs_lcode(*board, depth as nat, mlist.moves@);
        lemma_code_vs_lcode(*board, depth as nat, mlist.moves@, 0);
        assert(spec_perft(*board, depth as nat) == list_sum(*board, depth as nat, mlist.moves@, 0));
    }
    let mut count: u64 = 0;
    let mut i: usize = 0;
    while i < mlist.moves.len()
        invariant
            i <= mlist.moves@.len(),
            depth >= 1,
            spec_perft(*board, depth as nat) == sat_add(
                count as nat,
                list_sum(*board, depth as nat, mlist.moves@, i as int),
            ),
        decreases mlist.moves@.len() - i,
    {
        let m = mlist.moves[i];
        let mut nb = *board;
        proof {
            lemma_no_king_capture(*board, m);
            lemma_moved_wf(*board, m);
            lemma_moved_coherent(*board, m);
        }
        if nb.make_move(tables, &m) {
            proof {
                let mid = moved_state(*board, m);
                assert(nb == flip_side(mid));
                assert(nb.wf());
                assert(nb.coherent());
                assert(nb.kings.0 & nb.enemy_bb() == mid.kings.0 & mid.my_bb());
                assert(!attacked(mid, mid.my_king_sq(), mid.color.spec_opposite()));
                assert forall|t: int, by: crate::core_types::Color|
                    #[trigger] attacked(nb, t, by) == attacked(mid, t, by) by {
                    assert(nb.side_bb(by) == mid.side_bb(by) && nb.occ() == mid.occ());
                }
                assert(search_ok(nb));
            }
            let sub = if depth == 1 {
                1
            } else {
                perft(&nb, tables, depth - 1)
            };
            proof {
                assert(sub as nat == spec_perft(nb, (depth - 1) as nat));
                lemma_sums_bounded(*board, depth as nat, mlist.moves@, 0);
                lemma_sum_step(*board, depth as nat, mlist.moves@, i as int, count as nat);
            }
            count = count.saturating_add(sub);
        } else {
            proof {
                assert(!node_ok(*board, m));
                assert(list_sum(*board, depth as nat, mlist.moves@, i as int) == sat_add(
                    0,
                    list_sum(*board, depth as nat, mlist.moves@, i as int + 1),
                ));
            }
        }
        i += 1;
    }
    proof {
        assert(list_sum(*board, depth as nat, mlist.moves@, i as int) == 0);
    }
    count
}

/// Folding one accepted entry into the running count keeps the saturated
/// total on target.
proof fn lemma_sum_step(s: State, depth: nat, moves: Seq<Move>, i: int, acc: nat)
    requires
        depth > 0,
        0 <= i < moves.len(),
        node_ok(s, moves[i]),
        spec_perft(s, depth) == sat_add(acc, list_sum(s, depth, moves, i)),
    ensures
        spec_perft(s, depth) == sat_add(
            sat_add(acc, spec_perft(flip_side(moved_state(s, moves[i])), (depth - 1) as nat)),
            list_sum(s, depth, moves, i + 1),
        ),
{
}

} // verus!
