//! The bitboard rules engine: legality and consequences of placing a piece,
//! role swap, piece counts, and construction from a flat cell description.
use vstd::prelude::*;

use crate::bits::{
    bit, lemma_bit_or, lemma_bit_single, lemma_count_or_disjoint, lemma_count_single,
    lemma_or_bit_disjoint, lemma_or_comm, lemma_or_zero, lemma_place_disjoint, lemma_shl_shl,
    lemma_shr_shr, lemma_single_in, lemma_split_off, lemma_subset_or, pop, popcount, sq,
};

verus! {

/// Pieces on the board, one bit per square in two 64-bit masks: one for the
/// side to move (the "player") and one for the opponent. Square `i` counts
/// in row-major order, `i = row * 8 + col`.
#[derive(Clone, Copy, PartialEq, Eq, Structural, Debug)]
pub struct Board {
    pub player_pieces: u64,
    pub opponent_pieces: u64,
}

/// The smaller of two counts.
pub open spec fn min_n(a: nat, b: nat) -> nat {
    if a <= b {
        a
    } else {
        b
    }
}

/// Square `i` holds a piece of either side.
pub open spec fn occupied(b: Board, i: u64) -> bool {
    (b.player_pieces | b.opponent_pieces) & sq(i) != 0
}

/// The walk away from a placement at `pos` toward higher indices, `shift`
/// columns-and-rows at a time, for at most `steps` squares: the captured
/// opponent squares, or `None` when the walk reaches an empty square or the
/// edge before a mover piece.
pub open spec fn capture_up(b: Board, pos: u64, shift: u64, steps: nat) -> Option<u64>
    decreases steps,
{
    if steps == 0 {
        None
    } else {
        let p = (pos + shift) as u64;
        if b.opponent_pieces & sq(p) != 0 {
            match capture_up(b, p, shift, (steps - 1) as nat) {
                Some(rest) => Some(rest | sq(p)),
                None => None,
            }
        } else if b.player_pieces & sq(p) != 0 {
            Some(0u64)
        } else {
            None
        }
    }
}

/// The mirror of `capture_up` toward lower indices.
pub open spec fn capture_down(b: Board, pos: u64, shift: u64, steps: nat) -> Option<u64>
    decreases steps,
{
    if steps == 0 {
        None
    } else {
        let p = (pos - shift) as u64;
        if b.opponent_pieces & sq(p) != 0 {
            match capture_down(b, p, shift, (steps - 1) as nat) {
                Some(rest) => Some(rest | sq(p)),
                None => None,
            }
        } else if b.player_pieces & sq(p) != 0 {
            Some(0u64)
        } else {
            None
        }
    }
}

/// The committed flips of one direction: the captured squares, or nothing
/// when the walk captures nothing.
pub open spec fn dir_flips_up(b: Board, pos: u64, shift: u64, steps: nat) -> u64 {
    match capture_up(b, pos, shift, steps) {
        Some(m) => m,
        None => 0u64,
    }
}

/// The mirror of `dir_flips_up` toward lower indices.
pub open spec fn dir_flips_down(b: Board, pos: u64, shift: u64, steps: nat) -> u64 {
    match capture_down(b, pos, shift, steps) {
        Some(m) => m,
        None => 0u64,
    }
}

/// Every opponent square flipped by a placement at square `i`: the union of
/// the eight directional walks, each bounded by the distance to the board
/// edge so that no walk wraps into an adjacent row.
pub open spec fn flip_mask(b: Board, i: u64) -> u64 {
    let x = i % 8;
    let y = i / 8;
    let m1 = if x < 7 {
        dir_flips_up(b, i, 1, (7 - x) as nat)
    } else {
        0u64
    };
    let m2 = if x < 7 && y < 7 {
        dir_flips_up(b, i, 9, min_n((7 - x) as nat, (7 - y) as nat))
    } else {
        0u64
    };
    let m3 = if x < 7 && y > 0 {
        dir_flips_down(b, i, 7, min_n((7 - x) as nat, y as nat))
    } else {
        0u64
    };
    let m4 = if x > 0 {
        dir_flips_down(b, i, 1, x as nat)
    } else {
        0u64
    };
    let m5 = if x > 0 && y > 0 {
        dir_flips_down(b, i, 9, min_n(x as nat, y as nat))
    } else {
        0u64
    };
    let m6 = if x > 0 && y < 7 {
        dir_flips_up(b, i, 7, min_n(x as nat, (7 - y) as nat))
    } else {
        0u64
    };
    let m7 = if y < 7 {
        dir_flips_up(b, i, 8, (7 - y) as nat)
    } else {
        0u64
    };
    let m8 = if y > 0 {
        dir_flips_down(b, i, 8, y as nat)
    } else {
        0u64
    };
    m1 | m2 | m3 | m4 | m5 | m6 | m7 | m8
}

/// Placing a mover piece at square `i` is legal: the square is on the board
/// and empty, and at least one opponent run is captured.
pub open spec fn place_ok(b: Board, i: int) -> bool {
    &&& 0 <= i < 64
    &&& !occupied(b, i as u64)
    &&& flip_mask(b, i as u64) != 0
}

/// The board after a legal placement at square `i`: the mover gains the
/// flipped run and the placed square, the opponent loses the flipped run.
pub open spec fn place_result(b: Board, i: u64) -> Board {
    let m = flip_mask(b, i);
    Board {
        player_pieces: b.player_pieces | m | sq(i),
        opponent_pieces: b.opponent_pieces & !m,
    }
}

/// The side to move has a legal placement at some square at or above `idx`.
pub open spec fn has_move_from(b: Board, idx: int) -> bool {
    exists|j: int| idx <= j < 64 && #[trigger] place_ok(b, j)
}

/// The mask holding the squares whose cell marker equals `marker` among the
/// first `n` cells.
pub open spec fn cell_mask_upto(cells: Seq<u8>, marker: u8, n: nat) -> u64
    decreases n,
{
    if n == 0 {
        0u64
    } else {
        cell_mask_upto(cells, marker, (n - 1) as nat) | (if n - 1 < cells.len() && cells[n - 1]
            == marker {
            sq((n - 1) as u64)
        } else {
            0u64
        })
    }
}

/// The board described by a flat cell sequence: marker 1 is a mover piece,
/// marker 2 an opponent piece, anything else leaves the square empty; cells
/// beyond the 64th are ignored and missing cells leave squares empty.
pub open spec fn board_of(cells: Seq<u8>) -> Board {
    Board {
        player_pieces: cell_mask_upto(cells, 1, 64),
        opponent_pieces: cell_mask_upto(cells, 2, 64),
    }
}

impl Board {
    /// The two masks never claim the same square.
    pub open spec fn wf(self) -> bool {
        self.player_pieces & self.opponent_pieces == 0
    }

    /// The board as seen by the other side.
    pub open spec fn swapped_spec(self) -> Board {
        Board { player_pieces: self.opponent_pieces, opponent_pieces: self.player_pieces }
    }

    /// How many pieces stand on the board in all.
    pub open spec fn total_pieces(self) -> nat {
        pop(self.player_pieces) + pop(self.opponent_pieces)
    }

    /// Returns the board with the mover and opponent roles exchanged.
    pub fn swapped(&self) -> (r: Board)
        ensures
            r == self.swapped_spec(),
            r.swapped_spec() == *self,
    {
        Board { player_pieces: self.opponent_pieces, opponent_pieces: self.player_pieces }
    }

    /// The mover's occupancy mask.
    pub fn get_player(&self) -> (r: u64)
        ensures
            r == self.player_pieces,
    {
        self.player_pieces
    }

    /// The opponent's occupancy mask.
    pub fn get_opponent(&self) -> (r: u64)
        ensures
            r == self.opponent_pieces,
    {
        self.opponent_pieces
    }

    /// How many pieces the mover has.
    pub fn player_score(&self) -> (r: u32)
        ensures
            r as nat == pop(self.player_pieces),
            r <= 64,
    {
        popcount(self.player_pieces)
    }

    /// How many pieces the opponent has.
    pub fn opponent_score(&self) -> (r: u32)
        ensures
            r as nat == pop(self.opponent_pieces),
            r <= 64,
    {
        popcount(self.opponent_pieces)
    }

    /// Attempts to place a mover piece at square `index` and flip the
    /// captured opponent runs. Fails exactly when the square is off the
    /// board, already occupied by either side, or captures nothing. A legal
    /// placement adds exactly one piece in all: the flips change ownership,
    /// not occupancy.
    pub fn place_piece(&self, index: usize) -> (r: Result<Board, ()>)
        ensures
            r is Ok <==> place_ok(*self, index as int),
            r matches Ok(nb) ==> nb == place_result(*self, index as u64),
            self.wf() && r is Ok ==> {
                &&& r->Ok_0.wf()
                &&& r->Ok_0.total_pieces() == self.total_pieces() + 1
            },
    {
        if index >= 64 {
            return Err(());
        }
        let cursor = 1u64 << (index as u64);

        if (self.player_pieces | self.opponent_pieces) & cursor != 0 {
            return Err(());
        }
        let y = index / 8;
        let x = index % 8;
        proof {
            vstd::arithmetic::div_mod::lemma_fundamental_div_mod(index as int, 8);
            assert(x < 8 && y < 8) by (nonlinear_arith)
                requires
                    x == index as int % 8,
                    y == index as int / 8,
                    index < 64,
            ;
        }
        let ghost pos: u64 = index as u64;

        let t1 = if x < 7 {
            self.flip_pieces_left(cursor, 1, 7 - x, Ghost(pos))
        } else {
            0u64
        };
        let t2 = if x < 7 && y < 7 {
            self.flip_pieces_left(cursor, 9, if 7 - x <= 7 - y {
                7 - x
            } else {
                7 - y
            }, Ghost(pos))
        } else {
            0u64
        };
        let t3 = if x < 7 && y > 0 {
            self.flip_pieces_right(cursor, 7, if 7 - x <= y {
                7 - x
            } else {
                y
            }, Ghost(pos))
        } else {
            0u64
        };
        let t4 = if x > 0 {
            self.flip_pieces_right(cursor, 1, x, Ghost(pos))
        } else {
            0u64
        };
        let t5 = if x > 0 && y > 0 {
            self.flip_pieces_right(cursor, 9, if x <= y {
                x
            } else {
                y
            }, Ghost(pos))
        } else {
            0u64
        };
        let t6 = if x > 0 && y < 7 {
            self.flip_pieces_left(cursor, 7, if x <= 7 - y {
                x
            } else {
                7 - y
            }, Ghost(pos))
        } else {
            0u64
        };
        let t7 = if y < 7 {
            self.flip_pieces_left(cursor, 8, 7 - y, Ghost(pos))
        } else {
            0u64
        };
        let t8 = if y > 0 {
            self.flip_pieces_right(cursor, 8, y, Ghost(pos))
        } else {
            0u64
        };
        let mask = t1 | t2 | t3 | t4 | t5 | t6 | t7 | t8;
        assert(mask == flip_mask(*self, index as u64));

        if mask != 0 {
            proof {
                if self.wf() {
                    lemma_place_adds_one(*self, index as u64);
                }
            }
            Ok(
                Board {
                    // Combines the flip mask with the placed piece
                    player_pieces: self.player_pieces | mask | cursor,
                    opponent_pieces: self.opponent_pieces & !mask,
                },
            )
        } else {
            // No run was captured in any direction: the placement is illegal
            Err(())
        }
    }

    /// Walks from the placement cursor toward higher indices, `shift` bit
    /// positions at a time, and returns the squares to flip in that
    /// direction.
    fn flip_pieces_left(&self, cursor: u64, shift: usize, steps: usize, pos: Ghost<u64>) -> (r: u64)
        requires
            pos@ < 64,
            cursor == sq(pos@),
            1 <= shift <= 9,
            pos@ + shift * steps < 64,
        ensures
            r == dir_flips_up(*self, pos@, shift as u64, steps as nat),
    {
        match self.scan_up(cursor, shift, steps, pos) {
            Some(line_mask) => line_mask,
            None => 0,
        }
    }

    /// The mirror of `flip_pieces_left` toward lower indices.
    fn flip_pieces_right(&self, cursor: u64, shift: usize, steps: usize, pos: Ghost<u64>) -> (r:
        u64)
        requires
            pos@ < 64,
            cursor == sq(pos@),
            1 <= shift <= 9,
            shift * steps <= pos@,
        ensures
            r == dir_flips_down(*self, pos@, shift as u64, steps as nat),
    {
        match self.scan_down(cursor, shift, steps, pos) {
            Some(line_mask) => line_mask,
            None => 0,
        }
    }

    /// Walks contiguous opponent squares toward higher indices and returns
    /// the captured squares, or `None` when the walk reaches an empty square
    /// or the board edge before a mover piece.
    fn scan_up(&self, cursor: u64, shift: usize, steps: usize, pos: Ghost<u64>) -> (r: Option<u64>)
        requires
            pos@ < 64,
            cursor == sq(pos@),
            1 <= shift <= 9,
            pos@ + shift * steps < 64,
        ensures
            r == capture_up(*self, pos@, shift as u64, steps as nat),
        decreases steps,
    {
        if steps == 0 {
            return None;
        }
        proof {
            assert(shift * (steps - 1) == shift * steps - shift && shift * 1 <= shift * steps)
                by (nonlinear_arith)
                requires
                    1 <= steps,
                    0 <= shift,
            ;
            lemma_shl_shl(pos@, shift as u64);
        }
        let c = cursor << shift;
        if self.opponent_pieces & c != 0 {
            // Mark their piece for flipping and walk on
            match self.scan_up(c, shift, steps - 1, Ghost((pos@ + shift) as u64)) {
                Some(line_mask) => Some(line_mask | c),
                None => None,
            }
        } else if self.player_pieces & c != 0 {
            // Reached one of our pieces: the marked squares are captured
            Some(0)
        } else {
            // Reached an empty square: nothing is captured here
            None
        }
    }

    /// The mirror of `scan_up` toward lower indices.
    fn scan_down(&self, cursor: u64, shift: usize, steps: usize, pos: Ghost<u64>) -> (r: Option<
        u64,
    >)
        requires
            pos@ < 64,
            cursor == sq(pos@),
            1 <= shift <= 9,
            shift * steps <= pos@,
        ensures
            r == capture_down(*self, pos@, shift as u64, steps as nat),
        decreases steps,
    {
        if steps == 0 {
            return None;
        }
        proof {
            assert(shift * (steps - 1) == shift * steps - shift && shift * 1 <= shift * steps)
                by (nonlinear_arith)
                requires
                    1 <= steps,
                    0 <= shift,
            ;
            lemma_shr_shr(pos@, shift as u64);
        }
        let c = cursor >> shift;
        if self.opponent_pieces & c != 0 {
            // Mark their piece for flipping and walk on
            match self.scan_down(c, shift, steps - 1, Ghost((pos@ - shift) as u64)) {
                Some(line_mask) => Some(line_mask | c),
                None => None,
            }
        } else if self.player_pieces & c != 0 {
            // Reached one of our pieces: the marked squares are captured
            Some(0)
        } else {
            // Reached an empty square: nothing is captured here
            None
        }
    }

    /// Builds a board from a flat cell description, one marker per square in
    /// row-major order: 0 leaves the square empty, 1 places a mover piece,
    /// 2 an opponent piece. Out-of-range markers are ignored, cells beyond
    /// the 64th are ignored, and a short description leaves the remaining
    /// squares empty.
    pub fn from_cells(spaces: &[u8]) -> (r: Board)
        ensures
            r == board_of(spaces@),
            r.wf(),
    {
        let mut player: u64 = 0;
        let mut opponent: u64 = 0;
        let mut i: usize = 0;
        while i < 64
            invariant
                i <= 64,
                player == cell_mask_upto(spaces@, 1, i as nat),
                opponent == cell_mask_upto(spaces@, 2, i as nat),
            decreases 64 - i,
        {
            let t1 = if i < spaces.len() && spaces[i] == 1 {
                1u64 << (i as u64)
            } else {
                0u64
            };
            player = player | t1;
            let t2 = if i < spaces.len() && spaces[i] == 2 {
                1u64 << (i as u64)
            } else {
                0u64
            };
            opponent = opponent | t2;
            i = i + 1;
        }
        let board = Board { player_pieces: player, opponent_pieces: opponent };
        proof {
            lemma_cell_masks_disjoint(spaces@, 64);
        }
        board
    }
}

/// Which squares `board_of` fills: exactly those whose cell carries the
/// side's marker.
pub proof fn lemma_board_of_bits(cells: Seq<u8>)
    ensures
        forall|i: u64|
            i < 64 ==> (#[trigger] bit(board_of(cells).player_pieces, i) <==> ((i as int)
                < cells.len() && cells[i as int] == 1)),
        forall|i: u64|
            i < 64 ==> (#[trigger] bit(board_of(cells).opponent_pieces, i) <==> ((i as int)
                < cells.len() && cells[i as int] == 2)),
        board_of(cells).wf(),
{
    lemma_cell_masks_disjoint(cells, 64);
    assert forall|i: u64| i < 64 implies (#[trigger] bit(board_of(cells).player_pieces, i) <==> ((
    i as int) < cells.len() && cells[i as int] == 1)) by {
        lemma_cell_mask_bit(cells, 1, 64, i);
    }
    assert forall|i: u64| i < 64 implies (#[trigger] bit(board_of(cells).opponent_pieces, i) <==> ((
    i as int) < cells.len() && cells[i as int] == 2)) by {
        lemma_cell_mask_bit(cells, 2, 64, i);
    }
}

/// Which squares a cell-marker mask holds: exactly those whose cell carries
/// the marker.
proof fn lemma_cell_mask_bit(cells: Seq<u8>, marker: u8, n: nat, i: u64)
    requires
        n <= 64,
        i < 64,
    ensures
        bit(cell_mask_upto(cells, marker, n), i) <==> ((i as nat) < n && (i as int) < cells.len()
            && cells[i as int] == marker),
    decreases n,
{
    if n == 0 {
        lemma_or_zero(sq(i));
    } else {
        lemma_cell_mask_bit(cells, marker, (n - 1) as nat, i);
        let prev = cell_mask_upto(cells, marker, (n - 1) as nat);
        let t = if n - 1 < cells.len() && cells[n - 1] == marker {
            sq((n - 1) as u64)
        } else {
            0u64
        };
        lemma_bit_or(prev, t, i);
        lemma_bit_single((n - 1) as u64, i);
        lemma_or_zero(sq(i));
    }
}

/// The mover mask and the opponent mask of a cell description are disjoint:
/// no cell carries both markers.
proof fn lemma_cell_masks_disjoint(cells: Seq<u8>, n: nat)
    requires
        n <= 64,
    ensures
        cell_mask_upto(cells, 1, n) & cell_mask_upto(cells, 2, n) == 0,
    decreases n,
{
    if n == 0 {
        lemma_or_zero(0u64);
    } else {
        lemma_cell_masks_disjoint(cells, (n - 1) as nat);
        let p = cell_mask_upto(cells, 1, (n - 1) as nat);
        let o = cell_mask_upto(cells, 2, (n - 1) as nat);
        let j = (n - 1) as u64;
        lemma_cell_mask_bit(cells, 1, (n - 1) as nat, j);
        lemma_cell_mask_bit(cells, 2, (n - 1) as nat, j);
        lemma_or_zero(p);
        lemma_or_zero(o);
        if n - 1 < cells.len() && cells[n - 1] == 1 {
            lemma_or_bit_disjoint(p, o, j);
        } else if n - 1 < cells.len() && cells[n - 1] == 2 {
            lemma_or_comm(p, o);
            lemma_or_bit_disjoint(o, p, j);
            lemma_or_comm(o | sq(j), p);
        }
    }
}

impl From<&[u8]> for Board {
    /// Builds a board from a flat cell description; see `Board::from_cells`.
    fn from(spaces: &[u8]) -> (r: Board) {
        Board::from_cells(spaces)
    }
}

impl vstd::std_specs::convert::FromSpecImpl<&[u8]> for Board {
    open spec fn obeys_from_spec() -> bool {
        true
    }

    open spec fn from_spec(spaces: &[u8]) -> Board {
        board_of(spaces@)
    }
}

/// The square `k` walk steps above `pos`.
pub open spec fn pos_up(pos: u64, shift: u64, k: int) -> u64 {
    (pos + shift * k) as u64
}

/// The square `k` walk steps below `pos`.
pub open spec fn pos_down(pos: u64, shift: u64, k: int) -> u64 {
    (pos - shift * k) as u64
}

/// The squares strictly between `pos` and the square `k` steps above it.
pub open spec fn run_up(pos: u64, shift: u64, k: nat) -> u64
    decreases k,
{
    if k <= 1 {
        0u64
    } else {
        sq((pos + shift) as u64) | run_up((pos + shift) as u64, shift, (k - 1) as nat)
    }
}

/// The squares strictly between `pos` and the square `k` steps below it.
pub open spec fn run_down(pos: u64, shift: u64, k: nat) -> u64
    decreases k,
{
    if k <= 1 {
        0u64
    } else {
        sq((pos - shift) as u64) | run_down((pos - shift) as u64, shift, (k - 1) as nat)
    }
}

/// A directional capture holds only opponent squares.
proof fn lemma_capture_up_in_opponent(b: Board, pos: u64, shift: u64, steps: nat)
    ensures
        match capture_up(b, pos, shift, steps) {
            Some(m) => m & b.opponent_pieces == m,
            None => true,
        },
    decreases steps,
{
    if steps > 0 {
        let p = (pos + shift) as u64;
        lemma_or_zero(b.opponent_pieces);
        if b.opponent_pieces & sq(p) != 0 {
            lemma_capture_up_in_opponent(b, p, shift, (steps - 1) as nat);
            if let Some(rest) = capture_up(b, p, shift, (steps - 1) as nat) {
                lemma_single_in(b.opponent_pieces, p);
                lemma_subset_or(rest, sq(p), b.opponent_pieces);
            }
        }
    }
}

/// The mirror of `lemma_capture_up_in_opponent` toward lower indices.
proof fn lemma_capture_down_in_opponent(b: Board, pos: u64, shift: u64, steps: nat)
    ensures
        match capture_down(b, pos, shift, steps) {
            Some(m) => m & b.opponent_pieces == m,
            None => true,
        },
    decreases steps,
{
    if steps > 0 {
        let p = (pos - shift) as u64;
        lemma_or_zero(b.opponent_pieces);
        if b.opponent_pieces & sq(p) != 0 {
            lemma_capture_down_in_opponent(b, p, shift, (steps - 1) as nat);
            if let Some(rest) = capture_down(b, p, shift, (steps - 1) as nat) {
                lemma_single_in(b.opponent_pieces, p);
                lemma_subset_or(rest, sq(p), b.opponent_pieces);
            }
        }
    }
}

/// Law: a placement flips opponent squares only — the flip mask lies within
/// the opponent's mask.
pub proof fn lemma_flip_mask_in_opponent(b: Board, i: u64)
    ensures
        flip_mask(b, i) & b.opponent_pieces == flip_mask(b, i),
{
    let x = i % 8;
    let y = i / 8;
    let o = b.opponent_pieces;
    lemma_or_zero(o);
    lemma_capture_up_in_opponent(b, i, 1, (7 - x) as nat);
    lemma_capture_up_in_opponent(b, i, 9, min_n((7 - x) as nat, (7 - y) as nat));
    lemma_capture_down_in_opponent(b, i, 7, min_n((7 - x) as nat, y as nat));
    lemma_capture_down_in_opponent(b, i, 1, x as nat);
    lemma_capture_down_in_opponent(b, i, 9, min_n(x as nat, y as nat));
    lemma_capture_up_in_opponent(b, i, 7, min_n(x as nat, (7 - y) as nat));
    lemma_capture_up_in_opponent(b, i, 8, (7 - y) as nat);
    lemma_capture_down_in_opponent(b, i, 8, y as nat);
    let m1 = if x < 7 {
        dir_flips_up(b, i, 1, (7 - x) as nat)
    } else {
        0u64
    };
    let m2 = if x < 7 && y < 7 {
        dir_flips_up(b, i, 9, min_n((7 - x) as nat, (7 - y) as nat))
    } else {
        0u64
    };
    let m3 = if x < 7 && y > 0 {
        dir_flips_down(b, i, 7, min_n((7 - x) as nat, y as nat))
    } else {
        0u64
    };
    let m4 = if x > 0 {
        dir_flips_down(b, i, 1, x as nat)
    } else {
        0u64
    };
    let m5 = if x > 0 && y > 0 {
        dir_flips_down(b, i, 9, min_n(x as nat, y as nat))
    } else {
        0u64
    };
    let m6 = if x > 0 && y < 7 {
        dir_flips_up(b, i, 7, min_n(x as nat, (7 - y) as nat))
    } else {
        0u64
    };
    let m7 = if y < 7 {
        dir_flips_up(b, i, 8, (7 - y) as nat)
    } else {
        0u64
    };
    let m8 = if y > 0 {
        dir_flips_down(b, i, 8, y as nat)
    } else {
        0u64
    };
    lemma_subset_or(m1, m2, o);
    lemma_subset_or(m1 | m2, m3, o);
    lemma_subset_or(m1 | m2 | m3, m4, o);
    lemma_subset_or(m1 | m2 | m3 | m4, m5, o);
    lemma_subset_or(m1 | m2 | m3 | m4 | m5, m6, o);
    lemma_subset_or(m1 | m2 | m3 | m4 | m5 | m6, m7, o);
    lemma_subset_or(m1 | m2 | m3 | m4 | m5 | m6 | m7, m8, o);
}

/// Law: a legal placement adds exactly one piece in all — the flips change
/// ownership, not occupancy — and keeps the two masks disjoint.
pub proof fn lemma_place_adds_one(b: Board, i: u64)
    requires
        b.wf(),
        place_ok(b, i as int),
    ensures
        place_result(b, i).wf(),
        place_result(b, i).total_pieces() == b.total_pieces() + 1,
{
    let m = flip_mask(b, i);
    let c = sq(i);
    let p = b.player_pieces;
    let o = b.opponent_pieces;
    lemma_flip_mask_in_opponent(b, i);
    lemma_place_disjoint(p, o, m, c);
    lemma_split_off(o, m);
    lemma_count_or_disjoint(o & !m, m, 64);
    lemma_count_or_disjoint(p, m, 64);
    lemma_count_or_disjoint(p | m, c, 64);
    lemma_count_single(i, 64);
}

/// Law: a committed directional capture toward higher indices is a
/// contiguous run of opponent squares bounded below by the placement square
/// and above by an existing mover piece.
pub proof fn lemma_capture_up_run(b: Board, pos: u64, shift: u64, steps: nat, m: u64)
    requires
        1 <= shift,
        pos + shift * steps < 64,
        capture_up(b, pos, shift, steps) == Some(m),
    ensures
        exists|k: int|
            {
                &&& 1 <= k <= steps
                &&& bit(b.player_pieces, #[trigger] pos_up(pos, shift, k))
                &&& forall|j: int| 1 <= j < k ==> bit(b.opponent_pieces, #[trigger] pos_up(pos, shift, j))
                &&& m == run_up(pos, shift, k as nat)
            },
    decreases steps,
{
    assert(shift * (steps - 1) == shift * steps - shift && shift * 1 <= shift * steps)
        by (nonlinear_arith)
        requires
            1 <= steps,
            0 <= shift,
    ;
    let p = (pos + shift) as u64;
    if b.opponent_pieces & sq(p) != 0 {
        let rest = capture_up(b, p, shift, (steps - 1) as nat)->Some_0;
        lemma_capture_up_run(b, p, shift, (steps - 1) as nat, rest);
        let k0 = choose|k: int|
            {
                &&& 1 <= k <= steps - 1
                &&& bit(b.player_pieces, #[trigger] pos_up(p, shift, k))
                &&& forall|j: int| 1 <= j < k ==> bit(b.opponent_pieces, #[trigger] pos_up(p, shift, j))
                &&& rest == run_up(p, shift, k as nat)
            };
        assert forall|j: int| 0 <= j <= k0 implies pos_up(p, shift, j) == pos_up(
            pos,
            shift,
            j + 1,
        ) by {
            assert(shift * (j + 1) == shift * j + shift) by (nonlinear_arith);
            assert(shift * j <= shift * (steps - 1)) by (nonlinear_arith)
                requires
                    0 <= j <= steps - 1,
                    0 <= shift,
            ;
        }
        let k = k0 + 1;
        assert(pos_up(pos, shift, 1) == p);
        assert(bit(b.player_pieces, pos_up(pos, shift, k)));
        assert forall|j: int| 1 <= j < k implies bit(
            b.opponent_pieces,
            #[trigger] pos_up(pos, shift, j),
        ) by {
            if j == 1 {
                assert(pos_up(pos, shift, 1) == p);
            } else {
                assert(bit(b.opponent_pieces, pos_up(p, shift, j - 1)));
            }
        }
        lemma_or_comm(rest, sq(p));
        assert(run_up(pos, shift, k as nat) == sq(p) | run_up(p, shift, k0 as nat));
        assert(1 <= k <= steps && bit(b.player_pieces, pos_up(pos, shift, k)) && (forall|j: int|
            1 <= j < k ==> bit(b.opponent_pieces, #[trigger] pos_up(pos, shift, j))) && m == run_up(
            pos,
            shift,
            k as nat,
        ));
    } else {
        let k = 1int;
        assert(pos_up(pos, shift, 1) == p);
        assert(1 <= k <= steps && bit(b.player_pieces, pos_up(pos, shift, k)) && (forall|j: int|
            1 <= j < k ==> bit(b.opponent_pieces, #[trigger] pos_up(pos, shift, j))) && m == run_up(
            pos,
            shift,
            k as nat,
        ));
    }
}

/// The mirror of `lemma_capture_up_run` toward lower indices.
pub proof fn lemma_capture_down_run(b: Board, pos: u64, shift: u64, steps: nat, m: u64)
    requires
        1 <= shift,
        shift * steps <= pos < 64,
        capture_down(b, pos, shift, steps) == Some(m),
    ensures
        exists|k: int|
            {
                &&& 1 <= k <= steps
                &&& bit(b.player_pieces, #[trigger] pos_down(pos, shift, k))
                &&& forall|j: int|
                    1 <= j < k ==> bit(b.opponent_pieces, #[trigger] pos_down(pos, shift, j))
                &&& m == run_down(pos, shift, k as nat)
            },
    decreases steps,
{
    assert(shift * (steps - 1) == shift * steps - shift && shift * 1 <= shift * steps)
        by (nonlinear_arith)
        requires
            1 <= steps,
            0 <= shift,
    ;
    let p = (pos - shift) as u64;
    if b.opponent_pieces & sq(p) != 0 {
        let rest = capture_down(b, p, shift, (steps - 1) as nat)->Some_0;
        lemma_capture_down_run(b, p, shift, (steps - 1) as nat, rest);
        let k0 = choose|k: int|
            {
                &&& 1 <= k <= steps - 1
                &&& bit(b.player_pieces, #[trigger] pos_down(p, shift, k))
                &&& forall|j: int|
                    1 <= j < k ==> bit(b.opponent_pieces, #[trigger] pos_down(p, shift, j))
                &&& rest == run_down(p, shift, k as nat)
            };
        assert forall|j: int| 0 <= j <= k0 implies pos_down(p, shift, j) == pos_down(
            pos,
            shift,
            j + 1,
        ) by {
            assert(shift * (j + 1) == shift * j + shift) by (nonlinear_arith);
            assert(shift * j <= shift * (steps - 1)) by (nonlinear_arith)
                requires
                    0 <= j <= steps - 1,
                    0 <= shift,
            ;
        }
        let k = k0 + 1;
        assert(pos_down(pos, shift, 1) == p);
        assert(bit(b.player_pieces, pos_down(pos, shift, k)));
        assert forall|j: int| 1 <= j < k implies bit(
            b.opponent_pieces,
            #[trigger] pos_down(pos, shift, j),
        ) by {
            if j == 1 {
                assert(pos_down(pos, shift, 1) == p);
            } else {
                assert(bit(b.opponent_pieces, pos_down(p, shift, j - 1)));
            }
        }
        lemma_or_comm(rest, sq(p));
        assert(run_down(pos, shift, k as nat) == sq(p) | run_down(p, shift, k0 as nat));
        assert(1 <= k <= steps && bit(b.player_pieces, pos_down(pos, shift, k)) && (forall|j: int|
            1 <= j < k ==> bit(b.opponent_pieces, #[trigger] pos_down(pos, shift, j))) && m
            == run_down(pos, shift, k as nat));
    } else {
        let k = 1int;
        assert(pos_down(pos, shift, 1) == p);
        assert(1 <= k <= steps && bit(b.player_pieces, pos_down(pos, shift, k)) && (forall|j: int|
            1 <= j < k ==> bit(b.opponent_pieces, #[trigger] pos_down(pos, shift, j))) && m
            == run_down(pos, shift, k as nat));
    }
}

/// Law: swapping the roles twice restores the original board.
pub proof fn lemma_swap_involution(b: Board)
    ensures
        b.swapped_spec().swapped_spec() == b,
{
}

} // verus!
