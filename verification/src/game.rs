//! The minefield model: the grid of squares, its well-formedness
//! invariant, and the spec-level notions (adjacency, mine counts)
//! that the reveal and protection algorithms are verified against.

use rand::seq::SliceRandom;
use vstd::prelude::*;
use vstd::seq_lib::group_to_multiset_ensures;

verus! {

/// Upper bound on the board area, capping memory and work per reveal.
pub const MAX_BOARD_AREA: usize = 50 * 50;

/// One cell of the grid. `x` and `y` record its own position;
/// the owning `Minefield` keeps them consistent with the cell's
/// index in the row-major grid.
#[derive(Clone, Copy, Debug)]
pub struct Square {
    pub is_mine: bool,
    pub revealed: bool,
    pub flagged: bool,
    pub x: usize,
    pub y: usize,
}

impl Square {
    pub fn new(is_mine: bool, x: usize, y: usize) -> (sq: Square)
        ensures
            sq == (Square { is_mine, revealed: false, flagged: false, x, y }),
    {
        Square { is_mine, revealed: false, flagged: false, x, y }
    }

    pub fn x(&self) -> (r: usize)
        ensures
            r == self.x,
    {
        self.x
    }

    pub fn y(&self) -> (r: usize)
        ensures
            r == self.y,
    {
        self.y
    }

    pub fn set_flagged(&mut self, on: bool)
        ensures
            *final(self) == (Square { flagged: on, ..*old(self) }),
    {
        self.flagged = on;
    }

    pub fn flagged(&self) -> (r: bool)
        ensures
            r == self.flagged,
    {
        self.flagged
    }

    pub fn revealed(&self) -> (r: bool)
        ensures
            r == self.revealed,
    {
        self.revealed
    }
}

/// What a reveal reports for one square: the number of adjacent
/// mines, or a detonation.
#[derive(Clone, Copy, Debug, PartialEq, Eq, Structural)]
pub enum SquareContents {
    NumMines(u8),
    MineBoom,
}

/// A rectangular minefield, stored row-major: the square at (x, y)
/// is `squares[y * width + x]`.
#[derive(Debug)]
pub struct Minefield {
    pub squares: Vec<Square>,
    pub width: usize,
    pub height: usize,
    pub is_first_move: bool,
    pub num_mines: usize,
}

/// Number of squares among the first `k` of `s` that satisfy `f`.
pub open spec fn count_upto(s: Seq<Square>, f: spec_fn(Square) -> bool, k: int) -> int
    decreases k,
{
    if k <= 0 {
        0
    } else {
        count_upto(s, f, k - 1) + if f(s[k - 1]) { 1int } else { 0int }
    }
}

/// Number of squares in all of `s` that satisfy `f`.
pub open spec fn count_sq(s: Seq<Square>, f: spec_fn(Square) -> bool) -> int {
    count_upto(s, f, s.len() as int)
}

/// Number of mines in `s`.
pub open spec fn count_mines(s: Seq<Square>) -> int {
    count_sq(s, |q: Square| q.is_mine)
}

/// (px, py) lies in the protection zone of (x, y): the square itself
/// or any of its adjacent positions.
pub open spec fn in_zone(x: int, y: int, px: int, py: int) -> bool {
    -1 <= px - x <= 1 && -1 <= py - y <= 1
}

/// The two squares differ at most in their mine flag.
pub open spec fn same_but_mine(q0: Square, q1: Square) -> bool {
    q1.x == q0.x && q1.y == q0.y && q1.revealed == q0.revealed && q1.flagged == q0.flagged
}

/// A position list entry is consistent with the grid `s0` of width
/// `w`: its row-major index is in range and the square there carries
/// exactly these coordinates.
pub open spec fn listed_pos_ok(s0: Seq<Square>, w: int, p: (usize, usize)) -> bool {
    let j = pos_idx(w, p);
    &&& 0 <= j < s0.len()
    &&& p.0 < w
    &&& s0[j].x == p.0
    &&& s0[j].y == p.1
}

/// Holds of a square that is a mine in the protection zone of (x, y).
pub open spec fn zone_mine_pred(x: int, y: int) -> spec_fn(Square) -> bool {
    |q: Square| q.is_mine && in_zone(x, y, q.x as int, q.y as int)
}

/// Holds of a square a zone mine may be relocated to: not a mine and
/// outside the protection zone of (x, y).
pub open spec fn eligible_pred(x: int, y: int) -> spec_fn(Square) -> bool {
    |q: Square| !q.is_mine && !in_zone(x, y, q.x as int, q.y as int)
}

/// Horizontal offset of the k-th of the 8 adjacent positions, in the
/// enumeration order (-1,-1), (0,-1), (1,-1), (-1,0), (1,0), (-1,1),
/// (0,1), (1,1).
pub open spec fn nbr_dx(k: int) -> int {
    if k == 0 || k == 3 || k == 5 {
        -1
    } else if k == 1 || k == 6 {
        0
    } else {
        1
    }
}

/// Vertical offset of the k-th of the 8 adjacent positions.
pub open spec fn nbr_dy(k: int) -> int {
    if k <= 2 {
        -1
    } else if k <= 4 {
        0
    } else {
        1
    }
}

impl Minefield {
    /// The row-major index of (x, y).
    pub open spec fn idx(self, x: int, y: int) -> int {
        y * self.width + x
    }

    /// (x, y) addresses a square of this grid.
    pub open spec fn in_bounds(self, x: int, y: int) -> bool {
        0 <= x < self.width && 0 <= y < self.height
    }

    /// The square at (x, y).
    pub open spec fn sq(self, x: int, y: int) -> Square {
        self.squares@[self.idx(x, y)]
    }

    /// Well-formedness: positive dimensions within the area cap, a
    /// fully populated row-major grid whose squares know their own
    /// positions, and exactly `num_mines` mines.
    pub open spec fn wf(self) -> bool {
        &&& 0 < self.width
        &&& 0 < self.height
        &&& self.width * self.height <= MAX_BOARD_AREA
        &&& self.squares@.len() == self.width * self.height
        &&& forall|i: int|
            0 <= i < self.squares@.len() ==> (#[trigger] self.squares@[i]).x == i % (
            self.width as int) && self.squares@[i].y == i / (self.width as int)
        &&& count_mines(self.squares@) == self.num_mines
    }

    /// (px, py) is on the grid and holds a mine.
    pub open spec fn mine_at(self, px: int, py: int) -> bool {
        self.in_bounds(px, py) && self.sq(px, py).is_mine
    }

    /// Number of mines among the first `k` of the 8 adjacent
    /// positions of (x, y); off-grid positions count nothing.
    pub open spec fn adj_upto(self, x: int, y: int, k: int) -> int
        decreases k,
    {
        if k <= 0 {
            0
        } else {
            self.adj_upto(x, y, k - 1) + if self.mine_at(x + nbr_dx(k - 1), y + nbr_dy(k - 1)) {
                1int
            } else {
                0int
            }
        }
    }

    /// Number of mines adjacent to (x, y).
    pub open spec fn adj_mines(self, x: int, y: int) -> int {
        self.adj_upto(x, y, 8)
    }

    /// The in-bounds positions among the first `k` of the 8 adjacent
    /// positions of (x, y), in enumeration order.
    pub open spec fn neighbors_upto(self, x: int, y: int, k: int) -> Seq<(int, int)>
        decreases k,
    {
        if k <= 0 {
            Seq::empty()
        } else {
            self.neighbors_upto(x, y, k - 1) + if self.in_bounds(
                x + nbr_dx(k - 1),
                y + nbr_dy(k - 1),
            ) {
                seq![(x + nbr_dx(k - 1), y + nbr_dy(k - 1))]
            } else {
                Seq::empty()
            }
        }
    }

    /// The up-to-8 grid-adjacent positions of (x, y) that exist on
    /// the grid, in enumeration order.
    pub open spec fn neighbors(self, x: int, y: int) -> Seq<(int, int)> {
        self.neighbors_upto(x, y, 8)
    }

    /// Number of mines in the protection zone of (x, y).
    pub open spec fn zone_mines(self, x: int, y: int) -> int {
        count_sq(self.squares@, zone_mine_pred(x, y))
    }

    /// Number of squares a zone mine may be relocated to: non-mine
    /// squares outside the protection zone of (x, y).
    pub open spec fn eligible_targets(self, x: int, y: int) -> int {
        count_sq(self.squares@, eligible_pred(x, y))
    }

    /// First-move protection can fully clear the zone of (x, y):
    /// there are at least as many relocation targets as zone mines.
    pub open spec fn safe_start_possible(self, x: int, y: int) -> bool {
        self.zone_mines(x, y) <= self.eligible_targets(x, y)
    }

    /// Creates a randomized minefield: exactly `num_mines` mines are
    /// dealt into a deck of `width * height` squares, the deck is
    /// shuffled, and the squares take grid positions in row-major
    /// order. Rejects an empty dimension, more mines than squares,
    /// or an area over the cap.
    pub fn new(width: usize, height: usize, num_mines: usize) -> (r: Option<Minefield>)
        ensures
            r is Some <==> (0 < width && 0 < height && num_mines <= width * height && width
                * height <= MAX_BOARD_AREA),
            r is Some ==> {
                let f = r->Some_0;
                &&& f.wf()
                &&& f.width == width
                &&& f.height == height
                &&& f.num_mines == num_mines
                &&& f.is_first_move
                &&& forall|i: int|
                    0 <= i < f.squares@.len() ==> !(#[trigger] f.squares@[i]).revealed
                        && !f.squares@[i].flagged
            },
    {
        if width == 0 || height == 0 || width > MAX_BOARD_AREA || height > MAX_BOARD_AREA {
            proof {
                if width >= 1 && height >= 1 {
                    assert(width * height >= width && width * height >= height)
                        by (nonlinear_arith)
                        requires
                            width >= 1 && height >= 1,
                    ;
                }
            }
            return None;
        }
        proof {
            assert(width * height <= MAX_BOARD_AREA * MAX_BOARD_AREA) by (nonlinear_arith)
                requires
                    width <= MAX_BOARD_AREA && height <= MAX_BOARD_AREA,
            ;
        }
        let area = width * height;
        if num_mines > area || area > MAX_BOARD_AREA {
            return None;
        }
        let mut deck: Vec<Square> = Vec::new();
        let mut i: usize = 0;
        while i < num_mines
            invariant
                0 <= i <= num_mines,
                deck@.len() == i,
                count_sq(deck@, |q: Square| q.is_mine) == i,
                forall|j: int|
                    0 <= j < deck@.len() ==> #[trigger] deck@[j] == (Square {
                        is_mine: true,
                        revealed: false,
                        flagged: false,
                        x: 0,
                        y: 0,
                    }),
            decreases num_mines - i,
        {
            proof {
                lemma_count_push(
                    deck@,
                    |q: Square| q.is_mine,
                    Square { is_mine: true, revealed: false, flagged: false, x: 0, y: 0 },
                );
            }
            deck.push(Square::new(true, 0, 0));
            i = i + 1;
        }
        while i < area
            invariant
                num_mines <= i <= area,
                deck@.len() == i,
                count_sq(deck@, |q: Square| q.is_mine) == num_mines,
                forall|j: int|
                    0 <= j < deck@.len() ==> !(#[trigger] deck@[j]).revealed && !deck@[j].flagged,
            decreases area - i,
        {
            proof {
                lemma_count_push(
                    deck@,
                    |q: Square| q.is_mine,
                    Square { is_mine: false, revealed: false, flagged: false, x: 0, y: 0 },
                );
            }
            deck.push(Square::new(false, 0, 0));
            i = i + 1;
        }
        let ghost dealt = deck@;
        shuffle_vec(&mut deck);
        proof {
            lemma_count_multiset(dealt, deck@, |q: Square| q.is_mine);
            broadcast use group_to_multiset_ensures;

            assert forall|j: int| 0 <= j < deck@.len() implies !(#[trigger] deck@[j]).revealed
                && !deck@[j].flagged by {
                assert(deck@.contains(deck@[j]));
                assert(dealt.to_multiset().count(deck@[j]) > 0);
                assert(dealt.contains(deck@[j]));
            }
        }
        let mut k: usize = 0;
        while k < area
            invariant
                0 <= k <= area,
                area == width * height,
                0 < width,
                deck@.len() == area,
                count_sq(deck@, |q: Square| q.is_mine) == num_mines,
                forall|j: int|
                    0 <= j < deck@.len() ==> !(#[trigger] deck@[j]).revealed && !deck@[j].flagged,
                forall|j: int|
                    0 <= j < k ==> (#[trigger] deck@[j]).x == j % (width as int) && deck@[j].y == j
                        / (width as int),
            decreases area - k,
        {
            let q = deck[k];
            let q2 = Square { x: k % width, y: k / width, ..q };
            proof {
                lemma_count_update(deck@, |q: Square| q.is_mine, k as int, q2);
            }
            deck[k] = q2;
            k = k + 1;
        }
        Some(
            Minefield {
                squares: deck,
                width,
                height,
                is_first_move: true,
                num_mines,
            },
        )
    }

    /// The standard board: 30 x 16 with 99 mines.
    pub fn default_field() -> (r: Minefield)
        ensures
            r.wf(),
            r.width == 30,
            r.height == 16,
            r.num_mines == 99,
            r.is_first_move,
            forall|i: int|
                0 <= i < r.squares@.len() ==> !(#[trigger] r.squares@[i]).revealed
                    && !r.squares@[i].flagged,
    {
        Minefield::new(30, 16, 99).unwrap()
    }

    pub fn num_mines(&self) -> (r: usize)
        ensures
            r == self.num_mines,
    {
        self.num_mines
    }

    pub fn width(&self) -> (r: usize)
        ensures
            r == self.width,
    {
        self.width
    }

    pub fn height(&self) -> (r: usize)
        ensures
            r == self.height,
    {
        self.height
    }

    /// All squares of the grid in row-major order, as copies.
    pub fn all_squares(&self) -> (r: Vec<Square>)
        ensures
            r@ == self.squares@,
    {
        let mut r: Vec<Square> = Vec::new();
        let mut i: usize = 0;
        while i < self.squares.len()
            invariant
                0 <= i <= self.squares@.len(),
                r@ == self.squares@.subrange(0, i as int),
            decreases self.squares@.len() - i,
        {
            r.push(self.squares[i]);
            i = i + 1;
        }
        assert(r@ =~= self.squares@);
        r
    }

    /// The executable neighbor list matches the first `k` entries of
    /// the spec enumeration, each carrying its square's mine flag.
    pub open spec fn nbr_list_ok_upto(
        self,
        x: int,
        y: int,
        r: Seq<(usize, usize, bool)>,
        k: int,
    ) -> bool {
        let ns = self.neighbors_upto(x, y, k);
        &&& r.len() == ns.len()
        &&& forall|i: int|
            0 <= i < ns.len() ==> (#[trigger] r[i]).0 == ns[i].0 && r[i].1 == ns[i].1 && r[i].2
                == self.sq(ns[i].0, ns[i].1).is_mine
    }

    /// The k-th adjacent position of (x, y), if it exists on the grid.
    fn nbr_pos(&self, x: usize, y: usize, k: usize) -> (r: Option<(usize, usize)>)
        requires
            self.wf(),
            k < 8,
        ensures
            r is Some <==> self.in_bounds(x as int + nbr_dx(k as int), y as int + nbr_dy(k as int)),
            r is Some ==> r->Some_0.0 as int == x as int + nbr_dx(k as int) && r->Some_0.1 as int
                == y as int + nbr_dy(k as int),
    {
        let w = self.width;
        let h = self.height;
        match k {
            0 => if x >= 1 && y >= 1 && x - 1 < w && y - 1 < h {
                Some((x - 1, y - 1))
            } else {
                None
            },
            1 => if y >= 1 && x < w && y - 1 < h {
                Some((x, y - 1))
            } else {
                None
            },
            2 => if x < w - 1 && y >= 1 && y - 1 < h {
                Some((x + 1, y - 1))
            } else {
                None
            },
            3 => if x >= 1 && x - 1 < w && y < h {
                Some((x - 1, y))
            } else {
                None
            },
            4 => if x < w - 1 && y < h {
                Some((x + 1, y))
            } else {
                None
            },
            5 => if x >= 1 && x - 1 < w && y < h - 1 {
                Some((x - 1, y + 1))
            } else {
                None
            },
            6 => if x < w && y < h - 1 {
                Some((x, y + 1))
            } else {
                None
            },
            _ => if x < w - 1 && y < h - 1 {
                Some((x + 1, y + 1))
            } else {
                None
            },
        }
    }

    /// The adjacent positions that exist on the grid, in enumeration
    /// order, each with whether its square is a mine.
    pub fn square_neighbors(&self, x: usize, y: usize) -> (r: Vec<(usize, usize, bool)>)
        requires
            self.wf(),
        ensures
            self.nbr_list_ok_upto(x as int, y as int, r@, 8),
    {
        let mut r: Vec<(usize, usize, bool)> = Vec::new();
        let mut k: usize = 0;
        while k < 8
            invariant
                self.wf(),
                0 <= k <= 8,
                self.nbr_list_ok_upto(x as int, y as int, r@, k as int),
            decreases 8 - k,
        {
            if let Some((px, py)) = self.nbr_pos(x, y, k) {
                proof {
                    lemma_grid_index(
                        self.width as int,
                        self.height as int,
                        px as int,
                        py as int,
                    );
                }
                let is_mine = self.squares[py * self.width + px].is_mine;
                r.push((px, py, is_mine));
            }
            k = k + 1;
        }
        r
    }

    /// Counts the mines adjacent to the in-bounds position (x, y).
    pub fn adjacent_mines(&self, x: usize, y: usize) -> (n: u8)
        requires
            self.wf(),
            self.in_bounds(x as int, y as int),
        ensures
            n as int == self.adj_mines(x as int, y as int),
            n <= 8,
    {
        let mut n: u8 = 0;
        let mut k: usize = 0;
        while k < 8
            invariant
                self.wf(),
                0 <= k <= 8,
                n <= k,
                n as int == self.adj_upto(x as int, y as int, k as int),
            decreases 8 - k,
        {
            if let Some((px, py)) = self.nbr_pos(x, y, k) {
                proof {
                    lemma_grid_index(
                        self.width as int,
                        self.height as int,
                        px as int,
                        py as int,
                    );
                }
                if self.squares[py * self.width + px].is_mine {
                    n = n + 1;
                }
            }
            k = k + 1;
        }
        n
    }

    /// Sets the flagged attribute of the square at (x, y); reports
    /// whether the coordinates were on the grid (nothing changes if
    /// they were not).
    pub fn flag_square(&mut self, x: usize, y: usize, on: bool) -> (ok: bool)
        requires
            old(self).wf(),
        ensures
            final(self).wf(),
            ok <==> old(self).in_bounds(x as int, y as int),
            !ok ==> *final(self) == *old(self),
            ok ==> final(self).squares@ == old(self).squares@.update(
                old(self).idx(x as int, y as int),
                Square { flagged: on, ..old(self).sq(x as int, y as int) },
            ),
            final(self).width == old(self).width,
            final(self).height == old(self).height,
            final(self).num_mines == old(self).num_mines,
            final(self).is_first_move == old(self).is_first_move,
    {
        if x < self.width && y < self.height {
            proof {
                lemma_grid_index(self.width as int, self.height as int, x as int, y as int);
            }
            let i = y * self.width + x;
            let q = self.squares[i];
            let q2 = Square { flagged: on, ..q };
            proof {
                lemma_count_update(self.squares@, |q: Square| q.is_mine, i as int, q2);
            }
            self.squares[i] = q2;
            proof {
                assert forall|j: int| 0 <= j < self.squares@.len() implies (
                #[trigger] self.squares@[j]).x == j % (self.width as int) && self.squares@[j].y == j
                    / (self.width as int) by {}
            }
            true
        } else {
            false
        }
    }

    /// The square at (x, y) as a mutable reference, or `None` for
    /// out-of-range coordinates.
    pub fn get_square_mut(&mut self, x: usize, y: usize) -> (r: Option<&mut Square>)
        requires
            old(self).wf(),
        ensures
            r is Some <==> old(self).in_bounds(x as int, y as int),
            r matches Some(q) ==> *q == old(self).sq(x as int, y as int) && final(self).squares@
                == old(self).squares@.update(old(self).idx(x as int, y as int), *final(q))
                && final(self).width == old(self).width && final(self).height == old(self).height
                && final(self).num_mines == old(self).num_mines && final(self).is_first_move
                == old(self).is_first_move,
            r is None ==> *final(self) == *old(self),
    {
        if x < self.width && y < self.height {
            proof {
                lemma_grid_index(self.width as int, self.height as int, x as int, y as int);
            }
            Some(&mut self.squares[y * self.width + x])
        } else {
            None
        }
    }

    /// Relocates every mine in the protection zone of (x, y) to a
    /// randomly chosen non-mine square outside the zone, as far as
    /// such targets last; the mine count never changes. If there are
    /// at least as many targets as zone mines, the zone ends up
    /// mine-free.
    #[verifier::loop_isolation(false)]
    fn protect_square(&mut self, x: usize, y: usize)
        requires
            old(self).wf(),
            old(self).in_bounds(x as int, y as int),
        ensures
            final(self).wf(),
            final(self).width == old(self).width,
            final(self).height == old(self).height,
            final(self).num_mines == old(self).num_mines,
            final(self).is_first_move == old(self).is_first_move,
            final(self).squares@.len() == old(self).squares@.len(),
            forall|i: int|
                0 <= i < old(self).squares@.len() ==> same_but_mine(
                    old(self).squares@[i],
                    #[trigger] final(self).squares@[i],
                ),
            forall|i: int|
                0 <= i < old(self).squares@.len() && in_zone(
                    x as int,
                    y as int,
                    (#[trigger] final(self).squares@[i]).x as int,
                    final(self).squares@[i].y as int,
                ) && final(self).squares@[i].is_mine ==> old(self).squares@[i].is_mine,
            forall|i: int|
                0 <= i < old(self).squares@.len() && !in_zone(
                    x as int,
                    y as int,
                    (#[trigger] final(self).squares@[i]).x as int,
                    final(self).squares@[i].y as int,
                ) && old(self).squares@[i].is_mine ==> final(self).squares@[i].is_mine,
            old(self).safe_start_possible(x as int, y as int) ==> forall|i: int|
                0 <= i < old(self).squares@.len() && in_zone(
                    x as int,
                    y as int,
                    (#[trigger] final(self).squares@[i]).x as int,
                    final(self).squares@[i].y as int,
                ) ==> !final(self).squares@[i].is_mine,
    {
        let w = self.width;
        let n = self.squares.len();
        let ghost s0 = self.squares@;
        let mut mines_to_move: Vec<(usize, usize)> = Vec::new();
        let mut move_targets: Vec<(usize, usize)> = Vec::new();
        let mut i: usize = 0;
        while i < n
            invariant
                0 <= i <= n,
                *self == *old(self),
                mines_to_move@.len() == count_upto(s0, zone_mine_pred(x as int, y as int), i as int),
                move_targets@.len() == count_upto(s0, eligible_pred(x as int, y as int), i as int),
                forall|a: int|
                    0 <= a < mines_to_move@.len() ==> listed_pos_ok(
                        s0,
                        w as int,
                        #[trigger] mines_to_move@[a],
                    ) && pos_idx(w as int, mines_to_move@[a]) < i && s0[pos_idx(
                        w as int,
                        mines_to_move@[a],
                    )].is_mine && in_zone(
                        x as int,
                        y as int,
                        mines_to_move@[a].0 as int,
                        mines_to_move@[a].1 as int,
                    ),
                forall|a: int, b: int|
                    0 <= a < b < mines_to_move@.len() ==> pos_idx(
                        w as int,
                        #[trigger] mines_to_move@[a],
                    ) < pos_idx(w as int, #[trigger] mines_to_move@[b]),
                forall|a: int|
                    0 <= a < move_targets@.len() ==> listed_pos_ok(
                        s0,
                        w as int,
                        #[trigger] move_targets@[a],
                    ) && pos_idx(w as int, move_targets@[a]) < i && !s0[pos_idx(
                        w as int,
                        move_targets@[a],
                    )].is_mine && !in_zone(
                        x as int,
                        y as int,
                        move_targets@[a].0 as int,
                        move_targets@[a].1 as int,
                    ),
                forall|a: int, b: int|
                    0 <= a < b < move_targets@.len() ==> pos_idx(
                        w as int,
                        #[trigger] move_targets@[a],
                    ) < pos_idx(w as int, #[trigger] move_targets@[b]),
                forall|j: int|
                    0 <= j < i && (#[trigger] s0[j]).is_mine && in_zone(
                        x as int,
                        y as int,
                        s0[j].x as int,
                        s0[j].y as int,
                    ) ==> exists|a: int|
                        0 <= a < mines_to_move@.len() && pos_idx(
                            w as int,
                            #[trigger] mines_to_move@[a],
                        ) == j,
            decreases n - i,
        {
            let q = self.squares[i];
            let ghost mm_old = mines_to_move@;
            let zon = q.x + 1 >= x && q.x <= x + 1 && q.y + 1 >= y && q.y <= y + 1;
            proof {
                assert(q.x as int == i as int % (w as int) && q.y as int == i as int / (w as int));
                vstd::arithmetic::div_mod::lemma_fundamental_div_mod(i as int, w as int);
                assert(i as int == (w as int) * (i as int / (w as int)) + (i as int) % (w as int));
                assert(pos_idx(w as int, (q.x, q.y)) == q.y as int * (w as int) + q.x as int);
                assert(pos_idx(w as int, (q.x, q.y)) == i);
            }
            if q.is_mine && zon {
                mines_to_move.push((q.x, q.y));
            }
            if !q.is_mine && !zon {
                move_targets.push((q.x, q.y));
            }
            proof {
                let mm_new = mines_to_move@;
                assert forall|j2: int|
                    0 <= j2 < i + 1 && (#[trigger] s0[j2]).is_mine && in_zone(
                        x as int,
                        y as int,
                        s0[j2].x as int,
                        s0[j2].y as int,
                    ) implies exists|a: int|
                    0 <= a < mm_new.len() && pos_idx(w as int, #[trigger] mm_new[a]) == j2 by {
                    if j2 == i {
                        assert(zon);
                        assert(mm_new[mm_new.len() - 1] == (q.x, q.y));
                        assert(pos_idx(w as int, mm_new[mm_new.len() - 1]) == j2);
                    } else {
                        let a = choose|a: int|
                            0 <= a < mm_old.len() && pos_idx(w as int, #[trigger] mm_old[a]) == j2;
                        assert(mm_new[a] == mm_old[a]);
                        assert(pos_idx(w as int, mm_new[a]) == j2);
                    }
                }
            }
            i = i + 1;
        }
        proof {
            assert(mines_to_move@.len() == self.zone_mines(x as int, y as int));
            assert(move_targets@.len() == self.eligible_targets(x as int, y as int));
            assert(move_targets@.no_duplicates()) by {
                assert forall|a: int, b: int|
                    0 <= a < move_targets@.len() && 0 <= b < move_targets@.len() && a
                        != b implies move_targets@[a] != move_targets@[b] by {
                    if a < b {
                        assert(pos_idx(w as int, move_targets@[a]) < pos_idx(
                            w as int,
                            move_targets@[b],
                        ));
                    } else {
                        assert(pos_idx(w as int, move_targets@[b]) < pos_idx(
                            w as int,
                            move_targets@[a],
                        ));
                    }
                }
            }
        }
        let ghost tg1 = move_targets@;
        shuffle_vec(&mut move_targets);
        proof {
            broadcast use group_to_multiset_ensures;

            tg1.lemma_multiset_has_no_duplicates();
            move_targets@.lemma_multiset_has_no_duplicates_conv();
            assert forall|a: int| 0 <= a < move_targets@.len() implies listed_pos_ok(
                s0,
                w as int,
                #[trigger] move_targets@[a],
            ) && !s0[pos_idx(w as int, move_targets@[a])].is_mine && !in_zone(
                x as int,
                y as int,
                move_targets@[a].0 as int,
                move_targets@[a].1 as int,
            ) by {
                assert(move_targets@.contains(move_targets@[a]));
                assert(tg1.to_multiset().count(move_targets@[a]) > 0);
                assert(tg1.contains(move_targets@[a]));
            }
        }
        let ghost t0 = move_targets@.len();
        let total = mines_to_move.len();
        let mut j: usize = 0;
        while j < total && move_targets.len() > 0
            invariant
                0 <= j <= total,
                move_targets@.len() == t0 - j,
                self.wf(),
                self.width == old(self).width,
                self.height == old(self).height,
                self.num_mines == old(self).num_mines,
                self.is_first_move == old(self).is_first_move,
                self.squares@.len() == n,
                forall|i: int|
                    0 <= i < n ==> same_but_mine(s0[i], #[trigger] self.squares@[i]),
                forall|a: int|
                    0 <= a < move_targets@.len() ==> !(#[trigger] self.squares@[pos_idx(
                        w as int,
                        move_targets@[a],
                    )]).is_mine,
                move_targets@.no_duplicates(),
                forall|a: int|
                    0 <= a < move_targets@.len() ==> listed_pos_ok(
                        s0,
                        w as int,
                        #[trigger] move_targets@[a],
                    ) && !in_zone(
                        x as int,
                        y as int,
                        move_targets@[a].0 as int,
                        move_targets@[a].1 as int,
                    ),
                forall|a: int|
                    0 <= a < j ==> !(#[trigger] self.squares@[pos_idx(
                        w as int,
                        mines_to_move@[a],
                    )]).is_mine,
                forall|a: int|
                    j <= a < total ==> (#[trigger] self.squares@[pos_idx(
                        w as int,
                        mines_to_move@[a],
                    )]).is_mine,
                forall|i: int|
                    0 <= i < n && in_zone(x as int, y as int, (#[trigger] s0[i]).x as int, s0[i].y as int)
                        && self.squares@[i].is_mine ==> s0[i].is_mine,
                forall|i: int|
                    0 <= i < n && !in_zone(x as int, y as int, (#[trigger] s0[i]).x as int, s0[i].y as int)
                        && s0[i].is_mine ==> self.squares@[i].is_mine,
            decreases total - j,
        {
            let (mx, my) = mines_to_move[j];
            let ghost tg_before = move_targets@;
            let popped = move_targets.pop();
            let (tx, ty) = popped.unwrap();
            proof {
                assert(listed_pos_ok(s0, w as int, (tx, ty)));
                assert(pos_idx(w as int, (tx, ty)) != pos_idx(w as int, (mx, my))) by {
                    if pos_idx(w as int, (tx, ty)) == pos_idx(w as int, (mx, my)) {
                        lemma_pos_idx_inj(w as int, (tx, ty), (mx, my));
                    }
                }
            }
            let ti = ty * w + tx;
            let mi = my * w + mx;
            let qt = self.squares[ti];
            let qt2 = Square { is_mine: true, ..qt };
            proof {
                lemma_count_update(self.squares@, |q: Square| q.is_mine, ti as int, qt2);
            }
            self.squares[ti] = qt2;
            let qm = self.squares[mi];
            let qm2 = Square { is_mine: false, ..qm };
            proof {
                lemma_count_update(self.squares@, |q: Square| q.is_mine, mi as int, qm2);
            }
            self.squares[mi] = qm2;
            proof {
                assert forall|a: int| 0 <= a < move_targets@.len() implies !(
                #[trigger] self.squares@[pos_idx(w as int, move_targets@[a])]).is_mine by {
                    assert(move_targets@[a] == tg_before[a]);
                    assert(move_targets@[a] != (tx, ty));
                    if pos_idx(w as int, move_targets@[a]) == pos_idx(w as int, (tx, ty)) {
                        lemma_pos_idx_inj(w as int, move_targets@[a], (tx, ty));
                    }
                }
            }
            j = j + 1;
        }
        proof {
            if old(self).safe_start_possible(x as int, y as int) {
                assert(j == total);
                assert forall|i: int|
                    0 <= i < n && in_zone(
                        x as int,
                        y as int,
                        (#[trigger] self.squares@[i]).x as int,
                        self.squares@[i].y as int,
                    ) implies !self.squares@[i].is_mine by {
                    assert(same_but_mine(s0[i], self.squares@[i]));
                    if s0[i].is_mine {
                        let a = choose|a: int|
                            0 <= a < mines_to_move@.len() && pos_idx(
                                w as int,
                                mines_to_move@[a],
                            ) == i;
                        assert(!self.squares@[pos_idx(w as int, mines_to_move@[a])].is_mine);
                    }
                }
            }
        }
    }
    /// Any square other than the one at the in-bounds (x, y) carries
    /// different coordinates.
    proof fn lemma_unique_center(self, x: int, y: int)
        requires
            self.wf(),
            self.in_bounds(x, y),
        ensures
            forall|i: int|
                0 <= i < self.squares@.len() && i != self.idx(x, y) ==> !((
                #[trigger] self.squares@[i]).x == x && self.squares@[i].y == y),
    {
        lemma_grid_index(self.width as int, self.height as int, x, y);
        assert forall|i: int|
            0 <= i < self.squares@.len() && i != self.idx(x, y) implies !((
            #[trigger] self.squares@[i]).x == x && self.squares@[i].y == y) by {
            vstd::arithmetic::div_mod::lemma_fundamental_div_mod(i, self.width as int);
            if self.squares@[i].x == x && self.squares@[i].y == y {
                assert(i % (self.width as int) == x);
                assert(i / (self.width as int) == y);
                assert(i == (self.width as int) * y + x);
                assert(false);
            }
        }
    }

    /// Reveals the mine at (x, y): marks it revealed and returns the
    /// single detonation event.
    fn reveal_mine(&mut self, x: usize, y: usize) -> (evs: Vec<RevealEvent>)
        requires
            old(self).wf(),
            !old(self).is_first_move,
            old(self).in_bounds(x as int, y as int),
            !old(self).sq(x as int, y as int).revealed,
            old(self).sq(x as int, y as int).is_mine,
        ensures
            reveal_outcome(*old(self), *final(self), evs@, x as int, y as int),
    {
        proof {
            lemma_grid_index(self.width as int, self.height as int, x as int, y as int);
            old(self).lemma_unique_center(x as int, y as int);
        }
        let i0 = y * self.width + x;
        let q0 = self.squares[i0];
        let q0r = Square { revealed: true, ..q0 };
        proof {
            lemma_count_update(self.squares@, |q: Square| q.is_mine, i0 as int, q0r);
        }
        self.squares[i0] = q0r;
        let mut evs: Vec<RevealEvent> = Vec::new();
        evs.push((x, y, SquareContents::MineBoom));
        proof {
            assert(ev_at(evs@, x as int, y as int)) by {
                assert(evs@[0].0 == x && evs@[0].1 == y);
            }
            assert forall|i: int| 0 <= i < self.squares@.len() implies {
                let q0s = old(self).squares@[i];
                let q1s = #[trigger] self.squares@[i];
                q1s.revealed <==> (q0s.revealed || ev_at(evs@, q0s.x as int, q0s.y as int))
            } by {
                if i != i0 {
                    if ev_at(evs@, old(self).squares@[i].x as int, old(self).squares@[i].y as int) {
                        let e = choose|e: int|
                            0 <= e < evs@.len() && (#[trigger] evs@[e]).0
                                == old(self).squares@[i].x && evs@[e].1 == old(self).squares@[i].y;
                        assert(false);
                    }
                }
            }
            assert(self.sq(x as int, y as int).is_mine);
            assert(reveal_outcome(*old(self), *self, evs@, x as int, y as int));
        }
        evs
    }

    /// Reveals the non-mine square at (x, y) and flood-fills the
    /// connected zero-adjacency region with an explicit work list,
    /// returning the events in the order produced.
    #[verifier::loop_isolation(false)]
    #[verifier::rlimit(100)]
    fn flood_from(&mut self, x: usize, y: usize) -> (evs: Vec<RevealEvent>)
        requires
            old(self).wf(),
            !old(self).is_first_move,
            old(self).in_bounds(x as int, y as int),
            !old(self).sq(x as int, y as int).revealed,
            !old(self).sq(x as int, y as int).is_mine,
        ensures
            reveal_outcome(*old(self), *final(self), evs@, x as int, y as int),
            final(self).adj_mines(x as int, y as int) == old(self).adj_mines(x as int, y as int),
    {
        let ghost pre = *old(self);
        proof {
            lemma_grid_index(self.width as int, self.height as int, x as int, y as int);
            pre.lemma_unique_center(x as int, y as int);
        }
        let i0 = y * self.width + x;
        let q0 = self.squares[i0];
        let q0r = Square { revealed: true, ..q0 };
        proof {
            lemma_count_update(self.squares@, |q: Square| q.is_mine, i0 as int, q0r);
        }
        self.squares[i0] = q0r;
        let mut evs: Vec<RevealEvent> = Vec::new();
        let mut stack: Vec<(usize, usize)> = Vec::new();
        stack.push((x, y));
        proof {
            lemma_count_upto_bounds(
                self.squares@,
                |q: Square| !q.revealed,
                self.squares@.len() as int,
            );
            assert(pos_in(stack@, x as int, y as int)) by {
                assert(stack@[0].0 == x && stack@[0].1 == y);
            }
            assert forall|i: int| 0 <= i < self.squares@.len() implies {
                let qp = pre.squares@[i];
                let q1s = #[trigger] self.squares@[i];
                q1s.revealed <==> (qp.revealed || ev_at(evs@, qp.x as int, qp.y as int) || pos_in(
                    stack@,
                    qp.x as int,
                    qp.y as int,
                ))
            } by {
                if i != i0 {
                    if pos_in(stack@, pre.squares@[i].x as int, pre.squares@[i].y as int) {
                        let e = choose|e: int|
                            0 <= e < stack@.len() && (#[trigger] stack@[e]).0
                                == pre.squares@[i].x && stack@[e].1 == pre.squares@[i].y;
                        assert(false);
                    }
                    assert(!ev_at(evs@, pre.squares@[i].x as int, pre.squares@[i].y as int));
                }
            }
        }
        while stack.len() > 0
            invariant
                self.wf(),
                self.width == pre.width,
                self.height == pre.height,
                self.num_mines == pre.num_mines,
                !self.is_first_move,
                self.squares@.len() == pre.squares@.len(),
                forall|i: int|
                    0 <= i < pre.squares@.len() ==> {
                        let qp = pre.squares@[i];
                        let q1s = #[trigger] self.squares@[i];
                        q1s.x == qp.x && q1s.y == qp.y && q1s.flagged == qp.flagged && q1s.is_mine
                            == qp.is_mine
                    },
                forall|i: int|
                    0 <= i < pre.squares@.len() ==> {
                        let qp = pre.squares@[i];
                        let q1s = #[trigger] self.squares@[i];
                        q1s.revealed <==> (qp.revealed || ev_at(evs@, qp.x as int, qp.y as int)
                            || pos_in(stack@, qp.x as int, qp.y as int))
                    },
                forall|e: int|
                    0 <= e < evs@.len() ==> pre.in_bounds(
                        (#[trigger] evs@[e]).0 as int,
                        evs@[e].1 as int,
                    ) && !pre.sq(evs@[e].0 as int, evs@[e].1 as int).revealed && !pre.sq(
                        evs@[e].0 as int,
                        evs@[e].1 as int,
                    ).is_mine && 0 <= pre.adj_mines(evs@[e].0 as int, evs@[e].1 as int) <= 8
                        && evs@[e].2 == SquareContents::NumMines(
                        pre.adj_mines(evs@[e].0 as int, evs@[e].1 as int) as u8,
                    ),
                forall|e1: int, e2: int|
                    0 <= e1 < e2 < evs@.len() ==> ((#[trigger] evs@[e1]).0, evs@[e1].1) != ((
                    #[trigger] evs@[e2]).0, evs@[e2].1),
                forall|s: int|
                    0 <= s < stack@.len() ==> pre.in_bounds(
                        (#[trigger] stack@[s]).0 as int,
                        stack@[s].1 as int,
                    ) && !pre.sq(stack@[s].0 as int, stack@[s].1 as int).revealed && !pre.sq(
                        stack@[s].0 as int,
                        stack@[s].1 as int,
                    ).is_mine,
                forall|s1: int, s2: int|
                    0 <= s1 < s2 < stack@.len() ==> ((#[trigger] stack@[s1]).0, stack@[s1].1) != ((
                    #[trigger] stack@[s2]).0, stack@[s2].1),
                forall|e: int, s: int|
                    0 <= e < evs@.len() && 0 <= s < stack@.len() ==> ((#[trigger] evs@[e]).0,
                    evs@[e].1) != ((#[trigger] stack@[s]).0, stack@[s].1),
                evs@.len() == 0 ==> stack@.len() == 1 && stack@[0] == (x, y),
                evs@.len() >= 1 ==> evs@[0].0 == x && evs@[0].1 == y,
                pre.adj_mines(x as int, y as int) != 0 ==> evs@.len() + stack@.len() == 1,
                forall|e: int, k: int|
                    0 <= e < evs@.len() && 0 <= k < 8 && (#[trigger] evs@[e]).2
                        == SquareContents::NumMines(0u8) && pre.in_bounds(
                        evs@[e].0 + nbr_dx(k),
                        evs@[e].1 + nbr_dy(k),
                    ) ==> self.sq(evs@[e].0 + nbr_dx(k), evs@[e].1 + #[trigger] nbr_dy(k)).revealed,
                forall|e: int| 1 <= e < evs@.len() ==> #[trigger] linked_to_zero(evs@, e),
                evs@.len() >= 1 ==> forall|s: int|
                    0 <= s < stack@.len() ==> #[trigger] pos_linked_to_zero(
                        evs@,
                        stack@[s].0 as int,
                        stack@[s].1 as int,
                    ),
            decreases count_sq(self.squares@, |q: Square| !q.revealed) * 2 + stack@.len(),
        {
            let ghost stack_before = stack@;
            let ghost evs_before = evs@;
            let popped = stack.pop();
            let (cx, cy) = popped.unwrap();
            proof {
                assert((cx, cy) == stack_before[stack_before.len() - 1]);
                lemma_adj_same(pre, *self, cx as int, cy as int, 8);
                lemma_count_upto_bounds(
                    self.squares@,
                    |q: Square| !q.revealed,
                    self.squares@.len() as int,
                );
            }
            let n = self.adjacent_mines(cx, cy);
            evs.push((cx, cy, SquareContents::NumMines(n)));
            proof {
                assert(evs@ == evs_before.push((cx, cy, SquareContents::NumMines(n))));
                assert forall|i: int| 0 <= i < pre.squares@.len() implies {
                    let qp = pre.squares@[i];
                    let q1s = #[trigger] self.squares@[i];
                    q1s.revealed <==> (qp.revealed || ev_at(evs@, qp.x as int, qp.y as int)
                        || pos_in(stack@, qp.x as int, qp.y as int))
                } by {
                    let qp = pre.squares@[i];
                    if ev_at(evs_before, qp.x as int, qp.y as int) {
                        let e = choose|e: int|
                            0 <= e < evs_before.len() && (#[trigger] evs_before[e]).0 == qp.x
                                && evs_before[e].1 == qp.y;
                        assert(evs@[e] == evs_before[e]);
                        assert(ev_at(evs@, qp.x as int, qp.y as int));
                    }
                    if pos_in(stack_before, qp.x as int, qp.y as int) {
                        let s = choose|s: int|
                            0 <= s < stack_before.len() && (#[trigger] stack_before[s]).0 == qp.x
                                && stack_before[s].1 == qp.y;
                        if s < stack_before.len() - 1 {
                            assert(stack@[s] == stack_before[s]);
                            assert(pos_in(stack@, qp.x as int, qp.y as int));
                        } else {
                            assert(evs@[evs@.len() - 1].0 == qp.x && evs@[evs@.len() - 1].1
                                == qp.y);
                            assert(ev_at(evs@, qp.x as int, qp.y as int));
                        }
                    }
                    if pos_in(stack@, qp.x as int, qp.y as int) {
                        let s = choose|s: int|
                            0 <= s < stack@.len() && (#[trigger] stack@[s]).0 == qp.x && stack@[s].1
                                == qp.y;
                        assert(stack_before[s] == stack@[s]);
                        assert(pos_in(stack_before, qp.x as int, qp.y as int));
                    }
                    if ev_at(evs@, qp.x as int, qp.y as int) {
                        let e = choose|e: int|
                            0 <= e < evs@.len() && (#[trigger] evs@[e]).0 == qp.x && evs@[e].1
                                == qp.y;
                        if e < evs@.len() - 1 {
                            assert(evs_before[e] == evs@[e]);
                            assert(ev_at(evs_before, qp.x as int, qp.y as int));
                        } else {
                            assert(pos_in(stack_before, qp.x as int, qp.y as int)) by {
                                assert(stack_before[stack_before.len() - 1].0 == qp.x
                                    && stack_before[stack_before.len() - 1].1 == qp.y);
                            }
                        }
                    }
                }
                assert forall|e: int| 1 <= e < evs@.len() implies #[trigger] linked_to_zero(
                    evs@,
                    e,
                ) by {
                    if e < evs@.len() - 1 {
                        assert(linked_to_zero(evs_before, e));
                        let p = choose|p: int|
                            0 <= p < e && (#[trigger] evs_before[p]).2 == SquareContents::NumMines(
                                0u8,
                            ) && in_zone(
                                evs_before[p].0 as int,
                                evs_before[p].1 as int,
                                evs_before[e].0 as int,
                                evs_before[e].1 as int,
                            ) && !(evs_before[p].0 == evs_before[e].0 && evs_before[p].1
                                == evs_before[e].1);
                        assert(evs@[p] == evs_before[p]);
                        assert(evs@[e] == evs_before[e]);
                    } else {
                        assert(evs_before.len() >= 1);
                        assert(pos_linked_to_zero(evs_before, cx as int, cy as int));
                        let p = choose|p: int|
                            0 <= p < evs_before.len() && (#[trigger] evs_before[p]).2
                                == SquareContents::NumMines(0u8) && in_zone(
                                evs_before[p].0 as int,
                                evs_before[p].1 as int,
                                cx as int,
                                cy as int,
                            ) && !(evs_before[p].0 == cx && evs_before[p].1 == cy);
                        assert(evs@[p] == evs_before[p]);
                    }
                }
                assert forall|s: int| 0 <= s < stack@.len() implies #[trigger] pos_linked_to_zero(
                    evs@,
                    stack@[s].0 as int,
                    stack@[s].1 as int,
                ) by {
                    assert(stack@[s] == stack_before[s]);
                    assert(evs_before.len() >= 1) by {
                        if evs_before.len() == 0 {
                            assert(stack_before.len() == 1);
                        }
                    }
                    assert(pos_linked_to_zero(
                        evs_before,
                        stack_before[s].0 as int,
                        stack_before[s].1 as int,
                    ));
                    let p = choose|p: int|
                        0 <= p < evs_before.len() && (#[trigger] evs_before[p]).2
                            == SquareContents::NumMines(0u8) && in_zone(
                            evs_before[p].0 as int,
                            evs_before[p].1 as int,
                            stack_before[s].0 as int,
                            stack_before[s].1 as int,
                        ) && !(evs_before[p].0 == stack_before[s].0 && evs_before[p].1
                            == stack_before[s].1);
                    assert(evs@[p] == evs_before[p]);
                }
            }
            if n == 0 {
                let ghost f1 = *self;
                let nbrs = self.square_neighbors(cx, cy);
                proof {
                    assert(self.adj_mines(cx as int, cy as int) == 0);
                    lemma_adj_zero_no_mines(*self, cx as int, cy as int, 8);
                    lemma_neighbors_elements(*self, cx as int, cy as int, 8);
                    assert forall|idx: int| 0 <= idx < nbrs@.len() implies pre.in_bounds(
                        (#[trigger] nbrs@[idx]).0 as int,
                        nbrs@[idx].1 as int,
                    ) && !pre.sq(nbrs@[idx].0 as int, nbrs@[idx].1 as int).is_mine by {
                        let ns = self.neighbors_upto(cx as int, cy as int, 8);
                        assert(is_nbr_pos(*self, cx as int, cy as int, ns[idx]));
                        let j = choose|j: int|
                            0 <= j < 8 && ns[idx].0 == cx + nbr_dx(j) && ns[idx].1 == cy
                                + #[trigger] nbr_dy(j) && self.in_bounds(ns[idx].0, ns[idx].1);
                        assert(!self.mine_at(cx + nbr_dx(j), cy + nbr_dy(j)));
                        lemma_grid_index(
                            self.width as int,
                            self.height as int,
                            ns[idx].0,
                            ns[idx].1,
                        );
                    }
                }
                let ghost bound0 = count_sq(self.squares@, |q: Square| !q.revealed) * 2
                    + stack@.len();
                let mut t: usize = 0;
                while t < nbrs.len()
                    invariant
                        0 <= t <= nbrs@.len(),
                        self.wf(),
                        self.width == pre.width,
                        self.height == pre.height,
                        self.num_mines == pre.num_mines,
                        !self.is_first_move,
                        self.squares@.len() == pre.squares@.len(),
                        forall|i: int|
                            0 <= i < pre.squares@.len() ==> {
                                let qp = pre.squares@[i];
                                let q1s = #[trigger] self.squares@[i];
                                q1s.x == qp.x && q1s.y == qp.y && q1s.flagged == qp.flagged
                                    && q1s.is_mine == qp.is_mine
                            },
                        forall|i: int|
                            0 <= i < pre.squares@.len() ==> {
                                let qp = pre.squares@[i];
                                let q1s = #[trigger] self.squares@[i];
                                q1s.revealed <==> (qp.revealed || ev_at(
                                    evs@,
                                    qp.x as int,
                                    qp.y as int,
                                ) || pos_in(stack@, qp.x as int, qp.y as int))
                            },
                        forall|s: int|
                            0 <= s < stack@.len() ==> pre.in_bounds(
                                (#[trigger] stack@[s]).0 as int,
                                stack@[s].1 as int,
                            ) && !pre.sq(stack@[s].0 as int, stack@[s].1 as int).revealed
                                && !pre.sq(stack@[s].0 as int, stack@[s].1 as int).is_mine,
                        forall|s1: int, s2: int|
                            0 <= s1 < s2 < stack@.len() ==> ((#[trigger] stack@[s1]).0,
                            stack@[s1].1) != ((#[trigger] stack@[s2]).0, stack@[s2].1),
                        forall|e: int, s: int|
                            0 <= e < evs@.len() && 0 <= s < stack@.len() ==> ((
                            #[trigger] evs@[e]).0, evs@[e].1) != ((#[trigger] stack@[s]).0,
                            stack@[s].1),
                        forall|e: int, k: int|
                            0 <= e < evs@.len() - 1 && 0 <= k < 8 && (#[trigger] evs@[e]).2
                                == SquareContents::NumMines(0u8) && pre.in_bounds(
                                evs@[e].0 + nbr_dx(k),
                                evs@[e].1 + nbr_dy(k),
                            ) ==> self.sq(
                                evs@[e].0 + nbr_dx(k),
                                evs@[e].1 + #[trigger] nbr_dy(k),
                            ).revealed,
                        forall|idx: int|
                            0 <= idx < t ==> self.sq(
                                (#[trigger] nbrs@[idx]).0 as int,
                                nbrs@[idx].1 as int,
                            ).revealed,
                        0 <= count_sq(self.squares@, |q: Square| !q.revealed),
                        2 * count_sq(self.squares@, |q: Square| !q.revealed) + stack@.len()
                            <= bound0,
                        forall|s: int|
                            0 <= s < stack@.len() ==> #[trigger] pos_linked_to_zero(
                                evs@,
                                stack@[s].0 as int,
                                stack@[s].1 as int,
                            ),
                    decreases nbrs@.len() - t,
                {
                    let (px, py, _pm) = nbrs[t];
                    proof {
                        lemma_grid_index(self.width as int, self.height as int, px as int, py as int);
                    }
                    let pi = py * self.width + px;
                    if !self.squares[pi].revealed {
                        let qp = self.squares[pi];
                        let qp2 = Square { revealed: true, ..qp };
                        proof {
                            lemma_count_update(self.squares@, |q: Square| q.is_mine, pi as int, qp2);
                            lemma_count_update(
                                self.squares@,
                                |q: Square| !q.revealed,
                                pi as int,
                                qp2,
                            );
                            lemma_count_upto_bounds(
                                self.squares@,
                                |q: Square| !q.revealed,
                                self.squares@.len() as int,
                            );
                        }
                        let ghost stack_b2 = stack@;
                        let ghost sq_b2 = self.squares@;
                        self.squares[pi] = qp2;
                        stack.push((px, py));
                        proof {
                            assert(stack@ == stack_b2.push((px, py)));
                            assert(pos_linked_to_zero(evs@, px as int, py as int)) by {
                                let ns = f1.neighbors_upto(cx as int, cy as int, 8);
                                assert(is_nbr_pos(f1, cx as int, cy as int, ns[t as int]));
                                let j = choose|j: int|
                                    0 <= j < 8 && ns[t as int].0 == cx + nbr_dx(j) && ns[t as int].1
                                        == cy + #[trigger] nbr_dy(j) && f1.in_bounds(
                                        ns[t as int].0,
                                        ns[t as int].1,
                                    );
                                assert(px as int == cx + nbr_dx(j) && py as int == cy + nbr_dy(j));
                                assert(!(nbr_dx(j) == 0 && nbr_dy(j) == 0));
                                assert(in_zone(cx as int, cy as int, px as int, py as int));
                                assert(evs@[evs@.len() - 1].2 == SquareContents::NumMines(0u8));
                                assert(evs@[evs@.len() - 1].0 == cx && evs@[evs@.len() - 1].1
                                    == cy);
                            }
                            assert forall|s: int|
                                0 <= s < stack@.len() implies #[trigger] pos_linked_to_zero(
                                evs@,
                                stack@[s].0 as int,
                                stack@[s].1 as int,
                            ) by {
                                if s < stack@.len() - 1 {
                                    assert(stack@[s] == stack_b2[s]);
                                    assert(pos_linked_to_zero(
                                        evs@,
                                        stack_b2[s].0 as int,
                                        stack_b2[s].1 as int,
                                    ));
                                }
                            }
                            lemma_count_upto_bounds(
                                self.squares@,
                                |q: Square| !q.revealed,
                                self.squares@.len() as int,
                            );
                            assert(!ev_at(evs@, px as int, py as int) && !pos_in(
                                stack_b2,
                                px as int,
                                py as int,
                            )) by {
                                assert(!sq_b2[pi as int].revealed);
                                assert(pre.squares@[pi as int].x == px && pre.squares@[pi as int].y
                                    == py);
                            }
                            assert forall|i: int| 0 <= i < pre.squares@.len() implies {
                                let qpp = pre.squares@[i];
                                let q1s = #[trigger] self.squares@[i];
                                q1s.revealed <==> (qpp.revealed || ev_at(
                                    evs@,
                                    qpp.x as int,
                                    qpp.y as int,
                                ) || pos_in(stack@, qpp.x as int, qpp.y as int))
                            } by {
                                let qpp = pre.squares@[i];
                                if i == pi {
                                    assert(pos_in(stack@, qpp.x as int, qpp.y as int)) by {
                                        assert(stack@[stack@.len() - 1].0 == px && stack@[stack@.len()
                                            - 1].1 == py);
                                    }
                                } else {
                                    pre.lemma_unique_center(px as int, py as int);
                                    assert(!(qpp.x == px && qpp.y == py));
                                    if pos_in(stack_b2, qpp.x as int, qpp.y as int) {
                                        let s = choose|s: int|
                                            0 <= s < stack_b2.len() && (#[trigger] stack_b2[s]).0
                                                == qpp.x && stack_b2[s].1 == qpp.y;
                                        assert(stack@[s] == stack_b2[s]);
                                        assert(pos_in(stack@, qpp.x as int, qpp.y as int));
                                    }
                                    if pos_in(stack@, qpp.x as int, qpp.y as int) {
                                        let s = choose|s: int|
                                            0 <= s < stack@.len() && (#[trigger] stack@[s]).0 == qpp.x
                                                && stack@[s].1 == qpp.y;
                                        assert(s < stack@.len() - 1);
                                        assert(stack_b2[s] == stack@[s]);
                                        assert(pos_in(stack_b2, qpp.x as int, qpp.y as int));
                                    }
                                }
                            }
                            assert forall|e: int, k: int|
                                0 <= e < evs@.len() - 1 && 0 <= k < 8 && (#[trigger] evs@[e]).2
                                    == SquareContents::NumMines(0u8) && pre.in_bounds(
                                    evs@[e].0 + nbr_dx(k),
                                    evs@[e].1 + nbr_dy(k),
                                ) implies self.sq(
                                evs@[e].0 + nbr_dx(k),
                                evs@[e].1 + #[trigger] nbr_dy(k),
                            ).revealed by {
                                lemma_grid_index(
                                    pre.width as int,
                                    pre.height as int,
                                    evs@[e].0 + nbr_dx(k),
                                    evs@[e].1 + nbr_dy(k),
                                );
                                assert(self.squares@ == sq_b2.update(pi as int, qp2));
                            }
                            assert forall|idx: int| 0 <= idx < t + 1 implies self.sq(
                                (#[trigger] nbrs@[idx]).0 as int,
                                nbrs@[idx].1 as int,
                            ).revealed by {
                                lemma_grid_index(
                                    pre.width as int,
                                    pre.height as int,
                                    nbrs@[idx].0 as int,
                                    nbrs@[idx].1 as int,
                                );
                                assert(self.squares@ == sq_b2.update(pi as int, qp2));
                            }
                        }
                    } else {
                        proof {
                            assert forall|idx: int| 0 <= idx < t + 1 implies self.sq(
                                (#[trigger] nbrs@[idx]).0 as int,
                                nbrs@[idx].1 as int,
                            ).revealed by {
                                lemma_grid_index(
                                    pre.width as int,
                                    pre.height as int,
                                    nbrs@[idx].0 as int,
                                    nbrs@[idx].1 as int,
                                );
                            }
                        }
                    }
                    t = t + 1;
                }
                proof {
                    assert forall|k: int|
                        0 <= k < 8 && pre.in_bounds(
                            cx + nbr_dx(k),
                            cy + #[trigger] nbr_dy(k),
                        ) implies self.sq(cx + nbr_dx(k), cy + nbr_dy(k)).revealed by {
                        let p = (cx + nbr_dx(k), cy + nbr_dy(k));
                        assert(f1.neighbors_upto(cx as int, cy as int, 8).contains(p));
                        let idx = choose|idx: int|
                            0 <= idx < f1.neighbors_upto(cx as int, cy as int, 8).len()
                                && f1.neighbors_upto(cx as int, cy as int, 8)[idx] == p;
                        assert(nbrs@[idx].0 == p.0 && nbrs@[idx].1 == p.1);
                        assert(self.sq(nbrs@[idx].0 as int, nbrs@[idx].1 as int).revealed);
                    }
                    assert forall|e: int, k: int|
                        0 <= e < evs@.len() && 0 <= k < 8 && (#[trigger] evs@[e]).2
                            == SquareContents::NumMines(0u8) && pre.in_bounds(
                            evs@[e].0 + nbr_dx(k),
                            evs@[e].1 + nbr_dy(k),
                        ) implies self.sq(
                        evs@[e].0 + nbr_dx(k),
                        evs@[e].1 + #[trigger] nbr_dy(k),
                    ).revealed by {
                        if e == evs@.len() - 1 {
                            assert(evs@[e].0 == cx && evs@[e].1 == cy);
                        }
                    }
                }
            } else {
                proof {
                    assert forall|e: int, k: int|
                        0 <= e < evs@.len() && 0 <= k < 8 && (#[trigger] evs@[e]).2
                            == SquareContents::NumMines(0u8) && pre.in_bounds(
                            evs@[e].0 + nbr_dx(k),
                            evs@[e].1 + nbr_dy(k),
                        ) implies self.sq(
                        evs@[e].0 + nbr_dx(k),
                        evs@[e].1 + #[trigger] nbr_dy(k),
                    ).revealed by {
                        if e == evs@.len() - 1 {
                            assert(evs@[e].2 == SquareContents::NumMines(n));
                        }
                    }
                }
            }
        }
        proof {
            assert(evs@.len() >= 1);
            assert forall|e: int| 0 <= e < evs@.len() implies {
                let px = (#[trigger] evs@[e]).0 as int;
                let py = evs@[e].1 as int;
                &&& !self.sq(px, py).is_mine
                &&& 0 <= self.adj_mines(px, py) <= 8
                &&& evs@[e].2 == SquareContents::NumMines(self.adj_mines(px, py) as u8)
            } by {
                let px = evs@[e].0 as int;
                let py = evs@[e].1 as int;
                lemma_adj_same(pre, *self, px, py, 8);
                lemma_grid_index(self.width as int, self.height as int, px, py);
            }
            assert(!self.sq(x as int, y as int).is_mine) by {
                lemma_grid_index(self.width as int, self.height as int, x as int, y as int);
            }
            lemma_adj_same(pre, *self, x as int, y as int, 8);
            assert(reveal_outcome(*old(self), *self, evs@, x as int, y as int));
        }
        evs
    }

    /// Reveals the square at (x, y) and, when it has no adjacent
    /// mine, flood-fills the connected zero-adjacency region with an
    /// explicit work list. Returns the reveal events in the order
    /// produced, or `None` when (x, y) is off the grid or already
    /// revealed (in which case nothing changes, and first-move
    /// protection stays pending). The first successful reveal runs
    /// first-move protection before revealing.
    pub fn recursive_square_reveal(&mut self, x: usize, y: usize) -> (r: Option<
        Vec<RevealEvent>,
    >)
        requires
            old(self).wf(),
        ensures
            final(self).wf(),
            final(self).width == old(self).width,
            final(self).height == old(self).height,
            final(self).num_mines == old(self).num_mines,
            count_mines(final(self).squares@) == count_mines(old(self).squares@),
            r is None <==> (!old(self).in_bounds(x as int, y as int) || old(self).sq(
                x as int,
                y as int,
            ).revealed),
            r is None ==> *final(self) == *old(self),
            r is Some ==> reveal_outcome(*old(self), *final(self), r->Some_0@, x as int, y as int),
            r is Some && old(self).is_first_move && old(self).safe_start_possible(
                x as int,
                y as int,
            ) ==> !final(self).sq(x as int, y as int).is_mine && final(self).adj_mines(
                x as int,
                y as int,
            ) == 0,
    {
        if !(x < self.width && y < self.height) {
            return None;
        }
        proof {
            lemma_grid_index(self.width as int, self.height as int, x as int, y as int);
        }
        let i0 = y * self.width + x;
        if self.squares[i0].revealed {
            return None;
        }
        if self.is_first_move {
            self.protect_square(x, y);
            self.is_first_move = false;
        }
        let ghost pre = *self;
        proof {
            assert(pre.wf());
            if old(self).is_first_move && old(self).safe_start_possible(x as int, y as int) {
                lemma_zone_clear_adj_zero(pre, x as int, y as int);
            }
            lemma_grid_index(pre.width as int, pre.height as int, x as int, y as int);
        }
        let evs = if self.squares[i0].is_mine {
            self.reveal_mine(x, y)
        } else {
            self.flood_from(x, y)
        };
        proof {
            if old(self).is_first_move {
                lemma_outcome_compose(*old(self), pre, *self, evs@, x as int, y as int);
                if old(self).safe_start_possible(x as int, y as int) {
                    assert(!pre.sq(x as int, y as int).is_mine);
                    assert(!self.sq(x as int, y as int).is_mine);
                }
            }
        }
        Some(evs)
    }

    /// The square at (x, y), or `None` for out-of-range coordinates.
    pub fn get_square(&self, x: usize, y: usize) -> (r: Option<&Square>)
        requires
            self.wf(),
        ensures
            r is Some <==> self.in_bounds(x as int, y as int),
            r is Some ==> *r->Some_0 == self.sq(x as int, y as int),
    {
        if x < self.width && y < self.height {
            proof {
                lemma_grid_index(self.width as int, self.height as int, x as int, y as int);
            }
            Some(&self.squares[y * self.width + x])
        } else {
            None
        }
    }
}

/// Relies on rand's `SliceRandom::shuffle`: an in-place Fisher-Yates
/// walk of swaps driven by the thread-local generator, so the result
/// is a permutation of the input.
#[verifier::external_body]
fn shuffle_vec<T>(v: &mut Vec<T>)
    ensures
        final(v)@.to_multiset() == old(v)@.to_multiset(),
        final(v)@.len() == old(v)@.len(),
{
    v.as_mut_slice().shuffle(&mut rand::thread_rng());
}

/// Counts over a prefix are bounded by the prefix length.
pub proof fn lemma_count_upto_bounds(s: Seq<Square>, f: spec_fn(Square) -> bool, k: int)
    requires
        0 <= k <= s.len(),
    ensures
        0 <= count_upto(s, f, k) <= k,
    decreases k,
{
    if k > 0 {
        lemma_count_upto_bounds(s, f, k - 1);
    }
}

/// Two sequences that agree on their first `k` elements have the same
/// count over that prefix.
pub proof fn lemma_count_upto_agree(
    s1: Seq<Square>,
    s2: Seq<Square>,
    f: spec_fn(Square) -> bool,
    k: int,
)
    requires
        0 <= k <= s1.len(),
        k <= s2.len(),
        forall|i: int| 0 <= i < k ==> s1[i] == s2[i],
    ensures
        count_upto(s1, f, k) == count_upto(s2, f, k),
    decreases k,
{
    if k > 0 {
        lemma_count_upto_agree(s1, s2, f, k - 1);
    }
}

/// Appending one element adds its own contribution to the count.
pub proof fn lemma_count_push(s: Seq<Square>, f: spec_fn(Square) -> bool, v: Square)
    ensures
        count_sq(s.push(v), f) == count_sq(s, f) + if f(v) {
            1int
        } else {
            0int
        },
{
    lemma_count_upto_agree(s.push(v), s, f, s.len() as int);
}

/// Replacing the element at `i` shifts the count by the difference of
/// the two elements' contributions; a prefix that stops before `i` is
/// unaffected.
pub proof fn lemma_count_upto_update(
    s: Seq<Square>,
    f: spec_fn(Square) -> bool,
    i: int,
    v: Square,
    k: int,
)
    requires
        0 <= i < s.len(),
        0 <= k <= s.len(),
    ensures
        i < k ==> count_upto(s.update(i, v), f, k) == count_upto(s, f, k) - (if f(s[i]) {
            1int
        } else {
            0int
        }) + (if f(v) {
            1int
        } else {
            0int
        }),
        i >= k ==> count_upto(s.update(i, v), f, k) == count_upto(s, f, k),
    decreases k,
{
    if k > 0 {
        lemma_count_upto_update(s, f, i, v, k - 1);
    }
}

/// The whole-sequence form of `lemma_count_upto_update`.
pub proof fn lemma_count_update(s: Seq<Square>, f: spec_fn(Square) -> bool, i: int, v: Square)
    requires
        0 <= i < s.len(),
    ensures
        count_sq(s.update(i, v), f) == count_sq(s, f) - (if f(s[i]) {
            1int
        } else {
            0int
        }) + (if f(v) {
            1int
        } else {
            0int
        }),
{
    lemma_count_upto_update(s, f, i, v, s.len() as int);
}

/// A count is zero exactly when no element satisfies the predicate:
/// the bridge from `count_sq`-based specifications (mine counts,
/// zone counts, eligible targets) to pointwise facts about squares.
pub proof fn lemma_count_upto_zero(s: Seq<Square>, f: spec_fn(Square) -> bool, k: int)
    requires
        0 <= k <= s.len(),
    ensures
        count_upto(s, f, k) == 0 <==> (forall|i: int| 0 <= i < k ==> !f(s[i])),
    decreases k,
{
    if k > 0 {
        lemma_count_upto_zero(s, f, k - 1);
        lemma_count_upto_bounds(s, f, k - 1);
    }
}

/// Removing the element at `j` removes exactly its contribution.
pub proof fn lemma_count_remove(s: Seq<Square>, f: spec_fn(Square) -> bool, j: int)
    requires
        0 <= j < s.len(),
    ensures
        count_sq(s, f) == count_sq(s.remove(j), f) + if f(s[j]) {
            1int
        } else {
            0int
        },
    decreases s.len(),
{
    let n = s.len() as int;
    if j == n - 1 {
        assert(s.remove(j) =~= s.subrange(0, n - 1));
        lemma_count_upto_agree(s, s.remove(j), f, n - 1);
    } else {
        let t = s.subrange(0, n - 1);
        lemma_count_upto_agree(s, t, f, n - 1);
        lemma_count_remove(t, f, j);
        assert(t.remove(j) =~= s.remove(j).subrange(0, n - 2));
        lemma_count_upto_agree(s.remove(j), t.remove(j), f, n - 2);
        assert(s.remove(j)[n - 2] == s[n - 1]);
    }
}

/// Sequences with the same multiset of squares have the same count:
/// a shuffle changes no count.
pub proof fn lemma_count_multiset(s1: Seq<Square>, s2: Seq<Square>, f: spec_fn(Square) -> bool)
    requires
        s1.to_multiset() == s2.to_multiset(),
    ensures
        count_sq(s1, f) == count_sq(s2, f),
    decreases s1.len(),
{
    broadcast use group_to_multiset_ensures;

    if s1.len() == 0 {
        assert(s1.to_multiset().len() == 0);
        assert(s2.to_multiset().len() == 0);
        assert(s2.len() == 0);
    } else {
        let n = s1.len() as int;
        let a = s1[n - 1];
        assert(s1.contains(a));
        assert(s2.to_multiset().count(a) > 0);
        assert(s2.contains(a));
        let j = choose|j: int| 0 <= j < s2.len() && s2[j] == a;
        assert(s1.remove(n - 1).to_multiset() =~= s2.remove(j).to_multiset());
        lemma_count_multiset(s1.remove(n - 1), s2.remove(j), f);
        lemma_count_remove(s1, f, n - 1);
        lemma_count_remove(s2, f, j);
    }
}

/// The row-major index of a position given as an (x, y) pair.
pub open spec fn pos_idx(w: int, p: (usize, usize)) -> int {
    p.1 * w + p.0
}

/// Positions with x below the grid width are determined by their
/// row-major index.
pub proof fn lemma_pos_idx_inj(w: int, p1: (usize, usize), p2: (usize, usize))
    requires
        0 < w,
        p1.0 < w,
        p2.0 < w,
        pos_idx(w, p1) == pos_idx(w, p2),
    ensures
        p1 == p2,
{
    assert(p1.0 == p2.0 && p1.1 == p2.1) by (nonlinear_arith)
        requires
            0 < w,
            p1.0 < w,
            p2.0 < w,
            p1.1 * w + p1.0 == p2.1 * w + p2.0,
    ;
}

/// One reveal report: the coordinates of a square and what it held.
pub type RevealEvent = (usize, usize, SquareContents);

/// Some event in `evs` is at position (px, py).
pub open spec fn ev_at(evs: Seq<RevealEvent>, px: int, py: int) -> bool {
    exists|e: int| 0 <= e < evs.len() && (#[trigger] evs[e]).0 == px && evs[e].1 == py
}

/// Some entry of `list` is the position (px, py).
pub open spec fn pos_in(list: Seq<(usize, usize)>, px: int, py: int) -> bool {
    exists|e: int| 0 <= e < list.len() && (#[trigger] list[e]).0 == px && list[e].1 == py
}

/// Some event in `evs` reports a detonation.
pub open spec fn has_mine_event(evs: Seq<RevealEvent>) -> bool {
    exists|e: int| 0 <= e < evs.len() && (#[trigger] evs[e]).2 == SquareContents::MineBoom
}

/// Some event before index `e` reports zero adjacent mines from a
/// square adjacent to the position of event `e`: event `e` was
/// reached by cascading.
pub open spec fn linked_to_zero(evs: Seq<RevealEvent>, e: int) -> bool {
    exists|p: int|
        0 <= p < e && (#[trigger] evs[p]).2 == SquareContents::NumMines(0u8) && in_zone(
            evs[p].0 as int,
            evs[p].1 as int,
            evs[e].0 as int,
            evs[e].1 as int,
        ) && !(evs[p].0 == evs[e].0 && evs[p].1 == evs[e].1)
}

/// Some event in `evs` reports zero adjacent mines from a square
/// adjacent to (px, py).
pub open spec fn pos_linked_to_zero(evs: Seq<RevealEvent>, px: int, py: int) -> bool {
    exists|p: int|
        0 <= p < evs.len() && (#[trigger] evs[p]).2 == SquareContents::NumMines(0u8) && in_zone(
            evs[p].0 as int,
            evs[p].1 as int,
            px,
            py,
        ) && !(evs[p].0 == px && evs[p].1 == py)
}

/// What a successful reveal at the in-bounds, unrevealed (x, y)
/// guarantees about the events it reports and the state it leaves.
///
/// The events carry distinct, in-bounds, previously unrevealed
/// positions, starting at (x, y); a square is revealed afterwards
/// exactly if it was already revealed or is reported; coordinates
/// and flags never change, and mines only change through first-move
/// protection. A detonation is the single event of its reveal; a
/// non-mine reveal reports correct adjacent-mine counts, cascades
/// only from squares with count zero, and leaves every neighbor of a
/// reported count-zero square revealed. Every event after the first
/// is adjacent to an earlier count-zero event, so exactly the
/// connected zero-adjacency region around (x, y), together with its
/// boundary, is reported.
pub open spec fn reveal_outcome(
    pre: Minefield,
    post: Minefield,
    evs: Seq<RevealEvent>,
    x: int,
    y: int,
) -> bool {
    &&& post.wf()
    &&& post.width == pre.width
    &&& post.height == pre.height
    &&& post.num_mines == pre.num_mines
    &&& !post.is_first_move
    &&& evs.len() >= 1
    &&& evs[0].0 == x && evs[0].1 == y
    &&& forall|e: int|
        0 <= e < evs.len() ==> pre.in_bounds((#[trigger] evs[e]).0 as int, evs[e].1 as int)
            && !pre.sq(evs[e].0 as int, evs[e].1 as int).revealed
    &&& forall|e1: int, e2: int|
        0 <= e1 < e2 < evs.len() ==> ((#[trigger] evs[e1]).0, evs[e1].1) != ((
        #[trigger] evs[e2]).0, evs[e2].1)
    &&& forall|i: int|
        0 <= i < post.squares@.len() ==> {
            let q0 = pre.squares@[i];
            let q1 = #[trigger] post.squares@[i];
            q1.x == q0.x && q1.y == q0.y && q1.flagged == q0.flagged && (q1.revealed <==> (
            q0.revealed || ev_at(evs, q0.x as int, q0.y as int)))
        }
    &&& !pre.is_first_move ==> forall|i: int|
        0 <= i < post.squares@.len() ==> (#[trigger] post.squares@[i]).is_mine
            == pre.squares@[i].is_mine
    &&& forall|e: int| 1 <= e < evs.len() ==> #[trigger] linked_to_zero(evs, e)
    &&& post.sq(x, y).is_mine ==> evs.len() == 1 && evs[0].2 == SquareContents::MineBoom
    &&& !post.sq(x, y).is_mine ==> forall|e: int|
        0 <= e < evs.len() ==> {
            let px = (#[trigger] evs[e]).0 as int;
            let py = evs[e].1 as int;
            &&& !post.sq(px, py).is_mine
            &&& 0 <= post.adj_mines(px, py) <= 8
            &&& evs[e].2 == SquareContents::NumMines(post.adj_mines(px, py) as u8)
        }
    &&& !post.sq(x, y).is_mine && post.adj_mines(x, y) != 0 ==> evs.len() == 1
    &&& forall|e: int, k: int|
        0 <= e < evs.len() && 0 <= k < 8 && (#[trigger] evs[e]).2 == SquareContents::NumMines(0u8)
            && post.in_bounds(evs[e].0 + nbr_dx(k), evs[e].1 + nbr_dy(k)) ==> post.sq(
            evs[e].0 + nbr_dx(k),
            evs[e].1 + #[trigger] nbr_dy(k),
        ).revealed
}

/// Partial adjacency counts are never negative.
pub proof fn lemma_adj_upto_nonneg(f: Minefield, x: int, y: int, k: int)
    ensures
        f.adj_upto(x, y, k) >= 0,
    decreases k,
{
    if k > 0 {
        lemma_adj_upto_nonneg(f, x, y, k - 1);
    }
}

/// A zero adjacency count over the first `k` positions means none of
/// them holds a mine.
pub proof fn lemma_adj_zero_no_mines(f: Minefield, x: int, y: int, k: int)
    requires
        0 <= k,
        f.adj_upto(x, y, k) == 0,
    ensures
        forall|j: int| 0 <= j < k ==> !f.mine_at(x + nbr_dx(j), y + nbr_dy(j)),
    decreases k,
{
    if k > 0 {
        lemma_adj_upto_nonneg(f, x, y, k - 1);
        lemma_adj_zero_no_mines(f, x, y, k - 1);
    }
}

/// Adjacency counts agree between two minefields with the same
/// dimensions and the same mine layout.
pub proof fn lemma_adj_same(f1: Minefield, f2: Minefield, x: int, y: int, k: int)
    requires
        k <= 8,
        f1.width == f2.width,
        f1.height == f2.height,
        0 < f1.width,
        f1.squares@.len() == f1.width * f1.height,
        f1.squares@.len() == f2.squares@.len(),
        forall|i: int|
            0 <= i < f1.squares@.len() ==> (#[trigger] f1.squares@[i]).is_mine
                == f2.squares@[i].is_mine,
    ensures
        f1.adj_upto(x, y, k) == f2.adj_upto(x, y, k),
    decreases k,
{
    if k > 0 {
        lemma_adj_same(f1, f2, x, y, k - 1);
        let px = x + nbr_dx(k - 1);
        let py = y + nbr_dy(k - 1);
        if f1.in_bounds(px, py) {
            lemma_grid_index(f1.width as int, f1.height as int, px, py);
            assert(f1.sq(px, py).is_mine == f2.sq(px, py).is_mine);
        }
    }
}

/// (px, py) is one of the 8 adjacent positions of (x, y) and lies on
/// the grid of `f`.
pub open spec fn is_nbr_pos(f: Minefield, x: int, y: int, p: (int, int)) -> bool {
    exists|j: int|
        0 <= j < 8 && p.0 == x + nbr_dx(j) && p.1 == y + #[trigger] nbr_dy(j) && f.in_bounds(
            p.0,
            p.1,
        )
}

/// The neighbor list holds exactly the in-bounds positions among the
/// first `k` offsets: every entry is an adjacent in-bounds position,
/// and every in-bounds offset position is an entry.
pub proof fn lemma_neighbors_elements(f: Minefield, x: int, y: int, k: int)
    requires
        0 <= k <= 8,
    ensures
        forall|idx: int|
            0 <= idx < f.neighbors_upto(x, y, k).len() ==> is_nbr_pos(
                f,
                x,
                y,
                #[trigger] f.neighbors_upto(x, y, k)[idx],
            ),
        forall|j: int|
            0 <= j < k && f.in_bounds(x + #[trigger] nbr_dx(j), y + nbr_dy(j))
                ==> f.neighbors_upto(x, y, k).contains((x + nbr_dx(j), y + nbr_dy(j))),
    decreases k,
{
    if k > 0 {
        lemma_neighbors_elements(f, x, y, k - 1);
        let prev = f.neighbors_upto(x, y, k - 1);
        let cur = f.neighbors_upto(x, y, k);
        let p = (x + nbr_dx(k - 1), y + nbr_dy(k - 1));
        if f.in_bounds(p.0, p.1) {
            assert(cur =~= prev + seq![p]);
            assert(cur.len() == prev.len() + 1);
        } else {
            assert(cur =~= prev);
        }
        assert forall|idx: int| 0 <= idx < cur.len() implies is_nbr_pos(
            f,
            x,
            y,
            #[trigger] cur[idx],
        ) by {
            if idx < prev.len() {
                assert(cur[idx] == prev[idx]);
                assert(is_nbr_pos(f, x, y, prev[idx]));
            } else {
                assert(f.in_bounds(p.0, p.1));
                assert(cur[idx] == p);
                assert(p.0 == x + nbr_dx(k - 1) && p.1 == y + nbr_dy(k - 1));
            }
        }
        assert forall|j: int|
            0 <= j < k && f.in_bounds(x + #[trigger] nbr_dx(j), y + nbr_dy(j)) implies cur.contains(
            (x + nbr_dx(j), y + nbr_dy(j)),
        ) by {
            if j < k - 1 {
                let q = (x + nbr_dx(j), y + nbr_dy(j));
                assert(prev.contains(q));
                let idx = choose|idx: int| 0 <= idx < prev.len() && prev[idx] == q;
                assert(cur[idx] == q);
            } else {
                assert(cur[cur.len() - 1] == p);
            }
        }
    }
}

/// If none of the first `k` adjacent positions of (x, y) holds a
/// mine, the partial adjacency count is zero.
pub proof fn lemma_adj_upto_zero(f: Minefield, x: int, y: int, k: int)
    requires
        0 <= k <= 8,
        forall|j: int| 0 <= j < k ==> !f.mine_at(x + nbr_dx(j), y + nbr_dy(j)),
    ensures
        f.adj_upto(x, y, k) == 0,
    decreases k,
{
    if k > 0 {
        lemma_adj_upto_zero(f, x, y, k - 1);
    }
}

/// If the protection zone of an in-bounds (x, y) holds no mine, then
/// (x, y) is not a mine and has no adjacent mine.
pub proof fn lemma_zone_clear_adj_zero(f: Minefield, x: int, y: int)
    requires
        f.wf(),
        f.in_bounds(x, y),
        forall|i: int|
            0 <= i < f.squares@.len() && in_zone(
                x,
                y,
                (#[trigger] f.squares@[i]).x as int,
                f.squares@[i].y as int,
            ) ==> !f.squares@[i].is_mine,
    ensures
        !f.sq(x, y).is_mine,
        f.adj_mines(x, y) == 0,
{
    lemma_grid_index(f.width as int, f.height as int, x, y);
    assert(!f.sq(x, y).is_mine) by {
        let i = f.idx(x, y);
        assert(f.squares@[i].x == i % (f.width as int));
        assert(in_zone(x, y, f.squares@[i].x as int, f.squares@[i].y as int));
    }
    assert forall|j: int| 0 <= j < 8 implies !f.mine_at(x + nbr_dx(j), y + nbr_dy(j)) by {
        let px = x + nbr_dx(j);
        let py = y + nbr_dy(j);
        if f.in_bounds(px, py) {
            lemma_grid_index(f.width as int, f.height as int, px, py);
            let i = f.idx(px, py);
            assert(f.squares@[i].x == i % (f.width as int));
            assert(in_zone(x, y, f.squares@[i].x as int, f.squares@[i].y as int));
        }
    }
    lemma_adj_upto_zero(f, x, y, 8);
}

/// A successful reveal that meets its contract against the state
/// left by first-move protection also meets it against the state
/// before protection: protection changes only mine flags, and the
/// contract's clauses about mines are conditioned on the first move.
pub proof fn lemma_outcome_compose(
    o: Minefield,
    pre: Minefield,
    post: Minefield,
    evs: Seq<RevealEvent>,
    x: int,
    y: int,
)
    requires
        o.wf(),
        pre.wf(),
        o.is_first_move,
        pre.width == o.width,
        pre.height == o.height,
        pre.num_mines == o.num_mines,
        pre.squares@.len() == o.squares@.len(),
        forall|i: int|
            0 <= i < o.squares@.len() ==> same_but_mine(
                o.squares@[i],
                #[trigger] pre.squares@[i],
            ),
        reveal_outcome(pre, post, evs, x, y),
    ensures
        reveal_outcome(o, post, evs, x, y),
{
    assert forall|e: int| 0 <= e < evs.len() implies o.in_bounds(
        (#[trigger] evs[e]).0 as int,
        evs[e].1 as int,
    ) && !o.sq(evs[e].0 as int, evs[e].1 as int).revealed by {
        lemma_grid_index(o.width as int, o.height as int, evs[e].0 as int, evs[e].1 as int);
        let i = o.idx(evs[e].0 as int, evs[e].1 as int);
        assert(same_but_mine(o.squares@[i], pre.squares@[i]));
    }
    assert forall|i: int| 0 <= i < post.squares@.len() implies {
        let q0 = o.squares@[i];
        let q1 = #[trigger] post.squares@[i];
        q1.x == q0.x && q1.y == q0.y && q1.flagged == q0.flagged && (q1.revealed <==> (q0.revealed
            || ev_at(evs, q0.x as int, q0.y as int)))
    } by {
        assert(same_but_mine(o.squares@[i], pre.squares@[i]));
    }
}

/// On a W x H grid, the row-major index of an in-bounds (x, y) is a
/// valid index, and recovers x and y by division and remainder.
pub proof fn lemma_grid_index(w: int, h: int, x: int, y: int)
    requires
        0 < w,
        0 <= x < w,
        0 <= y < h,
    ensures
        0 <= y * w + x < w * h,
        (y * w + x) % w == x,
        (y * w + x) / w == y,
{
    assert(y * w + x < w * h && (y * w + x) % w == x && (y * w + x) / w == y) by (nonlinear_arith)
        requires
            0 < w && 0 <= x < w && 0 <= y < h,
    ;
}

} // verus!
