//! Snakes and Ladders as a Markov chain: the board's remap table, the
//! transition matrix that folds die rolls through the remap and the goal
//! clamp, and games sampled from that matrix.
//!
//! Matrix entries are kept exactly, as a number of die faces: the
//! probability of moving from square `i` to square `k` is
//! `matrix[i][k] / DICE_SIDES`.
use crate::rng::{choose_weighted_item, weight_total};
use crate::stats::{all_same, moments_fit, stats_of, SimulationError, SimulationStats};
use std::collections::HashMap;
use vstd::prelude::*;

verus! {

/// The goal square; squares run from 0 (the start) to `BOARD_SIZE`.
pub const BOARD_SIZE: usize = 100;

/// The number of faces of the die.
pub const DICE_SIDES: usize = 6;

/// Errors of the Snakes and Ladders simulation.
#[derive(Debug)]
pub enum SnlError {
    /// A game was asked to start on the goal, off the board, or on a remap source.
    InvalidPosition(usize),
    /// A requested start square lies off the board.
    InvalidStart(usize),
    /// Sampling met a matrix row with no weight.
    TransitionMatrixError,
    /// An error of the shared simulation and statistics code.
    SimError(SimulationError),
}

/// The settings of a Snakes and Ladders run.
pub struct SnlArgs {
    /// Number of games to play from each start square.
    pub num_iterations: u64,
    /// The square to start from.
    pub start: usize,
}

impl SnlArgs {
    /// Checks the settings: the start must lie on the board short of the
    /// goal, and at least one game must be played.
    pub fn validate(&self) -> (r: Result<(), SnlError>)
        ensures
            self.start >= BOARD_SIZE ==> (r matches Err(SnlError::InvalidStart(s)) && s
                == self.start),
            self.start < BOARD_SIZE && self.num_iterations == 0 ==> r matches Err(
                SnlError::SimError(SimulationError::InvalidIterationCount(0)),
            ),
            self.start < BOARD_SIZE && self.num_iterations > 0 ==> r is Ok,
    {
        if self.start >= BOARD_SIZE {
            return Err(SnlError::InvalidStart(self.start));
        }
        if self.num_iterations == 0 {
            return Err(
                SnlError::SimError(SimulationError::InvalidIterationCount(self.num_iterations)),
            );
        }
        Ok(())
    }
}

/// The statistics of the games played from one start square.
#[derive(Debug)]
pub struct SnlStatistics {
    pub start: usize,
    pub statistics: SimulationStats,
}

impl SnlStatistics {
    /// Summarizes the move counts of the games played from `start`.
    pub fn new(start: usize, moves: &[u64]) -> (r: Result<Self, SnlError>)
        requires
            moments_fit(moves@),
        ensures
            moves@.len() == 0 ==> r matches Err(SnlError::SimError(SimulationError::EmptyMoveArray)),
            moves@.len() > 0 && all_same(moves@) ==> r matches Err(
                SnlError::SimError(SimulationError::StatisticalError(_)),
            ),
            moves@.len() > 0 && !all_same(moves@) ==> r == Ok::<Self, SnlError>(
                SnlStatistics { start, statistics: stats_of(moves@) },
            ),
    {
        match SimulationStats::from_values(moves) {
            Ok(statistics) => Ok(SnlStatistics { start, statistics }),
            Err(e) => Err(SnlError::SimError(e)),
        }
    }
}

/// Where a piece that lands on `j` ends up: the remap's destination, or `j`.
pub open spec fn redirect(remap: Map<usize, usize>, j: usize) -> usize {
    if remap.contains_key(j) {
        remap[j]
    } else {
        j
    }
}

/// The square that die face `face` carries a piece to from square `i`:
/// a roll past the goal counts as reaching it.
pub open spec fn landing(remap: Map<usize, usize>, i: usize, face: nat) -> usize {
    redirect(
        remap,
        if i + face >= BOARD_SIZE {
            BOARD_SIZE
        } else {
            (i + face) as usize
        },
    )
}

/// How many of the faces `1..=faces` carry a piece from `i` to `k`.
pub open spec fn faces_to(remap: Map<usize, usize>, i: usize, k: usize, faces: nat) -> nat
    decreases faces,
{
    if faces == 0 {
        0
    } else {
        faces_to(remap, i, k, (faces - 1) as nat) + if landing(remap, i, faces) == k {
            1nat
        } else {
            0nat
        }
    }
}

/// A square that a game moves on from: short of the goal and not a remap
/// source (a piece landing on a source is moved on at once).
pub open spec fn is_playable(remap: Map<usize, usize>, i: usize) -> bool {
    i < BOARD_SIZE && !remap.contains_key(i)
}

/// The matrix entry from `i` to `k`, in die faces: zero on every row that is
/// not playable.
pub open spec fn transition_faces(remap: Map<usize, usize>, i: usize, k: usize) -> nat {
    if is_playable(remap, i) {
        faces_to(remap, i, k, DICE_SIDES as nat)
    } else {
        0
    }
}

/// A remap table of the board: sources and destinations lie on squares
/// `1..=BOARD_SIZE`, and a destination is never itself a source.
pub open spec fn remap_wf(remap: Map<usize, usize>) -> bool {
    forall|j: usize|
        #[trigger] remap.contains_key(j) ==> {
            &&& 1 <= j <= BOARD_SIZE
            &&& 1 <= remap[j] <= BOARD_SIZE
            &&& !remap.contains_key(remap[j])
        }
}

/// The sum of a row's entries.
pub open spec fn row_total(row: Seq<u8>) -> int
    decreases row.len(),
{
    if row.len() == 0 {
        0
    } else {
        row_total(row.drop_last()) + row.last() as int
    }
}

/// The rows of a matrix, as sequences.
pub open spec fn matrix_view(m: Seq<Vec<u8>>) -> Seq<Seq<u8>> {
    m.map_values(|row: Vec<u8>| row@)
}

/// `m` is the transition matrix of the board under `remap`.
pub open spec fn is_transition_matrix(remap: Map<usize, usize>, m: Seq<Seq<u8>>) -> bool {
    &&& m.len() == BOARD_SIZE + 1
    &&& forall|i: int| 0 <= i <= BOARD_SIZE ==> (#[trigger] m[i]).len() == BOARD_SIZE + 1
    &&& forall|i: int, k: int|
        0 <= i <= BOARD_SIZE && 0 <= k <= BOARD_SIZE ==> #[trigger] m[i][k]
            == transition_faces(remap, i as usize, k as usize)
}

/// The standard board: ladders up and snakes down.
pub open spec fn standard_remap() -> Map<usize, usize> {
    map![
        1usize => 38usize, 4usize => 14usize, 9usize => 31usize, 16usize => 6usize,
        21usize => 42usize, 28usize => 84usize, 36usize => 44usize, 47usize => 26usize,
        49usize => 11usize, 51usize => 67usize, 56usize => 53usize, 62usize => 19usize,
        64usize => 60usize, 71usize => 91usize, 80usize => 100usize, 87usize => 24usize,
        93usize => 73usize, 95usize => 75usize, 98usize => 78usize
    ]
}

proof fn lemma_faces_to_bound(remap: Map<usize, usize>, i: usize, k: usize, faces: nat)
    ensures
        faces_to(remap, i, k, faces) <= faces,
    decreases faces,
{
    if faces > 0 {
        lemma_faces_to_bound(remap, i, k, (faces - 1) as nat);
    }
}

/// A square that some face reaches is the landing square of such a face.
proof fn lemma_faces_to_positive(remap: Map<usize, usize>, i: usize, k: usize, faces: nat)
    requires
        faces_to(remap, i, k, faces) > 0,
    ensures
        exists|f: nat| 1 <= f <= faces && #[trigger] landing(remap, i, f) == k,
    decreases faces,
{
    if landing(remap, i, faces) != k {
        lemma_faces_to_positive(remap, i, k, (faces - 1) as nat);
        let f = choose|f: nat| 1 <= f <= faces - 1 && #[trigger] landing(remap, i, f) == k;
        assert(1 <= f <= faces && landing(remap, i, f) == k);
    }
}

/// Every landing square is on the board and is the goal or a playable square.
proof fn lemma_landing_wf(remap: Map<usize, usize>, i: usize, face: nat)
    requires
        remap_wf(remap),
    ensures
        landing(remap, i, face) <= BOARD_SIZE,
        landing(remap, i, face) == BOARD_SIZE || is_playable(remap, landing(remap, i, face)),
{
    let j = if i + face >= BOARD_SIZE {
        BOARD_SIZE
    } else {
        (i + face) as usize
    };
    if remap.contains_key(j) {
        assert(1 <= remap[j] <= BOARD_SIZE);
    }
}

proof fn lemma_row_total_update(row: Seq<u8>, k: int, v: u8)
    requires
        0 <= k < row.len(),
    ensures
        row_total(row.update(k, v)) == row_total(row) - row[k] + v,
    decreases row.len(),
{
    let u = row.update(k, v);
    if k == row.len() - 1 {
        assert(u.drop_last() =~= row.drop_last());
    } else {
        assert(u.drop_last() =~= row.drop_last().update(k, v));
        lemma_row_total_update(row.drop_last(), k, v);
    }
}

proof fn lemma_row_total_zero(row: Seq<u8>)
    requires
        forall|k: int| 0 <= k < row.len() ==> #[trigger] row[k] == 0,
    ensures
        row_total(row) == 0,
    decreases row.len(),
{
    if row.len() > 0 {
        lemma_row_total_zero(row.drop_last());
    }
}

/// The weight that the squares `0..n` carry in a row is the total of the
/// row's first `n` entries.
proof fn lemma_weight_total_of_squares(row: Seq<u8>, n: nat)
    requires
        n <= row.len(),
        n <= BOARD_SIZE + 1,
    ensures
        weight_total(Seq::new(n, |p: int| p as usize), row) == row_total(row.take(n as int)),
    decreases n,
{
    if n > 0 {
        let items = Seq::new(n, |p: int| p as usize);
        assert(items.drop_last() =~= Seq::new((n - 1) as nat, |p: int| p as usize));
        assert(row.take(n as int).drop_last() =~= row.take(n - 1));
        lemma_weight_total_of_squares(row, (n - 1) as nat);
        assert(items.last() == (n - 1) as usize);
    } else {
        assert(row.take(0).len() == 0);
    }
}

proof fn lemma_standard_remap_wf()
    ensures
        remap_wf(standard_remap()),
{
}

/// In a transition matrix, the row of every playable square carries all
/// `DICE_SIDES` faces (its probabilities sum to one), and the rows of the
/// goal and of the remap sources are zero.
pub proof fn lemma_row_totals(remap: Map<usize, usize>, i: usize, m: Seq<Seq<u8>>)
    requires
        remap_wf(remap),
        i <= BOARD_SIZE,
        is_transition_matrix(remap, m),
    ensures
        row_total(m[i as int]) == if is_playable(remap, i) {
            DICE_SIDES as int
        } else {
            0
        },
{
    let row = m[i as int];
    assert(row.take((BOARD_SIZE + 1) as int) =~= row);
    if is_playable(remap, i) {
        lemma_faces_total(remap, i, DICE_SIDES as nat, (BOARD_SIZE + 1) as nat);
        lemma_row_total_is_faces_total(remap, i, row, (BOARD_SIZE + 1) as nat);
    } else {
        assert forall|k: int| 0 <= k < row.len() implies #[trigger] row[k] == 0 by {
            assert(m[i as int][k] == transition_faces(remap, i, k as usize));
        }
        lemma_row_total_zero(row);
    }
}

/// The total, over the squares `0..n`, of the faces that carry a piece from
/// `i` to each.
pub open spec fn faces_total(remap: Map<usize, usize>, i: usize, faces: nat, n: nat) -> int
    decreases n,
{
    if n == 0 {
        0
    } else {
        faces_total(remap, i, faces, (n - 1) as nat) + faces_to(
            remap,
            i,
            (n - 1) as usize,
            faces,
        )
    }
}

/// Every face lands on exactly one square of the board.
proof fn lemma_faces_total(remap: Map<usize, usize>, i: usize, faces: nat, n: nat)
    requires
        remap_wf(remap),
        n == BOARD_SIZE + 1,
    ensures
        faces_total(remap, i, faces, n) == faces,
    decreases faces,
{
    if faces > 0 {
        lemma_faces_total(remap, i, (faces - 1) as nat, n);
        lemma_landing_wf(remap, i, faces);
        lemma_faces_total_step(remap, i, faces, n);
    } else {
        lemma_faces_total_none(remap, i, n);
    }
}

proof fn lemma_faces_total_none(remap: Map<usize, usize>, i: usize, n: nat)
    ensures
        faces_total(remap, i, 0, n) == 0,
    decreases n,
{
    if n > 0 {
        lemma_faces_total_none(remap, i, (n - 1) as nat);
    }
}

/// Adding face `faces` adds one to the total over `0..n` when it lands below `n`.
proof fn lemma_faces_total_step(remap: Map<usize, usize>, i: usize, faces: nat, n: nat)
    requires
        faces > 0,
        n <= usize::MAX,
    ensures
        faces_total(remap, i, faces, n) == faces_total(remap, i, (faces - 1) as nat, n) + if landing(
            remap,
            i,
            faces,
        ) < n {
            1int
        } else {
            0int
        },
    decreases n,
{
    if n > 0 {
        lemma_faces_total_step(remap, i, faces, (n - 1) as nat);
    }
}

/// A row of the matrix totals the faces that land on its squares.
proof fn lemma_row_total_is_faces_total(
    remap: Map<usize, usize>,
    i: usize,
    row: Seq<u8>,
    n: nat,
)
    requires
        n <= row.len(),
        n <= BOARD_SIZE + 1,
        is_playable(remap, i),
        forall|k: int| 0 <= k < n ==> #[trigger] row[k] == transition_faces(remap, i, k as usize),
    ensures
        row_total(row.take(n as int)) == faces_total(remap, i, DICE_SIDES as nat, n),
    decreases n,
{
    if n > 0 {
        assert(row.take(n as int).drop_last() =~= row.take(n - 1));
        lemma_row_total_is_faces_total(remap, i, row, (n - 1) as nat);
    } else {
        assert(row.take(0).len() == 0);
    }
}

/// The transition matrix is a function of the remap table alone: two
/// matrices built from the same table are identical, entry for entry.
pub proof fn lemma_transition_matrix_unique(
    remap: Map<usize, usize>,
    m1: Seq<Seq<u8>>,
    m2: Seq<Seq<u8>>,
)
    requires
        is_transition_matrix(remap, m1),
        is_transition_matrix(remap, m2),
    ensures
        m1 == m2,
{
    assert forall|i: int| 0 <= i < m1.len() implies #[trigger] m1[i] == m2[i] by {
        assert(m1[i] =~= m2[i]);
    }
    assert(m1 =~= m2);
}

/// One move of a game under matrix `m`: from a square short of the goal to
/// a square of the board that the row of `from` gives positive probability.
pub open spec fn is_move(m: Seq<Seq<u8>>, from: usize, to: usize) -> bool {
    &&& from < BOARD_SIZE
    &&& to <= BOARD_SIZE
    &&& m[from as int][to as int] > 0
}

/// `p` lists the squares of a game from `s`, one per move made: it starts
/// on `s`, and each square follows from the one before by a move (so no
/// square but the last is the goal).
pub open spec fn game_path(m: Seq<Seq<u8>>, s: usize, p: Seq<usize>) -> bool {
    &&& p.len() >= 1
    &&& p[0] == s
    &&& forall|k: int| 0 < k < p.len() ==> is_move(m, p[k - 1], #[trigger] p[k])
}

/// A game from `s` can reach the goal in exactly `moves` moves.
pub open spec fn finished_game(m: Seq<Seq<u8>>, s: usize, moves: int) -> bool {
    exists|p: Seq<usize>|
        #[trigger] game_path(m, s, p) && p.len() == moves + 1 && p.last() == BOARD_SIZE
}

/// A game from `s` can make `u64::MAX` moves without reaching the goal.
pub open spec fn endless_game(m: Seq<Seq<u8>>, s: usize) -> bool {
    exists|p: Seq<usize>|
        #[trigger] game_path(m, s, p) && p.len() == u64::MAX + 1 && p.last() != BOARD_SIZE
}

/// The drawn squares `draws`, taken in turn from `s`, make a game that
/// ends on the goal with the last of them.
pub open spec fn completed_by(m: Seq<Seq<u8>>, s: usize, draws: Seq<usize>) -> bool {
    &&& game_path(m, s, seq![s] + draws)
    &&& (seq![s] + draws).last() == BOARD_SIZE
}

/// A game path along the first `i` draws, followed by a draw that is a
/// move, is a game path along the first `i + 1` draws; and the draws up to
/// `i` do not complete a game that goes on.
proof fn lemma_path_extends(m: Seq<Seq<u8>>, s: usize, draws: Seq<usize>, i: int)
    requires
        0 <= i < draws.len(),
        game_path(m, s, seq![s] + draws.take(i)),
        is_move(m, (seq![s] + draws.take(i)).last(), draws[i]),
    ensures
        game_path(m, s, seq![s] + draws.take(i + 1)),
        (seq![s] + draws.take(i + 1)).last() == draws[i],
        !completed_by(m, s, draws.take(i)),
{
    let p = seq![s] + draws.take(i);
    let q = seq![s] + draws.take(i + 1);
    assert(q =~= p.push(draws[i]));
    assert forall|k: int| 0 < k < q.len() implies is_move(m, q[k - 1], #[trigger] q[k]) by {
        if k < p.len() {
            assert(p[k] == q[k] && p[k - 1] == q[k - 1]);
        }
    }
}

/// Once a draw is no move from the square before it, no number of the
/// draws completes a game.
proof fn lemma_no_completion_past_bad_draw(m: Seq<Seq<u8>>, s: usize, draws: Seq<usize>, i: int)
    requires
        0 <= i < draws.len(),
        game_path(m, s, seq![s] + draws.take(i)),
        (seq![s] + draws.take(i)).last() != BOARD_SIZE,
        !is_move(m, (seq![s] + draws.take(i)).last(), draws[i]),
        forall|k: int| 0 <= k < i ==> !#[trigger] completed_by(m, s, draws.take(k)),
    ensures
        forall|k: int| 0 <= k <= draws.len() ==> !#[trigger] completed_by(m, s, draws.take(k)),
{
    let p = seq![s] + draws.take(i);
    assert forall|k: int| 0 <= k <= draws.len() implies !#[trigger] completed_by(
        m,
        s,
        draws.take(k),
    ) by {
        let pk = seq![s] + draws.take(k);
        if k == i {
            assert(pk =~= p);
        } else if k > i {
            assert(pk[i] == p.last());
            assert(pk[i + 1] == draws[i]);
            assert(!is_move(m, pk[(i + 1) - 1], pk[i + 1]));
        }
    }
}

/// The board: its remap table, the transition matrix built from it, and the
/// squares that a move can reach (`0..=BOARD_SIZE`, in order).
#[derive(Debug)]
pub struct GameBoard {
    pub transitions: HashMap<usize, usize>,
    pub transition_matrix: Vec<Vec<u8>>,
    pub possible_positions: Vec<usize>,
}

impl GameBoard {
    /// The board is consistent: a well-formed remap table, the matrix that it
    /// determines, and every square listed once, in order.
    pub open spec fn wf(&self) -> bool {
        &&& remap_wf(self.transitions@)
        &&& is_transition_matrix(self.transitions@, matrix_view(self.transition_matrix@))
        &&& self.possible_positions@ == Seq::new((BOARD_SIZE + 1) as nat, |p: int| p as usize)
    }

    /// The standard board.
    pub fn new() -> (r: Result<Self, SnlError>)
        ensures
            r matches Ok(b) && b.wf() && b.transitions@ == standard_remap(),
    {
        let transitions = Self::create_snakes_and_ladders_map();
        let transition_matrix = match Self::create_transition_matrix(&transitions) {
            Ok(m) => m,
            Err(e) => {
                return Err(e);
            },
        };
        let mut possible_positions: Vec<usize> = Vec::new();
        let mut p: usize = 0;
        while p <= BOARD_SIZE
            invariant
                p <= BOARD_SIZE + 1,
                possible_positions@ == Seq::new(p as nat, |q: int| q as usize),
            decreases BOARD_SIZE + 1 - p,
        {
            possible_positions.push(p);
            p += 1;
            assert(possible_positions@ =~= Seq::new(p as nat, |q: int| q as usize));
        }
        Ok(Self { transitions, transition_matrix, possible_positions })
    }

    /// The standard remap table.
    pub fn create_snakes_and_ladders_map() -> (r: HashMap<usize, usize>)
        ensures
            r@ == standard_remap(),
            remap_wf(r@),
    {
        broadcast use vstd::std_specs::hash::group_hash_axioms;

        let mut m: HashMap<usize, usize> = HashMap::new();
        m.insert(1, 38);
        m.insert(4, 14);
        m.insert(9, 31);
        m.insert(16, 6);
        m.insert(21, 42);
        m.insert(28, 84);
        m.insert(36, 44);
        m.insert(47, 26);
        m.insert(49, 11);
        m.insert(51, 67);
        m.insert(56, 53);
        m.insert(62, 19);
        m.insert(64, 60);
        m.insert(71, 91);
        m.insert(80, 100);
        m.insert(87, 24);
        m.insert(93, 73);
        m.insert(95, 75);
        m.insert(98, 78);
        proof {
            lemma_standard_remap_wf();
        }
        m
    }

    /// The transition matrix of the board under `transitions`, in die faces.
    ///
    /// Row `i` of a playable square spreads the `DICE_SIDES` faces over their
    /// landing squares (a roll past the goal lands on it, a remap source
    /// passes the piece on); the goal row and remap-source rows are zero.
    pub fn create_transition_matrix(transitions: &HashMap<usize, usize>) -> (r: Result<
        Vec<Vec<u8>>,
        SnlError,
    >)
        requires
            remap_wf(transitions@),
        ensures
            r matches Ok(m) && is_transition_matrix(transitions@, matrix_view(m@)) && forall|
                i: int,
            |
                0 <= i <= BOARD_SIZE ==> #[trigger] row_total(m@[i]@) == if is_playable(
                    transitions@,
                    i as usize,
                ) {
                    DICE_SIDES as int
                } else {
                    0
                },
    {
        broadcast use vstd::std_specs::hash::group_hash_axioms;

        let ghost remap = transitions@;
        let mut matrix: Vec<Vec<u8>> = Vec::new();
        let mut i: usize = 0;
        while i <= BOARD_SIZE
            invariant
                i <= BOARD_SIZE + 1,
                remap == transitions@,
                remap_wf(remap),
                matrix@.len() == i,
                forall|a: int| 0 <= a < i ==> (#[trigger] matrix@[a]@).len() == BOARD_SIZE + 1,
                forall|a: int, k: int|
                    0 <= a < i && 0 <= k <= BOARD_SIZE ==> #[trigger] matrix@[a]@[k]
                        == transition_faces(remap, a as usize, k as usize),
                forall|a: int|
                    0 <= a < i ==> #[trigger] row_total(matrix@[a]@) == if is_playable(
                        remap,
                        a as usize,
                    ) {
                        DICE_SIDES as int
                    } else {
                        0
                    },
            decreases BOARD_SIZE + 1 - i,
        {
            let mut row: Vec<u8> = Vec::new();
            let mut k: usize = 0;
            while k <= BOARD_SIZE
                invariant
                    k <= BOARD_SIZE + 1,
                    row@.len() == k,
                    forall|c: int| 0 <= c < k ==> #[trigger] row@[c] == 0,
                decreases BOARD_SIZE + 1 - k,
            {
                row.push(0);
                k += 1;
            }
            proof {
                lemma_row_total_zero(row@);
            }
            if i < BOARD_SIZE && !transitions.contains_key(&i) {
                let mut face: usize = 1;
                while face <= DICE_SIDES
                    invariant
                        i < BOARD_SIZE,
                        remap == transitions@,
                        remap_wf(remap),
                        1 <= face <= DICE_SIDES + 1,
                        row@.len() == BOARD_SIZE + 1,
                        forall|c: int|
                            0 <= c <= BOARD_SIZE ==> #[trigger] row@[c] == faces_to(
                                remap,
                                i,
                                c as usize,
                                (face - 1) as nat,
                            ),
                        row_total(row@) == face - 1,
                    decreases DICE_SIDES + 1 - face,
                {
                    let j: usize = if i + face >= BOARD_SIZE {
                        BOARD_SIZE
                    } else {
                        i + face
                    };
                    let destination: usize = match transitions.get(&j) {
                        Some(d) => *d,
                        None => j,
                    };
                    proof {
                        lemma_landing_wf(remap, i, face as nat);
                        assert(destination == landing(remap, i, face as nat));
                        lemma_faces_to_bound(remap, i, destination, (face - 1) as nat);
                        lemma_row_total_update(row@, destination as int, (row@[destination as int] + 1) as u8);
                    }
                    let count = row[destination];
                    row.set(destination, count + 1);
                    face += 1;
                }
            }
            matrix.push(row);
            i += 1;
        }
        proof {
            assert forall|a: int, k: int|
                0 <= a <= BOARD_SIZE && 0 <= k <= BOARD_SIZE implies #[trigger] matrix_view(
                matrix@,
            )[a][k] == transition_faces(remap, a as usize, k as usize) by {
                assert(matrix_view(matrix@)[a] == matrix@[a]@);
            }
            assert forall|a: int| 0 <= a <= BOARD_SIZE implies (#[trigger] matrix_view(
                matrix@,
            )[a]).len() == BOARD_SIZE + 1 by {
                assert(matrix_view(matrix@)[a] == matrix@[a]@);
            }
        }
        Ok(matrix)
    }

    /// Plays one game from `start_position` to the goal, drawing each move
    /// from the matrix row of the current square with a generator of this
    /// thread, and returns the number of moves.
    ///
    /// A start that is not playable (the goal, off the board, or a remap
    /// source) is refused. Otherwise the count is the length of a game that
    /// the matrix allows from the start to the goal; the only failure is a
    /// game that the matrix allows to go on for `u64::MAX` moves without
    /// reaching the goal.
    pub fn simulate_single_game(&self, start_position: usize) -> (r: Result<u64, SnlError>)
        requires
            self.wf(),
        ensures
            !is_playable(self.transitions@, start_position) ==> (r matches Err(
                SnlError::InvalidPosition(p),
            ) && p == start_position),
            is_playable(self.transitions@, start_position) ==> match r {
                Ok(moves) => moves >= 1 && finished_game(
                    matrix_view(self.transition_matrix@),
                    start_position,
                    moves as int,
                ),
                Err(e) => e matches SnlError::SimError(SimulationError::MoveCountOverflow)
                    && endless_game(matrix_view(self.transition_matrix@), start_position),
            },
    {
        broadcast use vstd::std_specs::hash::group_hash_axioms;

        if start_position >= BOARD_SIZE || self.transitions.contains_key(&start_position) {
            return Err(SnlError::InvalidPosition(start_position));
        }
        let ghost remap = self.transitions@;
        let ghost mv = matrix_view(self.transition_matrix@);
        let ghost mut path: Seq<usize> = seq![start_position];
        let mut rng = rand::thread_rng();
        let mut moves: u64 = 0;
        let mut position: usize = start_position;
        while position != BOARD_SIZE
            invariant
                self.wf(),
                remap == self.transitions@,
                mv == matrix_view(self.transition_matrix@),
                position <= BOARD_SIZE,
                position == BOARD_SIZE || is_playable(remap, position),
                is_playable(remap, start_position),
                game_path(mv, start_position, path),
                path.len() == moves + 1,
                path.last() == position,
            decreases u64::MAX - moves,
        {
            if moves == u64::MAX {
                return Err(SnlError::SimError(SimulationError::MoveCountOverflow));
            }
            moves += 1;
            let row = &self.transition_matrix[position];
            proof {
                assert(mv[position as int] == row@);
                lemma_weight_total_of_squares(row@, (BOARD_SIZE + 1) as nat);
                assert(row@.take((BOARD_SIZE + 1) as int) =~= row@);
                assert(row_total(row@) == DICE_SIDES) by {
                    lemma_row_totals(remap, position, mv);
                }
                assert forall|i: int|
                    0 <= i < self.possible_positions.len() implies #[trigger] self.possible_positions[i]
                    < row.len() by {
                    assert(self.possible_positions@[i] == i);
                }
            }
            match choose_weighted_item(&mut rng, &self.possible_positions, row) {
                Ok(next) => {
                    proof {
                        let i = choose|i: int|
                            0 <= i < self.possible_positions@.len()
                                && self.possible_positions@[i] == next;
                        assert(self.possible_positions@[i] == i);
                        assert(mv[position as int][next as int] > 0);
                        lemma_faces_to_positive(remap, position, next, DICE_SIDES as nat);
                        let f = choose|f: nat|
                            1 <= f <= DICE_SIDES && #[trigger] landing(remap, position, f) == next;
                        lemma_landing_wf(remap, position, f);
                        let old_path = path;
                        path = path.push(next);
                        assert forall|k: int| 0 < k < path.len() implies is_move(
                            mv,
                            path[k - 1],
                            #[trigger] path[k],
                        ) by {
                            if k < old_path.len() {
                                assert(old_path[k] == path[k] && old_path[k - 1] == path[k - 1]);
                            }
                        }
                    }
                    position = next;
                },
                Err(_) => {
                    proof {
                        assert forall|k: int| 0 <= k < row@.len() implies #[trigger] row@[k]
                            == 0 by {
                            assert(self.possible_positions@[k] == k);
                        }
                        lemma_row_total_zero(row@);
                    }
                    return Err(SnlError::TransitionMatrixError);
                },
            }
        }
        Ok(moves)
    }

    /// Replays a game from `start_position` along the drawn squares
    /// `draws`, taken in turn: the number of moves after which the game
    /// stands on the goal, or `None` when the draws do not make such a game
    /// (a draw that is no move from the square before it, or draws that end
    /// short of the goal).
    pub fn replay_game(&self, start_position: usize, draws: &Vec<usize>) -> (r: Option<u64>)
        requires
            self.wf(),
        ensures
            match r {
                Some(moves) => moves <= draws.len() && completed_by(
                    matrix_view(self.transition_matrix@),
                    start_position,
                    draws@.take(moves as int),
                ),
                None => forall|k: int|
                    0 <= k <= draws.len() ==> !#[trigger] completed_by(
                        matrix_view(self.transition_matrix@),
                        start_position,
                        draws@.take(k),
                    ),
            },
    {
        let ghost mv = matrix_view(self.transition_matrix@);
        let ghost s = start_position;
        let mut position: usize = start_position;
        let mut i: usize = 0;
        while i < draws.len()
            invariant
                self.wf(),
                mv == matrix_view(self.transition_matrix@),
                s == start_position,
                i <= draws.len(),
                game_path(mv, s, seq![s] + draws@.take(i as int)),
                (seq![s] + draws@.take(i as int)).last() == position,
                i > 0 ==> position <= BOARD_SIZE,
                forall|k: int| 0 <= k < i ==> !#[trigger] completed_by(mv, s, draws@.take(k)),
            decreases draws.len() - i,
        {
            if position == BOARD_SIZE {
                return Some(i as u64);
            }
            let next = draws[i];
            let valid = if position < BOARD_SIZE && next <= BOARD_SIZE {
                proof {
                    assert(mv[position as int] == self.transition_matrix@[position as int]@);
                    assert(mv[position as int].len() == BOARD_SIZE + 1);
                }
                self.transition_matrix[position][next] > 0
            } else {
                false
            };
            proof {
                if position < BOARD_SIZE && next <= BOARD_SIZE {
                    assert(mv[position as int] == self.transition_matrix@[position as int]@);
                }
                assert(valid == is_move(mv, position, next));
            }
            if !valid {
                proof {
                    lemma_no_completion_past_bad_draw(mv, s, draws@, i as int);
                }
                return None;
            }
            proof {
                lemma_path_extends(mv, s, draws@, i as int);
            }
            position = next;
            i += 1;
        }
        proof {
            assert(draws@.take(draws.len() as int) =~= draws@);
        }
        if position == BOARD_SIZE {
            Some(i as u64)
        } else {
            None
        }
    }

    /// Plays `num_iterations` independent games from `start_position` and
    /// returns their move counts, in the order they were played. Each count
    /// is the length of a game that the matrix allows from the start to the
    /// goal; the only failure is that of a single game.
    pub fn simulate_games(&self, num_iterations: u64, start_position: usize) -> (r: Result<
        Vec<u64>,
        SnlError,
    >)
        requires
            self.wf(),
        ensures
            !is_playable(self.transitions@, start_position) ==> (r matches Err(
                SnlError::InvalidPosition(p),
            ) && p == start_position),
            is_playable(self.transitions@, start_position) ==> match r {
                Ok(moves) => moves@.len() == num_iterations && forall|t: int|
                    0 <= t < moves@.len() ==> #[trigger] moves@[t] >= 1 && finished_game(
                        matrix_view(self.transition_matrix@),
                        start_position,
                        moves@[t] as int,
                    ),
                Err(e) => e matches SnlError::SimError(SimulationError::MoveCountOverflow)
                    && endless_game(matrix_view(self.transition_matrix@), start_position),
            },
    {
        broadcast use vstd::std_specs::hash::group_hash_axioms;

        if start_position >= BOARD_SIZE || self.transitions.contains_key(&start_position) {
            return Err(SnlError::InvalidPosition(start_position));
        }
        let mut moves: Vec<u64> = Vec::new();
        let mut t: u64 = 0;
        while t < num_iterations
            invariant
                self.wf(),
                is_playable(self.transitions@, start_position),
                t <= num_iterations,
                moves@.len() == t,
                forall|u: int|
                    0 <= u < moves@.len() ==> #[trigger] moves@[u] >= 1 && finished_game(
                        matrix_view(self.transition_matrix@),
                        start_position,
                        moves@[u] as int,
                    ),
            decreases num_iterations - t,
        {
            match self.simulate_single_game(start_position) {
                Ok(m) => moves.push(m),
                Err(e) => {
                    return Err(e);
                },
            }
            t += 1;
        }
        Ok(moves)
    }

    /// The square that a game asked to start on `start` really starts on:
    /// a remap source passes the piece on at once.
    pub fn start_square(&self, start: usize) -> (r: usize)
        requires
            self.wf(),
        ensures
            r == redirect(self.transitions@, start),
    {
        broadcast use vstd::std_specs::hash::group_hash_axioms;

        match self.transitions.get(&start) {
            Some(d) => *d,
            None => start,
        }
    }

    /// The start squares of a full sweep, in increasing order: every square
    /// below `BOARD_SIZE - 1` that is not a remap source.
    pub fn sweep_starts(&self) -> (r: Vec<usize>)
        requires
            self.wf(),
        ensures
            forall|a: int, b: int| 0 <= a < b < r@.len() ==> r@[a] < r@[b],
            forall|s: usize|
                r@.contains(s) <==> s < BOARD_SIZE - 1 && !self.transitions@.contains_key(s),
    {
        broadcast use vstd::std_specs::hash::group_hash_axioms;

        let mut starts: Vec<usize> = Vec::new();
        let mut s: usize = 0;
        while s < BOARD_SIZE - 1
            invariant
                s <= BOARD_SIZE - 1,
                forall|a: int, b: int| 0 <= a < b < starts@.len() ==> starts@[a] < starts@[b],
                forall|a: int| 0 <= a < starts@.len() ==> #[trigger] starts@[a] < s,
                forall|q: usize|
                    starts@.contains(q) <==> q < s && !self.transitions@.contains_key(q),
            decreases BOARD_SIZE - 1 - s,
        {
            let ghost before = starts@;
            if !self.transitions.contains_key(&s) {
                starts.push(s);
                assert(starts@ == before.push(s));
            }
            proof {
                assert forall|q: usize|
                    starts@.contains(q) <==> q < s + 1 && !self.transitions@.contains_key(q) by {
                    if q == s && !self.transitions@.contains_key(q) {
                        assert(starts@[starts@.len() - 1] == q);
                    }
                    if starts@.contains(q) {
                        let a = choose|a: int| 0 <= a < starts@.len() && starts@[a] == q;
                        if a < before.len() {
                            assert(before[a] == q);
                        }
                    }
                    if before.contains(q) {
                        let a = choose|a: int| 0 <= a < before.len() && before[a] == q;
                        assert(starts@[a] == q);
                    }
                }
            }
            s += 1;
        }
        starts
    }
}

} // verus!
