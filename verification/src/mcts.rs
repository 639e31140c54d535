//! Monte Carlo tree search: selection by score, expansion, simulated play
//! and the crediting of its outcome, under a budget of simulations.

use crate::board::{
    cells, check_for_winners, count_empty, empty_fields, field, find_empty_fields, full,
    game_over, lemma_count_after_update, lemma_empty_fields_upto, update_board, winner, Board,
    FieldData,
};
use crate::random::random_bot_move;
pub use crate::tree::{Node, Tree};
use crate::tree::{
    best_action, child_values, credited, first_greatest, first_greatest_upto, has_parent, is_child,
    lemma_first_greatest_upto, lemma_path_goes_down, lemma_path_is_a_chain,
    lemma_path_reaches_root, lemma_path_steps_up, on_path, well_formed, NodeView,
};
use vstd::prelude::*;

verus! {

/// How many of the first `n` cells hold `mark`.
pub open spec fn count_mark_upto(c: Seq<FieldData>, mark: FieldData, n: int) -> int
    decreases n,
{
    if n <= 0 {
        0
    } else if c[n - 1] == mark {
        count_mark_upto(c, mark, n - 1) + 1
    } else {
        count_mark_upto(c, mark, n - 1)
    }
}

/// How many cells hold `mark`.
pub open spec fn count_mark(c: Seq<FieldData>, mark: FieldData) -> int {
    count_mark_upto(c, mark, 9)
}

/// The player whose turn it is: `first_player` where both have placed as
/// many marks, else the one who has placed fewer.
pub open spec fn mover(c: Seq<FieldData>, first_player: FieldData) -> FieldData {
    if count_mark(c, FieldData::O) == count_mark(c, FieldData::X) {
        first_player
    } else if count_mark(c, FieldData::X) > count_mark(c, FieldData::O) {
        FieldData::O
    } else {
        FieldData::X
    }
}

/// The other player; `Empty` has none.
pub open spec fn rival(player: FieldData) -> FieldData {
    match player {
        FieldData::X => FieldData::O,
        FieldData::O => FieldData::X,
        FieldData::Empty => FieldData::Empty,
    }
}

/// Whether `mark` placed on the free cell `i` makes `mark` the winner.
pub open spec fn completes(c: Seq<FieldData>, mark: FieldData, i: int) -> bool {
    0 <= i < 9 && c[i] == FieldData::Empty && winner(c.update(i, mark)) == mark
}

/// The first cell among the first `n` on which `mark` wins at once.
pub open spec fn winning_cell_upto(c: Seq<FieldData>, mark: FieldData, n: int) -> Option<usize>
    decreases n,
{
    if n <= 0 {
        None
    } else {
        match winning_cell_upto(c, mark, n - 1) {
            Some(i) => Some(i),
            None => if completes(c, mark, n - 1) {
                Some((n - 1) as usize)
            } else {
                None
            },
        }
    }
}

/// The first cell on which `mark` wins at once, if there is one.
pub open spec fn winning_cell(c: Seq<FieldData>, mark: FieldData) -> Option<usize> {
    winning_cell_upto(c, mark, 9)
}

/// The move that the position forces on `player`: the first cell that wins
/// at once or, where there is none, the first on which the rival would.
pub open spec fn forced_move(c: Seq<FieldData>, player: FieldData) -> Option<usize> {
    match winning_cell(c, player) {
        Some(i) => Some(i),
        None => winning_cell(c, rival(player)),
    }
}

/// What a finished simulation is worth: 1 where `O` has won, -2 where `X`
/// has won, 0 without a winner.
pub open spec fn reward(w: FieldData) -> int {
    match w {
        FieldData::Empty => 0,
        FieldData::O => 1,
        FieldData::X => -2,
    }
}

/// Whether `end` can come of `c` by placing marks: it keeps every mark of
/// `c`.
pub open spec fn extends(c: Seq<FieldData>, end: Seq<FieldData>) -> bool {
    end.len() == 9 && forall|i: int| 0 <= i < 9 && c[i] != FieldData::Empty ==> end[i] == c[i]
}

/// The first winning cell among the first `n` is the least of them.
pub proof fn lemma_winning_cell_upto(c: Seq<FieldData>, mark: FieldData, n: int)
    requires
        0 <= n <= 9,
    ensures
        winning_cell_upto(c, mark, n) is None <==> (forall|i: int|
            0 <= i < n ==> !completes(c, mark, i)),
        winning_cell_upto(c, mark, n) matches Some(w) ==> {
            &&& w < n
            &&& completes(c, mark, w as int)
            &&& forall|i: int| 0 <= i < w ==> !completes(c, mark, i)
        },
    decreases n,
{
    if n > 0 {
        lemma_winning_cell_upto(c, mark, n - 1);
    }
}

/// Tells whose turn it is on `state`, `first_player` having begun.
pub fn check_who_plays(state: &Board, first_player: &FieldData) -> (r: FieldData)
    ensures
        r == mover(cells(*state), *first_player),
{
    let mut o_counter: usize = 0;
    let mut x_counter: usize = 0;
    let mut i: usize = 0;
    while i < 9
        invariant
            i <= 9,
            o_counter == count_mark_upto(cells(*state), FieldData::O, i as int),
            x_counter == count_mark_upto(cells(*state), FieldData::X, i as int),
            o_counter <= i,
            x_counter <= i,
        decreases 9 - i,
    {
        match field(state, i) {
            FieldData::O => {
                o_counter += 1;
            },
            FieldData::X => {
                x_counter += 1;
            },
            _ => {},
        }
        i += 1;
    }
    if o_counter == x_counter {
        *first_player
    } else if x_counter > o_counter {
        FieldData::O
    } else {
        FieldData::X
    }
}

/// Looks for the first free cell on which `mark` wins at once.
fn find_winning_cell(state: &Board, mark: &FieldData) -> (r: Option<usize>)
    ensures
        r == winning_cell(cells(*state), *mark),
{
    let mut i: usize = 0;
    while i < 9
        invariant
            i <= 9,
            winning_cell_upto(cells(*state), *mark, i as int) is None,
        decreases 9 - i,
    {
        if field(state, i) == FieldData::Empty {
            let temp = update_board(state, i, mark);
            if check_for_winners(&temp) == *mark {
                proof {
                    lemma_rest_keeps_first(cells(*state), *mark, i as int + 1, 9);
                }
                return Some(i);
            }
        }
        i += 1;
    }
    None
}

/// A winning cell found among the first `n` is still the answer among the
/// first `m`.
proof fn lemma_rest_keeps_first(c: Seq<FieldData>, mark: FieldData, n: int, m: int)
    requires
        0 <= n <= m,
        winning_cell_upto(c, mark, n) is Some,
    ensures
        winning_cell_upto(c, mark, m) == winning_cell_upto(c, mark, n),
    decreases m - n,
{
    if n < m {
        lemma_rest_keeps_first(c, mark, n, m - 1);
    }
}

/// The move of the simulated players: win at once where a cell allows it,
/// else take the cell on which the rival would win at once, else a free
/// cell by chance. The first two are the first such cell in row-major
/// order. The grid must have a free cell.
pub fn generate_optimal_move(state: &Board, player: &FieldData) -> (r: usize)
    requires
        !full(cells(*state)),
    ensures
        r < 9,
        cells(*state)[r as int] == FieldData::Empty,
        forced_move(cells(*state), *player) matches Some(i) ==> r == i,
{
    let opponent = match player {
        FieldData::X => FieldData::O,
        FieldData::O => FieldData::X,
        _ => FieldData::Empty,
    };
    proof {
        lemma_winning_cell_upto(cells(*state), *player, 9);
        lemma_winning_cell_upto(cells(*state), opponent, 9);
    }
    match find_winning_cell(state, player) {
        Some(i) => i,
        None => match find_winning_cell(state, &opponent) {
            Some(i) => i,
            None => random_bot_move(state),
        },
    }
}

/// Whether `player` may move to cell `m` in a simulation: the cell is
/// free, and it is the forced move where the position forces one.
pub open spec fn policy_move(c: Seq<FieldData>, player: FieldData, m: int) -> bool {
    &&& 0 <= m < 9
    &&& c[m] == FieldData::Empty
    &&& forced_move(c, player) matches Some(f) ==> m == f
}

/// Whether a simulation from `c` can end on `end` within `steps` moves:
/// the players move in turn as `policy_move` allows, and the simulation
/// stops as soon as somebody has won, or when the moves are used up.
pub open spec fn rollout_end(
    c: Seq<FieldData>,
    first_player: FieldData,
    steps: nat,
    end: Seq<FieldData>,
) -> bool
    decreases steps,
{
    if steps == 0 || winner(c) != FieldData::Empty {
        end == c
    } else {
        exists|m: int|
            #[trigger] policy_move(c, mover(c, first_player), m) && rollout_end(
                c.update(m, mover(c, first_player)),
                first_player,
                (steps - 1) as nat,
                end,
            )
    }
}

/// Plays the position of node `node_index` to its end, both sides moving
/// as `generate_optimal_move` does, for as many moves as there are free
/// cells or until somebody has won, and tells what the end is worth: 1
/// where `O` has won, -2 where `X` has won, 0 without a winner. A position
/// that is already decided is worth what it stands at.
pub fn rollout(node_index: usize, tree: &Tree, first_player: &FieldData) -> (r: i32)
    requires
        node_index < tree@.len(),
    ensures
        r == 0 || r == 1 || r == -2,
        game_over(tree@[node_index as int].state) ==> r == reward(
            winner(tree@[node_index as int].state),
        ),
        exists|end: Seq<FieldData>|
            {
                &&& #[trigger] rollout_end(
                    tree@[node_index as int].state,
                    *first_player,
                    count_empty(tree@[node_index as int].state),
                    end,
                )
                &&& extends(tree@[node_index as int].state, end)
                &&& *first_player != FieldData::Empty ==> game_over(end)
                &&& r == reward(winner(end))
            },
{
    let state = tree.nodes[node_index].state;
    let ghost c0 = cells(state);
    let empty_count = find_empty_fields(&state).len();
    let mut new_state = state;
    let mut k: usize = 0;
    proof {
        lemma_empty_fields_upto(c0, 9);
    }
    while k < empty_count
        invariant_except_break
            k <= empty_count,
        invariant
            c0 == cells(state),
            empty_count == count_empty(c0),
            extends(c0, cells(new_state)),
            count_empty(cells(new_state)) >= empty_count - k,
            *first_player != FieldData::Empty ==> count_empty(cells(new_state)) == empty_count
                - k,
            winner(c0) != FieldData::Empty || empty_count == 0 ==> cells(new_state) == c0,
            k <= empty_count,
            forall|end: Seq<FieldData>| #[trigger]
                rollout_end(cells(new_state), *first_player, (empty_count - k) as nat, end)
                    ==> rollout_end(c0, *first_player, empty_count as nat, end),
        ensures
            winner(cells(new_state)) != FieldData::Empty || k == empty_count,
        decreases empty_count - k,
    {
        if check_for_winners(&new_state) != FieldData::Empty {
            break ;
        }
        let ghost before = cells(new_state);
        proof {
            lemma_empty_fields_upto(before, 9);
            assert(before[empty_fields(before)[0] as int] == FieldData::Empty);
        }
        let player = check_who_plays(&new_state, first_player);
        let bot_move = generate_optimal_move(&new_state, &player);
        new_state = update_board(&new_state, bot_move, &player);
        proof {
            if player != FieldData::Empty {
                lemma_count_after_update(before, bot_move as int, player, 9);
            } else {
                assert(cells(new_state) =~= before);
            }
            assert forall|end: Seq<FieldData>| #[trigger]
                rollout_end(
                    cells(new_state),
                    *first_player,
                    (empty_count - (k + 1)) as nat,
                    end,
                ) implies rollout_end(c0, *first_player, empty_count as nat, end) by {
                assert(policy_move(before, player, bot_move as int));
                assert(rollout_end(before, *first_player, (empty_count - k) as nat, end));
            }
        }
        k += 1;
    }
    proof {
        let end = cells(new_state);
        lemma_empty_fields_upto(end, 9);
        if *first_player != FieldData::Empty && winner(end) == FieldData::Empty {
            assert(count_empty(end) == 0);
            assert(full(end)) by {
                assert forall|i: int| 0 <= i < 9 implies end[i] != FieldData::Empty by {
                    if end[i] == FieldData::Empty {
                        assert(empty_fields(end).contains(i as usize));
                    }
                }
            }
        }
        if full(c0) {
            if empty_count > 0 {
                assert(c0[empty_fields(c0)[0] as int] == FieldData::Empty);
            }
        }
        assert(rollout_end(end, *first_player, (empty_count - k) as nat, end));
        assert(extends(c0, end));
    }
    match check_for_winners(&new_state) {
        FieldData::Empty => 0,
        FieldData::O => 1,
        FieldData::X => -2,
    }
}

/// The node that expansion makes for the move to `cell`: a child of node
/// `parent` at position `id`, without statistics, whose grid is the
/// parent's with `mark` on `cell`.
pub open spec fn expansion_child(
    parent: NodeView,
    cell: usize,
    mark: FieldData,
    id: int,
) -> NodeView {
    NodeView {
        parent: Some(parent.id),
        children: Seq::empty(),
        value: 0,
        visits: 0,
        state: parent.state.update(cell as int, mark),
        action: Some(cell),
        id: id as usize,
    }
}

/// Whether `after` is `before` with node `node` expanded by its first `n`
/// legal moves: one new node for each of them, appended in their order
/// and listed in that order among the children of `node`. The mark placed
/// is that of the player whose turn it is at `node`. Nothing else differs.
pub open spec fn expanded_upto(
    before: Seq<NodeView>,
    after: Seq<NodeView>,
    node: int,
    first_player: FieldData,
    n: int,
) -> bool {
    let moves = empty_fields(before[node].state);
    let mark = mover(before[node].state, first_player);
    &&& after.len() == before.len() + n
    &&& forall|i: int| 0 <= i < before.len() && i != node ==> #[trigger] after[i] == before[i]
    &&& after[node] == NodeView {
        children: before[node].children + Seq::new(
            n as nat,
            |k: int| (before.len() + k) as usize,
        ),
        ..before[node]
    }
    &&& forall|k: int|
        0 <= k < n ==> #[trigger] after[before.len() + k] == expansion_child(
            before[node],
            moves[k],
            mark,
            before.len() + k,
        )
}

/// Whether `after` is `before` with node `node` expanded by all its legal
/// moves.
pub open spec fn expanded(
    before: Seq<NodeView>,
    after: Seq<NodeView>,
    node: int,
    first_player: FieldData,
) -> bool {
    expanded_upto(before, after, node, first_player, empty_fields(before[node].state).len() as int)
}

/// Gives node `node_index` a child for each of its legal moves, in
/// row-major order of the cells, and returns the position of the first of
/// them; the position of the node itself where its grid is full.
pub fn node_expansion(node_index: usize, tree: &mut Tree, first_player: &FieldData) -> (r: usize)
    requires
        old(tree).wf(),
        node_index < old(tree)@.len(),
    ensures
        final(tree).wf(),
        expanded(old(tree)@, final(tree)@, node_index as int, *first_player),
        r == (if empty_fields(old(tree)@[node_index as int].state).len() > 0 {
            old(tree)@.len() as usize
        } else {
            node_index
        }),
{
    let ghost before = tree@;
    let state = tree.nodes[node_index].state;
    let moves = find_empty_fields(&state);
    let mark = check_who_plays(&state, first_player);
    let first_id = tree.nodes.len();
    let mut j: usize = 0;
    proof {
        lemma_empty_fields_upto(cells(state), 9);
        assert(before[node_index as int].children + Seq::new(
            0nat,
            |k: int| (before.len() + k) as usize,
        ) =~= before[node_index as int].children);
    }
    while j < moves.len()
        invariant
            j <= moves@.len() <= 9,
            before == old(tree)@,
            node_index < before.len(),
            first_id == before.len(),
            tree.wf(),
            cells(state) == before[node_index as int].state,
            moves@ == empty_fields(cells(state)),
            mark == mover(cells(state), *first_player),
            forall|k: int|
                0 <= k < moves@.len() ==> {
                    &&& 0 <= #[trigger] moves@[k] < 9
                    &&& cells(state)[moves@[k] as int] == FieldData::Empty
                },
            expanded_upto(before, tree@, node_index as int, *first_player, j as int),
        decreases moves@.len() - j,
    {
        let ghost here = tree@;
        let empty_index = moves[j];
        let new_state = update_board(&state, empty_index, &mark);
        let child_id = tree.nodes.len();
        let new_node = Node::new(Some(node_index), new_state, child_id, Some(empty_index));
        tree.insert_new_node(new_node);
        proof {
            let now = tree@;
            assert(before[node_index as int].id == node_index);
            assert(now[node_index as int].children =~= before[node_index as int].children
                + Seq::new((j + 1) as nat, |k: int| (before.len() + k) as usize));
            assert forall|k: int| 0 <= k < j + 1 implies #[trigger] now[before.len() + k]
                == expansion_child(
                before[node_index as int],
                moves@[k],
                mark,
                before.len() + k,
            ) by {
                if k < j {
                    assert(here[before.len() + k] == now[before.len() + k]);
                }
            }
        }
        j += 1;
    }
    if moves.len() > 0 {
        first_id
    } else {
        node_index
    }
}

/// The selection score of a child. A caller's formula gives a visited
/// child its score as an integer, a greater integer standing for a
/// greater score; a child without visits ranks above every such score.
#[derive(Copy, Clone, Debug, PartialEq, Eq, Structural)]
pub enum Ucb {
    Infinite,
    Finite(i64),
}

impl Ucb {
    /// The place of a score in the order of scores.
    pub open spec fn rank(self) -> int {
        match self {
            Ucb::Infinite => i64::MAX + 1,
            Ucb::Finite(key) => key as int,
        }
    }

    /// Tells whether this score is strictly greater than `other`.
    pub fn exceeds(&self, other: &Ucb) -> (r: bool)
        ensures
            r == (self.rank() > other.rank()),
    {
        match (self, other) {
            (Ucb::Infinite, Ucb::Infinite) => false,
            (Ucb::Infinite, Ucb::Finite(_)) => true,
            (Ucb::Finite(_), Ucb::Infinite) => false,
            (Ucb::Finite(a), Ucb::Finite(b)) => *a > *b,
        }
    }
}

/// The ranks of a sequence of scores.
pub open spec fn ranks(scores: Seq<Ucb>) -> Seq<int> {
    Seq::new(scores.len(), |k: int| scores[k].rank())
}

/// Whether `score` is a score of node `i`: infinite where the node has no
/// visit, else what `formula` made of the node's value, its visits and the
/// visits of the root.
pub open spec fn scores_node<F: Fn(i32, i32, i32) -> i64>(
    t: Seq<NodeView>,
    formula: &F,
    i: int,
    score: Ucb,
) -> bool {
    if t[i].visits == 0 {
        score == Ucb::Infinite
    } else {
        score matches Ucb::Finite(key) && call_ensures(
            formula,
            (t[i].value as i32, t[i].visits as i32, t[0].visits as i32),
            key,
        )
    }
}

/// Whether `scores` holds a score of each child of node `p`, in the order
/// of the children.
pub open spec fn scores_children<F: Fn(i32, i32, i32) -> i64>(
    t: Seq<NodeView>,
    formula: &F,
    p: int,
    scores: Seq<Ucb>,
) -> bool {
    &&& scores.len() == t[p].children.len()
    &&& forall|k: int|
        0 <= k < scores.len() ==> scores_node(
            t,
            formula,
            t[p].children[k] as int,
            #[trigger] scores[k],
        )
}

/// Whether selection may step from the parent of node `x` to `x`: under
/// some scores of the parent's children, `x` is the first child with the
/// greatest score.
pub open spec fn selects<F: Fn(i32, i32, i32) -> i64>(
    t: Seq<NodeView>,
    formula: &F,
    x: int,
) -> bool {
    t[x].parent matches Some(p) && exists|scores: Seq<Ucb>|
        {
            &&& #[trigger] scores_children(t, formula, p as int, scores)
            &&& scores.len() > 0
            &&& x == t[p as int].children[first_greatest(ranks(scores))]
        }
}

/// Whether a child of node `p` has no visit yet.
pub open spec fn has_unvisited_child(t: Seq<NodeView>, p: int) -> bool {
    exists|k: int| 0 <= k < t[p].children.len() && t[#[trigger] t[p].children[k] as int].visits == 0
}

/// Among scores of which one is infinite, the first greatest is the first
/// infinite one: a child without visits goes before every visited child,
/// whatever the scores of the visited ones.
pub proof fn lemma_unvisited_first(scores: Seq<Ucb>, k: int)
    requires
        0 <= k < scores.len(),
        scores[k] == Ucb::Infinite,
    ensures
        0 <= first_greatest(ranks(scores)) <= k,
        scores[first_greatest(ranks(scores))] == Ucb::Infinite,
        forall|j: int|
            0 <= j < first_greatest(ranks(scores)) ==> (#[trigger] scores[j]) != Ucb::Infinite,
{
    let v = ranks(scores);
    let b = first_greatest(v);
    lemma_first_greatest_upto(v, v.len() as int);
    assert(v[k] <= v[b]);
    assert(v[b] == scores[b].rank());
    assert forall|j: int| 0 <= j < b implies (#[trigger] scores[j]) != Ucb::Infinite by {
        assert(v[j] < v[b]);
    }
    if b > k {
        assert(v[k] < v[b]);
    }
}

/// The score of node `node_index`: infinite where it has no visit, else
/// what `formula` makes of its value, its visits and the visits of the
/// root.
pub fn calculate_ucb<F: Fn(i32, i32, i32) -> i64>(
    node_index: usize,
    tree: &Tree,
    formula: &F,
) -> (r: Ucb)
    requires
        tree.wf(),
        node_index < tree@.len(),
        forall|v: i32, n: i32, t: i32| call_requires(formula, (v, n, t)),
    ensures
        scores_node(tree@, formula, node_index as int, r),
{
    let visits = tree.nodes[node_index].visits;
    if visits == 0 {
        return Ucb::Infinite;
    }
    let key = formula(tree.nodes[node_index].value, visits, tree.nodes[tree.root].visits);
    Ucb::Finite(key)
}

/// The position of the first greatest of the scores.
pub fn best_child(scores: &Vec<Ucb>) -> (r: usize)
    requires
        scores@.len() > 0,
    ensures
        r == first_greatest(ranks(scores@)),
        r < scores@.len(),
        forall|j: int|
            0 <= j < scores@.len() ==> (#[trigger] scores@[j]).rank() <= scores@[r as int].rank(),
        forall|j: int| 0 <= j < r ==> (#[trigger] scores@[j]).rank() < scores@[r as int].rank(),
        (exists|k: int| 0 <= k < scores@.len() && #[trigger] scores@[k] == Ucb::Infinite)
            ==> scores@[r as int] == Ucb::Infinite,
{
    let ghost v = ranks(scores@);
    let mut best: usize = 0;
    let mut k: usize = 1;
    while k < scores.len()
        invariant
            1 <= k <= scores@.len(),
            v == ranks(scores@),
            best == first_greatest_upto(v, k as int),
            best < k,
        decreases scores@.len() - k,
    {
        if scores[k].exceeds(&scores[best]) {
            best = k;
        }
        k += 1;
    }
    proof {
        lemma_first_greatest_upto(v, v.len() as int);
        assert forall|j: int| 0 <= j < scores@.len() implies (#[trigger] scores@[j]).rank()
            <= scores@[best as int].rank() by {
            assert(v[j] <= v[best as int]);
        }
        assert forall|j: int| 0 <= j < best implies (#[trigger] scores@[j]).rank()
            < scores@[best as int].rank() by {
            assert(v[j] < v[best as int]);
        }
        if exists|k: int| 0 <= k < scores@.len() && #[trigger] scores@[k] == Ucb::Infinite {
            let k = choose|k: int| 0 <= k < scores@.len() && #[trigger] scores@[k] == Ucb::Infinite;
            lemma_unvisited_first(scores@, k);
        }
    }
    best
}

/// The scores of the children of node `node_index`, in the order of the
/// children.
pub fn child_scores<F: Fn(i32, i32, i32) -> i64>(
    node_index: usize,
    tree: &Tree,
    formula: &F,
) -> (r: Vec<Ucb>)
    requires
        tree.wf(),
        node_index < tree@.len(),
        forall|v: i32, n: i32, t: i32| call_requires(formula, (v, n, t)),
    ensures
        scores_children(tree@, formula, node_index as int, r@),
{
    let mut scores: Vec<Ucb> = Vec::new();
    let count = tree.nodes[node_index].children.len();
    let mut k: usize = 0;
    while k < count
        invariant
            k <= count,
            tree.wf(),
            node_index < tree@.len(),
            count == tree@[node_index as int].children.len(),
            tree@[node_index as int].children == tree.nodes@[node_index as int].children@,
            forall|v: i32, n: i32, t: i32| call_requires(formula, (v, n, t)),
            scores@.len() == k,
            forall|j: int|
                0 <= j < k ==> scores_node(
                    tree@,
                    formula,
                    tree@[node_index as int].children[j] as int,
                    #[trigger] scores@[j],
                ),
        decreases count - k,
    {
        let child = tree.nodes[node_index].children[k];
        proof {
            assert(is_child(tree@, node_index as int, tree@[node_index as int].children[k as int]));
        }
        let score = calculate_ucb(child, tree, formula);
        scores.push(score);
        k += 1;
    }
    scores
}

/// Descends from node `current_index` to a node without children, going
/// at each node to the first child with the greatest score. A child
/// without visits has the greatest score there is, so where a node has
/// such a child the descent takes the first of them, whatever the scores
/// of the visited children.
pub fn _selection<F: Fn(i32, i32, i32) -> i64>(
    current_index: usize,
    tree: &Tree,
    formula: &F,
) -> (r: usize)
    requires
        tree.wf(),
        current_index < tree@.len(),
        forall|v: i32, n: i32, t: i32| call_requires(formula, (v, n, t)),
    ensures
        r < tree@.len(),
        tree@[r as int].children.len() == 0,
        on_path(tree@, r as int, current_index as int),
        tree@[current_index as int].children.len() == 0 ==> r == current_index,
        forall|x: int|
            current_index < x && #[trigger] on_path(tree@, r as int, x) ==> {
                &&& selects(tree@, formula, x)
                &&& has_unvisited_child(tree@, tree@[x].parent->0 as int) ==> tree@[x].visits
                    == 0
            },
    decreases tree@.len() - current_index,
{
    let ghost t = tree@;
    if tree.nodes[current_index].children.len() == 0 {
        proof {
            assert forall|x: int|
                current_index < x && #[trigger] on_path(
                    t,
                    current_index as int,
                    x,
                ) implies false by {
                lemma_path_goes_down(t, current_index as int, x);
            }
        }
        return current_index;
    }
    let scores = child_scores(current_index, tree, formula);
    let best = best_child(&scores);
    let index_of_max = tree.nodes[current_index].children[best];
    proof {
        assert(is_child(t, current_index as int, t[current_index as int].children[best as int]));
    }
    let leaf = _selection(index_of_max, tree, formula);
    proof {
        lemma_path_steps_up(t, leaf as int, index_of_max as int);
        assert(selects(t, formula, index_of_max as int)) by {
            assert(scores_children(t, formula, current_index as int, scores@));
        }
        if has_unvisited_child(t, current_index as int) {
            let kids = t[current_index as int].children;
            let k = choose|k: int| 0 <= k < kids.len() && t[#[trigger] kids[k] as int].visits == 0;
            assert(scores_node(t, formula, t[current_index as int].children[k] as int, scores@[k]));
            assert(scores@[k] == Ucb::Infinite);
            assert(scores_node(t, formula, index_of_max as int, scores@[best as int]));
        }
        assert forall|x: int| current_index < x && #[trigger] on_path(t, leaf as int, x) implies {
            &&& selects(t, formula, x)
            &&& has_unvisited_child(t, t[x].parent->0 as int) ==> t[x].visits == 0
        } by {
            if x < index_of_max {
                lemma_path_is_a_chain(t, leaf as int, index_of_max as int, x);
                lemma_path_goes_down(t, current_index as int, x);
            }
        }
    }
    leaf
}

/// Descends from the root to a node without children, as `_selection`
/// does.
pub fn selection<F: Fn(i32, i32, i32) -> i64>(tree: &Tree, formula: &F) -> (r: usize)
    requires
        tree.wf(),
        forall|v: i32, n: i32, t: i32| call_requires(formula, (v, n, t)),
    ensures
        r < tree@.len(),
        tree@[r as int].children.len() == 0,
        tree@[0].children.len() == 0 ==> r == 0,
        forall|x: int|
            0 < x && #[trigger] on_path(tree@, r as int, x) ==> {
                &&& selects(tree@, formula, x)
                &&& has_unvisited_child(tree@, tree@[x].parent->0 as int) ==> tree@[x].visits
                    == 0
            },
{
    _selection(tree.root, tree, formula)
}

/// Whether node `i` is what its action makes of its parent's grid: the
/// action is a free cell of that grid, and the node's grid is the parent's
/// with the mark of the player whose turn it was on that cell.
pub open spec fn played(t: Seq<NodeView>, i: int, first_player: FieldData) -> bool {
    &&& t[i].parent matches Some(p)
    &&& t[i].action matches Some(a)
    &&& a < 9
    &&& t[p as int].state[a as int] == FieldData::Empty
    &&& t[i].state == t[p as int].state.update(a as int, mover(t[p as int].state, first_player))
}

/// Whether the statistics of node `i` can come of simulations: it has no
/// more visits than the root, and a value between -2 and 1 for each visit.
pub open spec fn counted(t: Seq<NodeView>, i: int) -> bool {
    &&& 0 <= t[i].visits <= t[0].visits
    &&& -2 * t[i].visits <= t[i].value <= t[i].visits
}

/// What holds of the tree throughout a search from the grid `c`: it is
/// well-formed, its root holds `c` and has been visited, every other node
/// is what its action makes of its parent's grid, and the statistics of
/// every node can come of simulations.
pub open spec fn search_tree(
    t: Seq<NodeView>,
    c: Seq<FieldData>,
    first_player: FieldData,
) -> bool {
    &&& well_formed(t)
    &&& t[0].state == c
    &&& t[0].visits >= 1
    &&& forall|i: int| 0 <= i < t.len() ==> #[trigger] counted(t, i)
    &&& forall|i: int| 1 <= i < t.len() ==> #[trigger] played(t, i, first_player)
}

/// Whether the root of `t` has one child for each legal move on `c`, in
/// row-major order of the cells.
pub open spec fn root_expanded(t: Seq<NodeView>, c: Seq<FieldData>) -> bool {
    &&& t[0].children.len() == empty_fields(c).len()
    &&& forall|k: int|
        0 <= k < t[0].children.len() ==> t[#[trigger] t[0].children[k] as int].action == Some(
            empty_fields(c)[k],
        )
}

/// Whether `t` is a tree that a search of `limit` simulations from the
/// grid `c` leaves behind: a search tree whose root has a child for each
/// legal move and has been visited once for each simulation, and once
/// more.
pub open spec fn searched(
    t: Seq<NodeView>,
    c: Seq<FieldData>,
    first_player: FieldData,
    limit: int,
) -> bool {
    &&& search_tree(t, c, first_player)
    &&& root_expanded(t, c)
    &&& t[0].visits == limit + 1
}

/// Expansion keeps a search tree a search tree.
pub proof fn lemma_expansion_keeps_search(
    before: Seq<NodeView>,
    after: Seq<NodeView>,
    node: int,
    c: Seq<FieldData>,
    first_player: FieldData,
)
    requires
        search_tree(before, c, first_player),
        well_formed(after),
        0 <= node < before.len(),
        before[node].state.len() == 9,
        expanded(before, after, node, first_player),
    ensures
        search_tree(after, c, first_player),
{
    lemma_empty_fields_upto(before[node].state, 9);
    assert forall|i: int| 0 <= i < after.len() implies #[trigger] counted(after, i) by {
        assert(counted(before, 0));
        if i < before.len() {
            assert(counted(before, i));
        } else {
            assert(after[i] == after[before.len() + (i - before.len())]);
        }
    }
    assert forall|i: int| 1 <= i < after.len() implies #[trigger] played(
        after,
        i,
        first_player,
    ) by {
        if i < before.len() {
            assert(played(before, i, first_player));
            assert(has_parent(before, i));
        } else {
            assert(after[i] == after[before.len() + (i - before.len())]);
        }
    }
}

/// Crediting a simulation that is worth -2, 0 or 1 keeps a search tree a
/// search tree, and gives the root one visit more.
pub proof fn lemma_credit_keeps_search(
    before: Seq<NodeView>,
    after: Seq<NodeView>,
    node: int,
    amount: int,
    c: Seq<FieldData>,
    first_player: FieldData,
)
    requires
        search_tree(before, c, first_player),
        well_formed(after),
        0 <= node < before.len(),
        -2 <= amount <= 1,
        after.len() == before.len(),
        forall|i: int|
            0 <= i < before.len() ==> #[trigger] after[i] == (if on_path(before, node, i) {
                credited(before[i], amount)
            } else {
                before[i]
            }),
    ensures
        search_tree(after, c, first_player),
        after[0].visits == before[0].visits + 1,
        after[0].children == before[0].children,
{
    lemma_path_reaches_root(before, node);
    assert(after[0] == credited(before[0], amount));
    assert forall|i: int| 0 <= i < after.len() implies #[trigger] counted(after, i) by {
        assert(counted(before, i));
    }
    assert forall|i: int| 1 <= i < after.len() implies #[trigger] played(
        after,
        i,
        first_player,
    ) by {
        assert(played(before, i, first_player));
        assert(has_parent(before, i));
        let p = before[i].parent->0 as int;
        assert(after[p].state == before[p].state);
    }
}

/// The number of simulations that a search runs where nothing else is
/// asked for.
pub const LIMIT: i32 = 100_000;

/// The greatest budget of simulations: with more of them the sums of
/// outcomes would no longer fit.
pub const LIMIT_MAX: i32 = 0x3fff_ffff;

/// Searches the tree of the game from `board` and returns the move that
/// the simulations speak for: a free cell of `board`. Each of `limit`
/// rounds selects a node by score, expands it unless it is new, plays its
/// position to the end and credits the outcome to the node and to its
/// ancestors; the move is the action of the child of the root with the
/// greatest sum of outcomes, the first of them where several have it.
/// `formula` scores a visited child from its value, its visits and the
/// visits of the root. The grid must have a free cell.
pub fn mcts<F: Fn(i32, i32, i32) -> i64>(
    board: &mut Board,
    first_player: &FieldData,
    limit: i32,
    formula: F,
) -> (r: usize)
    requires
        !full(cells(*old(board))),
        1 <= limit <= LIMIT_MAX,
        forall|v: i32, n: i32, t: i32| call_requires(formula, (v, n, t)),
    ensures
        *final(board) == *old(board),
        r < 9,
        cells(*old(board))[r as int] == FieldData::Empty,
        exists|t: Seq<NodeView>|
            #[trigger] searched(t, cells(*old(board)), *first_player, limit as int) && r
                == best_action(t, 0),
{
    let ghost c0 = cells(*board);
    let mut tree = Tree::initialize(Node::new(None, *board, 0, None));
    tree.nodes[tree.root].visits += 1;
    proof {
        let t = tree@;
        assert(t[0].children =~= Seq::<usize>::empty());
        assert(well_formed(t));
        assert(counted(t, 0));
    }
    while tree.nodes[tree.root].visits <= limit
        invariant
            tree.wf(),
            search_tree(tree@, c0, *first_player),
            c0.len() == 9,
            !full(c0),
            1 <= limit <= LIMIT_MAX,
            tree@[0].visits <= limit + 1,
            tree@[0].visits >= 2 ==> tree@[0].children.len() > 0,
            tree@[0].children.len() == 0 || root_expanded(tree@, c0),
            forall|v: i32, n: i32, t: i32| call_requires(formula, (v, n, t)),
        decreases limit + 1 - tree@[0].visits,
    {
        let ghost start = tree@;
        let selected_index = selection(&tree, &formula);
        let mut simulated = selected_index;
        if tree.nodes[selected_index].visits != 0 {
            simulated = node_expansion(selected_index, &mut tree, first_player);
            proof {
                lemma_expansion_keeps_search(
                    start,
                    tree@,
                    selected_index as int,
                    c0,
                    *first_player,
                );
                lemma_empty_fields_upto(c0, 9);
                if selected_index == 0 {
                    let i = choose|i: int| 0 <= i < 9 && c0[i] == FieldData::Empty;
                    assert(empty_fields(c0).contains(i as usize));
                    assert(start[0].children =~= Seq::<usize>::empty());
                    let kids = tree@[0].children;
                    assert forall|k: int|
                        0 <= k < kids.len() implies tree@[#[trigger] kids[k] as int].action
                        == Some(empty_fields(c0)[k]) by {
                        assert(tree@[start.len() + k].action == Some(empty_fields(c0)[k]));
                    }
                } else {
                    let kids = tree@[0].children;
                    assert forall|k: int|
                        0 <= k < kids.len() implies tree@[#[trigger] kids[k] as int].action
                        == Some(empty_fields(c0)[k]) by {
                        assert(is_child(start, 0, start[0].children[k]));
                        let ch = start[0].children[k] as int;
                        if ch != selected_index {
                            assert(tree@[ch] == start[ch]);
                        }
                    }
                }
            }
        }
        let ghost grown = tree@;
        let rollout_value = rollout(simulated, &tree, first_player);
        proof {
            assert forall|i: int|
                0 <= i < grown.len() && on_path(grown, simulated as int, i) implies {
                &&& (#[trigger] grown[i]).visits < i32::MAX
                &&& i32::MIN <= grown[i].value + rollout_value <= i32::MAX
            } by {
                assert(counted(grown, i));
            }
        }
        tree.back_propagate(simulated, rollout_value);
        proof {
            lemma_credit_keeps_search(
                grown,
                tree@,
                simulated as int,
                rollout_value as int,
                c0,
                *first_player,
            );
            let kids = tree@[0].children;
            assert forall|k: int|
                0 <= k < kids.len() implies tree@[#[trigger] kids[k] as int].action
                == Some(empty_fields(c0)[k]) by {
                assert(is_child(grown, 0, grown[0].children[k]));
            }
        }
    }
    let ghost t = tree@;
    let action = tree.get_best_action(tree.root);
    proof {
        let k = first_greatest(child_values(t, 0));
        lemma_first_greatest_upto(child_values(t, 0), t[0].children.len() as int);
        assert(is_child(t, 0, t[0].children[k]));
        assert(played(t, t[0].children[k] as int, *first_player));
        assert(searched(t, c0, *first_player, limit as int));
    }
    action
}

} // verus!
