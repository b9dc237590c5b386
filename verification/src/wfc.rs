//! The propagation engine: it collapses the cells of a grid one by one, each
//! to a field that the collapsed cells around it allow.

use crate::candidates::{
    can_be_drawn, choose_weighted, distinct_fields, has_field, is_selected, lemma_distinct_len,
    lemma_initial_shape, lemma_narrow_shape, lemma_total_bound, narrow_candidates, random_below,
    selection, total_weight, uniform_candidates, weights_within, Candidate,
};
use crate::matrix::{Matrix, UNCOLLAPSED};
use crate::propagation::{
    admissible, allowed_everywhere, cell_consistent, cells_declared, collapsed, exposed, field_at,
    frontier_complete, fully_collapsed, has_wildcard, inside, is_collapse_of,
    lemma_collapse_keeps_consistency, lemma_collapse_keeps_frontier, lemma_declared_is_field,
    lemma_open_neighbors, lemma_possible_states_member, lemma_spread, lemma_wildcard_is_candidate,
    locally_consistent, narrowed_by, possible_states, reports_contradiction, resolved_neighbors,
    with_open_neighbor, with_open_neighbors, with_resolved_neighbor,
};
use crate::rules::{Ruleset, MAX_WEIGHT};
use crate::shared::{ErrorKind, ResolvedNeighbor, WfcError};
use crate::vec2i::{down, is_cardinal, left, lemma_cardinal_inverse, right, up, Vec2i};
use std::collections::VecDeque;
use vstd::prelude::*;

verus! {

/// The largest weight a candidate can reach: the largest weight of a rule,
/// once for each of the four cells around a cell.
pub const MAX_JOINT_WEIGHT: u128 = 1_000_000_000_000_000_000_000_000_000_000_000_000;

/// The solver. It owns the grid and the ruleset of one solve, and the
/// frontier: the coordinates that wait to be evaluated, first in, first out.
pub struct Wfc {
    matrix: Matrix,
    ruleset: Ruleset,
    available_fields: Vec<i8>,
    fields_to_process: VecDeque<Vec2i>,
}

impl Wfc {
    /// The grid.
    pub closed spec fn grid(&self) -> Matrix {
        self.matrix
    }

    /// The ruleset.
    pub closed spec fn rules(&self) -> Ruleset {
        self.ruleset
    }

    /// The frontier, the coordinate that is evaluated next first.
    pub closed spec fn frontier(&self) -> Seq<Vec2i> {
        self.fields_to_process@
    }

    /// The fields that the solver starts every candidate list from.
    pub closed spec fn available(&self) -> Seq<i8> {
        self.available_fields@
    }

    /// What holds of a solver between any two of its operations: the grid is
    /// well formed and its coordinates fit the coordinate type; the solver
    /// starts from the declared fields; every collapsed cell holds a declared
    /// field; adjacent collapsed cells are consistent; and every pending
    /// coordinate lies inside the grid.
    pub open spec fn inv(&self) -> bool {
        &&& self.grid().well_formed()
        &&& self.grid().cols <= i32::MAX
        &&& self.grid().rows <= i32::MAX
        &&& self.rules().well_formed()
        &&& self.available() == self.rules().fields()
        &&& cells_declared(self.grid(), self.rules())
        &&& locally_consistent(self.grid(), self.rules())
        &&& forall|i: int|
            0 <= i < self.frontier().len() ==> inside(self.grid(), #[trigger] self.frontier()[i])
    }

    /// Every uncollapsed cell next to a collapsed one is pending. This holds
    /// of a new solver and after a solve that succeeded; a solve that failed
    /// leaves the cell it failed on behind.
    pub open spec fn ready(&self) -> bool {
        frontier_complete(self.grid(), self.frontier())
    }

    /// A solver for a grid of `cols` columns and `rows` rows, no cell of it
    /// collapsed, with nothing pending. Neither dimension may exceed
    /// `i32::MAX`, the largest coordinate.
    pub fn new(cols: usize, rows: usize, ruleset: Ruleset) -> (wfc: Self)
        requires
            cols <= i32::MAX,
            rows <= i32::MAX,
        ensures
            wfc.inv(),
            wfc.ready(),
            wfc.rules() == ruleset,
            wfc.grid().cols == cols,
            wfc.grid().rows == rows,
            wfc.frontier() == Seq::<Vec2i>::empty(),
            forall|p: Vec2i| !#[trigger] collapsed(wfc.grid(), p),
    {
        proof {
            use_type_invariant(&ruleset);
        }
        let available_fields = ruleset.all_fields();
        let wfc = Wfc {
            matrix: Matrix::new(cols, rows),
            available_fields,
            ruleset,
            fields_to_process: VecDeque::new(),
        };
        assert forall|a: Vec2i| #[trigger] cell_consistent(wfc.grid(), wfc.rules(), a) by {
            assert(!collapsed(wfc.grid(), a));
        }
        wfc
    }

    /// The grid.
    pub fn matrix(&self) -> (m: &Matrix)
        ensures
            *m == self.grid(),
    {
        &self.matrix
    }

    /// The ruleset.
    pub fn ruleset(&self) -> (r: &Ruleset)
        ensures
            *r == self.rules(),
    {
        &self.ruleset
    }

    /// How many coordinates are pending.
    pub fn pending(&self) -> (n: usize)
        ensures
            n == self.frontier().len(),
    {
        self.fields_to_process.len()
    }

    /// Whether `coords` is a coordinate of the grid.
    pub fn is_in_bounds(&self, coords: Vec2i) -> (b: bool)
        ensures
            b == inside(self.grid(), coords),
    {
        coords.x >= 0 && (coords.x as usize) < self.matrix.cols && coords.y >= 0
            && (coords.y as usize) < self.matrix.rows
    }

    /// The field of the cell next to `pos` in direction `d`, or the value of
    /// an uncollapsed cell if that coordinate is outside the grid.
    fn neighbor_field(&self, pos: Vec2i, d: Vec2i) -> (field: i8)
        requires
            self.inv(),
            i32::MIN < pos.x < i32::MAX,
            i32::MIN < pos.y < i32::MAX,
            is_cardinal(d),
        ensures
            field == if collapsed(self.grid(), pos.plus(d)) {
                field_at(self.grid(), pos.plus(d))
            } else {
                UNCOLLAPSED
            },
    {
        let n = pos + d;
        if self.is_in_bounds(n) {
            self.matrix.get(n.x as usize, n.y as usize)
        } else {
            UNCOLLAPSED
        }
    }

    /// Narrows `candidates` by the cell next to `pos` in direction `d`, if
    /// that cell is collapsed.
    fn narrow_by_neighbor(
        &self,
        candidates: Vec<Candidate>,
        pos: Vec2i,
        d: Vec2i,
        Ghost(hi): Ghost<int>,
    ) -> (res: Result<Vec<Candidate>, WfcError>)
        requires
            self.inv(),
            i32::MIN < pos.x < i32::MAX,
            i32::MIN < pos.y < i32::MAX,
            is_cardinal(d),
            distinct_fields(candidates@),
            weights_within(candidates@, hi),
            1 <= hi,
            hi * MAX_WEIGHT <= u128::MAX,
        ensures
            res matches Ok(narrowed) && {
                &&& narrowed@ == narrowed_by(self.grid(), self.rules(), candidates@, pos, d)
                &&& distinct_fields(narrowed@)
                &&& weights_within(narrowed@, hi * MAX_WEIGHT)
            },
    {
        let field = self.neighbor_field(pos, d);
        assert(hi <= hi * MAX_WEIGHT) by (nonlinear_arith)
            requires
                1 <= hi,
        ;
        if field == UNCOLLAPSED {
            return Ok(candidates);
        }
        proof {
            lemma_cardinal_inverse(d);
            assert(collapsed(self.grid(), pos.plus(d)));
        }
        let allowed = match self.ruleset.get_allowed_fields(field, d.inv()) {
            Ok(allowed) => allowed,
            Err(e) => {
                return Err(e);
            },
        };
        proof {
            lemma_narrow_shape(candidates@, allowed@, hi);
            assert forall|i: int, k: i8|
                0 <= i < candidates@.len() && allowed@.contains_key(k) implies (
            #[trigger] candidates@[i]).weight * (#[trigger] allowed@[k]) <= u128::MAX by {
                let w = candidates@[i].weight as int;
                let a = allowed@[k] as int;
                assert(w * a <= hi * MAX_WEIGHT) by (nonlinear_arith)
                    requires
                        1 <= w <= hi,
                        1 <= a <= MAX_WEIGHT,
                ;
            }
        }
        Ok(narrow_candidates(&candidates, allowed))
    }

    /// The candidates of the cell at `coords`: every declared field once with
    /// weight 1, narrowed by each collapsed cell around `coords`. Under the
    /// solver's invariant no lookup fails, so the result is always `Ok`.
    pub fn get_possible_states(&self, coords: Vec2i) -> (res: Result<Vec<Candidate>, WfcError>)
        requires
            self.inv(),
            i32::MIN < coords.x < i32::MAX,
            i32::MIN < coords.y < i32::MAX,
        ensures
            res matches Ok(candidates) && {
                &&& candidates@ == possible_states(self.grid(), self.rules(), coords)
                &&& distinct_fields(candidates@)
                &&& weights_within(candidates@, MAX_JOINT_WEIGHT as int)
            },
    {
        let c0 = uniform_candidates(&self.available_fields);
        proof {
            lemma_initial_shape(self.available());
        }
        let c1 = self.narrow_by_neighbor(c0, coords, up(), Ghost(1))?;
        let c2 = self.narrow_by_neighbor(c1, coords, right(), Ghost(1_000_000_000))?;
        let c3 = self.narrow_by_neighbor(
            c2,
            coords,
            down(),
            Ghost(1_000_000_000_000_000_000),
        )?;
        let c4 = self.narrow_by_neighbor(
            c3,
            coords,
            left(),
            Ghost(1_000_000_000_000_000_000_000_000_000),
        )?;
        Ok(c4)
    }

    /// Appends the cell next to `pos` in direction `d` to `neighbors` if it is
    /// collapsed.
    fn push_if_resolved(&self, neighbors: &mut Vec<ResolvedNeighbor>, pos: Vec2i, d: Vec2i)
        requires
            self.inv(),
            i32::MIN < pos.x < i32::MAX,
            i32::MIN < pos.y < i32::MAX,
            is_cardinal(d),
        ensures
            final(neighbors)@ == with_resolved_neighbor(self.grid(), old(neighbors)@, pos, d),
    {
        let field = self.neighbor_field(pos, d);
        if field != UNCOLLAPSED {
            neighbors.push(ResolvedNeighbor { direction: d, field });
        }
    }

    /// The collapsed cells above, right of, below and left of `pos`, in that
    /// order, each with the direction that leads to it and its field.
    pub fn collect_resolved_neighbors(&self, pos: Vec2i) -> (neighbors: Vec<ResolvedNeighbor>)
        requires
            self.inv(),
            i32::MIN < pos.x < i32::MAX,
            i32::MIN < pos.y < i32::MAX,
        ensures
            neighbors@ == resolved_neighbors(self.grid(), pos),
    {
        let mut neighbors: Vec<ResolvedNeighbor> = Vec::new();
        self.push_if_resolved(&mut neighbors, pos, up());
        self.push_if_resolved(&mut neighbors, pos, right());
        self.push_if_resolved(&mut neighbors, pos, down());
        self.push_if_resolved(&mut neighbors, pos, left());
        neighbors
    }

    /// Appends the coordinate next to `pos` in direction `d` to the frontier
    /// if it is an uncollapsed cell of the grid.
    fn push_if_open(&mut self, pos: Vec2i, d: Vec2i)
        requires
            old(self).inv(),
            inside(old(self).grid(), pos),
            is_cardinal(d),
        ensures
            final(self).inv(),
            final(self).grid() == old(self).grid(),
            final(self).rules() == old(self).rules(),
            final(self).frontier() == with_open_neighbor(
                old(self).grid(),
                old(self).frontier(),
                pos,
                d,
            ),
    {
        let n = pos + d;
        if self.is_in_bounds(n) && self.matrix.get(n.x as usize, n.y as usize) == UNCOLLAPSED {
            self.fields_to_process.push_back(n);
            assert forall|i: int| 0 <= i < self.frontier().len() implies inside(
                self.grid(),
                #[trigger] self.frontier()[i],
            ) by {
                if i < old(self).frontier().len() {
                    assert(inside(old(self).grid(), old(self).frontier()[i]));
                }
            }
        }
    }

    /// Collapses the uncollapsed cell at `pos` to `field`, which the cells
    /// around it must admit, and appends the uncollapsed cells around it to
    /// the frontier.
    pub fn commit(&mut self, pos: Vec2i, field: i8)
        requires
            old(self).inv(),
            inside(old(self).grid(), pos),
            !collapsed(old(self).grid(), pos),
            admissible(old(self).grid(), old(self).rules(), pos, field),
        ensures
            final(self).inv(),
            final(self).rules() == old(self).rules(),
            is_collapse_of(old(self).grid(), final(self).grid(), pos, field),
            final(self).frontier() == with_open_neighbors(
                final(self).grid(),
                old(self).frontier(),
                pos,
            ),
            old(self).ready() ==> final(self).ready(),
    {
        self.matrix.set(pos.x as usize, pos.y as usize, field);
        proof {
            assert(is_collapse_of(old(self).grid(), self.grid(), pos, field));
            lemma_collapse_keeps_consistency(
                old(self).grid(),
                self.grid(),
                self.rules(),
                pos,
                field,
            );
            lemma_declared_is_field(self.rules(), field);
            if old(self).ready() {
                lemma_collapse_keeps_frontier(
                    old(self).grid(),
                    self.grid(),
                    old(self).frontier(),
                    pos,
                    field,
                );
            }
            assert forall|i: int| 0 <= i < self.frontier().len() implies inside(
                self.grid(),
                #[trigger] self.frontier()[i],
            ) by {
                assert(inside(old(self).grid(), old(self).frontier()[i]));
            }
        }
        self.push_if_open(pos, up());
        self.push_if_open(pos, right());
        self.push_if_open(pos, down());
        self.push_if_open(pos, left());
    }

    /// Evaluates one coordinate taken from the frontier. A coordinate outside
    /// the grid or of a collapsed cell is skipped. Else the cell is collapsed
    /// to a field drawn among its candidates and the uncollapsed cells around
    /// it become pending; if it has no candidate, nothing changes and the
    /// error names the cell and the collapsed cells around it.
    pub fn eval_position(&mut self, pos: Vec2i) -> (res: Result<(), WfcError>)
        requires
            old(self).inv(),
        ensures
            final(self).inv(),
            final(self).rules() == old(self).rules(),
            has_wildcard(old(self).rules()) ==> res is Ok,
            res is Ok && old(self).ready() ==> final(self).ready(),
            match res {
                Ok(_) => {
                    ||| {
                        &&& !inside(old(self).grid(), pos) || collapsed(old(self).grid(), pos)
                        &&& final(self).grid() == old(self).grid()
                        &&& final(self).frontier() == old(self).frontier()
                    }
                    ||| exists|field: i8|
                        {
                            &&& inside(old(self).grid(), pos)
                            &&& !collapsed(old(self).grid(), pos)
                            &&& #[trigger] admissible(
                                old(self).grid(),
                                old(self).rules(),
                                pos,
                                field,
                            )
                            &&& can_be_drawn(
                                possible_states(old(self).grid(), old(self).rules(), pos),
                                field,
                            )
                            &&& is_collapse_of(old(self).grid(), final(self).grid(), pos, field)
                            &&& final(self).frontier() == with_open_neighbors(
                                final(self).grid(),
                                old(self).frontier(),
                                pos,
                            )
                        }
                },
                Err(e) => {
                    &&& reports_contradiction(old(self).grid(), old(self).rules(), e)
                    &&& e.kind matches ErrorKind::Contradiction { position, .. }
                    &&& position == pos
                    &&& final(self).grid() == old(self).grid()
                    &&& final(self).frontier() == old(self).frontier()
                },
            },
    {
        if !self.is_in_bounds(pos) {
            return Ok(());
        }
        if self.matrix.get(pos.x as usize, pos.y as usize) != UNCOLLAPSED {
            return Ok(());
        }
        let candidates = self.get_possible_states(pos)?;
        if candidates.len() == 0 {
            proof {
                if has_wildcard(self.rules()) {
                    let field = choose|field: i8| allowed_everywhere(self.rules(), field);
                    lemma_wildcard_is_candidate(self.grid(), self.rules(), pos, field);
                }
            }
            let neighbors = self.collect_resolved_neighbors(pos);
            return Err(WfcError::contradiction(pos, neighbors));
        }
        proof {
            lemma_distinct_len(candidates@);
            lemma_total_bound(candidates@, MAX_JOINT_WEIGHT as int);
            assert(candidates@.len() * MAX_JOINT_WEIGHT <= 256 * MAX_JOINT_WEIGHT)
                by (nonlinear_arith)
                requires
                    candidates@.len() <= 256,
            ;
        }
        let selected_field = choose_weighted(&candidates)?;
        proof {
            let r = choose|r: nat|
                {
                    &&& r < total_weight(candidates@)
                    &&& is_selected(candidates@, r, #[trigger] selection(candidates@, r))
                    &&& candidates@[selection(candidates@, r)].field == selected_field
                };
            assert(has_field(candidates@, selected_field));
            lemma_possible_states_member(self.grid(), self.rules(), pos, selected_field);
        }
        self.commit(pos, selected_field);
        Ok(())
    }

    /// Takes the coordinate at the front of the frontier and evaluates it.
    /// Returns `false`, and changes nothing, if nothing is pending.
    pub fn step(&mut self) -> (res: Result<bool, WfcError>)
        requires
            old(self).inv(),
        ensures
            final(self).inv(),
            final(self).rules() == old(self).rules(),
            has_wildcard(old(self).rules()) ==> res is Ok,
            old(self).frontier().len() == 0 ==> {
                &&& res == Ok::<bool, WfcError>(false)
                &&& final(self).grid() == old(self).grid()
                &&& final(self).frontier() == old(self).frontier()
            },
            old(self).frontier().len() > 0 ==> {
                let pos = old(self).frontier()[0];
                let rest = old(self).frontier().drop_first();
                match res {
                    Ok(evaluated) => {
                        &&& evaluated
                        &&& {
                            ||| {
                                &&& collapsed(old(self).grid(), pos)
                                &&& final(self).grid() == old(self).grid()
                                &&& final(self).frontier() == rest
                            }
                            ||| exists|field: i8|
                                {
                                    &&& !collapsed(old(self).grid(), pos)
                                    &&& #[trigger] admissible(
                                        old(self).grid(),
                                        old(self).rules(),
                                        pos,
                                        field,
                                    )
                                    &&& can_be_drawn(
                                        possible_states(old(self).grid(), old(self).rules(), pos),
                                        field,
                                    )
                                    &&& is_collapse_of(
                                        old(self).grid(),
                                        final(self).grid(),
                                        pos,
                                        field,
                                    )
                                    &&& final(self).frontier() == with_open_neighbors(
                                        final(self).grid(),
                                        rest,
                                        pos,
                                    )
                                }
                        }
                    },
                    Err(e) => {
                        &&& reports_contradiction(old(self).grid(), old(self).rules(), e)
                        &&& e.kind matches ErrorKind::Contradiction { position, .. }
                        &&& position == pos
                        &&& final(self).grid() == old(self).grid()
                        &&& final(self).frontier() == rest
                    },
                }
            },
    {
        let ghost pending = self.frontier();
        let pos = match self.fields_to_process.pop_front() {
            Some(pos) => pos,
            None => {
                return Ok(false);
            },
        };
        proof {
            let rest = self.frontier();
            assert(rest =~= pending.drop_first());
            assert(inside(self.grid(), pending[0]));
            assert forall|i: int| 0 <= i < rest.len() implies inside(
                self.grid(),
                #[trigger] rest[i],
            ) by {
                assert(rest[i] == pending[i + 1]);
            }
        }
        self.eval_position(pos)?;
        Ok(true)
    }

    /// Solves from the given seed: the seed is put at the front of the
    /// frontier, and steps are taken until nothing is pending or a cell has no
    /// candidate left.
    ///
    /// A cell that was collapsed stays as it was. On success the seed is
    /// collapsed and nothing is pending, and if the solver was ready, every
    /// cell holds a declared field. On failure the error names an uncollapsed
    /// cell that has no candidate in the grid as it is left.
    pub fn run_from(&mut self, seed: Vec2i) -> (res: Result<(), WfcError>)
        requires
            old(self).inv(),
            inside(old(self).grid(), seed),
        ensures
            final(self).inv(),
            final(self).rules() == old(self).rules(),
            final(self).grid().cols == old(self).grid().cols,
            final(self).grid().rows == old(self).grid().rows,
            forall|q: Vec2i|
                collapsed(old(self).grid(), q) ==> #[trigger] field_at(final(self).grid(), q)
                    == field_at(old(self).grid(), q),
            has_wildcard(old(self).rules()) ==> res is Ok,
            match res {
                Ok(_) => {
                    &&& final(self).frontier().len() == 0
                    &&& collapsed(final(self).grid(), seed)
                    &&& old(self).ready() ==> final(self).ready() && fully_collapsed(
                        final(self).grid(),
                        final(self).rules(),
                    )
                },
                Err(e) => reports_contradiction(final(self).grid(), final(self).rules(), e),
            },
    {
        let ghost start = self.grid();
        let ghost was_ready = self.ready();
        self.fields_to_process.push_front(seed);
        proof {
            let f = self.frontier();
            assert(f[0] == seed);
            assert forall|i: int| 0 <= i < f.len() implies inside(self.grid(), #[trigger] f[i]) by {
                if i > 0 {
                    assert(f[i] == old(self).frontier()[i - 1]);
                }
            }
            if was_ready {
                assert forall|p: Vec2i| #[trigger] exposed(self.grid(), p) implies f.contains(p) by {
                    let k = choose|k: int|
                        0 <= k < old(self).frontier().len() && old(self).frontier()[k] == p;
                    assert(f[k + 1] == p);
                }
            }
        }
        loop
            invariant
                self.inv(),
                self.rules() == old(self).rules(),
                start == old(self).grid(),
                was_ready == old(self).ready(),
                self.grid().cols == start.cols,
                self.grid().rows == start.rows,
                inside(start, seed),
                forall|q: Vec2i|
                    collapsed(start, q) ==> #[trigger] field_at(self.grid(), q) == field_at(start, q),
                was_ready ==> self.ready(),
                collapsed(self.grid(), seed) || self.frontier().contains(seed),
            decreases 4 * self.grid().open_cells() + self.frontier().len(),
        {
            let ghost before = self.grid();
            let ghost pending = self.frontier();
            let evaluated = self.step()?;
            if !evaluated {
                proof {
                    assert(self.frontier() =~= Seq::<Vec2i>::empty());
                    if was_ready {
                        assert forall|p: Vec2i| #[trigger] inside(self.grid(), p) implies collapsed(
                            self.grid(),
                            p,
                        ) && self.rules().declares(field_at(self.grid(), p)) by {
                            lemma_spread(self.grid(), seed, p);
                        }
                    }
                }
                return Ok(());
            }
            proof {
                let pos = pending[0];
                let rest = pending.drop_first();
                let after = self.grid();
                assert forall|q: Vec2i| pending.contains(q) && q != pos implies rest.contains(q) by {
                    let k = choose|k: int| 0 <= k < pending.len() && pending[k] == q;
                    assert(rest[k - 1] == q);
                }
                if after == before {
                    assert(collapsed(before, pos));
                    if was_ready {
                        assert forall|p: Vec2i| #[trigger] exposed(after, p) implies self.frontier().contains(
                            p,
                        ) by {
                            assert(pending.contains(p));
                        }
                    }
                } else {
                    let field = choose|field: i8|
                        {
                            &&& #[trigger] admissible(before, self.rules(), pos, field)
                            &&& is_collapse_of(before, after, pos, field)
                        };
                    lemma_collapse_keeps_consistency(before, after, self.rules(), pos, field);
                    lemma_declared_is_field(self.rules(), field);
                    lemma_open_neighbors(after, rest, pos);
                    if was_ready {
                        assert forall|q: Vec2i| #[trigger] exposed(before, q) && q != pos implies rest.contains(
                            q,
                        ) by {
                            assert(pending.contains(q));
                        }
                        lemma_collapse_keeps_frontier(before, after, rest, pos, field);
                    }
                    assert forall|q: Vec2i| collapsed(start, q) implies #[trigger] field_at(after, q)
                        == field_at(start, q) by {
                        assert(field_at(before, q) == field_at(start, q));
                        assert(q != pos);
                    }
                }
            }
        }
    }

    /// Solves the grid, which must have at least one cell: the seed is drawn
    /// at random among its coordinates.
    ///
    /// A cell that was collapsed stays as it was. On success nothing is
    /// pending and some cell is collapsed, and if the solver was ready, every
    /// cell holds a declared field. On failure the error names an uncollapsed
    /// cell that has no candidate in the grid as it is left.
    pub fn run(&mut self) -> (res: Result<(), WfcError>)
        requires
            old(self).inv(),
            old(self).grid().cols > 0,
            old(self).grid().rows > 0,
        ensures
            final(self).inv(),
            final(self).rules() == old(self).rules(),
            final(self).grid().cols == old(self).grid().cols,
            final(self).grid().rows == old(self).grid().rows,
            forall|q: Vec2i|
                collapsed(old(self).grid(), q) ==> #[trigger] field_at(final(self).grid(), q)
                    == field_at(old(self).grid(), q),
            has_wildcard(old(self).rules()) ==> res is Ok,
            match res {
                Ok(_) => {
                    &&& final(self).frontier().len() == 0
                    &&& exists|seed: Vec2i| #[trigger] collapsed(final(self).grid(), seed)
                    &&& old(self).ready() ==> final(self).ready() && fully_collapsed(
                        final(self).grid(),
                        final(self).rules(),
                    )
                },
                Err(e) => reports_contradiction(final(self).grid(), final(self).rules(), e),
            },
    {
        let x = random_below(self.matrix.cols as u128);
        let y = random_below(self.matrix.rows as u128);
        self.run_from(Vec2i::new(x as i32, y as i32))
    }
}

} // verus!
