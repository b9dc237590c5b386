//! What propagation means on a grid and a ruleset: the candidates of a cell,
//! the consistency of adjacent cells, the cells that wait for evaluation, and
//! the laws that one collapse after the other keeps.

use crate::candidates::{
    has_field, initial_candidates, lemma_initial_member, lemma_initial_shape, lemma_narrow_member,
    lemma_narrow_origin, lemma_narrow_shape, narrow, weights_within, Candidate,
};
use crate::matrix::{lemma_collapse_in_grid, lemma_collapse_in_row, Matrix, UNCOLLAPSED};
use crate::rules::{lemma_allowed_weights, Ruleset, MAX_WEIGHT};
use crate::shared::{ErrorKind, ResolvedNeighbor, WfcError};
use crate::vec2i::{down, is_cardinal, left, lemma_cardinal_inverse, right, up, Vec2i};
use vstd::prelude::*;

verus! {

/// Whether `p` is a coordinate of the grid `m`.
pub open spec fn inside(m: Matrix, p: Vec2i) -> bool {
    m.in_bounds(p.x as int, p.y as int)
}

/// The value of the cell of `m` at `p`.
pub open spec fn field_at(m: Matrix, p: Vec2i) -> i8 {
    m.cell(p.x as int, p.y as int)
}

/// Whether `p` is a coordinate of `m` whose cell holds a field.
pub open spec fn collapsed(m: Matrix, p: Vec2i) -> bool {
    inside(m, p) && field_at(m, p) != UNCOLLAPSED
}

/// The candidates `c` as the cell next to `p` in direction `d` leaves them:
/// if that cell is collapsed, `c` narrowed by the mapping that the ruleset
/// gives for its field in the direction back towards `p`; else `c` itself.
pub open spec fn narrowed_by(
    m: Matrix,
    rules: Ruleset,
    c: Seq<Candidate>,
    p: Vec2i,
    d: Vec2i,
) -> Seq<Candidate> {
    let n = p.plus(d);
    if collapsed(m, n) {
        narrow(c, rules.allowed(field_at(m, n), d.inverse()))
    } else {
        c
    }
}

/// The candidates of the cell at `p`: every declared field once with weight
/// 1, narrowed in turn by the cells above, right of, below and left of `p`.
pub open spec fn possible_states(m: Matrix, rules: Ruleset, p: Vec2i) -> Seq<Candidate> {
    let c0 = initial_candidates(rules.fields());
    let c1 = narrowed_by(m, rules, c0, p, up());
    let c2 = narrowed_by(m, rules, c1, p, right());
    let c3 = narrowed_by(m, rules, c2, p, down());
    narrowed_by(m, rules, c3, p, left())
}

/// Whether the cell next to `p` in direction `d` leaves `field` possible at
/// `p`: it is not collapsed, or the mapping for its field in the direction
/// back towards `p` has `field` as a key.
pub open spec fn admits(m: Matrix, rules: Ruleset, p: Vec2i, d: Vec2i, field: i8) -> bool {
    collapsed(m, p.plus(d)) ==> rules.allowed(field_at(m, p.plus(d)), d.inverse()).contains_key(
        field,
    )
}

/// Whether `field` is declared and all four cells around `p` leave it
/// possible at `p`.
pub open spec fn admissible(m: Matrix, rules: Ruleset, p: Vec2i, field: i8) -> bool {
    &&& rules.declares(field)
    &&& admits(m, rules, p, up(), field)
    &&& admits(m, rules, p, right(), field)
    &&& admits(m, rules, p, down(), field)
    &&& admits(m, rules, p, left(), field)
}

/// Whether the cells at `a` and next to it in direction `d`, if both are
/// collapsed, hold fields of which one allows the other: the ruleset lets the
/// second follow the first in direction `d`, or the first follow the second
/// in the opposite direction.
pub open spec fn link_ok(m: Matrix, rules: Ruleset, a: Vec2i, d: Vec2i) -> bool {
    let b = a.plus(d);
    collapsed(m, a) && collapsed(m, b) ==> {
        ||| rules.allowed(field_at(m, a), d).contains_key(field_at(m, b))
        ||| rules.allowed(field_at(m, b), d.inverse()).contains_key(field_at(m, a))
    }
}

/// Whether the cell at `a` is linked well to each of the four cells around it.
pub open spec fn cell_consistent(m: Matrix, rules: Ruleset, a: Vec2i) -> bool {
    &&& link_ok(m, rules, a, up())
    &&& link_ok(m, rules, a, right())
    &&& link_ok(m, rules, a, down())
    &&& link_ok(m, rules, a, left())
}

/// Every pair of adjacent collapsed cells holds fields of which one allows
/// the other.
pub open spec fn locally_consistent(m: Matrix, rules: Ruleset) -> bool {
    forall|a: Vec2i| #[trigger] cell_consistent(m, rules, a)
}

/// Every collapsed cell holds a declared field.
pub open spec fn cells_declared(m: Matrix, rules: Ruleset) -> bool {
    forall|p: Vec2i| #[trigger] collapsed(m, p) ==> rules.declares(field_at(m, p))
}

/// Whether the cell at `p` is not collapsed but has a collapsed cell next to
/// it.
pub open spec fn exposed(m: Matrix, p: Vec2i) -> bool {
    &&& inside(m, p)
    &&& !collapsed(m, p)
    &&& {
        ||| collapsed(m, p.plus(up()))
        ||| collapsed(m, p.plus(right()))
        ||| collapsed(m, p.plus(down()))
        ||| collapsed(m, p.plus(left()))
    }
}

/// Every uncollapsed cell next to a collapsed one is pending in `frontier`.
pub open spec fn frontier_complete(m: Matrix, frontier: Seq<Vec2i>) -> bool {
    forall|p: Vec2i| #[trigger] exposed(m, p) ==> frontier.contains(p)
}

/// Every cell of the grid holds a declared field.
pub open spec fn fully_collapsed(m: Matrix, rules: Ruleset) -> bool {
    forall|p: Vec2i| #[trigger] inside(m, p) ==> collapsed(m, p) && rules.declares(field_at(m, p))
}

/// `s`, followed by the coordinate next to `p` in direction `d` if that is an
/// uncollapsed cell of the grid.
pub open spec fn with_open_neighbor(m: Matrix, s: Seq<Vec2i>, p: Vec2i, d: Vec2i) -> Seq<Vec2i> {
    let n = p.plus(d);
    if inside(m, n) && !collapsed(m, n) {
        s.push(n)
    } else {
        s
    }
}

/// `s`, followed by the uncollapsed cells above, right of, below and left of
/// `p`, in that order.
pub open spec fn with_open_neighbors(m: Matrix, s: Seq<Vec2i>, p: Vec2i) -> Seq<Vec2i> {
    let s1 = with_open_neighbor(m, s, p, up());
    let s2 = with_open_neighbor(m, s1, p, right());
    let s3 = with_open_neighbor(m, s2, p, down());
    with_open_neighbor(m, s3, p, left())
}

/// `s`, followed by the cell next to `p` in direction `d` with its field if
/// that cell is collapsed.
pub open spec fn with_resolved_neighbor(
    m: Matrix,
    s: Seq<ResolvedNeighbor>,
    p: Vec2i,
    d: Vec2i,
) -> Seq<ResolvedNeighbor> {
    let n = p.plus(d);
    if collapsed(m, n) {
        s.push(ResolvedNeighbor { direction: d, field: field_at(m, n) })
    } else {
        s
    }
}

/// The collapsed cells above, right of, below and left of `p`, in that order,
/// each with the direction that leads to it and its field.
pub open spec fn resolved_neighbors(m: Matrix, p: Vec2i) -> Seq<ResolvedNeighbor> {
    let s1 = with_resolved_neighbor(m, Seq::empty(), p, up());
    let s2 = with_resolved_neighbor(m, s1, p, right());
    let s3 = with_resolved_neighbor(m, s2, p, down());
    with_resolved_neighbor(m, s3, p, left())
}

/// Whether `e` reports a contradiction of the grid `m`: it names a cell that
/// is not collapsed and has no candidate, and the collapsed cells around it.
pub open spec fn reports_contradiction(m: Matrix, rules: Ruleset, e: WfcError) -> bool {
    &&& e.kind matches ErrorKind::Contradiction { position, neighbors }
    &&& inside(m, position)
    &&& !collapsed(m, position)
    &&& possible_states(m, rules, position).len() == 0
    &&& neighbors@ == resolved_neighbors(m, position)
}

/// Whether `after` is `before` with `field` written to the cell at `p`.
pub open spec fn is_collapse_of(before: Matrix, after: Matrix, p: Vec2i, field: i8) -> bool {
    &&& after.well_formed()
    &&& after.cols == before.cols
    &&& after.rows == before.rows
    &&& field_at(after, p) == field
    &&& forall|q: Vec2i|
        inside(before, q) && q != p ==> #[trigger] field_at(after, q) == field_at(before, q)
    &&& after@ == before@.update(p.y as int, before@[p.y as int].update(p.x as int, field))
}

/// A field is among the candidates of a cell exactly if it is declared and
/// every collapsed cell around it allows it.
pub proof fn lemma_possible_states_member(m: Matrix, rules: Ruleset, p: Vec2i, field: i8)
    ensures
        has_field(possible_states(m, rules, p), field) <==> admissible(m, rules, p, field),
{
    let c0 = initial_candidates(rules.fields());
    let c1 = narrowed_by(m, rules, c0, p, up());
    let c2 = narrowed_by(m, rules, c1, p, right());
    let c3 = narrowed_by(m, rules, c2, p, down());
    lemma_initial_member(rules.fields(), field);
    lemma_narrow_member(c0, rules.allowed(field_at(m, p.plus(up())), up().inverse()), field);
    lemma_narrow_member(c1, rules.allowed(field_at(m, p.plus(right())), right().inverse()), field);
    lemma_narrow_member(c2, rules.allowed(field_at(m, p.plus(down())), down().inverse()), field);
    lemma_narrow_member(c3, rules.allowed(field_at(m, p.plus(left())), left().inverse()), field);
}

/// A cell without a collapsed cell around it, as the only cell of a grid is,
/// has every declared field as a candidate, each with weight 1.
pub proof fn lemma_unconstrained(m: Matrix, rules: Ruleset, p: Vec2i)
    requires
        !collapsed(m, p.plus(up())),
        !collapsed(m, p.plus(right())),
        !collapsed(m, p.plus(down())),
        !collapsed(m, p.plus(left())),
    ensures
        possible_states(m, rules, p) == initial_candidates(rules.fields()),
{
}

/// A declared field is never the value of an uncollapsed cell.
pub proof fn lemma_declared_is_field(rules: Ruleset, field: i8)
    requires
        rules.well_formed(),
        rules.declares(field),
    ensures
        field != UNCOLLAPSED,
{
    let j = choose|j: int| 0 <= j < rules.fields().len() && rules.fields()[j] == field;
    assert(rules@[j].well_formed());
}

/// The link between `a` and the cell next to it in direction `d` is good
/// after a cell was collapsed to a field that the cells around it admit.
proof fn lemma_link_after_collapse(
    before: Matrix,
    after: Matrix,
    rules: Ruleset,
    p: Vec2i,
    field: i8,
    a: Vec2i,
    d: Vec2i,
)
    requires
        before.well_formed(),
        before.cols <= i32::MAX,
        before.rows <= i32::MAX,
        inside(before, p),
        admissible(before, rules, p, field),
        is_collapse_of(before, after, p, field),
        locally_consistent(before, rules),
        is_cardinal(d),
    ensures
        link_ok(after, rules, a, d),
{
    let b = a.plus(d);
    if collapsed(after, a) && collapsed(after, b) {
        if a == p {
            assert(b != p);
            assert(field_at(after, b) == field_at(before, b));
            assert(admits(before, rules, p, d, field));
        } else if b == p {
            assert(field_at(after, a) == field_at(before, a));
            assert(a == p.plus(d.inverse()));
            assert(d.inverse().inverse() == d);
            assert(admits(before, rules, p, d.inverse(), field));
        } else {
            assert(field_at(after, a) == field_at(before, a));
            assert(field_at(after, b) == field_at(before, b));
            assert(cell_consistent(before, rules, a));
        }
    }
}

/// Collapsing a cell to a field that the cells around it admit keeps the
/// grid locally consistent and its collapsed cells declared, and leaves one
/// uncollapsed cell fewer.
pub proof fn lemma_collapse_keeps_consistency(
    before: Matrix,
    after: Matrix,
    rules: Ruleset,
    p: Vec2i,
    field: i8,
)
    requires
        before.well_formed(),
        before.cols <= i32::MAX,
        before.rows <= i32::MAX,
        rules.well_formed(),
        inside(before, p),
        !collapsed(before, p),
        admissible(before, rules, p, field),
        is_collapse_of(before, after, p, field),
        locally_consistent(before, rules),
        cells_declared(before, rules),
    ensures
        locally_consistent(after, rules),
        cells_declared(after, rules),
        collapsed(after, p),
        after.open_cells() + 1 == before.open_cells(),
        forall|q: Vec2i| collapsed(before, q) ==> #[trigger] collapsed(after, q),
{
    lemma_declared_is_field(rules, field);
    assert forall|a: Vec2i| #[trigger] cell_consistent(after, rules, a) by {
        lemma_link_after_collapse(before, after, rules, p, field, a, up());
        lemma_link_after_collapse(before, after, rules, p, field, a, right());
        lemma_link_after_collapse(before, after, rules, p, field, a, down());
        lemma_link_after_collapse(before, after, rules, p, field, a, left());
    }
    assert forall|q: Vec2i| #[trigger] collapsed(after, q) implies rules.declares(
        field_at(after, q),
    ) by {
        if q != p {
            assert(field_at(after, q) == field_at(before, q));
            assert(collapsed(before, q));
        }
    }
    assert forall|q: Vec2i| collapsed(before, q) implies #[trigger] collapsed(after, q) by {
        assert(field_at(after, q) == field_at(before, q));
    }
    let row = before@[p.y as int];
    assert(row[p.x as int] == field_at(before, p));
    lemma_collapse_in_row(row, p.x as int, field);
    lemma_collapse_in_grid(before@, p.y as int, row.update(p.x as int, field));
}

/// What follows `s` in `with_open_neighbors(m, s, p)` is exactly the
/// uncollapsed cells of the grid next to `p`: all of `s` stays, each such
/// cell is added, and at most four coordinates, all inside the grid, are.
pub proof fn lemma_open_neighbors(m: Matrix, s: Seq<Vec2i>, p: Vec2i)
    ensures
        forall|q: Vec2i| s.contains(q) ==> #[trigger] with_open_neighbors(m, s, p).contains(q),
        forall|d: Vec2i|
            is_cardinal(d) && inside(m, #[trigger] p.plus(d)) && !collapsed(m, p.plus(d))
                ==> with_open_neighbors(m, s, p).contains(p.plus(d)),
        s.len() <= with_open_neighbors(m, s, p).len() <= s.len() + 4,
        forall|i: int|
            s.len() <= i < with_open_neighbors(m, s, p).len() ==> inside(
                m,
                #[trigger] with_open_neighbors(m, s, p)[i],
            ),
        forall|i: int| 0 <= i < s.len() ==> #[trigger] with_open_neighbors(m, s, p)[i] == s[i],
{
    let s1 = with_open_neighbor(m, s, p, up());
    let s2 = with_open_neighbor(m, s1, p, right());
    let s3 = with_open_neighbor(m, s2, p, down());
    let s4 = with_open_neighbor(m, s3, p, left());
    assert forall|q: Vec2i| s.contains(q) implies #[trigger] s4.contains(q) by {
        let i = choose|i: int| 0 <= i < s.len() && s[i] == q;
        assert(s1[i] == q);
        assert(s2[i] == q);
        assert(s3[i] == q);
        assert(s4[i] == q);
    }
    assert forall|d: Vec2i|
        is_cardinal(d) && inside(m, #[trigger] p.plus(d)) && !collapsed(m, p.plus(d)) implies s4.contains(
        p.plus(d),
    ) by {
        let n = p.plus(d);
        if d == up() {
            assert(s1[s1.len() - 1] == n);
            assert(s4[s1.len() - 1] == n);
        } else if d == right() {
            assert(s2[s2.len() - 1] == n);
            assert(s4[s2.len() - 1] == n);
        } else if d == down() {
            assert(s3[s3.len() - 1] == n);
            assert(s4[s3.len() - 1] == n);
        } else {
            assert(s4[s4.len() - 1] == n);
        }
    }
}

/// After a cell of the frontier was collapsed and the uncollapsed cells
/// around it were appended, every uncollapsed cell next to a collapsed one is
/// pending again.
pub proof fn lemma_collapse_keeps_frontier(
    before: Matrix,
    after: Matrix,
    rest: Seq<Vec2i>,
    p: Vec2i,
    field: i8,
)
    requires
        before.well_formed(),
        before.cols <= i32::MAX,
        before.rows <= i32::MAX,
        inside(before, p),
        field != UNCOLLAPSED,
        is_collapse_of(before, after, p, field),
        forall|q: Vec2i| #[trigger] exposed(before, q) && q != p ==> rest.contains(q),
    ensures
        frontier_complete(after, with_open_neighbors(after, rest, p)),
{
    let frontier = with_open_neighbors(after, rest, p);
    lemma_open_neighbors(after, rest, p);
    assert forall|q: Vec2i| #[trigger] exposed(after, q) implies frontier.contains(q) by {
        assert(q != p);
        assert(field_at(after, q) == field_at(before, q));
        let d = if collapsed(after, q.plus(up())) {
            up()
        } else if collapsed(after, q.plus(right())) {
            right()
        } else if collapsed(after, q.plus(down())) {
            down()
        } else {
            left()
        };
        let n = q.plus(d);
        assert(collapsed(after, n));
        if n == p {
            assert(q == p.plus(d.inverse()));
            assert(is_cardinal(d.inverse()));
        } else {
            assert(field_at(after, n) == field_at(before, n));
            assert(exposed(before, q));
            assert(rest.contains(q));
        }
    }
}

/// The distance between two coordinates, counted in steps along the axes.
pub open spec fn distance(a: Vec2i, b: Vec2i) -> nat {
    (if a.x <= b.x {
        b.x - a.x
    } else {
        a.x - b.x
    } + if a.y <= b.y {
        b.y - a.y
    } else {
        a.y - b.y
    }) as nat
}

/// A grid with a collapsed cell and no uncollapsed cell next to a collapsed
/// one has no uncollapsed cell at all.
pub proof fn lemma_spread(m: Matrix, seed: Vec2i, p: Vec2i)
    requires
        m.cols <= i32::MAX,
        m.rows <= i32::MAX,
        collapsed(m, seed),
        frontier_complete(m, Seq::empty()),
        inside(m, p),
    ensures
        collapsed(m, p),
    decreases distance(p, seed),
{
    if p != seed {
        let d = if p.x < seed.x {
            right()
        } else if p.x > seed.x {
            left()
        } else if p.y < seed.y {
            down()
        } else {
            up()
        };
        let q = p.plus(d);
        assert(inside(m, q));
        assert(distance(q, seed) < distance(p, seed));
        lemma_spread(m, seed, q);
        if !collapsed(m, p) {
            assert(exposed(m, p));
            assert(Seq::<Vec2i>::empty().contains(p));
        }
    }
}

/// Whether the ruleset is symmetric: among declared fields, one may follow
/// another in a direction exactly if the other may follow it in the opposite
/// direction.
pub open spec fn symmetric(rules: Ruleset) -> bool {
    forall|a: i8, b: i8, d: Vec2i|
        is_cardinal(d) && rules.declares(a) && rules.declares(b) ==> (#[trigger] rules.allowed(
            a,
            d,
        ).contains_key(b) <==> rules.allowed(b, d.inverse()).contains_key(a))
}

/// Under a symmetric ruleset, two adjacent collapsed cells of a consistent
/// grid allow each other: the ruleset lets the second follow the first in the
/// direction from the first to the second, and the first follow the second in
/// the opposite direction.
pub proof fn lemma_two_sided_consistency(m: Matrix, rules: Ruleset, a: Vec2i, d: Vec2i)
    requires
        locally_consistent(m, rules),
        cells_declared(m, rules),
        symmetric(rules),
        is_cardinal(d),
        collapsed(m, a),
        collapsed(m, a.plus(d)),
    ensures
        rules.allowed(field_at(m, a), d).contains_key(field_at(m, a.plus(d))),
        rules.allowed(field_at(m, a.plus(d)), d.inverse()).contains_key(field_at(m, a)),
{
    let b = a.plus(d);
    assert(cell_consistent(m, rules, a));
    assert(link_ok(m, rules, a, d));
    lemma_cardinal_inverse(d);
    if rules.allowed(field_at(m, a), d).contains_key(field_at(m, b)) {
    } else {
        assert(rules.allowed(field_at(m, b), d.inverse()).contains_key(field_at(m, a)));
    }
}

/// The weight that the cell next to `p` in direction `d` gives `field` at
/// `p`: that of the mapping for its field in the direction back towards `p`,
/// or 1 if that cell is not collapsed.
pub open spec fn factor(m: Matrix, rules: Ruleset, p: Vec2i, d: Vec2i, field: i8) -> nat {
    if collapsed(m, p.plus(d)) {
        rules.allowed(field_at(m, p.plus(d)), d.inverse())[field] as nat
    } else {
        1
    }
}

/// The weight of `field` at `p`: the product of the weights that the four
/// cells around `p` give it.
pub open spec fn joint_weight(m: Matrix, rules: Ruleset, p: Vec2i, field: i8) -> nat {
    factor(m, rules, p, up(), field) * factor(m, rules, p, right(), field) * factor(
        m,
        rules,
        p,
        down(),
        field,
    ) * factor(m, rules, p, left(), field)
}

/// The candidates that one of the cells around `p` leaves hold weights of at
/// most `hi` times the largest weight of a rule, if they held weights of at
/// most `hi` before.
proof fn lemma_narrowed_by_bound(
    m: Matrix,
    rules: Ruleset,
    c: Seq<Candidate>,
    p: Vec2i,
    d: Vec2i,
    hi: int,
)
    requires
        rules.well_formed(),
        cells_declared(m, rules),
        weights_within(c, hi),
        1 <= hi,
        hi * MAX_WEIGHT <= u128::MAX,
    ensures
        weights_within(narrowed_by(m, rules, c, p, d), hi * MAX_WEIGHT),
{
    assert(hi <= hi * MAX_WEIGHT) by (nonlinear_arith)
        requires
            1 <= hi,
    ;
    if collapsed(m, p.plus(d)) {
        let allowed = rules.allowed(field_at(m, p.plus(d)), d.inverse());
        lemma_allowed_weights(rules, field_at(m, p.plus(d)), d.inverse());
        lemma_narrow_shape(c, allowed, hi);
    }
}

/// Each candidate that one of the cells around `p` leaves comes from a
/// candidate with the same field, whose weight it holds multiplied by the
/// weight that this cell gives the field.
proof fn lemma_narrowed_by_origin(
    m: Matrix,
    rules: Ruleset,
    c: Seq<Candidate>,
    p: Vec2i,
    d: Vec2i,
    hi: int,
    i: int,
) -> (k: int)
    requires
        rules.well_formed(),
        cells_declared(m, rules),
        weights_within(c, hi),
        hi * MAX_WEIGHT <= u128::MAX,
        0 <= i < narrowed_by(m, rules, c, p, d).len(),
    ensures
        0 <= k < c.len(),
        c[k].field == narrowed_by(m, rules, c, p, d)[i].field,
        narrowed_by(m, rules, c, p, d)[i].weight == c[k].weight * factor(
            m,
            rules,
            p,
            d,
            c[k].field,
        ),
{
    if collapsed(m, p.plus(d)) {
        let allowed = rules.allowed(field_at(m, p.plus(d)), d.inverse());
        lemma_allowed_weights(rules, field_at(m, p.plus(d)), d.inverse());
        lemma_narrow_origin(c, allowed, hi, i)
    } else {
        i
    }
}

/// The weight of a candidate of a cell is the product of the weights that the
/// collapsed cells around the cell give its field.
pub proof fn lemma_possible_states_weight(m: Matrix, rules: Ruleset, p: Vec2i, i: int)
    requires
        rules.well_formed(),
        cells_declared(m, rules),
        0 <= i < possible_states(m, rules, p).len(),
    ensures
        possible_states(m, rules, p)[i].weight == joint_weight(
            m,
            rules,
            p,
            possible_states(m, rules, p)[i].field,
        ),
{
    let c0 = initial_candidates(rules.fields());
    let c1 = narrowed_by(m, rules, c0, p, up());
    let c2 = narrowed_by(m, rules, c1, p, right());
    let c3 = narrowed_by(m, rules, c2, p, down());
    let b1: int = 1_000_000_000;
    let b2: int = 1_000_000_000_000_000_000;
    let b3: int = 1_000_000_000_000_000_000_000_000_000;
    lemma_initial_shape(rules.fields());
    lemma_narrowed_by_bound(m, rules, c0, p, up(), 1);
    lemma_narrowed_by_bound(m, rules, c1, p, right(), b1);
    lemma_narrowed_by_bound(m, rules, c2, p, down(), b2);
    let k3 = lemma_narrowed_by_origin(m, rules, c3, p, left(), b3, i);
    let k2 = lemma_narrowed_by_origin(m, rules, c2, p, down(), b2, k3);
    let k1 = lemma_narrowed_by_origin(m, rules, c1, p, right(), b1, k2);
    let k0 = lemma_narrowed_by_origin(m, rules, c0, p, up(), 1, k1);
    assert(c0[k0].weight == 1);
}

/// Whether `field` is declared and every declared field allows it next to
/// itself in every direction.
pub open spec fn allowed_everywhere(rules: Ruleset, field: i8) -> bool {
    &&& rules.declares(field)
    &&& forall|f: i8, d: Vec2i|
        rules.declares(f) && is_cardinal(d) ==> #[trigger] rules.allowed(f, d).contains_key(field)
}

/// Whether some field is allowed everywhere. Under such a ruleset no cell
/// ever runs out of candidates.
pub open spec fn has_wildcard(rules: Ruleset) -> bool {
    exists|field: i8| allowed_everywhere(rules, field)
}

/// A field that is allowed everywhere is a candidate of every cell, whatever
/// the cells around it hold.
pub proof fn lemma_wildcard_is_candidate(m: Matrix, rules: Ruleset, p: Vec2i, field: i8)
    requires
        cells_declared(m, rules),
        allowed_everywhere(rules, field),
    ensures
        admissible(m, rules, p, field),
        possible_states(m, rules, p).len() > 0,
{
    lemma_cardinal_inverse(up());
    lemma_cardinal_inverse(right());
    lemma_cardinal_inverse(down());
    lemma_cardinal_inverse(left());
    assert(admits(m, rules, p, up(), field));
    assert(admits(m, rules, p, right(), field));
    assert(admits(m, rules, p, down(), field));
    assert(admits(m, rules, p, left(), field));
    lemma_possible_states_member(m, rules, p, field);
}

} // verus!
