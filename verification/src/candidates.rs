//! Candidate lists: the fields a cell may still collapse to, each with its
//! running weight, and the weighted draw among them.

use crate::rules::{weights_in_range, MAX_WEIGHT};
use crate::shared::WfcError;
use std::collections::HashMap;
use vstd::prelude::*;

verus! {

broadcast use vstd::std_specs::hash::group_hash_axioms;

/// A field a cell may collapse to, with its running weight.
#[derive(Debug, Copy, Clone, PartialEq, Eq, Structural)]
pub struct Candidate {
    pub field: i8,
    pub weight: u128,
}

/// The sum of the weights of `c`.
pub open spec fn total_weight(c: Seq<Candidate>) -> nat
    decreases c.len(),
{
    if c.len() == 0 {
        0
    } else {
        total_weight(c.drop_last()) + c.last().weight as nat
    }
}

/// Whether `field` is among the candidates `c`.
pub open spec fn has_field(c: Seq<Candidate>, field: i8) -> bool {
    exists|i: int| 0 <= i < c.len() && (#[trigger] c[i]).field == field
}

/// No field occurs twice in `c`.
pub open spec fn distinct_fields(c: Seq<Candidate>) -> bool {
    forall|i: int, j: int| 0 <= i < j < c.len() ==> (#[trigger] c[i]).field != (#[trigger] c[j]).field
}

/// Every weight of `c` is at least 1 and at most `hi`.
pub open spec fn weights_within(c: Seq<Candidate>, hi: int) -> bool {
    forall|i: int| 0 <= i < c.len() ==> 1 <= (#[trigger] c[i]).weight <= hi
}

/// Whether the draw `r` falls on position `i` of `c`: the weights before `i`
/// sum to at most `r`, and together with that of `i` to more than `r`.
pub open spec fn is_selected(c: Seq<Candidate>, r: nat, i: int) -> bool {
    &&& 0 <= i < c.len()
    &&& total_weight(c.take(i)) <= r < total_weight(c.take(i + 1))
}

/// The position of `c` on which the draw `r` falls. A draw below the total
/// weight falls on exactly one position.
pub open spec fn selection(c: Seq<Candidate>, r: nat) -> int {
    choose|i: int| is_selected(c, r, i)
}

/// Whether some draw below the total weight of `c` falls on a candidate for
/// `field`.
pub open spec fn can_be_drawn(c: Seq<Candidate>, field: i8) -> bool {
    exists|r: nat|
        {
            &&& r < total_weight(c)
            &&& is_selected(c, r, #[trigger] selection(c, r))
            &&& c[selection(c, r)].field == field
        }
}

/// The candidates before any neighbour is considered: each field of `fields`
/// once, in the order of first occurrence, with weight 1.
pub open spec fn initial_candidates(fields: Seq<i8>) -> Seq<Candidate>
    decreases fields.len(),
{
    if fields.len() == 0 {
        Seq::empty()
    } else {
        let rest = initial_candidates(fields.drop_last());
        if fields.drop_last().contains(fields.last()) {
            rest
        } else {
            rest.push(Candidate { field: fields.last(), weight: 1 })
        }
    }
}

/// The candidates of `c` that `allowed` has as a key, in their order, the
/// weight of each multiplied by the weight that `allowed` gives it. The
/// products are meant to fit in `u128`, as `lemma_narrow_shape` shows they do
/// for the weights of a ruleset.
pub open spec fn narrow(c: Seq<Candidate>, allowed: Map<i8, u32>) -> Seq<Candidate>
    decreases c.len(),
{
    if c.len() == 0 {
        Seq::empty()
    } else {
        let rest = narrow(c.drop_last(), allowed);
        let last = c.last();
        if allowed.contains_key(last.field) {
            rest.push(
                Candidate {
                    field: last.field,
                    weight: (last.weight * allowed[last.field]) as u128,
                },
            )
        } else {
            rest
        }
    }
}

/// The weights of a prefix, extended by one candidate, sum to those of the
/// prefix plus that candidate's.
pub proof fn lemma_total_step(c: Seq<Candidate>, i: int)
    requires
        0 <= i < c.len(),
    ensures
        total_weight(c.take(i + 1)) == total_weight(c.take(i)) + c[i].weight,
{
    assert(c.take(i + 1).drop_last() =~= c.take(i));
}

/// The sum of the weights of a prefix grows with the prefix.
pub proof fn lemma_total_monotone(c: Seq<Candidate>, i: int, j: int)
    requires
        0 <= i <= j <= c.len(),
    ensures
        total_weight(c.take(i)) <= total_weight(c.take(j)),
        total_weight(c.take(c.len() as int)) == total_weight(c),
    decreases j - i,
{
    assert(c.take(c.len() as int) =~= c);
    if i < j {
        lemma_total_step(c, j - 1);
        lemma_total_monotone(c, i, j - 1);
    }
}

/// A draw falls on at most one position.
pub proof fn lemma_selection_unique(c: Seq<Candidate>, r: nat, i: int)
    requires
        is_selected(c, r, i),
    ensures
        selection(c, r) == i,
{
    let j = selection(c, r);
    if i < j {
        lemma_total_monotone(c, i + 1, j);
    } else if j < i {
        lemma_total_monotone(c, j + 1, i);
    }
}

/// Every draw below the total weight falls on a position, and that position
/// holds a positive weight: a draw never falls on a candidate of weight zero,
/// and never past the last candidate.
pub proof fn lemma_selection_exists(c: Seq<Candidate>, r: nat)
    requires
        r < total_weight(c),
    ensures
        is_selected(c, r, selection(c, r)),
        c[selection(c, r)].weight > 0,
    decreases c.len(),
{
    let n = c.len() as int;
    assert(c.take(n) =~= c);
    lemma_total_step(c, n - 1);
    if total_weight(c.take(n - 1)) <= r {
        assert(is_selected(c, r, n - 1));
    } else {
        let d = c.drop_last();
        assert(d =~= c.take(n - 1));
        lemma_selection_exists(d, r);
        let i = selection(d, r);
        assert(d.take(i) =~= c.take(i));
        assert(d.take(i + 1) =~= c.take(i + 1));
        assert(is_selected(c, r, i));
    }
    let k = selection(c, r);
    lemma_total_step(c, k);
}

/// The draws that fall on a position are as many as its weight: they are the
/// numbers from the sum of the weights before it up to, but not including,
/// that sum and its own weight. Among draws that are equally likely, each
/// candidate is therefore chosen with a chance in proportion to its weight.
pub proof fn lemma_draws_on_position(c: Seq<Candidate>, i: int, r: nat)
    requires
        0 <= i < c.len(),
        r < total_weight(c),
    ensures
        selection(c, r) == i <==> total_weight(c.take(i)) <= r < total_weight(c.take(i))
            + c[i].weight,
{
    lemma_total_step(c, i);
    lemma_selection_exists(c, r);
    if total_weight(c.take(i)) <= r < total_weight(c.take(i)) + c[i].weight {
        lemma_selection_unique(c, r, i);
    }
}

/// Every candidate of positive weight can be drawn: the draws from the sum of
/// the weights before it up to, but not including, that sum and its own
/// weight fall on it.
pub proof fn lemma_positive_weight_drawn(c: Seq<Candidate>, i: int)
    requires
        0 <= i < c.len(),
        c[i].weight > 0,
    ensures
        can_be_drawn(c, c[i].field),
{
    let r = total_weight(c.take(i));
    lemma_total_step(c, i);
    lemma_total_monotone(c, i + 1, c.len() as int);
    assert(is_selected(c, r, i));
    lemma_selection_unique(c, r, i);
}

/// If every weight is at most `hi`, the total is at most `hi` times the
/// number of candidates.
pub proof fn lemma_total_bound(c: Seq<Candidate>, hi: int)
    requires
        weights_within(c, hi),
    ensures
        total_weight(c) <= c.len() * hi,
        c.len() > 0 ==> total_weight(c) > 0,
    decreases c.len(),
{
    if c.len() > 0 {
        lemma_total_bound(c.drop_last(), hi);
        assert((c.len() - 1) * hi + hi == c.len() * hi) by (nonlinear_arith);
    }
}

/// A field is among the initial candidates exactly if it is among the given
/// fields.
pub proof fn lemma_initial_member(fields: Seq<i8>, f: i8)
    ensures
        has_field(initial_candidates(fields), f) <==> fields.contains(f),
    decreases fields.len(),
{
    let c = initial_candidates(fields);
    if fields.len() > 0 {
        let init = fields.drop_last();
        let rest = initial_candidates(init);
        lemma_initial_member(init, f);
        if has_field(c, f) {
            let i = choose|i: int| 0 <= i < c.len() && (#[trigger] c[i]).field == f;
            if i < rest.len() {
                assert(rest[i].field == f);
                let k = choose|k: int| 0 <= k < init.len() && init[k] == f;
                assert(fields[k] == f);
            } else {
                assert(fields[fields.len() - 1] == f);
            }
        }
        if fields.contains(f) {
            let k = choose|k: int| 0 <= k < fields.len() && fields[k] == f;
            if init.contains(f) {
                let i = choose|i: int| 0 <= i < rest.len() && (#[trigger] rest[i]).field == f;
                assert(c[i].field == f);
            } else {
                if k < init.len() {
                    assert(init[k] == f);
                }
                assert(c[c.len() - 1].field == f);
            }
        }
    }
}

/// The initial candidates hold no field twice, each with weight 1.
pub proof fn lemma_initial_shape(fields: Seq<i8>)
    ensures
        distinct_fields(initial_candidates(fields)),
        weights_within(initial_candidates(fields), 1),
        initial_candidates(fields).len() <= fields.len(),
    decreases fields.len(),
{
    let c = initial_candidates(fields);
    if fields.len() > 0 {
        let init = fields.drop_last();
        let rest = initial_candidates(init);
        lemma_initial_shape(init);
        assert forall|i: int, j: int| 0 <= i < j < c.len() implies (#[trigger] c[i]).field != (
        #[trigger] c[j]).field by {
            if j >= rest.len() {
                assert(rest[i].field == c[i].field);
                lemma_initial_member(init, c[i].field);
            } else {
                assert(rest[i].field == c[i].field && rest[j].field == c[j].field);
            }
        }
        assert forall|i: int| 0 <= i < c.len() implies 1 <= (#[trigger] c[i]).weight <= 1 by {
            if i < rest.len() {
                assert(c[i] == rest[i]);
            }
        }
    }
}

/// A field survives narrowing exactly if it was a candidate and the mapping
/// has it as a key.
pub proof fn lemma_narrow_member(c: Seq<Candidate>, allowed: Map<i8, u32>, f: i8)
    ensures
        has_field(narrow(c, allowed), f) <==> has_field(c, f) && allowed.contains_key(f),
    decreases c.len(),
{
    let n = narrow(c, allowed);
    if c.len() > 0 {
        let init = c.drop_last();
        let rest = narrow(init, allowed);
        lemma_narrow_member(init, allowed, f);
        if has_field(n, f) {
            let i = choose|i: int| 0 <= i < n.len() && (#[trigger] n[i]).field == f;
            if i < rest.len() {
                assert(rest[i].field == f);
                let k = choose|k: int| 0 <= k < init.len() && (#[trigger] init[k]).field == f;
                assert(c[k].field == f);
            } else {
                assert(c[c.len() - 1].field == f);
            }
        }
        if has_field(c, f) && allowed.contains_key(f) {
            let k = choose|k: int| 0 <= k < c.len() && (#[trigger] c[k]).field == f;
            if k < init.len() {
                assert(init[k].field == f);
                let i = choose|i: int| 0 <= i < rest.len() && (#[trigger] rest[i]).field == f;
                assert(n[i].field == f);
            } else {
                assert(n[n.len() - 1].field == f);
            }
        }
    }
}

/// Narrowing keeps the fields distinct and, if no weight was above `hi` and
/// the products fit, leaves no weight above `hi` times the largest weight of
/// a rule.
pub proof fn lemma_narrow_shape(c: Seq<Candidate>, allowed: Map<i8, u32>, hi: int)
    requires
        weights_in_range(allowed),
        weights_within(c, hi),
        hi * MAX_WEIGHT <= u128::MAX,
    ensures
        distinct_fields(c) ==> distinct_fields(narrow(c, allowed)),
        weights_within(narrow(c, allowed), hi * MAX_WEIGHT),
        narrow(c, allowed).len() <= c.len(),
    decreases c.len(),
{
    let n = narrow(c, allowed);
    if c.len() > 0 {
        let init = c.drop_last();
        let rest = narrow(init, allowed);
        let last = c.last();
        assert(weights_within(init, hi)) by {
            assert forall|i: int| 0 <= i < init.len() implies 1 <= (#[trigger] init[i]).weight
                <= hi by {
                assert(init[i] == c[i]);
            }
        }
        lemma_narrow_shape(init, allowed, hi);
        if distinct_fields(c) {
            assert(distinct_fields(init)) by {
                assert forall|i: int, j: int| 0 <= i < j < init.len() implies (
                #[trigger] init[i]).field != (#[trigger] init[j]).field by {
                    assert(c[i].field != c[j].field);
                }
            }
            assert forall|i: int, j: int| 0 <= i < j < n.len() implies (#[trigger] n[i]).field != (
            #[trigger] n[j]).field by {
                if j >= rest.len() {
                    assert(rest[i].field == n[i].field);
                    lemma_narrow_member(init, allowed, n[i].field);
                    let k = choose|k: int|
                        0 <= k < init.len() && (#[trigger] init[k]).field == n[i].field;
                    assert(c[k].field != c[c.len() - 1].field);
                } else {
                    assert(rest[i].field == n[i].field && rest[j].field == n[j].field);
                }
            }
        }
        assert forall|i: int| 0 <= i < n.len() implies 1 <= (#[trigger] n[i]).weight <= hi
            * MAX_WEIGHT by {
            if i < rest.len() {
                assert(n[i] == rest[i]);
            } else {
                let w = last.weight as int;
                let a = allowed[last.field] as int;
                assert(c[c.len() - 1].weight >= 1);
                assert(1 <= w * a <= hi * MAX_WEIGHT) by (nonlinear_arith)
                    requires
                        1 <= w <= hi,
                        1 <= a <= MAX_WEIGHT,
                ;
                assert(n[i].weight == w * a);
            }
        }
    }
}

/// Each candidate that narrowing leaves comes from a candidate with the same
/// field, whose weight it holds multiplied by the weight that the mapping
/// gives the field.
pub proof fn lemma_narrow_origin(c: Seq<Candidate>, allowed: Map<i8, u32>, hi: int, i: int) -> (k:
    int)
    requires
        weights_in_range(allowed),
        weights_within(c, hi),
        hi * MAX_WEIGHT <= u128::MAX,
        0 <= i < narrow(c, allowed).len(),
    ensures
        0 <= k < c.len(),
        c[k].field == narrow(c, allowed)[i].field,
        allowed.contains_key(c[k].field),
        narrow(c, allowed)[i].weight == c[k].weight * allowed[c[k].field],
    decreases c.len(),
{
    let init = c.drop_last();
    let rest = narrow(init, allowed);
    if i < rest.len() {
        assert(weights_within(init, hi)) by {
            assert forall|j: int| 0 <= j < init.len() implies 1 <= (#[trigger] init[j]).weight
                <= hi by {
                assert(init[j] == c[j]);
            }
        }
        lemma_narrow_origin(init, allowed, hi, i)
    } else {
        let last = c.last();
        let w = last.weight as int;
        let a = allowed[last.field] as int;
        assert(c[c.len() - 1].weight <= hi);
        assert(0 <= w * a <= hi * MAX_WEIGHT) by (nonlinear_arith)
            requires
                1 <= w <= hi,
                1 <= a <= MAX_WEIGHT,
        ;
        c.len() - 1
    }
}

/// A list without a repeated field holds at most 256 candidates, one for each
/// value of a field.
pub proof fn lemma_distinct_len(c: Seq<Candidate>)
    requires
        distinct_fields(c),
    ensures
        c.len() <= 256,
{
    let t = Seq::new(c.len(), |i: int| c[i].field as int);
    assert(t.no_duplicates()) by {
        assert forall|i: int, j: int| 0 <= i < t.len() && 0 <= j < t.len() && i != j implies t[i]
            != t[j] by {
            if i < j {
                assert(c[i].field != c[j].field);
            } else {
                assert(c[j].field != c[i].field);
            }
        }
    }
    t.unique_seq_to_set();
    vstd::set_lib::lemma_int_range(-128, 128);
    assert(t.to_set().subset_of(vstd::set_lib::set_int_range(-128, 128))) by {
        assert forall|v: int| t.to_set().contains(v) implies vstd::set_lib::set_int_range(
            -128,
            128,
        ).contains(v) by {
            let i = choose|i: int| 0 <= i < t.len() && t[i] == v;
            assert(t[i] == c[i].field as int);
        }
    }
    vstd::set_lib::lemma_len_subset(t.to_set(), vstd::set_lib::set_int_range(-128, 128));
}

/// Whether `field` is among the candidates.
pub fn contains_field(candidates: &Vec<Candidate>, field: i8) -> (found: bool)
    ensures
        found == has_field(candidates@, field),
{
    let mut i: usize = 0;
    while i < candidates.len()
        invariant
            i <= candidates@.len(),
            forall|j: int| 0 <= j < i ==> (#[trigger] candidates@[j]).field != field,
        decreases candidates@.len() - i,
    {
        if candidates[i].field == field {
            return true;
        }
        i += 1;
    }
    false
}

/// The candidates before any neighbour is considered: each of `fields` once,
/// in the order of first occurrence, with weight 1.
pub fn uniform_candidates(fields: &Vec<i8>) -> (candidates: Vec<Candidate>)
    ensures
        candidates@ == initial_candidates(fields@),
{
    let mut candidates: Vec<Candidate> = Vec::new();
    let mut i: usize = 0;
    while i < fields.len()
        invariant
            i <= fields@.len(),
            candidates@ == initial_candidates(fields@.take(i as int)),
        decreases fields@.len() - i,
    {
        let field = fields[i];
        let seen = contains_field(&candidates, field);
        proof {
            lemma_initial_member(fields@.take(i as int), field);
            assert(fields@.take(i + 1).drop_last() =~= fields@.take(i as int));
        }
        if !seen {
            candidates.push(Candidate { field, weight: 1 });
        }
        i += 1;
    }
    assert(fields@.take(fields@.len() as int) =~= fields@);
    candidates
}

/// Narrows `candidates` by the mapping of one collapsed neighbour: only the
/// keys of `allowed` stay, and the weight of each is multiplied by the weight
/// that `allowed` gives it. No product may exceed `u128::MAX`.
pub fn narrow_candidates(candidates: &Vec<Candidate>, allowed: &HashMap<i8, u32>) -> (narrowed: Vec<
    Candidate,
>)
    requires
        forall|i: int, k: i8|
            0 <= i < candidates@.len() && allowed@.contains_key(k) ==> (
            #[trigger] candidates@[i]).weight * (#[trigger] allowed@[k]) <= u128::MAX,
    ensures
        narrowed@ == narrow(candidates@, allowed@),
{
    let mut narrowed: Vec<Candidate> = Vec::new();
    let mut i: usize = 0;
    while i < candidates.len()
        invariant
            i <= candidates@.len(),
            narrowed@ == narrow(candidates@.take(i as int), allowed@),
            forall|i: int, k: i8|
                0 <= i < candidates@.len() && allowed@.contains_key(k) ==> (
                #[trigger] candidates@[i]).weight * (#[trigger] allowed@[k]) <= u128::MAX,
        decreases candidates@.len() - i,
    {
        let candidate = candidates[i];
        proof {
            assert(candidates@.take(i + 1).drop_last() =~= candidates@.take(i as int));
        }
        match allowed.get(&candidate.field) {
            Some(weight) => {
                assert(candidates@[i as int].weight * allowed@[candidate.field] <= u128::MAX);
                let product: u128 = candidate.weight * (*weight as u128);
                narrowed.push(Candidate { field: candidate.field, weight: product });
            },
            None => {},
        }
        i += 1;
    }
    assert(candidates@.take(candidates@.len() as int) =~= candidates@);
    narrowed
}

/// The sum of the weights of `candidates`, which must fit.
pub fn sum_weights(candidates: &Vec<Candidate>) -> (total: u128)
    requires
        total_weight(candidates@) <= u128::MAX,
    ensures
        total == total_weight(candidates@),
{
    let mut total: u128 = 0;
    let mut i: usize = 0;
    while i < candidates.len()
        invariant
            i <= candidates@.len(),
            total == total_weight(candidates@.take(i as int)),
            total_weight(candidates@) <= u128::MAX,
        decreases candidates@.len() - i,
    {
        proof {
            lemma_total_step(candidates@, i as int);
            lemma_total_monotone(candidates@, i + 1, candidates@.len() as int);
        }
        total = total + candidates[i].weight;
        i += 1;
    }
    proof {
        lemma_total_monotone(candidates@, 0, candidates@.len() as int);
    }
    total
}

/// The field on which the draw `r` falls: that of the first candidate at
/// which the running sum of the weights exceeds `r`.
pub fn select_weighted(candidates: &Vec<Candidate>, r: u128) -> (field: i8)
    requires
        r < total_weight(candidates@) <= u128::MAX,
    ensures
        is_selected(candidates@, r as nat, selection(candidates@, r as nat)),
        field == candidates@[selection(candidates@, r as nat)].field,
{
    let mut cumulative: u128 = 0;
    let mut i: usize = 0;
    while i < candidates.len()
        invariant
            i <= candidates@.len(),
            cumulative == total_weight(candidates@.take(i as int)),
            cumulative <= r,
            r < total_weight(candidates@) <= u128::MAX,
        decreases candidates@.len() - i,
    {
        proof {
            lemma_total_step(candidates@, i as int);
            lemma_total_monotone(candidates@, i + 1, candidates@.len() as int);
        }
        cumulative = cumulative + candidates[i].weight;
        if r < cumulative {
            proof {
                lemma_selection_unique(candidates@, r as nat, i as int);
            }
            return candidates[i].field;
        }
        i += 1;
    }
    proof {
        lemma_total_monotone(candidates@, 0, candidates@.len() as int);
    }
    vstd::pervasive::unreached()
}

/// A number below `bound`, drawn by `rand::random_range` from the range
/// `0..bound` with the generator of the calling thread. The range must not be
/// empty: the call panics on an empty range. Nothing is claimed of the number
/// but that it lies in the range. The generator is seeded from the operating
/// system when a thread first uses it, and the call panics if that fails.
#[verifier::external_body]
pub(crate) fn random_below(bound: u128) -> (r: u128)
    requires
        bound > 0,
    ensures
        r < bound,
{
    rand::random_range(0..bound)
}

/// Draws one field at random, each candidate with a chance in proportion to
/// its weight. Fails if the weights sum to zero, as those of an empty list do.
pub fn choose_weighted(candidates: &Vec<Candidate>) -> (res: Result<i8, WfcError>)
    requires
        total_weight(candidates@) <= u128::MAX,
    ensures
        match res {
            Ok(field) => can_be_drawn(candidates@, field),
            Err(e) => total_weight(candidates@) == 0 && e.kind is NoCandidates,
        },
{
    let total = sum_weights(candidates);
    if total == 0 {
        return Err(WfcError::no_candidates());
    }
    let r = random_below(total);
    let field = select_weighted(candidates, r);
    assert(is_selected(candidates@, r as nat, selection(candidates@, r as nat)));
    Ok(field)
}

} // verus!
