//! The ruleset: for each field and each direction, the fields that may stand
//! next to it, each with a weight.

use crate::matrix::UNCOLLAPSED;
use crate::shared::{ErrorKind, WfcError};
use crate::vec2i::{down, is_cardinal, left, right, up, Vec2i};
use std::collections::HashMap;
use vstd::prelude::*;
use vstd::std_specs::iter::IteratorSpec;

verus! {

broadcast use vstd::std_specs::hash::group_hash_axioms;

/// The largest weight a rule may give. Weights are whole numbers of an
/// arbitrary unit: only their ratios influence a draw. The bound keeps the
/// product of four weights, summed over all fields, within `u128`.
pub const MAX_WEIGHT: u32 = 1_000_000_000;

/// One entry of a ruleset: a field and, for each direction, the fields that
/// may follow it in that direction with their weights.
#[derive(Debug)]
pub struct Rule {
    pub field: i8,
    pub allowed_up: HashMap<i8, u32>,
    pub allowed_right: HashMap<i8, u32>,
    pub allowed_down: HashMap<i8, u32>,
    pub allowed_left: HashMap<i8, u32>,
}

/// Every weight of the mapping is positive and at most `MAX_WEIGHT`.
pub open spec fn weights_in_range(m: Map<i8, u32>) -> bool {
    forall|k: i8| m.contains_key(k) ==> 1 <= #[trigger] m[k] <= MAX_WEIGHT
}

impl Rule {
    /// The mapping of the rule for the direction `d`; empty for anything that
    /// is not a unit direction.
    pub open spec fn allowed(&self, d: Vec2i) -> Map<i8, u32> {
        if d == up() {
            self.allowed_up@
        } else if d == right() {
            self.allowed_right@
        } else if d == down() {
            self.allowed_down@
        } else if d == left() {
            self.allowed_left@
        } else {
            Map::empty()
        }
    }

    /// The field is a real field and all four mappings hold valid weights.
    pub open spec fn well_formed(&self) -> bool {
        &&& self.field != UNCOLLAPSED
        &&& weights_in_range(self.allowed_up@)
        &&& weights_in_range(self.allowed_right@)
        &&& weights_in_range(self.allowed_down@)
        &&& weights_in_range(self.allowed_left@)
    }

    /// A rule with the given field and mappings.
    pub fn new(
        field: i8,
        allowed_up: HashMap<i8, u32>,
        allowed_right: HashMap<i8, u32>,
        allowed_down: HashMap<i8, u32>,
        allowed_left: HashMap<i8, u32>,
    ) -> (r: Self)
        ensures
            r.field == field,
            r.allowed_up == allowed_up,
            r.allowed_right == allowed_right,
            r.allowed_down == allowed_down,
            r.allowed_left == allowed_left,
    {
        Self { field, allowed_up, allowed_right, allowed_down, allowed_left }
    }
}

/// Whether every weight of `m` is positive and at most `MAX_WEIGHT`.
pub fn check_weights(m: &HashMap<i8, u32>) -> (ok: bool)
    ensures
        ok == weights_in_range(m@),
{
    for entry in iter: m.iter()
        invariant
            iter.seq() == m.iter().remaining(),
            forall|i: int|
                0 <= i < iter.index() ==> 1 <= *(#[trigger] iter.seq()[i]).1 <= MAX_WEIGHT,
    {
        if *entry.1 == 0 || *entry.1 > MAX_WEIGHT {
            assert(m@.contains_key(*entry.0) && m@[*entry.0] == *entry.1);
            return false;
        }
    }
    assert forall|k: i8| m@.contains_key(k) implies 1 <= #[trigger] m@[k] <= MAX_WEIGHT by {
        let entries = m.iter().remaining();
        assert(entries.contains((&k, &m@[k])));
        let i = choose|i: int| 0 <= i < entries.len() && entries[i] == (&k, &m@[k]);
        assert(1 <= *entries[i].1 <= MAX_WEIGHT);
    }
    true
}

/// Whether `i` is the position of the first rule of `rules` for `field`.
pub open spec fn is_first_match(rules: Seq<Rule>, field: i8, i: int) -> bool {
    &&& 0 <= i < rules.len()
    &&& rules[i].field == field
    &&& forall|j: int| 0 <= j < i ==> (#[trigger] rules[j]).field != field
}

/// The position of the first rule of `rules` for `field`, where there is one.
pub open spec fn first_match(rules: Seq<Rule>, field: i8) -> int {
    choose|i: int| is_first_match(rules, field, i)
}

/// A field has at most one first rule.
pub proof fn lemma_first_match_unique(rules: Seq<Rule>, field: i8, i: int)
    requires
        is_first_match(rules, field, i),
    ensures
        first_match(rules, field) == i,
{
    let k = first_match(rules, field);
    assert(is_first_match(rules, field, k));
    if k < i {
        assert(rules[k].field != field);
    } else if i < k {
        assert(rules[i].field != field);
    }
}

/// A field that some rule is for has a first rule.
pub proof fn lemma_first_match_exists(rules: Seq<Rule>, field: i8, k: int)
    requires
        0 <= k < rules.len(),
        rules[k].field == field,
    ensures
        is_first_match(rules, field, first_match(rules, field)),
    decreases k,
{
    if exists|j: int| 0 <= j < k && (#[trigger] rules[j]).field == field {
        let j = choose|j: int| 0 <= j < k && (#[trigger] rules[j]).field == field;
        lemma_first_match_exists(rules, field, j);
    } else {
        assert(is_first_match(rules, field, k));
    }
}

/// Whether `i` is the position of the first rule of `rules` that is not well
/// formed.
pub open spec fn is_first_invalid(rules: Seq<Rule>, i: int) -> bool {
    &&& 0 <= i < rules.len()
    &&& !rules[i].well_formed()
    &&& forall|j: int| 0 <= j < i ==> (#[trigger] rules[j]).well_formed()
}

/// A read-only table of rules in declaration order. A ruleset is meant to
/// hold one rule for each field; where it holds more, a lookup for the field
/// answers from the first of them.
#[derive(Debug)]
pub struct Ruleset {
    rules: Vec<Rule>,
}

impl View for Ruleset {
    type V = Seq<Rule>;

    /// The rules in declaration order.
    closed spec fn view(&self) -> Seq<Rule> {
        self.rules@
    }
}

impl Ruleset {
    /// Every rule is well formed. This holds of every ruleset that exists at
    /// run time.
    #[verifier::type_invariant]
    pub open spec fn well_formed(&self) -> bool {
        forall|i: int| 0 <= i < self@.len() ==> (#[trigger] self@[i]).well_formed()
    }

    /// The declared fields in declaration order, repetitions included.
    pub open spec fn fields(&self) -> Seq<i8> {
        Seq::new(self@.len(), |i: int| self@[i].field)
    }

    /// Whether the ruleset declares a rule for `field`.
    pub open spec fn declares(&self, field: i8) -> bool {
        self.fields().contains(field)
    }

    /// The mapping that a lookup for `field` and `direction` answers with:
    /// that of the first rule for `field`.
    pub open spec fn allowed(&self, field: i8, direction: Vec2i) -> Map<i8, u32> {
        self@[first_match(self@, field)].allowed(direction)
    }

    /// Whether `res` is the answer to a lookup for `field` and `direction`:
    /// the mapping of the first rule for `field`; the error of a missing rule
    /// if `field` is not declared; else the error of an invalid direction if
    /// `direction` is not a unit direction.
    pub open spec fn answers(
        &self,
        field: i8,
        direction: Vec2i,
        res: Result<&HashMap<i8, u32>, WfcError>,
    ) -> bool {
        match res {
            Ok(m) => {
                &&& self.declares(field)
                &&& is_cardinal(direction)
                &&& m@ == self.allowed(field, direction)
            },
            Err(e) => if self.declares(field) {
                &&& !is_cardinal(direction)
                &&& e.kind == (ErrorKind::InvalidDirection { direction })
            } else {
                e.kind == (ErrorKind::NoRule { field })
            },
        }
    }

    /// The ruleset of the given rules, in their order. It is refused if a
    /// rule is declared for the value of an uncollapsed cell or holds a
    /// weight outside `1..=MAX_WEIGHT`; the error names the first such rule.
    pub fn new(rules: Vec<Rule>) -> (res: Result<Self, WfcError>)
        ensures
            match res {
                Ok(ruleset) => {
                    &&& ruleset@ == rules@
                    &&& ruleset.well_formed()
                },
                Err(e) => exists|i: int|
                    {
                        &&& #[trigger] is_first_invalid(rules@, i)
                        &&& rules@[i].field == UNCOLLAPSED ==> e.kind == (ErrorKind::ReservedField {
                            rule: i as usize,
                        })
                        &&& rules@[i].field != UNCOLLAPSED ==> e.kind == (ErrorKind::InvalidWeight {
                            rule: i as usize,
                        })
                    },
            },
    {
        let mut i: usize = 0;
        while i < rules.len()
            invariant
                i <= rules@.len(),
                forall|j: int| 0 <= j < i ==> (#[trigger] rules@[j]).well_formed(),
            decreases rules@.len() - i,
        {
            let rule = &rules[i];
            if rule.field == UNCOLLAPSED {
                assert(is_first_invalid(rules@, i as int));
                return Err(WfcError::reserved_field(i));
            }
            if !check_weights(&rule.allowed_up) || !check_weights(&rule.allowed_right)
                || !check_weights(&rule.allowed_down) || !check_weights(&rule.allowed_left) {
                assert(is_first_invalid(rules@, i as int));
                return Err(WfcError::invalid_weight(i));
            }
            i += 1;
        }
        Ok(Self { rules })
    }

    /// The rules in declaration order.
    pub fn rules(&self) -> (rules: &Vec<Rule>)
        ensures
            rules@ == self@,
    {
        &self.rules
    }

    /// The declared fields in declaration order, repetitions included.
    pub fn all_fields(&self) -> (fields: Vec<i8>)
        ensures
            fields@ == self.fields(),
    {
        let mut fields: Vec<i8> = Vec::new();
        let mut i: usize = 0;
        while i < self.rules.len()
            invariant
                i <= self.rules@.len(),
                fields@.len() == i,
                forall|j: int| 0 <= j < i ==> fields@[j] == (#[trigger] self.rules@[j]).field,
            decreases self.rules@.len() - i,
        {
            fields.push(self.rules[i].field);
            i += 1;
        }
        assert(fields@ =~= self.fields());
        fields
    }

    /// The fields that may follow `field` in `direction`, with their weights,
    /// as the first rule for `field` gives them. Fails if no rule is declared
    /// for `field`, and otherwise if `direction` is not a unit direction.
    pub fn get_allowed_fields(&self, field: i8, direction: Vec2i) -> (res: Result<
        &HashMap<i8, u32>,
        WfcError,
    >)
        ensures
            self.answers(field, direction, res),
            res matches Ok(m) ==> weights_in_range(m@),
    {
        let mut i: usize = 0;
        while i < self.rules.len()
            invariant
                i <= self.rules@.len(),
                forall|j: int| 0 <= j < i ==> (#[trigger] self.rules@[j]).field != field,
            decreases self.rules@.len() - i,
        {
            let rule = &self.rules[i];
            if rule.field == field {
                proof {
                    use_type_invariant(self);
                    lemma_first_match_unique(self@, field, i as int);
                    assert(self.fields()[i as int] == field);
                }
                if direction == up() {
                    return Ok(&rule.allowed_up);
                } else if direction == right() {
                    return Ok(&rule.allowed_right);
                } else if direction == down() {
                    return Ok(&rule.allowed_down);
                } else if direction == left() {
                    return Ok(&rule.allowed_left);
                } else {
                    return Err(WfcError::invalid_direction(direction));
                }
            }
            i += 1;
        }
        assert(!self.declares(field)) by {
            if self.fields().contains(field) {
                let j = choose|j: int| 0 <= j < self.fields().len() && self.fields()[j] == field;
                assert(self.rules@[j].field != field);
            }
        }
        Err(WfcError::no_rule(field))
    }
}

/// The mappings of a declared field hold valid weights.
pub proof fn lemma_allowed_weights(rules: Ruleset, field: i8, direction: Vec2i)
    requires
        rules.well_formed(),
        rules.declares(field),
    ensures
        weights_in_range(rules.allowed(field, direction)),
{
    let k = choose|k: int| 0 <= k < rules.fields().len() && rules.fields()[k] == field;
    lemma_first_match_exists(rules@, field, k);
    assert(rules@[first_match(rules@, field)].well_formed());
}

/// Two lookups in one ruleset for the same field and direction give the
/// same answer: both succeed with equal mappings, or both fail in the same
/// way.
pub proof fn lemma_lookup_repeatable(
    rules: Ruleset,
    field: i8,
    direction: Vec2i,
    first: Result<&HashMap<i8, u32>, WfcError>,
    second: Result<&HashMap<i8, u32>, WfcError>,
)
    requires
        rules.answers(field, direction, first),
        rules.answers(field, direction, second),
    ensures
        match (first, second) {
            (Ok(a), Ok(b)) => a@ == b@,
            (Err(e), Err(f)) => e.kind == f.kind,
            _ => false,
        },
{
}

} // verus!
