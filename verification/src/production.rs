//! The availability gate: what holds a producer back, tested in
//! a fixed order. The labour curve and the recipe quantities themselves
//! are fractional and are evaluated by the caller.
use vstd::prelude::*;
use crate::resources::ResourceKind;

verus! {

/// Why a building is not running at nominal. `Nothing` is the healthy case.
#[derive(Clone, Copy, PartialEq, Eq, Debug, Structural)]
pub enum Bound {
    Nothing,
    Labour,
    Power,
    Water,
    /// The recipe called for a material the yard could not fully supply.
    Input(ResourceKind),
}

impl Default for Bound {
    fn default() -> (r: Bound)
        ensures
            r == Bound::Nothing,
    {
        Bound::Nothing
    }
}

/// Power is tested before water, and water before labour. A kind that
/// draws power runs only on a served grid (no gate at all counts as
/// blocked); a missing water gate is permission; `staffed` says whether the
/// labour curve is above zero.
pub open spec fn spec_gate(draws_power: bool, powered: Option<bool>, watered: Option<bool>, staffed: bool) -> Bound {
    if draws_power && powered != Some(true) {
        Bound::Power
    } else if watered == Some(false) {
        Bound::Water
    } else if !staffed {
        Bound::Labour
    } else {
        Bound::Nothing
    }
}

pub fn gate(draws_power: bool, powered: Option<bool>, watered: Option<bool>, staffed: bool) -> (r: Bound)
    ensures
        r == spec_gate(draws_power, powered, watered, staffed),
{
    let served = match powered {
        Some(p) => p,
        None => false,
    };
    if draws_power && !served {
        return Bound::Power;
    }
    let dry = match watered {
        Some(w) => !w,
        None => false,
    };
    if dry {
        Bound::Water
    } else if !staffed {
        Bound::Labour
    } else {
        Bound::Nothing
    }
}

/// The input named when a recipe comes up short: the last input, in recipe
/// order, whose take fell short (`inputs[i]` is the input and whether it
/// fell short).
pub open spec fn spec_last_short(inputs: Seq<(ResourceKind, bool)>) -> Option<ResourceKind>
    decreases inputs.len(),
{
    if inputs.len() == 0 {
        None
    } else if inputs.last().1 {
        Some(inputs.last().0)
    } else {
        spec_last_short(inputs.drop_last())
    }
}

pub fn last_short(inputs: &Vec<(ResourceKind, bool)>) -> (r: Option<ResourceKind>)
    ensures
        r == spec_last_short(inputs@),
{
    let mut short: Option<ResourceKind> = None;
    let mut i: usize = 0;
    while i < inputs.len()
        invariant
            i <= inputs.len(),
            short == spec_last_short(inputs@.subrange(0, i as int)),
        decreases inputs.len() - i,
    {
        proof {
            assert(inputs@.subrange(0, i as int + 1).drop_last() =~= inputs@.subrange(0, i as int));
        }
        if inputs[i].1 {
            short = Some(inputs[i].0);
        }
        i = i + 1;
    }
    proof {
        assert(inputs@.subrange(0, inputs.len() as int) =~= inputs@);
    }
    short
}

/// A recipe that came up short always names a short input.
pub proof fn law_shortfall_names_a_short_input(inputs: Seq<(ResourceKind, bool)>)
    ensures
        spec_last_short(inputs) is Some <==> exists|i: int| 0 <= i < inputs.len() && (#[trigger] inputs[i]).1,
        spec_last_short(inputs) matches Some(k) ==> exists|i: int|
            0 <= i < inputs.len() && (#[trigger] inputs[i]).1 && inputs[i].0 == k,
    decreases inputs.len(),
{
    if inputs.len() > 0 {
        let t = inputs.drop_last();
        law_shortfall_names_a_short_input(t);
        if exists|i: int| 0 <= i < t.len() && (#[trigger] t[i]).1 {
            let i = choose|i: int| 0 <= i < t.len() && (#[trigger] t[i]).1;
            assert(inputs[i] == t[i]);
        }
        if spec_last_short(t) is Some && !inputs.last().1 {
            let k = spec_last_short(t).unwrap();
            let i = choose|i: int| 0 <= i < t.len() && (#[trigger] t[i]).1 && t[i].0 == k;
            assert(inputs[i] == t[i]);
        }
        if exists|i: int| 0 <= i < inputs.len() && (#[trigger] inputs[i]).1 {
            let i = choose|i: int| 0 <= i < inputs.len() && (#[trigger] inputs[i]).1;
            if i < t.len() {
                assert(t[i] == inputs[i]);
            }
        }
        assert(inputs[inputs.len() - 1] == inputs.last());
    }
}

} // verus!
