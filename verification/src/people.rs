//! People and the effect engine: a person accumulates copies of effects, and
//! each application pass folds every attached effect's value into money or
//! credit and ticks its duration down by one. Passes compound: nothing is
//! applied once-only, and effects are never removed here.

use vstd::prelude::*;
use crate::Property;
use crate::choices::{fresh_id, Effect, EffectV};
use crate::numtext::spec_parse_i32_all;

verus! {

/// A simulated individual with numeric attributes and attached effects.
pub struct Person {
    pub id: u128,
    pub first_name: String,
    pub last_name: String,
    pub age: i32,
    pub money: i32,
    pub credit: i32,
    pub effects: Vec<Effect>,
}

#[verifier::ext_equal]
pub struct PersonV {
    pub id: u128,
    pub first_name: Seq<char>,
    pub last_name: Seq<char>,
    pub age: i32,
    pub money: i32,
    pub credit: i32,
    pub effects: Seq<EffectV>,
}

impl View for Person {
    type V = PersonV;

    open spec fn view(&self) -> PersonV {
        PersonV {
            id: self.id,
            first_name: self.first_name@,
            last_name: self.last_name@,
            age: self.age,
            money: self.money,
            credit: self.credit,
            effects: self.effects.deep_view(),
        }
    }
}

impl DeepView for Person {
    type V = PersonV;

    open spec fn deep_view(&self) -> PersonV {
        self.view()
    }
}

/// What one application pass adds to `money` for a single effect.
pub open spec fn effect_delta_money(e: EffectV) -> int {
    if e.property is Money {
        match spec_parse_i32_all(e.value) {
            Some(v) => v,
            None => 0,
        }
    } else {
        0
    }
}

/// What one application pass adds to `credit` for a single effect.
pub open spec fn effect_delta_credit(e: EffectV) -> int {
    if e.property is Credit {
        match spec_parse_i32_all(e.value) {
            Some(v) => v,
            None => 0,
        }
    } else {
        0
    }
}

pub open spec fn sum_money(s: Seq<EffectV>) -> int
    decreases s.len(),
{
    if s.len() == 0 {
        0
    } else {
        sum_money(s.drop_last()) + effect_delta_money(s.last())
    }
}

pub open spec fn sum_credit(s: Seq<EffectV>) -> int
    decreases s.len(),
{
    if s.len() == 0 {
        0
    } else {
        sum_credit(s.drop_last()) + effect_delta_credit(s.last())
    }
}

/// The effect list after one application pass: every duration down one.
pub open spec fn applied_effects(s: Seq<EffectV>) -> Seq<EffectV> {
    s.map(
        |i: int, e: EffectV|
            EffectV {
                id: e.id,
                property: e.property,
                value: e.value,
                duration: (e.duration - 1) as i32,
            },
    )
}

/// Every attached value parses as a signed integer.
pub open spec fn effects_parse_ok(s: Seq<EffectV>) -> bool {
    forall|i: int| 0 <= i < s.len() ==> spec_parse_i32_all(#[trigger] s[i].value) is Some
}

pub open spec fn durations_above_min(s: Seq<EffectV>) -> bool {
    forall|i: int| 0 <= i < s.len() ==> #[trigger] s[i].duration > i32::MIN
}

impl Person {
    /// A fresh person: age, money and credit start at zero, no effects.
    pub fn new(first_name: String, last_name: String) -> (r: Person)
        ensures
            r.first_name == first_name,
            r.last_name == last_name,
            r.age == 0,
            r.money == 0,
            r.credit == 0,
            r.effects@.len() == 0,
    {
        Person {
            id: fresh_id(),
            first_name,
            last_name,
            age: 0,
            money: 0,
            credit: 0,
            effects: Vec::new(),
        }
    }

    /// Appends a value-copy of the effect; mutating it later never touches
    /// the source. No deduplication, no capacity limit.
    pub fn add_effect(&mut self, effect: &Effect)
        ensures
            final(self).effects@ == old(self).effects@.push(
                Effect {
                    id: effect.id,
                    property: effect.property,
                    value: effect.value,
                    duration: effect.duration,
                },
            ),
            final(self).id == old(self).id,
            final(self).first_name == old(self).first_name,
            final(self).last_name == old(self).last_name,
            final(self).age == old(self).age,
            final(self).money == old(self).money,
            final(self).credit == old(self).credit,
    {
        let copy = Effect {
            id: effect.id,
            property: effect.property,
            value: effect.value.clone(),
            duration: effect.duration,
        };
        self.effects.push(copy);
    }

    /// One application pass: for every attached effect in insertion order,
    /// its value is added to money or credit according to its property, and
    /// its duration is decremented by one. Repeated calls compound.
    pub fn apply_effects(&mut self)
        requires
            effects_parse_ok(old(self)@.effects),
            durations_above_min(old(self)@.effects),
            forall|k: int|
                0 <= k <= old(self)@.effects.len() ==> i32::MIN <= old(self).money
                    + sum_money(#[trigger] old(self)@.effects.take(k)) <= i32::MAX,
            forall|k: int|
                0 <= k <= old(self)@.effects.len() ==> i32::MIN <= old(self).credit
                    + sum_credit(#[trigger] old(self)@.effects.take(k)) <= i32::MAX,
        ensures
            final(self).id == old(self).id,
            final(self).first_name == old(self).first_name,
            final(self).last_name == old(self).last_name,
            final(self).age == old(self).age,
            final(self).money as int == old(self).money + sum_money(old(self)@.effects),
            final(self).credit as int == old(self).credit + sum_credit(old(self)@.effects),
            final(self)@.effects == applied_effects(old(self)@.effects),
    {
        let n = self.effects.len();
        let mut new_effects: Vec<Effect> = Vec::new();
        let mut i: usize = 0;
        while i < n
            invariant
                i <= n,
                n == old(self).effects.len(),
                self.effects == old(self).effects,
                self.id == old(self).id,
                self.first_name == old(self).first_name,
                self.last_name == old(self).last_name,
                self.age == old(self).age,
                effects_parse_ok(old(self)@.effects),
                durations_above_min(old(self)@.effects),
                forall|k: int|
                    0 <= k <= old(self)@.effects.len() ==> i32::MIN <= old(self).money
                        + sum_money(#[trigger] old(self)@.effects.take(k)) <= i32::MAX,
                forall|k: int|
                    0 <= k <= old(self)@.effects.len() ==> i32::MIN <= old(self).credit
                        + sum_credit(#[trigger] old(self)@.effects.take(k)) <= i32::MAX,
                self.money as int == old(self).money + sum_money(old(self)@.effects.take(i as int)),
                self.credit as int == old(self).credit + sum_credit(
                    old(self)@.effects.take(i as int),
                ),
                new_effects.deep_view() == applied_effects(old(self)@.effects.take(i as int)),
            decreases n - i,
        {
            proof {
                assert(old(self)@.effects[i as int] == old(self).effects[i as int]@);
                assert(old(self)@.effects[i as int].duration > i32::MIN);
                assert(spec_parse_i32_all(old(self)@.effects[i as int].value) is Some);
                assert(old(self)@.effects.take(i as int + 1).drop_last() =~= old(
                    self,
                )@.effects.take(i as int));
                assert(old(self)@.effects.take(i as int + 1).last() == old(self)@.effects[i as int]);
            }
            let v = match crate::numtext::parse_i32_all(self.effects[i].value.as_str()) {
                Some(v) => v,
                None => {
                    proof {
                        assert(false);
                    }
                    0
                },
            };
            let prop = self.effects[i].property;
            match prop {
                Property::Money => {
                    self.money = self.money + v;
                },
                Property::Credit => {
                    self.credit = self.credit + v;
                },
            }
            let updated = Effect {
                id: self.effects[i].id,
                property: prop,
                value: self.effects[i].value.clone(),
                duration: self.effects[i].duration - 1,
            };
            let ghost up = updated;
            let ghost prev_raw = new_effects@;
            let ghost prev_deep = new_effects.deep_view();
            new_effects.push(updated);
            proof {
                let target = applied_effects(old(self)@.effects.take(i as int + 1));
                assert(prev_deep.len() == prev_raw.len());
                assert(prev_deep.len() == i as int);
                assert(new_effects@ == prev_raw.push(up));
                assert forall|k: int| 0 <= k < new_effects@.len() implies new_effects.deep_view()[k]
                    == target[k] by {
                    if k < i as int {
                        assert(new_effects@[k] == prev_raw[k]);
                        assert(prev_deep[k] == prev_raw[k].deep_view());
                        assert(prev_deep[k] == applied_effects(old(self)@.effects.take(i as int))[k]);
                    } else {
                        assert(new_effects@[k] == up);
                    }
                }
                assert(new_effects.deep_view() =~= target);
            }
            i = i + 1;
        }
        self.effects = new_effects;
        proof {
            assert(old(self)@.effects.take(n as int) =~= old(self)@.effects);
        }
    }
}

/// Applying an effect contributes its value exactly once per pass: one pass
/// adds the value and ticks the duration down one, and because a pass leaves
/// value and property untouched, a second pass adds the value again and
/// ticks once more — applications compound rather than saturate.
pub proof fn lemma_effect_application_compounds(e: EffectV, v: int)
    requires
        spec_parse_i32_all(e.value) == Some(v),
        e.duration > i32::MIN + 1,
    ensures
        e.property is Money ==> sum_money(seq![e]) == v && sum_credit(seq![e]) == 0,
        e.property is Credit ==> sum_credit(seq![e]) == v && sum_money(seq![e]) == 0,
        applied_effects(seq![e])[0].duration == e.duration - 1,
        sum_money(applied_effects(seq![e])) == sum_money(seq![e]),
        sum_credit(applied_effects(seq![e])) == sum_credit(seq![e]),
        applied_effects(applied_effects(seq![e]))[0].duration == e.duration - 2,
{
    let s = seq![e];
    assert(sum_money(Seq::<EffectV>::empty()) == 0);
    assert(sum_credit(Seq::<EffectV>::empty()) == 0);
    assert(s.drop_last() =~= Seq::<EffectV>::empty());
    assert(s.last() == e);
    let a1 = applied_effects(s);
    assert(a1.drop_last() =~= Seq::<EffectV>::empty());
    assert(a1.last() == a1[0]);
    let a2 = applied_effects(a1);
}

} // verus!
