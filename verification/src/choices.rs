//! The catalogue side of the domain: properties, effects, decisions and
//! choices, with their mathematical views and well-formedness.

use vstd::prelude::*;
use crate::Property;

verus! {

/// Relies on uuid::Uuid::new_v4, which yields a freshly generated random
/// 128-bit identifier; nothing is promised of the value.
#[verifier::external_body]
pub(crate) fn fresh_id() -> u128 {
    uuid::Uuid::new_v4().as_u128()
}

/// A timed numeric adjustment to a property. `value` is a signed integer
/// encoded as text; `duration` counts the ticks remaining and may go
/// negative, since effects are never pruned automatically.
pub struct Effect {
    pub id: u128,
    pub property: Property,
    pub value: String,
    pub duration: i32,
}

#[verifier::ext_equal]
pub struct EffectV {
    pub id: u128,
    pub property: Property,
    pub value: Seq<char>,
    pub duration: i32,
}

impl View for Effect {
    type V = EffectV;

    open spec fn view(&self) -> EffectV {
        EffectV {
            id: self.id,
            property: self.property,
            value: self.value@,
            duration: self.duration,
        }
    }
}

impl DeepView for Effect {
    type V = EffectV;

    open spec fn deep_view(&self) -> EffectV {
        self.view()
    }
}

/// A textual description paired with an ordered run of effects.
pub struct Decision {
    pub id: u128,
    pub description: String,
    pub effects: Vec<Effect>,
}

#[verifier::ext_equal]
pub struct DecisionV {
    pub id: u128,
    pub description: Seq<char>,
    pub effects: Seq<EffectV>,
}

impl View for Decision {
    type V = DecisionV;

    open spec fn view(&self) -> DecisionV {
        DecisionV {
            id: self.id,
            description: self.description@,
            effects: self.effects.deep_view(),
        }
    }
}

impl DeepView for Decision {
    type V = DecisionV;

    open spec fn deep_view(&self) -> DecisionV {
        self.view()
    }
}

/// A named catalogue entry bounded by an inclusive applicability age range;
/// the bounds are carried, not enforced here.
pub struct Choice {
    pub id: u128,
    pub name: String,
    pub decisions: Vec<Decision>,
    pub min_age: i32,
    pub max_age: i32,
}

#[verifier::ext_equal]
pub struct ChoiceV {
    pub id: u128,
    pub name: Seq<char>,
    pub decisions: Seq<DecisionV>,
    pub min_age: i32,
    pub max_age: i32,
}

impl View for Choice {
    type V = ChoiceV;

    open spec fn view(&self) -> ChoiceV {
        ChoiceV {
            id: self.id,
            name: self.name@,
            decisions: self.decisions.deep_view(),
            min_age: self.min_age,
            max_age: self.max_age,
        }
    }
}

impl DeepView for Choice {
    type V = ChoiceV;

    open spec fn deep_view(&self) -> ChoiceV {
        self.view()
    }
}

/// Identifiers are unique within their owning collection.
pub open spec fn decision_wf(d: DecisionV) -> bool {
    forall|i: int, j: int| 0 <= i < j < d.effects.len() ==> d.effects[i].id != d.effects[j].id
}

pub open spec fn choice_wf(c: ChoiceV) -> bool {
    &&& forall|i: int, j: int|
        0 <= i < j < c.decisions.len() ==> c.decisions[i].id != c.decisions[j].id
    &&& forall|i: int| 0 <= i < c.decisions.len() ==> decision_wf(#[trigger] c.decisions[i])
}

impl Effect {
    /// Builds an effect from validated parts under a fresh identifier.
    pub fn new(property: Property, value: String, duration: i32) -> (r: Effect)
        ensures
            r.property == property,
            r.value == value,
            r.duration == duration,
    {
        Effect { id: fresh_id(), property, value, duration }
    }
}

impl Decision {
    /// Builds a decision from validated parts under a fresh identifier.
    pub fn new(description: String, effects: Vec<Effect>) -> (r: Decision)
        ensures
            r.description == description,
            r.effects == effects,
    {
        Decision { id: fresh_id(), description, effects }
    }
}

/// Builds a choice from validated parts under a fresh identifier. Persisting
/// it is a separate step: see the relational store's insert operation.
pub fn new(name: String, min_age: i32, max_age: i32, decisions: Vec<Decision>) -> (r: Choice)
    ensures
        r.name == name,
        r.min_age == min_age,
        r.max_age == max_age,
        r.decisions == decisions,
{
    Choice { id: fresh_id(), name, decisions, min_age, max_age }
}

// ---------------------------------------------------------------------------
// Human-readable rendering
// ---------------------------------------------------------------------------

pub open spec fn effect_line(e: EffectV) -> Seq<char> {
    "\n        Effect: "@ + crate::property_token(e.property) + " - "@ + e.value
}

pub open spec fn effect_lines(s: Seq<EffectV>) -> Seq<char>
    decreases s.len(),
{
    if s.len() == 0 {
        Seq::empty()
    } else {
        effect_line(s[0]) + effect_lines(s.drop_first())
    }
}

pub open spec fn decision_block(d: DecisionV) -> Seq<char> {
    "\n    Decision: "@ + d.description + effect_lines(d.effects)
}

pub open spec fn decision_blocks(s: Seq<DecisionV>) -> Seq<char>
    decreases s.len(),
{
    if s.len() == 0 {
        Seq::empty()
    } else {
        decision_block(s[0]) + decision_blocks(s.drop_first())
    }
}

/// The rendered form of a choice: its name, then each decision with its
/// effects, one per line.
pub open spec fn choice_text(c: ChoiceV) -> Seq<char> {
    "CHOICE:\n"@ + c.name + decision_blocks(c.decisions) + "\n"@
}

proof fn lemma_effect_lines_take_step(l: Seq<EffectV>, i: int)
    requires
        0 <= i < l.len(),
    ensures
        effect_lines(l.take(i + 1)) == effect_lines(l.take(i)) + effect_line(l[i]),
    decreases i,
{
    if i == 0 {
        assert(l.take(1)[0] == l[0]);
        assert(l.take(1).drop_first() =~= Seq::<EffectV>::empty());
        assert(l.take(0) =~= Seq::<EffectV>::empty());
        assert(effect_line(l[0]) + Seq::<char>::empty() =~= effect_line(l[0]));
        assert(Seq::<char>::empty() + effect_line(l[0]) =~= effect_line(l[0]));
    } else {
        let d = l.drop_first();
        assert(l.take(i + 1).drop_first() =~= d.take(i));
        assert(l.take(i).drop_first() =~= d.take(i - 1));
        assert(l.take(i + 1)[0] == l[0]);
        assert(l.take(i)[0] == l[0]);
        lemma_effect_lines_take_step(d, i - 1);
        assert(d[i - 1] == l[i]);
        assert(effect_line(l[0]) + (effect_lines(d.take(i - 1)) + effect_line(l[i]))
            =~= (effect_line(l[0]) + effect_lines(d.take(i - 1))) + effect_line(l[i]));
    }
}

proof fn lemma_decision_blocks_take_step(l: Seq<DecisionV>, i: int)
    requires
        0 <= i < l.len(),
    ensures
        decision_blocks(l.take(i + 1)) == decision_blocks(l.take(i)) + decision_block(l[i]),
    decreases i,
{
    if i == 0 {
        assert(l.take(1)[0] == l[0]);
        assert(l.take(1).drop_first() =~= Seq::<DecisionV>::empty());
        assert(l.take(0) =~= Seq::<DecisionV>::empty());
        assert(decision_block(l[0]) + Seq::<char>::empty() =~= decision_block(l[0]));
        assert(Seq::<char>::empty() + decision_block(l[0]) =~= decision_block(l[0]));
    } else {
        let d = l.drop_first();
        assert(l.take(i + 1).drop_first() =~= d.take(i));
        assert(l.take(i).drop_first() =~= d.take(i - 1));
        assert(l.take(i + 1)[0] == l[0]);
        assert(l.take(i)[0] == l[0]);
        lemma_decision_blocks_take_step(d, i - 1);
        assert(d[i - 1] == l[i]);
        assert(decision_block(l[0]) + (decision_blocks(d.take(i - 1)) + decision_block(l[i]))
            =~= (decision_block(l[0]) + decision_blocks(d.take(i - 1))) + decision_block(l[i]));
    }
}

fn write_decision_block(out: &mut String, d: &Decision)
    ensures
        final(out)@ == old(out)@ + decision_block(d@),
{
    out.append("\n    Decision: ");
    out.append(d.description.as_str());
    let ghost base = out@;
    let mut j: usize = 0;
    proof {
        assert(effect_lines(d.effects.deep_view().take(0)) =~= Seq::<char>::empty());
        assert(base + Seq::<char>::empty() =~= base);
    }
    while j < d.effects.len()
        invariant
            j <= d.effects@.len(),
            out@ == base + effect_lines(d.effects.deep_view().take(j as int)),
            base + effect_lines(d.effects.deep_view()) =~= old(out)@ + decision_block(d@),
        decreases d.effects@.len() - j,
    {
        proof {
            assert(d.effects.deep_view()[j as int] == d.effects[j as int]@);
        }
        out.append("\n        Effect: ");
        let tok = d.effects[j].property.to_token();
        out.append(tok.as_str());
        out.append(" - ");
        out.append(d.effects[j].value.as_str());
        proof {
            lemma_effect_lines_take_step(d.effects.deep_view(), j as int);
            assert(out@ =~= base + effect_lines(d.effects.deep_view().take(j as int + 1)));
        }
        j = j + 1;
    }
    proof {
        assert(d.effects.deep_view().take(d.effects@.len() as int) =~= d.effects.deep_view());
    }
}

impl Choice {
    /// Renders the choice for display, exactly in the form `choice_text`
    /// gives.
    pub fn describe(&self) -> (r: String)
        ensures
            r@ == choice_text(self@),
    {
        let mut out = String::new();
        out.append("CHOICE:\n");
        out.append(self.name.as_str());
        let ghost base = out@;
        let mut i: usize = 0;
        proof {
            assert(decision_blocks(self.decisions.deep_view().take(0)) =~= Seq::<char>::empty());
            assert(base + Seq::<char>::empty() =~= base);
        }
        while i < self.decisions.len()
            invariant
                i <= self.decisions@.len(),
                out@ == base + decision_blocks(self.decisions.deep_view().take(i as int)),
                base == "CHOICE:\n"@ + self.name@,
            decreases self.decisions@.len() - i,
        {
            proof {
                assert(self.decisions.deep_view()[i as int] == self.decisions[i as int]@);
            }
            write_decision_block(&mut out, &self.decisions[i]);
            proof {
                lemma_decision_blocks_take_step(self.decisions.deep_view(), i as int);
                assert(out@ =~= base + decision_blocks(
                    self.decisions.deep_view().take(i as int + 1),
                ));
            }
            i = i + 1;
        }
        out.append("\n");
        proof {
            assert(self.decisions.deep_view().take(self.decisions@.len() as int)
                =~= self.decisions.deep_view());
            assert(out@ =~= choice_text(self@));
        }
        out
    }
}

} // verus!
