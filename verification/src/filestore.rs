//! The flat-file backend: a human-readable, line-oriented text form of the
//! domain model. Field names match the domain model's attribute names; text
//! fields are length-prefixed so any content round-trips. The grammar is
//! given by spec serializers, the parsers are proved to invert them, and the
//! executable codec is proved equal to both.

use vstd::prelude::*;
use crate::{Property, property_token};
use crate::choices::{Choice, ChoiceV, Decision, DecisionV, Effect, EffectV};
use crate::people::{Person, PersonV};
use crate::numtext::{
    dec_rep, fmt_i32, fmt_u128, has_at, i32_rep, lemma_has_at_concat, lemma_has_at_index,
    lemma_parse_dec_rep, lemma_parse_i32_rep, parse_dec, parse_i32, spec_parse_dec,
    spec_parse_i32,
};

verus! {

// ---------------------------------------------------------------------------
// The serialized form
// ---------------------------------------------------------------------------

pub open spec fn ser_u128_field(name: Seq<char>, v: u128) -> Seq<char> {
    name + " "@ + dec_rep(v as nat) + "\n"@
}

pub open spec fn ser_i32_field(name: Seq<char>, v: i32) -> Seq<char> {
    name + " "@ + i32_rep(v as int) + "\n"@
}

pub open spec fn ser_str_field(name: Seq<char>, s: Seq<char>) -> Seq<char> {
    name + " "@ + dec_rep(s.len()) + " "@ + s + "\n"@
}

pub open spec fn ser_property_field(p: Property) -> Seq<char> {
    "property "@ + property_token(p) + "\n"@
}

pub open spec fn ser_effect(e: EffectV) -> Seq<char> {
    "effect\n"@ + ser_u128_field("id"@, e.id) + ser_property_field(e.property) + ser_str_field(
        "value"@,
        e.value,
    ) + ser_i32_field("duration"@, e.duration)
}

pub open spec fn ser_effects(s: Seq<EffectV>) -> Seq<char>
    decreases s.len(),
{
    if s.len() == 0 {
        Seq::empty()
    } else {
        ser_effect(s[0]) + ser_effects(s.drop_first())
    }
}

pub open spec fn ser_decision(d: DecisionV) -> Seq<char> {
    "decision\n"@ + ser_u128_field("id"@, d.id) + ser_str_field("description"@, d.description)
        + ser_u128_field("effects"@, d.effects.len() as u128) + ser_effects(d.effects)
}

pub open spec fn ser_decisions(s: Seq<DecisionV>) -> Seq<char>
    decreases s.len(),
{
    if s.len() == 0 {
        Seq::empty()
    } else {
        ser_decision(s[0]) + ser_decisions(s.drop_first())
    }
}

pub open spec fn ser_choice(c: ChoiceV) -> Seq<char> {
    "choice\n"@ + ser_u128_field("id"@, c.id) + ser_str_field("name"@, c.name) + ser_i32_field(
        "min_age"@,
        c.min_age,
    ) + ser_i32_field("max_age"@, c.max_age) + ser_u128_field(
        "decisions"@,
        c.decisions.len() as u128,
    ) + ser_decisions(c.decisions)
}

pub open spec fn ser_choices(s: Seq<ChoiceV>) -> Seq<char>
    decreases s.len(),
{
    if s.len() == 0 {
        Seq::empty()
    } else {
        ser_choice(s[0]) + ser_choices(s.drop_first())
    }
}

pub open spec fn ser_choices_doc(s: Seq<ChoiceV>) -> Seq<char> {
    ser_u128_field("choices"@, s.len() as u128) + ser_choices(s)
}

pub open spec fn ser_person(p: PersonV) -> Seq<char> {
    "person\n"@ + ser_u128_field("id"@, p.id) + ser_str_field("first_name"@, p.first_name)
        + ser_str_field("last_name"@, p.last_name) + ser_i32_field("age"@, p.age) + ser_i32_field(
        "money"@,
        p.money,
    ) + ser_i32_field("credit"@, p.credit) + ser_u128_field("effects"@, p.effects.len() as u128)
        + ser_effects(p.effects)
}

pub open spec fn ser_people(s: Seq<PersonV>) -> Seq<char>
    decreases s.len(),
{
    if s.len() == 0 {
        Seq::empty()
    } else {
        ser_person(s[0]) + ser_people(s.drop_first())
    }
}

pub open spec fn ser_people_doc(s: Seq<PersonV>) -> Seq<char> {
    ser_u128_field("people"@, s.len() as u128) + ser_people(s)
}

// ---------------------------------------------------------------------------
// The parsers
// ---------------------------------------------------------------------------

pub open spec fn spec_parse_lit(s: Seq<char>, i: int, lit: Seq<char>) -> Option<int> {
    if has_at(s, i, lit) {
        Some(i + lit.len())
    } else {
        None
    }
}

pub open spec fn spec_parse_u128_field(s: Seq<char>, i: int, name: Seq<char>) -> Option<
    (u128, int),
> {
    match spec_parse_lit(s, i, name + " "@) {
        Some(j) => match spec_parse_dec(s, j) {
            Some((v, k)) => if v <= u128::MAX {
                match spec_parse_lit(s, k, "\n"@) {
                    Some(m) => Some((v as u128, m)),
                    None => None,
                }
            } else {
                None
            },
            None => None,
        },
        None => None,
    }
}

pub open spec fn spec_parse_i32_field(s: Seq<char>, i: int, name: Seq<char>) -> Option<
    (i32, int),
> {
    match spec_parse_lit(s, i, name + " "@) {
        Some(j) => match spec_parse_i32(s, j) {
            Some((v, k)) => match spec_parse_lit(s, k, "\n"@) {
                Some(m) => Some((v as i32, m)),
                None => None,
            },
            None => None,
        },
        None => None,
    }
}

pub open spec fn spec_parse_str_field(s: Seq<char>, i: int, name: Seq<char>) -> Option<
    (Seq<char>, int),
> {
    match spec_parse_lit(s, i, name + " "@) {
        Some(j) => match spec_parse_dec(s, j) {
            Some((len, k)) => match spec_parse_lit(s, k, " "@) {
                Some(m) => if m + len <= s.len() {
                    match spec_parse_lit(s, m + len, "\n"@) {
                        Some(e) => Some((s.subrange(m, m + len), e)),
                        None => None,
                    }
                } else {
                    None
                },
                None => None,
            },
            None => None,
        },
        None => None,
    }
}

pub open spec fn spec_parse_property_field(s: Seq<char>, i: int) -> Option<(Property, int)> {
    match spec_parse_lit(s, i, "property "@) {
        Some(j) => if has_at(s, j, "money"@) && has_at(s, j + 5, "\n"@) {
            Some((Property::Money, j + 6))
        } else if has_at(s, j, "credit"@) && has_at(s, j + 6, "\n"@) {
            Some((Property::Credit, j + 7))
        } else {
            None
        },
        None => None,
    }
}

pub open spec fn spec_parse_effect(s: Seq<char>, i: int) -> Option<(EffectV, int)> {
    match spec_parse_lit(s, i, "effect\n"@) {
        Some(j0) => match spec_parse_u128_field(s, j0, "id"@) {
            Some((id, j1)) => match spec_parse_property_field(s, j1) {
                Some((property, j2)) => match spec_parse_str_field(s, j2, "value"@) {
                    Some((value, j3)) => match spec_parse_i32_field(s, j3, "duration"@) {
                        Some((duration, j4)) => Some(
                            (EffectV { id, property, value, duration }, j4),
                        ),
                        None => None,
                    },
                    None => None,
                },
                None => None,
            },
            None => None,
        },
        None => None,
    }
}

pub open spec fn spec_parse_effects(s: Seq<char>, i: int, n: nat) -> Option<(Seq<EffectV>, int)>
    decreases n,
{
    if n == 0 {
        Some((Seq::empty(), i))
    } else {
        match spec_parse_effect(s, i) {
            Some((e, j)) => match spec_parse_effects(s, j, (n - 1) as nat) {
                Some((rest, k)) => Some((seq![e] + rest, k)),
                None => None,
            },
            None => None,
        }
    }
}

pub open spec fn spec_parse_decision(s: Seq<char>, i: int) -> Option<(DecisionV, int)> {
    match spec_parse_lit(s, i, "decision\n"@) {
        Some(j0) => match spec_parse_u128_field(s, j0, "id"@) {
            Some((id, j1)) => match spec_parse_str_field(s, j1, "description"@) {
                Some((description, j2)) => match spec_parse_u128_field(s, j2, "effects"@) {
                    Some((n, j3)) => match spec_parse_effects(s, j3, n as nat) {
                        Some((effects, j4)) => Some((DecisionV { id, description, effects }, j4)),
                        None => None,
                    },
                    None => None,
                },
                None => None,
            },
            None => None,
        },
        None => None,
    }
}

pub open spec fn spec_parse_decisions(s: Seq<char>, i: int, n: nat) -> Option<
    (Seq<DecisionV>, int),
>
    decreases n,
{
    if n == 0 {
        Some((Seq::empty(), i))
    } else {
        match spec_parse_decision(s, i) {
            Some((d, j)) => match spec_parse_decisions(s, j, (n - 1) as nat) {
                Some((rest, k)) => Some((seq![d] + rest, k)),
                None => None,
            },
            None => None,
        }
    }
}

pub open spec fn spec_parse_choice(s: Seq<char>, i: int) -> Option<(ChoiceV, int)> {
    match spec_parse_lit(s, i, "choice\n"@) {
        Some(j0) => match spec_parse_u128_field(s, j0, "id"@) {
            Some((id, j1)) => match spec_parse_str_field(s, j1, "name"@) {
                Some((name, j2)) => match spec_parse_i32_field(s, j2, "min_age"@) {
                    Some((min_age, j3)) => match spec_parse_i32_field(s, j3, "max_age"@) {
                        Some((max_age, j4)) => match spec_parse_u128_field(s, j4, "decisions"@) {
                            Some((n, j5)) => match spec_parse_decisions(s, j5, n as nat) {
                                Some((decisions, j6)) => Some(
                                    (ChoiceV { id, name, decisions, min_age, max_age }, j6),
                                ),
                                None => None,
                            },
                            None => None,
                        },
                        None => None,
                    },
                    None => None,
                },
                None => None,
            },
            None => None,
        },
        None => None,
    }
}

pub open spec fn spec_parse_choices(s: Seq<char>, i: int, n: nat) -> Option<(Seq<ChoiceV>, int)>
    decreases n,
{
    if n == 0 {
        Some((Seq::empty(), i))
    } else {
        match spec_parse_choice(s, i) {
            Some((c, j)) => match spec_parse_choices(s, j, (n - 1) as nat) {
                Some((rest, k)) => Some((seq![c] + rest, k)),
                None => None,
            },
            None => None,
        }
    }
}

/// The whole choices document: a count header, then exactly that many
/// choices, with nothing trailing.
pub open spec fn spec_parse_choices_doc(s: Seq<char>) -> Option<Seq<ChoiceV>> {
    match spec_parse_u128_field(s, 0, "choices"@) {
        Some((n, j)) => match spec_parse_choices(s, j, n as nat) {
            Some((cs, k)) => if k == s.len() {
                Some(cs)
            } else {
                None
            },
            None => None,
        },
        None => None,
    }
}

pub open spec fn spec_parse_person(s: Seq<char>, i: int) -> Option<(PersonV, int)> {
    match spec_parse_lit(s, i, "person\n"@) {
        Some(j0) => match spec_parse_u128_field(s, j0, "id"@) {
            Some((id, j1)) => match spec_parse_str_field(s, j1, "first_name"@) {
                Some((first_name, j2)) => match spec_parse_str_field(s, j2, "last_name"@) {
                    Some((last_name, j3)) => match spec_parse_i32_field(s, j3, "age"@) {
                        Some((age, j4)) => match spec_parse_i32_field(s, j4, "money"@) {
                            Some((money, j5)) => match spec_parse_i32_field(s, j5, "credit"@) {
                                Some((credit, j6)) => match spec_parse_u128_field(
                                    s,
                                    j6,
                                    "effects"@,
                                ) {
                                    Some((n, j7)) => match spec_parse_effects(s, j7, n as nat) {
                                        Some((effects, j8)) => Some(
                                            (
                                                PersonV {
                                                    id,
                                                    first_name,
                                                    last_name,
                                                    age,
                                                    money,
                                                    credit,
                                                    effects,
                                                },
                                                j8,
                                            ),
                                        ),
                                        None => None,
                                    },
                                    None => None,
                                },
                                None => None,
                            },
                            None => None,
                        },
                        None => None,
                    },
                    None => None,
                },
                None => None,
            },
            None => None,
        },
        None => None,
    }
}

pub open spec fn spec_parse_people(s: Seq<char>, i: int, n: nat) -> Option<(Seq<PersonV>, int)>
    decreases n,
{
    if n == 0 {
        Some((Seq::empty(), i))
    } else {
        match spec_parse_person(s, i) {
            Some((p, j)) => match spec_parse_people(s, j, (n - 1) as nat) {
                Some((rest, k)) => Some((seq![p] + rest, k)),
                None => None,
            },
            None => None,
        }
    }
}

/// The whole people document: a count header, then exactly that many people.
pub open spec fn spec_parse_people_doc(s: Seq<char>) -> Option<Seq<PersonV>> {
    match spec_parse_u128_field(s, 0, "people"@) {
        Some((n, j)) => match spec_parse_people(s, j, n as nat) {
            Some((ps, k)) => if k == s.len() {
                Some(ps)
            } else {
                None
            },
            None => None,
        },
        None => None,
    }
}

// ---------------------------------------------------------------------------
// The parsers invert the serializers
// ---------------------------------------------------------------------------

/// The serialized form can carry a count only up to `u128`.
pub open spec fn effects_count_ok(s: Seq<EffectV>) -> bool {
    s.len() <= u128::MAX
}

pub open spec fn decision_counts_ok(d: DecisionV) -> bool {
    effects_count_ok(d.effects)
}

pub open spec fn choice_counts_ok(c: ChoiceV) -> bool {
    &&& c.decisions.len() <= u128::MAX
    &&& forall|i: int| 0 <= i < c.decisions.len() ==> decision_counts_ok(#[trigger] c.decisions[i])
}

pub open spec fn choices_counts_ok(s: Seq<ChoiceV>) -> bool {
    &&& s.len() <= u128::MAX
    &&& forall|i: int| 0 <= i < s.len() ==> choice_counts_ok(#[trigger] s[i])
}

pub open spec fn person_counts_ok(p: PersonV) -> bool {
    effects_count_ok(p.effects)
}

pub open spec fn people_counts_ok(s: Seq<PersonV>) -> bool {
    &&& s.len() <= u128::MAX
    &&& forall|i: int| 0 <= i < s.len() ==> person_counts_ok(#[trigger] s[i])
}

pub proof fn lemma_parse_u128_field_rt(s: Seq<char>, i: int, name: Seq<char>, v: u128)
    requires
        has_at(s, i, ser_u128_field(name, v)),
    ensures
        spec_parse_u128_field(s, i, name) == Some((v, i + ser_u128_field(name, v).len())),
{
    reveal_strlit(" ");
    reveal_strlit("\n");
    let pre = name + " "@;
    let rep = dec_rep(v as nat);
    lemma_has_at_concat(s, i, pre + rep, "\n"@);
    lemma_has_at_concat(s, i, pre, rep);
    lemma_has_at_index(s, i + pre.len() + rep.len(), "\n"@, 0);
    assert(s[i + pre.len() + rep.len()] == '\n');
    lemma_parse_dec_rep(s, i + pre.len(), v as nat);
}

pub proof fn lemma_parse_i32_field_rt(s: Seq<char>, i: int, name: Seq<char>, v: i32)
    requires
        has_at(s, i, ser_i32_field(name, v)),
    ensures
        spec_parse_i32_field(s, i, name) == Some((v, i + ser_i32_field(name, v).len())),
{
    reveal_strlit(" ");
    reveal_strlit("\n");
    let pre = name + " "@;
    let rep = i32_rep(v as int);
    lemma_has_at_concat(s, i, pre + rep, "\n"@);
    lemma_has_at_concat(s, i, pre, rep);
    lemma_has_at_index(s, i + pre.len() + rep.len(), "\n"@, 0);
    assert(s[i + pre.len() + rep.len()] == '\n');
    lemma_parse_i32_rep(s, i + pre.len(), v as int);
}

pub proof fn lemma_parse_str_field_rt(s: Seq<char>, i: int, name: Seq<char>, content: Seq<char>)
    requires
        has_at(s, i, ser_str_field(name, content)),
    ensures
        spec_parse_str_field(s, i, name) == Some(
            (content, i + ser_str_field(name, content).len()),
        ),
{
    reveal_strlit(" ");
    reveal_strlit("\n");
    let pre = name + " "@;
    let rep = dec_rep(content.len());
    lemma_has_at_concat(s, i, pre + rep + " "@ + content, "\n"@);
    lemma_has_at_concat(s, i, pre + rep + " "@, content);
    lemma_has_at_concat(s, i, pre + rep, " "@);
    lemma_has_at_concat(s, i, pre, rep);
    lemma_has_at_index(s, i + pre.len() + rep.len(), " "@, 0);
    assert(s[i + pre.len() + rep.len()] == ' ');
    lemma_parse_dec_rep(s, i + pre.len(), content.len());
    let m = i + pre.len() + rep.len() + 1;
    assert(s.subrange(m, m + content.len()) == content);
}

pub proof fn lemma_parse_property_field_rt(s: Seq<char>, i: int, p: Property)
    requires
        has_at(s, i, ser_property_field(p)),
    ensures
        spec_parse_property_field(s, i) == Some((p, i + ser_property_field(p).len())),
{
    reveal_strlit("property ");
    reveal_strlit("money");
    reveal_strlit("credit");
    reveal_strlit("\n");
    let tok = property_token(p);
    lemma_has_at_concat(s, i, "property "@ + tok, "\n"@);
    lemma_has_at_concat(s, i, "property "@, tok);
    let j = i + "property "@.len();
    match p {
        Property::Money => {
            assert(has_at(s, j, "money"@));
            assert(has_at(s, j + 5, "\n"@));
        },
        Property::Credit => {
            assert(has_at(s, j, "credit"@));
            assert(has_at(s, j + 6, "\n"@));
            lemma_has_at_index(s, j, "credit"@, 0);
            assert(s[j] == 'c');
            if has_at(s, j, "money"@) {
                lemma_has_at_index(s, j, "money"@, 0);
                assert(false);
            }
        },
    }
}

pub proof fn lemma_parse_effect_rt(s: Seq<char>, i: int, e: EffectV)
    requires
        has_at(s, i, ser_effect(e)),
    ensures
        spec_parse_effect(s, i) == Some((e, i + ser_effect(e).len())),
{
    reveal_strlit("effect\n");
    let a = ser_u128_field("id"@, e.id);
    let b = ser_property_field(e.property);
    let c = ser_str_field("value"@, e.value);
    let d = ser_i32_field("duration"@, e.duration);
    lemma_has_at_concat(s, i, "effect\n"@ + a + b + c, d);
    lemma_has_at_concat(s, i, "effect\n"@ + a + b, c);
    lemma_has_at_concat(s, i, "effect\n"@ + a, b);
    lemma_has_at_concat(s, i, "effect\n"@, a);
    let j0 = i + "effect\n"@.len();
    lemma_parse_u128_field_rt(s, j0, "id"@, e.id);
    lemma_parse_property_field_rt(s, j0 + a.len(), e.property);
    lemma_parse_str_field_rt(s, j0 + a.len() + b.len(), "value"@, e.value);
    lemma_parse_i32_field_rt(s, j0 + a.len() + b.len() + c.len(), "duration"@, e.duration);
    assert(spec_parse_effect(s, i)->Some_0.0 =~= e);
}

pub proof fn lemma_parse_effects_rt(s: Seq<char>, i: int, l: Seq<EffectV>)
    requires
        has_at(s, i, ser_effects(l)),
    ensures
        spec_parse_effects(s, i, l.len()) == Some((l, i + ser_effects(l).len())),
    decreases l.len(),
{
    if l.len() == 0 {
        assert(l =~= Seq::<EffectV>::empty());
    } else {
        lemma_has_at_concat(s, i, ser_effect(l[0]), ser_effects(l.drop_first()));
        lemma_parse_effect_rt(s, i, l[0]);
        lemma_parse_effects_rt(s, i + ser_effect(l[0]).len(), l.drop_first());
        assert(seq![l[0]] + l.drop_first() =~= l);
    }
}

pub proof fn lemma_parse_decision_rt(s: Seq<char>, i: int, d: DecisionV)
    requires
        has_at(s, i, ser_decision(d)),
        decision_counts_ok(d),
    ensures
        spec_parse_decision(s, i) == Some((d, i + ser_decision(d).len())),
{
    reveal_strlit("decision\n");
    let a = ser_u128_field("id"@, d.id);
    let b = ser_str_field("description"@, d.description);
    let c = ser_u128_field("effects"@, d.effects.len() as u128);
    let e = ser_effects(d.effects);
    lemma_has_at_concat(s, i, "decision\n"@ + a + b + c, e);
    lemma_has_at_concat(s, i, "decision\n"@ + a + b, c);
    lemma_has_at_concat(s, i, "decision\n"@ + a, b);
    lemma_has_at_concat(s, i, "decision\n"@, a);
    let j0 = i + "decision\n"@.len();
    lemma_parse_u128_field_rt(s, j0, "id"@, d.id);
    lemma_parse_str_field_rt(s, j0 + a.len(), "description"@, d.description);
    lemma_parse_u128_field_rt(s, j0 + a.len() + b.len(), "effects"@, d.effects.len() as u128);
    lemma_parse_effects_rt(s, j0 + a.len() + b.len() + c.len(), d.effects);
    assert((d.effects.len() as u128) as nat == d.effects.len());
    assert(spec_parse_decision(s, i)->Some_0.0 =~= d);
}

pub proof fn lemma_parse_decisions_rt(s: Seq<char>, i: int, l: Seq<DecisionV>)
    requires
        has_at(s, i, ser_decisions(l)),
        forall|k: int| 0 <= k < l.len() ==> decision_counts_ok(#[trigger] l[k]),
    ensures
        spec_parse_decisions(s, i, l.len()) == Some((l, i + ser_decisions(l).len())),
    decreases l.len(),
{
    if l.len() == 0 {
        assert(l =~= Seq::<DecisionV>::empty());
    } else {
        lemma_has_at_concat(s, i, ser_decision(l[0]), ser_decisions(l.drop_first()));
        lemma_parse_decision_rt(s, i, l[0]);
        lemma_parse_decisions_rt(s, i + ser_decision(l[0]).len(), l.drop_first());
        assert(seq![l[0]] + l.drop_first() =~= l);
    }
}

pub proof fn lemma_parse_choice_rt(s: Seq<char>, i: int, c: ChoiceV)
    requires
        has_at(s, i, ser_choice(c)),
        choice_counts_ok(c),
    ensures
        spec_parse_choice(s, i) == Some((c, i + ser_choice(c).len())),
{
    reveal_strlit("choice\n");
    let a = ser_u128_field("id"@, c.id);
    let b = ser_str_field("name"@, c.name);
    let d = ser_i32_field("min_age"@, c.min_age);
    let e = ser_i32_field("max_age"@, c.max_age);
    let f = ser_u128_field("decisions"@, c.decisions.len() as u128);
    let g = ser_decisions(c.decisions);
    lemma_has_at_concat(s, i, "choice\n"@ + a + b + d + e + f, g);
    lemma_has_at_concat(s, i, "choice\n"@ + a + b + d + e, f);
    lemma_has_at_concat(s, i, "choice\n"@ + a + b + d, e);
    lemma_has_at_concat(s, i, "choice\n"@ + a + b, d);
    lemma_has_at_concat(s, i, "choice\n"@ + a, b);
    lemma_has_at_concat(s, i, "choice\n"@, a);
    let j0 = i + "choice\n"@.len();
    lemma_parse_u128_field_rt(s, j0, "id"@, c.id);
    lemma_parse_str_field_rt(s, j0 + a.len(), "name"@, c.name);
    lemma_parse_i32_field_rt(s, j0 + a.len() + b.len(), "min_age"@, c.min_age);
    lemma_parse_i32_field_rt(s, j0 + a.len() + b.len() + d.len(), "max_age"@, c.max_age);
    lemma_parse_u128_field_rt(
        s,
        j0 + a.len() + b.len() + d.len() + e.len(),
        "decisions"@,
        c.decisions.len() as u128,
    );
    lemma_parse_decisions_rt(
        s,
        j0 + a.len() + b.len() + d.len() + e.len() + f.len(),
        c.decisions,
    );
    assert((c.decisions.len() as u128) as nat == c.decisions.len());
    assert(spec_parse_choice(s, i)->Some_0.0 =~= c);
}

#[verifier::rlimit(80)]
pub proof fn lemma_parse_choices_rt(s: Seq<char>, i: int, l: Seq<ChoiceV>)
    requires
        has_at(s, i, ser_choices(l)),
        forall|k: int| 0 <= k < l.len() ==> choice_counts_ok(#[trigger] l[k]),
    ensures
        spec_parse_choices(s, i, l.len()) == Some((l, i + ser_choices(l).len())),
    decreases l.len(),
{
    if l.len() == 0 {
        assert(l =~= Seq::<ChoiceV>::empty());
    } else {
        lemma_has_at_concat(s, i, ser_choice(l[0]), ser_choices(l.drop_first()));
        lemma_parse_choice_rt(s, i, l[0]);
        lemma_parse_choices_rt(s, i + ser_choice(l[0]).len(), l.drop_first());
        assert(seq![l[0]] + l.drop_first() =~= l);
    }
}

/// Serializing a choice sequence to the file form and parsing it back yields
/// the same sequence, in every field, nested decisions and effects included.
pub proof fn lemma_choices_doc_round_trip(l: Seq<ChoiceV>)
    requires
        choices_counts_ok(l),
    ensures
        spec_parse_choices_doc(ser_choices_doc(l)) == Some(l),
{
    let s = ser_choices_doc(l);
    let hd = ser_u128_field("choices"@, l.len() as u128);
    assert(s.subrange(0, s.len() as int) =~= s);
    lemma_has_at_concat(s, 0, hd, ser_choices(l));
    lemma_parse_u128_field_rt(s, 0, "choices"@, l.len() as u128);
    lemma_parse_choices_rt(s, hd.len() as int, l);
    assert((l.len() as u128) as nat == l.len());
}

pub proof fn lemma_parse_person_rt(s: Seq<char>, i: int, p: PersonV)
    requires
        has_at(s, i, ser_person(p)),
        person_counts_ok(p),
    ensures
        spec_parse_person(s, i) == Some((p, i + ser_person(p).len())),
{
    reveal_strlit("person\n");
    let a = ser_u128_field("id"@, p.id);
    let b = ser_str_field("first_name"@, p.first_name);
    let c = ser_str_field("last_name"@, p.last_name);
    let d = ser_i32_field("age"@, p.age);
    let e = ser_i32_field("money"@, p.money);
    let f = ser_i32_field("credit"@, p.credit);
    let g = ser_u128_field("effects"@, p.effects.len() as u128);
    let h = ser_effects(p.effects);
    lemma_has_at_concat(s, i, "person\n"@ + a + b + c + d + e + f + g, h);
    lemma_has_at_concat(s, i, "person\n"@ + a + b + c + d + e + f, g);
    lemma_has_at_concat(s, i, "person\n"@ + a + b + c + d + e, f);
    lemma_has_at_concat(s, i, "person\n"@ + a + b + c + d, e);
    lemma_has_at_concat(s, i, "person\n"@ + a + b + c, d);
    lemma_has_at_concat(s, i, "person\n"@ + a + b, c);
    lemma_has_at_concat(s, i, "person\n"@ + a, b);
    lemma_has_at_concat(s, i, "person\n"@, a);
    let j0 = i + "person\n"@.len();
    lemma_parse_u128_field_rt(s, j0, "id"@, p.id);
    lemma_parse_str_field_rt(s, j0 + a.len(), "first_name"@, p.first_name);
    lemma_parse_str_field_rt(s, j0 + a.len() + b.len(), "last_name"@, p.last_name);
    lemma_parse_i32_field_rt(s, j0 + a.len() + b.len() + c.len(), "age"@, p.age);
    lemma_parse_i32_field_rt(s, j0 + a.len() + b.len() + c.len() + d.len(), "money"@, p.money);
    lemma_parse_i32_field_rt(
        s,
        j0 + a.len() + b.len() + c.len() + d.len() + e.len(),
        "credit"@,
        p.credit,
    );
    lemma_parse_u128_field_rt(
        s,
        j0 + a.len() + b.len() + c.len() + d.len() + e.len() + f.len(),
        "effects"@,
        p.effects.len() as u128,
    );
    lemma_parse_effects_rt(
        s,
        j0 + a.len() + b.len() + c.len() + d.len() + e.len() + f.len() + g.len(),
        p.effects,
    );
    assert((p.effects.len() as u128) as nat == p.effects.len());
    assert(spec_parse_person(s, i)->Some_0.0 =~= p);
}

#[verifier::rlimit(60)]
pub proof fn lemma_parse_people_rt(s: Seq<char>, i: int, l: Seq<PersonV>)
    requires
        has_at(s, i, ser_people(l)),
        forall|k: int| 0 <= k < l.len() ==> person_counts_ok(#[trigger] l[k]),
    ensures
        spec_parse_people(s, i, l.len()) == Some((l, i + ser_people(l).len())),
    decreases l.len(),
{
    if l.len() == 0 {
        assert(l =~= Seq::<PersonV>::empty());
    } else {
        lemma_has_at_concat(s, i, ser_person(l[0]), ser_people(l.drop_first()));
        lemma_parse_person_rt(s, i, l[0]);
        lemma_parse_people_rt(s, i + ser_person(l[0]).len(), l.drop_first());
        assert(seq![l[0]] + l.drop_first() =~= l);
    }
}

// ---------------------------------------------------------------------------
// Executable serializer
// ---------------------------------------------------------------------------

fn write_u128_field(out: &mut String, name: &str, v: u128)
    ensures
        final(out)@ == old(out)@ + ser_u128_field(name@, v),
{
    out.append(name);
    out.append(" ");
    let rep = fmt_u128(v);
    out.append(rep.as_str());
    out.append("\n");
    proof {
        assert(out@ =~= old(out)@ + ser_u128_field(name@, v));
    }
}

fn write_i32_field(out: &mut String, name: &str, v: i32)
    ensures
        final(out)@ == old(out)@ + ser_i32_field(name@, v),
{
    out.append(name);
    out.append(" ");
    let rep = fmt_i32(v);
    out.append(rep.as_str());
    out.append("\n");
    proof {
        assert(out@ =~= old(out)@ + ser_i32_field(name@, v));
    }
}

fn write_str_field(out: &mut String, name: &str, s: &str)
    ensures
        final(out)@ == old(out)@ + ser_str_field(name@, s@),
{
    out.append(name);
    out.append(" ");
    let rep = fmt_u128(s.unicode_len() as u128);
    out.append(rep.as_str());
    out.append(" ");
    out.append(s);
    out.append("\n");
    proof {
        assert((s@.len() as u128) as nat == s@.len());
        assert(out@ =~= old(out)@ + ser_str_field(name@, s@));
    }
}

fn write_property_field(out: &mut String, p: Property)
    ensures
        final(out)@ == old(out)@ + ser_property_field(p),
{
    out.append("property ");
    let tok = p.to_token();
    out.append(tok.as_str());
    out.append("\n");
    proof {
        assert(out@ =~= old(out)@ + ser_property_field(p));
    }
}

fn write_effect(out: &mut String, e: &Effect)
    ensures
        final(out)@ == old(out)@ + ser_effect(e@),
{
    out.append("effect\n");
    write_u128_field(out, "id", e.id);
    write_property_field(out, e.property);
    write_str_field(out, "value", e.value.as_str());
    write_i32_field(out, "duration", e.duration);
    proof {
        assert(out@ =~= old(out)@ + ser_effect(e@));
    }
}

pub proof fn lemma_ser_effects_take_step(l: Seq<EffectV>, i: int)
    requires
        0 <= i < l.len(),
    ensures
        ser_effects(l.take(i + 1)) == ser_effects(l.take(i)) + ser_effect(l[i]),
    decreases i,
{
    if i == 0 {
        assert(l.take(1)[0] == l[0]);
        assert(l.take(1).drop_first() =~= Seq::<EffectV>::empty());
        assert(l.take(0) =~= Seq::<EffectV>::empty());
        assert(ser_effect(l[0]) + Seq::<char>::empty() =~= ser_effect(l[0]));
        assert(Seq::<char>::empty() + ser_effect(l[0]) =~= ser_effect(l[0]));
    } else {
        let d = l.drop_first();
        assert(l.take(i + 1).drop_first() =~= d.take(i));
        assert(l.take(i).drop_first() =~= d.take(i - 1));
        assert(l.take(i + 1)[0] == l[0]);
        assert(l.take(i)[0] == l[0]);
        lemma_ser_effects_take_step(d, i - 1);
        assert(d[i - 1] == l[i]);
        assert(ser_effect(l[0]) + (ser_effects(d.take(i - 1)) + ser_effect(l[i])) =~= (ser_effect(
            l[0],
        ) + ser_effects(d.take(i - 1))) + ser_effect(l[i]));
    }
}

fn write_effects(out: &mut String, effects: &Vec<Effect>)
    ensures
        final(out)@ == old(out)@ + ser_u128_field("effects"@, effects@.len() as u128)
            + ser_effects(effects.deep_view()),
{
    write_u128_field(out, "effects", effects.len() as u128);
    let ghost base = out@;
    let mut i: usize = 0;
    while i < effects.len()
        invariant
            i <= effects@.len(),
            base == old(out)@ + ser_u128_field("effects"@, effects@.len() as u128),
            out@ == base + ser_effects(effects.deep_view().take(i as int)),
        decreases effects@.len() - i,
    {
        proof {
            assert(ser_effects(effects.deep_view().take(0)) =~= Seq::<char>::empty());
        }
        write_effect(out, &effects[i]);
        proof {
            lemma_ser_effects_take_step(effects.deep_view(), i as int);
            assert(effects.deep_view()[i as int] == effects[i as int]@);
            assert((base + ser_effects(effects.deep_view().take(i as int))) + ser_effect(
                effects[i as int]@,
            ) =~= base + ser_effects(effects.deep_view().take(i as int + 1)));
        }
        i = i + 1;
    }
    proof {
        assert(effects.deep_view().take(effects@.len() as int) =~= effects.deep_view());
        assert(ser_effects(effects.deep_view().take(0)) =~= Seq::<char>::empty());
        assert(base + Seq::<char>::empty() =~= base);
    }
}

fn write_decision(out: &mut String, d: &Decision)
    ensures
        final(out)@ == old(out)@ + ser_decision(d@),
{
    out.append("decision\n");
    write_u128_field(out, "id", d.id);
    write_str_field(out, "description", d.description.as_str());
    write_effects(out, &d.effects);
    proof {
        assert(out@ =~= old(out)@ + ser_decision(d@));
    }
}

pub proof fn lemma_ser_decisions_take_step(l: Seq<DecisionV>, i: int)
    requires
        0 <= i < l.len(),
    ensures
        ser_decisions(l.take(i + 1)) == ser_decisions(l.take(i)) + ser_decision(l[i]),
    decreases i,
{
    if i == 0 {
        assert(l.take(1)[0] == l[0]);
        assert(l.take(1).drop_first() =~= Seq::<DecisionV>::empty());
        assert(l.take(0) =~= Seq::<DecisionV>::empty());
        assert(ser_decision(l[0]) + Seq::<char>::empty() =~= ser_decision(l[0]));
        assert(Seq::<char>::empty() + ser_decision(l[0]) =~= ser_decision(l[0]));
    } else {
        let d = l.drop_first();
        assert(l.take(i + 1).drop_first() =~= d.take(i));
        assert(l.take(i).drop_first() =~= d.take(i - 1));
        assert(l.take(i + 1)[0] == l[0]);
        assert(l.take(i)[0] == l[0]);
        lemma_ser_decisions_take_step(d, i - 1);
        assert(d[i - 1] == l[i]);
        assert(ser_decision(l[0]) + (ser_decisions(d.take(i - 1)) + ser_decision(l[i]))
            =~= (ser_decision(l[0]) + ser_decisions(d.take(i - 1))) + ser_decision(l[i]));
    }
}

fn write_choice(out: &mut String, c: &Choice)
    ensures
        final(out)@ == old(out)@ + ser_choice(c@),
{
    out.append("choice\n");
    write_u128_field(out, "id", c.id);
    write_str_field(out, "name", c.name.as_str());
    write_i32_field(out, "min_age", c.min_age);
    write_i32_field(out, "max_age", c.max_age);
    write_u128_field(out, "decisions", c.decisions.len() as u128);
    let ghost base = out@;
    let mut i: usize = 0;
    while i < c.decisions.len()
        invariant
            i <= c.decisions@.len(),
            out@ == base + ser_decisions(c.decisions.deep_view().take(i as int)),
            base + ser_decisions(c.decisions.deep_view()) =~= old(out)@ + ser_choice(c@),
        decreases c.decisions@.len() - i,
    {
        proof {
            assert(ser_decisions(c.decisions.deep_view().take(0)) =~= Seq::<char>::empty());
        }
        write_decision(out, &c.decisions[i]);
        proof {
            lemma_ser_decisions_take_step(c.decisions.deep_view(), i as int);
            assert(c.decisions.deep_view()[i as int] == c.decisions[i as int]@);
            assert((base + ser_decisions(c.decisions.deep_view().take(i as int))) + ser_decision(
                c.decisions[i as int]@,
            ) =~= base + ser_decisions(c.decisions.deep_view().take(i as int + 1)));
        }
        i = i + 1;
    }
    proof {
        assert(c.decisions.deep_view().take(c.decisions@.len() as int) =~= c.decisions.deep_view());
        assert(ser_decisions(c.decisions.deep_view().take(0)) =~= Seq::<char>::empty());
        assert(base + Seq::<char>::empty() =~= base);
    }
}

#[verifier::rlimit(80)]
pub proof fn lemma_ser_choices_take_step(l: Seq<ChoiceV>, i: int)
    requires
        0 <= i < l.len(),
    ensures
        ser_choices(l.take(i + 1)) == ser_choices(l.take(i)) + ser_choice(l[i]),
    decreases i,
{
    if i == 0 {
        assert(l.take(1)[0] == l[0]);
        assert(l.take(1).drop_first() =~= Seq::<ChoiceV>::empty());
        assert(l.take(0) =~= Seq::<ChoiceV>::empty());
        assert(ser_choice(l[0]) + Seq::<char>::empty() =~= ser_choice(l[0]));
        assert(Seq::<char>::empty() + ser_choice(l[0]) =~= ser_choice(l[0]));
    } else {
        let d = l.drop_first();
        assert(l.take(i + 1).drop_first() =~= d.take(i));
        assert(l.take(i).drop_first() =~= d.take(i - 1));
        assert(l.take(i + 1)[0] == l[0]);
        assert(l.take(i)[0] == l[0]);
        lemma_ser_choices_take_step(d, i - 1);
        assert(d[i - 1] == l[i]);
        assert(ser_choice(l[0]) + (ser_choices(d.take(i - 1)) + ser_choice(l[i])) =~= (ser_choice(
            l[0],
        ) + ser_choices(d.take(i - 1))) + ser_choice(l[i]));
    }
}

/// Serializes a choice sequence to the file document form.
pub fn choices_to_doc(choices: &Vec<Choice>) -> (r: String)
    ensures
        r@ == ser_choices_doc(choices.deep_view()),
{
    let mut out = String::new();
    write_u128_field(&mut out, "choices", choices.len() as u128);
    let ghost base = out@;
    let mut i: usize = 0;
    while i < choices.len()
        invariant
            i <= choices@.len(),
            base == ser_u128_field("choices"@, choices@.len() as u128),
            out@ == base + ser_choices(choices.deep_view().take(i as int)),
        decreases choices@.len() - i,
    {
        proof {
            assert(ser_choices(choices.deep_view().take(0)) =~= Seq::<char>::empty());
        }
        write_choice(&mut out, &choices[i]);
        proof {
            lemma_ser_choices_take_step(choices.deep_view(), i as int);
            assert(choices.deep_view()[i as int] == choices[i as int]@);
            assert((base + ser_choices(choices.deep_view().take(i as int))) + ser_choice(
                choices[i as int]@,
            ) =~= base + ser_choices(choices.deep_view().take(i as int + 1)));
        }
        i = i + 1;
    }
    proof {
        assert(choices.deep_view().take(choices@.len() as int) =~= choices.deep_view());
        assert(ser_choices(choices.deep_view().take(0)) =~= Seq::<char>::empty());
        assert(base + Seq::<char>::empty() =~= base);
    }
    out
}

fn write_person(out: &mut String, p: &Person)
    ensures
        final(out)@ == old(out)@ + ser_person(p@),
{
    out.append("person\n");
    write_u128_field(out, "id", p.id);
    write_str_field(out, "first_name", p.first_name.as_str());
    write_str_field(out, "last_name", p.last_name.as_str());
    write_i32_field(out, "age", p.age);
    write_i32_field(out, "money", p.money);
    write_i32_field(out, "credit", p.credit);
    write_effects(out, &p.effects);
    proof {
        assert(out@ =~= old(out)@ + ser_person(p@));
    }
}

#[verifier::rlimit(80)]
pub proof fn lemma_ser_people_take_step(l: Seq<PersonV>, i: int)
    requires
        0 <= i < l.len(),
    ensures
        ser_people(l.take(i + 1)) == ser_people(l.take(i)) + ser_person(l[i]),
    decreases i,
{
    if i == 0 {
        assert(l.take(1)[0] == l[0]);
        assert(l.take(1).drop_first() =~= Seq::<PersonV>::empty());
        assert(l.take(0) =~= Seq::<PersonV>::empty());
        assert(ser_person(l[0]) + Seq::<char>::empty() =~= ser_person(l[0]));
        assert(Seq::<char>::empty() + ser_person(l[0]) =~= ser_person(l[0]));
    } else {
        let d = l.drop_first();
        assert(l.take(i + 1).drop_first() =~= d.take(i));
        assert(l.take(i).drop_first() =~= d.take(i - 1));
        assert(l.take(i + 1)[0] == l[0]);
        assert(l.take(i)[0] == l[0]);
        lemma_ser_people_take_step(d, i - 1);
        assert(d[i - 1] == l[i]);
        assert(ser_person(l[0]) + (ser_people(d.take(i - 1)) + ser_person(l[i])) =~= (ser_person(
            l[0],
        ) + ser_people(d.take(i - 1))) + ser_person(l[i]));
    }
}

/// Serializes a person sequence to the file document form.
pub fn people_to_doc(people: &Vec<Person>) -> (r: String)
    ensures
        r@ == ser_people_doc(people.deep_view()),
{
    let mut out = String::new();
    write_u128_field(&mut out, "people", people.len() as u128);
    let ghost base = out@;
    let mut i: usize = 0;
    while i < people.len()
        invariant
            i <= people@.len(),
            base == ser_u128_field("people"@, people@.len() as u128),
            out@ == base + ser_people(people.deep_view().take(i as int)),
        decreases people@.len() - i,
    {
        proof {
            assert(ser_people(people.deep_view().take(0)) =~= Seq::<char>::empty());
        }
        write_person(&mut out, &people[i]);
        proof {
            lemma_ser_people_take_step(people.deep_view(), i as int);
            assert(people.deep_view()[i as int] == people[i as int]@);
            assert((base + ser_people(people.deep_view().take(i as int))) + ser_person(
                people[i as int]@,
            ) =~= base + ser_people(people.deep_view().take(i as int + 1)));
        }
        i = i + 1;
    }
    proof {
        assert(people.deep_view().take(people@.len() as int) =~= people.deep_view());
        assert(ser_people(people.deep_view().take(0)) =~= Seq::<char>::empty());
        assert(base + Seq::<char>::empty() =~= base);
    }
    out
}

/// Serializing a person sequence to the file form and parsing it back yields
/// the same sequence, nested effects included.
pub proof fn lemma_people_doc_round_trip(l: Seq<PersonV>)
    requires
        people_counts_ok(l),
    ensures
        spec_parse_people_doc(ser_people_doc(l)) == Some(l),
{
    let s = ser_people_doc(l);
    let hd = ser_u128_field("people"@, l.len() as u128);
    assert(s.subrange(0, s.len() as int) =~= s);
    lemma_has_at_concat(s, 0, hd, ser_people(l));
    lemma_parse_u128_field_rt(s, 0, "people"@, l.len() as u128);
    lemma_parse_people_rt(s, hd.len() as int, l);
    assert((l.len() as u128) as nat == l.len());
}

// ---------------------------------------------------------------------------
// Executable parser
// ---------------------------------------------------------------------------

fn parse_lit_at(s: &str, i: usize, lit: &str) -> (r: Option<usize>)
    ensures
        match spec_parse_lit(s@, i as int, lit@) {
            Some(j) => r is Some && r->Some_0 as int == j,
            None => r is None,
        },
{
    let slen = s.unicode_len();
    let llen = lit.unicode_len();
    if llen > slen || i > slen - llen {
        return None;
    }
    let mut k: usize = 0;
    while k < llen
        invariant
            k <= llen,
            i + llen <= slen,
            slen == s@.len(),
            llen == lit@.len(),
            forall|m: int| 0 <= m < k ==> s@[i + m] == lit@[m],
        decreases llen - k,
    {
        if s.get_char(i + k) != lit.get_char(k) {
            proof {
                if has_at(s@, i as int, lit@) {
                    lemma_has_at_index(s@, i as int, lit@, k as int);
                }
            }
            return None;
        }
        k = k + 1;
    }
    proof {
        assert(s@.subrange(i as int, i as int + lit@.len()) =~= lit@);
    }
    Some(i + llen)
}

fn parse_u128_field(s: &str, i: usize, name: &str) -> (r: Option<(u128, usize)>)
    ensures
        match spec_parse_u128_field(s@, i as int, name@) {
            Some(vj) => r is Some && r->Some_0.0 == vj.0 && r->Some_0.1 as int == vj.1,
            None => r is None,
        },
{
    proof {
        reveal_strlit(" ");
        lemma_has_at_concat(s@, i as int, name@, " "@);
    }
    let j0 = match parse_lit_at(s, i, name) {
        Some(j) => j,
        None => {
            return None;
        },
    };
    let j = match parse_lit_at(s, j0, " ") {
        Some(j) => j,
        None => {
            return None;
        },
    };
    let (v, k) = match parse_dec(s, j) {
        Some(p) => p,
        None => {
            return None;
        },
    };
    let m = match parse_lit_at(s, k, "\n") {
        Some(m) => m,
        None => {
            return None;
        },
    };
    Some((v, m))
}

fn parse_i32_field(s: &str, i: usize, name: &str) -> (r: Option<(i32, usize)>)
    ensures
        match spec_parse_i32_field(s@, i as int, name@) {
            Some(vj) => r is Some && r->Some_0.0 == vj.0 && r->Some_0.1 as int == vj.1,
            None => r is None,
        },
{
    proof {
        reveal_strlit(" ");
        lemma_has_at_concat(s@, i as int, name@, " "@);
    }
    let j0 = match parse_lit_at(s, i, name) {
        Some(j) => j,
        None => {
            return None;
        },
    };
    let j = match parse_lit_at(s, j0, " ") {
        Some(j) => j,
        None => {
            return None;
        },
    };
    let (v, k) = match parse_i32(s, j) {
        Some(p) => p,
        None => {
            return None;
        },
    };
    let m = match parse_lit_at(s, k, "\n") {
        Some(m) => m,
        None => {
            return None;
        },
    };
    Some((v, m))
}

fn parse_str_field(s: &str, i: usize, name: &str) -> (r: Option<(String, usize)>)
    ensures
        match spec_parse_str_field(s@, i as int, name@) {
            Some(vj) => r is Some && r->Some_0.0@ == vj.0 && r->Some_0.1 as int == vj.1,
            None => r is None,
        },
{
    proof {
        reveal_strlit(" ");
        lemma_has_at_concat(s@, i as int, name@, " "@);
    }
    let slen = s.unicode_len();
    let j0 = match parse_lit_at(s, i, name) {
        Some(j) => j,
        None => {
            return None;
        },
    };
    let j = match parse_lit_at(s, j0, " ") {
        Some(j) => j,
        None => {
            return None;
        },
    };
    let (len, k) = match parse_dec(s, j) {
        Some(p) => p,
        None => {
            return None;
        },
    };
    let m = match parse_lit_at(s, k, " ") {
        Some(m) => m,
        None => {
            return None;
        },
    };
    if len > (slen - m) as u128 {
        return None;
    }
    let len_us = len as usize;
    let content = s.substring_char(m, m + len_us);
    let e = match parse_lit_at(s, m + len_us, "\n") {
        Some(e) => e,
        None => {
            return None;
        },
    };
    Some((content.to_owned(), e))
}

fn parse_property_field(s: &str, i: usize) -> (r: Option<(Property, usize)>)
    ensures
        match spec_parse_property_field(s@, i as int) {
            Some(vj) => r is Some && r->Some_0.0 == vj.0 && r->Some_0.1 as int == vj.1,
            None => r is None,
        },
{
    proof {
        reveal_strlit("money");
        reveal_strlit("credit");
        reveal_strlit("\n");
    }
    let j = match parse_lit_at(s, i, "property ") {
        Some(j) => j,
        None => {
            return None;
        },
    };
    match parse_lit_at(s, j, "money") {
        Some(j2) => {
            match parse_lit_at(s, j2, "\n") {
                Some(m) => Some((Property::Money, m)),
                None => {
                    proof {
                        if has_at(s@, j as int, "credit"@) {
                            lemma_has_at_index(s@, j as int, "credit"@, 0);
                            lemma_has_at_index(s@, j as int, "money"@, 0);
                        }
                    }
                    None
                },
            }
        },
        None => {
            match parse_lit_at(s, j, "credit") {
                Some(j2) => {
                    match parse_lit_at(s, j2, "\n") {
                        Some(m) => Some((Property::Credit, m)),
                        None => None,
                    }
                },
                None => None,
            }
        },
    }
}

fn parse_effect_at(s: &str, i: usize) -> (r: Option<(Effect, usize)>)
    ensures
        match spec_parse_effect(s@, i as int) {
            Some(ej) => r is Some && r->Some_0.0@ == ej.0 && r->Some_0.1 as int == ej.1,
            None => r is None,
        },
{
    let j0 = match parse_lit_at(s, i, "effect\n") {
        Some(j) => j,
        None => {
            return None;
        },
    };
    let (id, j1) = match parse_u128_field(s, j0, "id") {
        Some(p) => p,
        None => {
            return None;
        },
    };
    let (property, j2) = match parse_property_field(s, j1) {
        Some(p) => p,
        None => {
            return None;
        },
    };
    let (value, j3) = match parse_str_field(s, j2, "value") {
        Some(p) => p,
        None => {
            return None;
        },
    };
    let (duration, j4) = match parse_i32_field(s, j3, "duration") {
        Some(p) => p,
        None => {
            return None;
        },
    };
    let e = Effect { id, property, value, duration };
    proof {
        assert(e@ =~= spec_parse_effect(s@, i as int)->Some_0.0);
    }
    Some((e, j4))
}

fn parse_effects_at(s: &str, i: usize, n: u128) -> (r: Option<(Vec<Effect>, usize)>)
    ensures
        match spec_parse_effects(s@, i as int, n as nat) {
            Some(lj) => r is Some && r->Some_0.0.deep_view() == lj.0 && r->Some_0.1 as int == lj.1,
            None => r is None,
        },
{
    let mut acc: Vec<Effect> = Vec::new();
    let mut j = i;
    let mut k: u128 = 0;
    proof {
        assert(acc.deep_view() =~= Seq::<EffectV>::empty());
    }
    while k < n
        invariant
            k <= n,
            match spec_parse_effects(s@, j as int, (n - k) as nat) {
                Some(rest) => spec_parse_effects(s@, i as int, n as nat) == Some(
                    (acc.deep_view() + rest.0, rest.1),
                ),
                None => spec_parse_effects(s@, i as int, n as nat) is None,
            },
        decreases n - k,
    {
        let ghost prev_raw = acc@;
        let ghost prev_deep = acc.deep_view();
        let (e, j2) = match parse_effect_at(s, j) {
            Some(p) => p,
            None => {
                return None;
            },
        };
        let ghost ev = e@;
        acc.push(e);
        proof {
            assert(acc@ == prev_raw.push(acc@[prev_raw.len() as int]));
            assert(acc.deep_view() =~= prev_deep.push(ev)) by {
                assert forall|m: int| 0 <= m < acc@.len() implies acc.deep_view()[m]
                    == prev_deep.push(ev)[m] by {
                    if m < prev_raw.len() {
                        assert(acc@[m] == prev_raw[m]);
                        assert(prev_deep[m] == prev_raw[m].deep_view());
                    }
                }
            }
            assert(prev_deep.push(ev) =~= prev_deep + seq![ev]);
            assert((prev_deep + seq![ev]) + spec_parse_effects(
                s@,
                j2 as int,
                (n - k - 1) as nat,
            )->Some_0.0 =~= prev_deep + (seq![ev] + spec_parse_effects(
                s@,
                j2 as int,
                (n - k - 1) as nat,
            )->Some_0.0)) by {
                if spec_parse_effects(s@, j2 as int, (n - k - 1) as nat) is Some {
                }
            }
        }
        j = j2;
        k = k + 1;
    }
    proof {
        assert(acc.deep_view() + Seq::<EffectV>::empty() =~= acc.deep_view());
    }
    Some((acc, j))
}

fn parse_decision_at(s: &str, i: usize) -> (r: Option<(Decision, usize)>)
    ensures
        match spec_parse_decision(s@, i as int) {
            Some(dj) => r is Some && r->Some_0.0@ == dj.0 && r->Some_0.1 as int == dj.1,
            None => r is None,
        },
{
    let j0 = match parse_lit_at(s, i, "decision\n") {
        Some(j) => j,
        None => {
            return None;
        },
    };
    let (id, j1) = match parse_u128_field(s, j0, "id") {
        Some(p) => p,
        None => {
            return None;
        },
    };
    let (description, j2) = match parse_str_field(s, j1, "description") {
        Some(p) => p,
        None => {
            return None;
        },
    };
    let (n, j3) = match parse_u128_field(s, j2, "effects") {
        Some(p) => p,
        None => {
            return None;
        },
    };
    let (effects, j4) = match parse_effects_at(s, j3, n) {
        Some(p) => p,
        None => {
            return None;
        },
    };
    let d = Decision { id, description, effects };
    proof {
        assert(d@ =~= spec_parse_decision(s@, i as int)->Some_0.0);
    }
    Some((d, j4))
}

fn parse_decisions_at(s: &str, i: usize, n: u128) -> (r: Option<(Vec<Decision>, usize)>)
    ensures
        match spec_parse_decisions(s@, i as int, n as nat) {
            Some(lj) => r is Some && r->Some_0.0.deep_view() == lj.0 && r->Some_0.1 as int == lj.1,
            None => r is None,
        },
{
    let mut acc: Vec<Decision> = Vec::new();
    let mut j = i;
    let mut k: u128 = 0;
    proof {
        assert(acc.deep_view() =~= Seq::<DecisionV>::empty());
    }
    while k < n
        invariant
            k <= n,
            match spec_parse_decisions(s@, j as int, (n - k) as nat) {
                Some(rest) => spec_parse_decisions(s@, i as int, n as nat) == Some(
                    (acc.deep_view() + rest.0, rest.1),
                ),
                None => spec_parse_decisions(s@, i as int, n as nat) is None,
            },
        decreases n - k,
    {
        let ghost prev_raw = acc@;
        let ghost prev_deep = acc.deep_view();
        let (d, j2) = match parse_decision_at(s, j) {
            Some(p) => p,
            None => {
                return None;
            },
        };
        let ghost dv = d@;
        acc.push(d);
        proof {
            assert(acc@ == prev_raw.push(acc@[prev_raw.len() as int]));
            assert(acc.deep_view() =~= prev_deep.push(dv)) by {
                assert forall|m: int| 0 <= m < acc@.len() implies acc.deep_view()[m]
                    == prev_deep.push(dv)[m] by {
                    if m < prev_raw.len() {
                        assert(acc@[m] == prev_raw[m]);
                        assert(prev_deep[m] == prev_raw[m].deep_view());
                    }
                }
            }
            assert(prev_deep.push(dv) =~= prev_deep + seq![dv]);
            if spec_parse_decisions(s@, j2 as int, (n - k - 1) as nat) is Some {
                let rest0 = spec_parse_decisions(s@, j2 as int, (n - k - 1) as nat)->Some_0.0;
                assert((prev_deep + seq![dv]) + rest0 =~= prev_deep + (seq![dv] + rest0));
            }
        }
        j = j2;
        k = k + 1;
    }
    proof {
        assert(acc.deep_view() + Seq::<DecisionV>::empty() =~= acc.deep_view());
    }
    Some((acc, j))
}

fn parse_choice_at(s: &str, i: usize) -> (r: Option<(Choice, usize)>)
    ensures
        match spec_parse_choice(s@, i as int) {
            Some(cj) => r is Some && r->Some_0.0@ == cj.0 && r->Some_0.1 as int == cj.1,
            None => r is None,
        },
{
    let j0 = match parse_lit_at(s, i, "choice\n") {
        Some(j) => j,
        None => {
            return None;
        },
    };
    let (id, j1) = match parse_u128_field(s, j0, "id") {
        Some(p) => p,
        None => {
            return None;
        },
    };
    let (name, j2) = match parse_str_field(s, j1, "name") {
        Some(p) => p,
        None => {
            return None;
        },
    };
    let (min_age, j3) = match parse_i32_field(s, j2, "min_age") {
        Some(p) => p,
        None => {
            return None;
        },
    };
    let (max_age, j4) = match parse_i32_field(s, j3, "max_age") {
        Some(p) => p,
        None => {
            return None;
        },
    };
    let (n, j5) = match parse_u128_field(s, j4, "decisions") {
        Some(p) => p,
        None => {
            return None;
        },
    };
    let (decisions, j6) = match parse_decisions_at(s, j5, n) {
        Some(p) => p,
        None => {
            return None;
        },
    };
    let c = Choice { id, name, decisions, min_age, max_age };
    proof {
        assert(c@ =~= spec_parse_choice(s@, i as int)->Some_0.0);
    }
    Some((c, j6))
}

fn parse_choices_at(s: &str, i: usize, n: u128) -> (r: Option<(Vec<Choice>, usize)>)
    ensures
        match spec_parse_choices(s@, i as int, n as nat) {
            Some(lj) => r is Some && r->Some_0.0.deep_view() == lj.0 && r->Some_0.1 as int == lj.1,
            None => r is None,
        },
{
    let mut acc: Vec<Choice> = Vec::new();
    let mut j = i;
    let mut k: u128 = 0;
    proof {
        assert(acc.deep_view() =~= Seq::<ChoiceV>::empty());
    }
    while k < n
        invariant
            k <= n,
            match spec_parse_choices(s@, j as int, (n - k) as nat) {
                Some(rest) => spec_parse_choices(s@, i as int, n as nat) == Some(
                    (acc.deep_view() + rest.0, rest.1),
                ),
                None => spec_parse_choices(s@, i as int, n as nat) is None,
            },
        decreases n - k,
    {
        let ghost prev_raw = acc@;
        let ghost prev_deep = acc.deep_view();
        let (c, j2) = match parse_choice_at(s, j) {
            Some(p) => p,
            None => {
                return None;
            },
        };
        let ghost cv = c@;
        acc.push(c);
        proof {
            assert(acc@ == prev_raw.push(acc@[prev_raw.len() as int]));
            assert(acc.deep_view() =~= prev_deep.push(cv)) by {
                assert forall|m: int| 0 <= m < acc@.len() implies acc.deep_view()[m]
                    == prev_deep.push(cv)[m] by {
                    if m < prev_raw.len() {
                        assert(acc@[m] == prev_raw[m]);
                        assert(prev_deep[m] == prev_raw[m].deep_view());
                    }
                }
            }
            assert(prev_deep.push(cv) =~= prev_deep + seq![cv]);
            if spec_parse_choices(s@, j2 as int, (n - k - 1) as nat) is Some {
                let rest0 = spec_parse_choices(s@, j2 as int, (n - k - 1) as nat)->Some_0.0;
                assert((prev_deep + seq![cv]) + rest0 =~= prev_deep + (seq![cv] + rest0));
            }
        }
        j = j2;
        k = k + 1;
    }
    proof {
        assert(acc.deep_view() + Seq::<ChoiceV>::empty() =~= acc.deep_view());
    }
    Some((acc, j))
}

/// Parses a whole choices document; `None` on any malformed content,
/// trailing bytes included.
pub fn choices_from_doc(doc: &str) -> (r: Option<Vec<Choice>>)
    ensures
        match spec_parse_choices_doc(doc@) {
            Some(cs) => r is Some && r->Some_0.deep_view() == cs,
            None => r is None,
        },
{
    let (n, j) = match parse_u128_field(doc, 0, "choices") {
        Some(p) => p,
        None => {
            return None;
        },
    };
    let (cs, k) = match parse_choices_at(doc, j, n) {
        Some(p) => p,
        None => {
            return None;
        },
    };
    if k == doc.unicode_len() {
        Some(cs)
    } else {
        None
    }
}

fn parse_person_at(s: &str, i: usize) -> (r: Option<(Person, usize)>)
    ensures
        match spec_parse_person(s@, i as int) {
            Some(pj) => r is Some && r->Some_0.0@ == pj.0 && r->Some_0.1 as int == pj.1,
            None => r is None,
        },
{
    let j0 = match parse_lit_at(s, i, "person\n") {
        Some(j) => j,
        None => {
            return None;
        },
    };
    let (id, j1) = match parse_u128_field(s, j0, "id") {
        Some(p) => p,
        None => {
            return None;
        },
    };
    let (first_name, j2) = match parse_str_field(s, j1, "first_name") {
        Some(p) => p,
        None => {
            return None;
        },
    };
    let (last_name, j3) = match parse_str_field(s, j2, "last_name") {
        Some(p) => p,
        None => {
            return None;
        },
    };
    let (age, j4) = match parse_i32_field(s, j3, "age") {
        Some(p) => p,
        None => {
            return None;
        },
    };
    let (money, j5) = match parse_i32_field(s, j4, "money") {
        Some(p) => p,
        None => {
            return None;
        },
    };
    let (credit, j6) = match parse_i32_field(s, j5, "credit") {
        Some(p) => p,
        None => {
            return None;
        },
    };
    let (n, j7) = match parse_u128_field(s, j6, "effects") {
        Some(p) => p,
        None => {
            return None;
        },
    };
    let (effects, j8) = match parse_effects_at(s, j7, n) {
        Some(p) => p,
        None => {
            return None;
        },
    };
    let p = Person { id, first_name, last_name, age, money, credit, effects };
    proof {
        assert(p@ =~= spec_parse_person(s@, i as int)->Some_0.0);
    }
    Some((p, j8))
}

fn parse_people_at(s: &str, i: usize, n: u128) -> (r: Option<(Vec<Person>, usize)>)
    ensures
        match spec_parse_people(s@, i as int, n as nat) {
            Some(lj) => r is Some && r->Some_0.0.deep_view() == lj.0 && r->Some_0.1 as int == lj.1,
            None => r is None,
        },
{
    let mut acc: Vec<Person> = Vec::new();
    let mut j = i;
    let mut k: u128 = 0;
    proof {
        assert(acc.deep_view() =~= Seq::<PersonV>::empty());
    }
    while k < n
        invariant
            k <= n,
            match spec_parse_people(s@, j as int, (n - k) as nat) {
                Some(rest) => spec_parse_people(s@, i as int, n as nat) == Some(
                    (acc.deep_view() + rest.0, rest.1),
                ),
                None => spec_parse_people(s@, i as int, n as nat) is None,
            },
        decreases n - k,
    {
        let ghost prev_raw = acc@;
        let ghost prev_deep = acc.deep_view();
        let (p, j2) = match parse_person_at(s, j) {
            Some(p) => p,
            None => {
                return None;
            },
        };
        let ghost pv = p@;
        acc.push(p);
        proof {
            assert(acc@ == prev_raw.push(acc@[prev_raw.len() as int]));
            assert(acc.deep_view() =~= prev_deep.push(pv)) by {
                assert forall|m: int| 0 <= m < acc@.len() implies acc.deep_view()[m]
                    == prev_deep.push(pv)[m] by {
                    if m < prev_raw.len() {
                        assert(acc@[m] == prev_raw[m]);
                        assert(prev_deep[m] == prev_raw[m].deep_view());
                    }
                }
            }
            assert(prev_deep.push(pv) =~= prev_deep + seq![pv]);
            if spec_parse_people(s@, j2 as int, (n - k - 1) as nat) is Some {
                let rest0 = spec_parse_people(s@, j2 as int, (n - k - 1) as nat)->Some_0.0;
                assert((prev_deep + seq![pv]) + rest0 =~= prev_deep + (seq![pv] + rest0));
            }
        }
        j = j2;
        k = k + 1;
    }
    proof {
        assert(acc.deep_view() + Seq::<PersonV>::empty() =~= acc.deep_view());
    }
    Some((acc, j))
}

/// Parses a whole people document; `None` on any malformed content.
pub fn people_from_doc(doc: &str) -> (r: Option<Vec<Person>>)
    ensures
        match spec_parse_people_doc(doc@) {
            Some(ps) => r is Some && r->Some_0.deep_view() == ps,
            None => r is None,
        },
{
    let (n, j) = match parse_u128_field(doc, 0, "people") {
        Some(p) => p,
        None => {
            return None;
        },
    };
    let (ps, k) = match parse_people_at(doc, j, n) {
        Some(p) => p,
        None => {
            return None;
        },
    };
    if k == doc.unicode_len() {
        Some(ps)
    } else {
        None
    }
}

// ---------------------------------------------------------------------------
// The file store's state
// ---------------------------------------------------------------------------

/// The flat-file backend's state: the two documents, each absent until first
/// written.
pub struct FileStore {
    pub choices_doc: Option<String>,
    pub people_doc: Option<String>,
}

#[verifier::ext_equal]
pub struct FileStoreV {
    pub choices_doc: Option<Seq<char>>,
    pub people_doc: Option<Seq<char>>,
}

impl View for FileStore {
    type V = FileStoreV;

    open spec fn view(&self) -> FileStoreV {
        FileStoreV {
            choices_doc: match self.choices_doc {
                Some(d) => Some(d@),
                None => None,
            },
            people_doc: match self.people_doc {
                Some(d) => Some(d@),
                None => None,
            },
        }
    }
}

impl FileStore {
    /// A file store with neither document written yet.
    pub fn new() -> (r: FileStore)
        ensures
            r@.choices_doc is None,
            r@.people_doc is None,
    {
        FileStore { choices_doc: None, people_doc: None }
    }
}

} // verus!
