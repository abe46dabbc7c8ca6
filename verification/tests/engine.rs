use life_sim::choices::Effect;
use life_sim::people::Person;
use life_sim::Property;

fn money_effect(value: &str, duration: i32) -> Effect {
    Effect {
        id: 1,
        property: Property::Money,
        value: value.to_string(),
        duration,
    }
}

#[test]
fn new_person_starts_at_zero() {
    let p = Person::new("John".to_string(), "Doe".to_string());
    assert_eq!(p.first_name, "John");
    assert_eq!(p.last_name, "Doe");
    assert_eq!(p.age, 0);
    assert_eq!(p.money, 0);
    assert_eq!(p.credit, 0);
    assert!(p.effects.is_empty());
}

#[test]
fn applying_money_effect_compounds() {
    let mut p = Person::new("John".to_string(), "Doe".to_string());
    let e = money_effect("100", 3);
    p.add_effect(&e);

    p.apply_effects();
    assert_eq!(p.money, 100);
    assert_eq!(p.credit, 0);
    assert_eq!(p.effects[0].duration, 2);

    p.apply_effects();
    assert_eq!(p.money, 200);
    assert_eq!(p.effects[0].duration, 1);
}

#[test]
fn applying_credit_effect() {
    let mut p = Person::new("Jane".to_string(), "Doe".to_string());
    let e = Effect {
        id: 2,
        property: Property::Credit,
        value: "-25".to_string(),
        duration: 1,
    };
    p.add_effect(&e);
    p.apply_effects();
    assert_eq!(p.credit, -25);
    assert_eq!(p.money, 0);
    assert_eq!(p.effects[0].duration, 0);
    // a further pass drives the duration negative: effects are never pruned
    p.apply_effects();
    assert_eq!(p.credit, -50);
    assert_eq!(p.effects[0].duration, -1);
}

#[test]
fn effects_apply_in_insertion_order_and_mix_properties() {
    let mut p = Person::new("A".to_string(), "B".to_string());
    p.add_effect(&money_effect("10", 2));
    p.add_effect(&Effect {
        id: 3,
        property: Property::Credit,
        value: "7".to_string(),
        duration: 5,
    });
    p.add_effect(&money_effect("-4", 1));
    p.apply_effects();
    assert_eq!(p.money, 6);
    assert_eq!(p.credit, 7);
    assert_eq!(p.effects.len(), 3);
    assert_eq!(p.effects[0].duration, 1);
    assert_eq!(p.effects[1].duration, 4);
    assert_eq!(p.effects[2].duration, 0);
}

#[test]
fn added_effect_is_a_copy() {
    let mut p = Person::new("A".to_string(), "B".to_string());
    let source = money_effect("5", 9);
    p.add_effect(&source);
    p.apply_effects();
    // the person's copy ticked down; the source is untouched
    assert_eq!(p.effects[0].duration, 8);
    assert_eq!(source.duration, 9);
}
