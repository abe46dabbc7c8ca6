use life_sim::choices::{Choice, Decision, Effect};
use life_sim::Property;

#[test]
fn choice_renders_name_decisions_and_effects() {
    let c = Choice {
        id: 1,
        name: "home".to_string(),
        decisions: vec![Decision {
            id: 2,
            description: "go".to_string(),
            effects: vec![
                Effect {
                    id: 3,
                    property: Property::Money,
                    value: "5".to_string(),
                    duration: 1,
                },
                Effect {
                    id: 4,
                    property: Property::Credit,
                    value: "-2".to_string(),
                    duration: 1,
                },
            ],
        }],
        min_age: 0,
        max_age: 1,
    };
    assert_eq!(
        c.describe(),
        "CHOICE:\nhome\n    Decision: go\n        Effect: money - 5\n        Effect: credit - -2\n"
    );
}

#[test]
fn choice_without_decisions_renders_bare() {
    let c = Choice {
        id: 1,
        name: "idle".to_string(),
        decisions: vec![],
        min_age: 0,
        max_age: 1,
    };
    assert_eq!(c.describe(), "CHOICE:\nidle\n");
}
