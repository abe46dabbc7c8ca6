use life_sim::choices::{Choice, Decision, Effect};
use life_sim::filestore::{choices_from_doc, choices_to_doc, people_from_doc, people_to_doc};
use life_sim::people::Person;
use life_sim::Property;

fn sample_choices() -> Vec<Choice> {
    vec![
        Choice {
            id: 7,
            name: "go to school".to_string(),
            decisions: vec![
                Decision {
                    id: 11,
                    description: "study hard\nwith a newline".to_string(),
                    effects: vec![
                        Effect {
                            id: 21,
                            property: Property::Money,
                            value: "-50".to_string(),
                            duration: 4,
                        },
                        Effect {
                            id: 22,
                            property: Property::Credit,
                            value: "10".to_string(),
                            duration: -3,
                        },
                    ],
                },
                Decision {
                    id: 12,
                    description: String::new(),
                    effects: vec![],
                },
            ],
            min_age: 6,
            max_age: 18,
        },
        Choice {
            id: 340282366920938463463374607431768211455,
            name: "4 spaces  and 7 digits".to_string(),
            decisions: vec![],
            min_age: -1,
            max_age: i32::MAX,
        },
    ]
}

fn assert_effects_eq(a: &[Effect], b: &[Effect]) {
    assert_eq!(a.len(), b.len());
    for (x, y) in a.iter().zip(b.iter()) {
        assert_eq!(x.id, y.id);
        assert_eq!(x.property, y.property);
        assert_eq!(x.value, y.value);
        assert_eq!(x.duration, y.duration);
    }
}

fn assert_choices_eq(a: &[Choice], b: &[Choice]) {
    assert_eq!(a.len(), b.len());
    for (x, y) in a.iter().zip(b.iter()) {
        assert_eq!(x.id, y.id);
        assert_eq!(x.name, y.name);
        assert_eq!(x.min_age, y.min_age);
        assert_eq!(x.max_age, y.max_age);
        assert_eq!(x.decisions.len(), y.decisions.len());
        for (d, e) in x.decisions.iter().zip(y.decisions.iter()) {
            assert_eq!(d.id, e.id);
            assert_eq!(d.description, e.description);
            assert_effects_eq(&d.effects, &e.effects);
        }
    }
}

#[test]
fn choices_document_round_trips() {
    let before = sample_choices();
    let doc = choices_to_doc(&before);
    let loaded = choices_from_doc(&doc).expect("the document must parse");
    assert_choices_eq(&before, &loaded);
}

#[test]
fn choices_document_exact_form() {
    let one = vec![Choice {
        id: 7,
        name: "home".to_string(),
        decisions: vec![],
        min_age: 0,
        max_age: 99,
    }];
    let doc = choices_to_doc(&one);
    assert_eq!(
        doc,
        "choices 1\nchoice\nid 7\nname 4 home\nmin_age 0\nmax_age 99\ndecisions 0\n"
    );
}

#[test]
fn people_document_round_trips() {
    let before = vec![
        Person {
            id: 1,
            first_name: "John".to_string(),
            last_name: "Doe".to_string(),
            age: 30,
            money: -5,
            credit: 700,
            effects: vec![Effect {
                id: 21,
                property: Property::Money,
                value: "100".to_string(),
                duration: 3,
            }],
        },
        Person {
            id: 2,
            first_name: String::new(),
            last_name: "name with 3 spaces".to_string(),
            age: 0,
            money: i32::MIN,
            credit: i32::MAX,
            effects: vec![],
        },
    ];
    let doc = people_to_doc(&before);
    let loaded = people_from_doc(&doc).expect("the document must parse");
    assert_eq!(loaded.len(), 2);
    assert_eq!(loaded[0].first_name, "John");
    assert_eq!(loaded[0].money, -5);
    assert_eq!(loaded[0].effects.len(), 1);
    assert_eq!(loaded[0].effects[0].value, "100");
    assert_eq!(loaded[0].effects[0].duration, 3);
    assert_eq!(loaded[1].last_name, "name with 3 spaces");
    assert_eq!(loaded[1].money, i32::MIN);
    assert_eq!(loaded[1].credit, i32::MAX);
}

#[test]
fn malformed_documents_are_rejected() {
    assert!(choices_from_doc("").is_none());
    assert!(choices_from_doc("people 0\n").is_none());
    assert!(choices_from_doc("choices 1\n").is_none());
    assert!(choices_from_doc("choices 0\ntrailing").is_none());
    assert!(choices_from_doc("choices 1\nchoice\nid 7\nname 4 home\nmin_age x\nmax_age 99\ndecisions 0\n").is_none());
    assert!(people_from_doc("people 1\n").is_none());
    // an unknown property token in the document fails the load
    let doc = "people 1\nperson\nid 1\nfirst_name 1 a\nlast_name 1 b\nage 0\nmoney 0\ncredit 0\neffects 1\neffect\nid 9\nproperty points\nvalue 1 5\nduration 1\n";
    assert!(people_from_doc(doc).is_none());
}
