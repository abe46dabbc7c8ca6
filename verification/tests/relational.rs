use life_sim::choices::{Choice, Decision, Effect};
use life_sim::database::{
    init, insert_choice, insert_person, load_choices_from_database, load_people_from_database,
    remove_choice, reset_db, Database, EffectRow,
};
use life_sim::people::Person;
use life_sim::{Property, StoreError};

fn fresh_initialized() -> Database {
    let mut db = Database::new();
    init(&mut db);
    db
}

fn sample_choice() -> Choice {
    Choice {
        id: 7,
        name: "get a job".to_string(),
        decisions: vec![Decision {
            id: 11,
            description: "take it".to_string(),
            effects: vec![
                Effect {
                    id: 21,
                    property: Property::Money,
                    value: "100".to_string(),
                    duration: 3,
                },
                Effect {
                    id: 22,
                    property: Property::Credit,
                    value: "-5".to_string(),
                    duration: 2,
                },
            ],
        }],
        min_age: 16,
        max_age: 70,
    }
}

#[test]
fn insert_and_reload_choice() {
    let mut db = fresh_initialized();
    insert_choice(&mut db, &sample_choice()).unwrap();
    let loaded = load_choices_from_database(&db).unwrap();
    assert_eq!(loaded.len(), 1);
    let c = &loaded[0];
    assert_eq!(c.id, 7);
    assert_eq!(c.name, "get a job");
    assert_eq!(c.min_age, 16);
    assert_eq!(c.max_age, 70);
    assert_eq!(c.decisions.len(), 1);
    assert_eq!(c.decisions[0].description, "take it");
    let effects = &c.decisions[0].effects;
    assert_eq!(effects.len(), 2);
    assert_eq!(effects[0].property, Property::Money);
    assert_eq!(effects[0].value, "100");
    assert_eq!(effects[0].duration, 3);
    assert_eq!(effects[1].property, Property::Credit);
    assert_eq!(effects[1].value, "-5");
    assert_eq!(effects[1].duration, 2);
}

#[test]
fn operations_require_an_initialized_namespace() {
    let mut db = Database::new();
    assert_eq!(
        insert_choice(&mut db, &sample_choice()),
        Err(StoreError::NotInitialized)
    );
    assert!(matches!(
        load_choices_from_database(&db),
        Err(StoreError::NotInitialized)
    ));
    assert!(matches!(
        load_people_from_database(&db),
        Err(StoreError::NotInitialized)
    ));
    assert_eq!(reset_db(&mut db), Err(StoreError::NotInitialized));
    assert_eq!(remove_choice(&mut db, 7), Err(StoreError::NotInitialized));
}

#[test]
fn reset_then_init_leaves_empty_schema() {
    let mut db = fresh_initialized();
    insert_choice(&mut db, &sample_choice()).unwrap();
    let mut person = Person::new("John".to_string(), "Doe".to_string());
    person.add_effect(&sample_choice().decisions[0].effects[0]);
    insert_person(&mut db, &person).unwrap();
    assert!(!db.choices.is_empty());

    reset_db(&mut db).unwrap();
    init(&mut db);

    assert!(db.initialized);
    assert_eq!(db.choices.len(), 0);
    assert_eq!(db.decisions.len(), 0);
    assert_eq!(db.effects.len(), 0);
    assert_eq!(db.people.len(), 0);
    assert_eq!(db.links.len(), 0);
    // and the empty schema is loadable
    assert!(load_choices_from_database(&db).unwrap().is_empty());
    assert!(load_people_from_database(&db).unwrap().is_empty());
}

#[test]
fn unknown_property_token_fails_loads() {
    let mut db = fresh_initialized();
    insert_choice(&mut db, &sample_choice()).unwrap();
    db.effects.push(EffectRow {
        id: 99,
        decision_id: 11,
        property: "points".to_string(),
        value: "1".to_string(),
        duration: 1,
    });
    assert!(matches!(
        load_choices_from_database(&db),
        Err(StoreError::UnknownProperty)
    ));
}

#[test]
fn person_round_trips_through_link_table() {
    let mut db = fresh_initialized();
    let choice = sample_choice();
    insert_choice(&mut db, &choice).unwrap();

    let mut person = Person::new("John".to_string(), "Doe".to_string());
    for effect in &choice.decisions[0].effects {
        person.add_effect(effect);
    }
    person.apply_effects();
    insert_person(&mut db, &person).unwrap();

    let people = load_people_from_database(&db).unwrap();
    assert_eq!(people.len(), 1);
    let p = &people[0];
    assert_eq!(p.first_name, "John");
    assert_eq!(p.money, 100);
    assert_eq!(p.credit, -5);
    assert_eq!(p.effects.len(), 2);
    // durations come back from the link rows, already ticked down once
    assert_eq!(p.effects[0].duration, 2);
    assert_eq!(p.effects[1].duration, 1);
    assert_eq!(p.effects[0].value, "100");
}

#[test]
fn link_to_missing_effect_fails_load() {
    let mut db = fresh_initialized();
    let mut person = Person::new("A".to_string(), "B".to_string());
    person.add_effect(&Effect {
        id: 12345,
        property: Property::Money,
        value: "1".to_string(),
        duration: 1,
    });
    // the effect row was never inserted: the referential precondition of
    // person insertion is the caller's to meet, and loading detects the gap
    insert_person(&mut db, &person).unwrap();
    assert!(matches!(
        load_people_from_database(&db),
        Err(StoreError::MissingEffect)
    ));
}

#[test]
fn remove_choice_deletes_matching_rows() {
    let mut db = fresh_initialized();
    let mut a = sample_choice();
    a.id = 1;
    let mut b = sample_choice();
    b.id = 2;
    b.decisions = vec![];
    insert_choice(&mut db, &a).unwrap();
    insert_choice(&mut db, &b).unwrap();
    remove_choice(&mut db, 1).unwrap();
    assert_eq!(db.choices.len(), 1);
    assert_eq!(db.choices[0].id, 2);
}
