use life_sim::backend::{init_db, load_choices, load_people, reset_db, save_choices, save_people, Location, Stores};
use life_sim::choices::{Choice, Decision, Effect};
use life_sim::database::Database;
use life_sim::filestore::FileStore;
use life_sim::people::Person;
use life_sim::{Property, StoreError};

fn fresh_stores() -> Stores {
    let mut stores = Stores {
        database: Database::new(),
        files: FileStore::new(),
    };
    init_db(&mut stores);
    stores
}

fn sample_choice(id: u128) -> Choice {
    Choice {
        id,
        name: "travel".to_string(),
        decisions: vec![Decision {
            id: id + 100,
            description: "go".to_string(),
            effects: vec![Effect {
                id: id + 200,
                property: Property::Money,
                value: "-300".to_string(),
                duration: 1,
            }],
        }],
        min_age: 18,
        max_age: 99,
    }
}

#[test]
fn save_and_load_through_relational_backend() {
    let mut stores = fresh_stores();
    let choices = vec![sample_choice(1), sample_choice(2)];
    save_choices(Location::Database, &mut stores, &choices).unwrap();
    let loaded = load_choices(Location::Database, &stores).unwrap();
    assert_eq!(loaded.len(), 2);
    assert_eq!(loaded[0].id, 1);
    assert_eq!(loaded[1].id, 2);
    assert_eq!(loaded[1].decisions[0].effects[0].value, "-300");
}

#[test]
fn file_save_mirrors_relational_store_not_its_argument() {
    let mut stores = fresh_stores();
    let stored = vec![sample_choice(1)];
    save_choices(Location::Database, &mut stores, &stored).unwrap();

    // the file backend ignores what is passed and snapshots the relational
    // store instead
    let ignored = vec![sample_choice(9)];
    save_choices(Location::File, &mut stores, &ignored).unwrap();

    let from_file = load_choices(Location::File, &stores).unwrap();
    assert_eq!(from_file.len(), 1);
    assert_eq!(from_file[0].id, 1);
}

#[test]
fn loading_absent_or_malformed_file_fails() {
    let mut stores = fresh_stores();
    assert!(matches!(
        load_choices(Location::File, &stores),
        Err(StoreError::MissingFile)
    ));
    assert!(matches!(
        load_people(Location::File, &stores),
        Err(StoreError::MissingFile)
    ));
    stores.files.choices_doc = Some("not a document".to_string());
    assert!(matches!(
        load_choices(Location::File, &stores),
        Err(StoreError::Malformed)
    ));
}

#[test]
fn people_flow_through_both_backends() {
    let mut stores = fresh_stores();
    let choice = sample_choice(1);
    save_choices(Location::Database, &mut stores, &vec![sample_choice(1)]).unwrap();

    let mut person = Person::new("John".to_string(), "Doe".to_string());
    person.add_effect(&choice.decisions[0].effects[0]);
    let people = vec![person];
    save_people(Location::Database, &mut stores, Some(&people)).unwrap();

    let loaded = load_people(Location::Database, &stores).unwrap();
    assert_eq!(loaded.len(), 1);
    assert_eq!(loaded[0].first_name, "John");

    save_people(Location::File, &mut stores, None).unwrap();
    let from_file = load_people(Location::File, &stores).unwrap();
    assert_eq!(from_file.len(), 1);
    assert_eq!(from_file[0].first_name, "John");
}

#[test]
fn reset_clears_both_catalogue_and_people() {
    let mut stores = fresh_stores();
    save_choices(Location::Database, &mut stores, &vec![sample_choice(1)]).unwrap();
    reset_db(&mut stores).unwrap();
    assert!(load_choices(Location::Database, &stores).unwrap().is_empty());
    assert!(load_people(Location::Database, &stores).unwrap().is_empty());
}
