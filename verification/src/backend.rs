//! The persistence facade: one location-tagged dispatcher over the two
//! backends. Saving to the file backend deliberately ignores the argument
//! and mirrors the relational store's current contents instead, so the file
//! is always a snapshot of the relational data at save time.

use vstd::prelude::*;
use crate::StoreError;
use crate::choices::{Choice, ChoiceV};
use crate::people::{Person, PersonV};
use crate::database::{
    db_after_insert_choice, insert_choice, insert_person, load_choices_from_database,
    load_choices_spec, load_people_from_database, load_people_spec, person_row_of, Database,
    DatabaseV, empty_db,
};
use crate::filestore::{
    choices_from_doc, choices_to_doc, people_from_doc, people_to_doc, ser_choices_doc,
    ser_people_doc, spec_parse_choices_doc, spec_parse_people_doc, FileStore, FileStoreV,
};

verus! {

/// The storage backend selector.
#[derive(Clone, Copy, Debug, PartialEq, Eq, Structural)]
pub enum Location {
    Database,
    File,
}

/// Both backends' state, side by side.
pub struct Stores {
    pub database: Database,
    pub files: FileStore,
}

/// What loading choices from the file backend returns.
pub open spec fn file_load_choices_spec(fs: FileStoreV) -> Result<Seq<ChoiceV>, StoreError> {
    match fs.choices_doc {
        None => Err(StoreError::MissingFile),
        Some(doc) => match spec_parse_choices_doc(doc) {
            Some(cs) => Ok(cs),
            None => Err(StoreError::Malformed),
        },
    }
}

/// What loading people from the file backend returns.
pub open spec fn file_load_people_spec(fs: FileStoreV) -> Result<Seq<PersonV>, StoreError> {
    match fs.people_doc {
        None => Err(StoreError::MissingFile),
        Some(doc) => match spec_parse_people_doc(doc) {
            Some(ps) => Ok(ps),
            None => Err(StoreError::Malformed),
        },
    }
}

/// The relational store after a run of choices is inserted in order.
pub open spec fn db_after_insert_choices(db: DatabaseV, cs: Seq<ChoiceV>) -> DatabaseV
    decreases cs.len(),
{
    if cs.len() == 0 {
        db
    } else {
        db_after_insert_choice(db_after_insert_choices(db, cs.drop_last()), cs.last())
    }
}

/// Loads the full choice catalogue from the selected backend.
pub fn load_choices(location: Location, stores: &Stores) -> (r: Result<Vec<Choice>, StoreError>)
    ensures
        location == Location::Database ==> match load_choices_spec(stores.database@) {
            Ok(cs) => r is Ok && r->Ok_0.deep_view() == cs,
            Err(e) => r == Err::<Vec<Choice>, StoreError>(e),
        },
        location == Location::File ==> match file_load_choices_spec(stores.files@) {
            Ok(cs) => r is Ok && r->Ok_0.deep_view() == cs,
            Err(e) => r == Err::<Vec<Choice>, StoreError>(e),
        },
{
    match location {
        Location::Database => load_choices_from_database(&stores.database),
        Location::File => match &stores.files.choices_doc {
            Some(doc) => match choices_from_doc(doc.as_str()) {
                Some(cs) => Ok(cs),
                None => Err(StoreError::Malformed),
            },
            None => Err(StoreError::MissingFile),
        },
    }
}

/// Loads all people from the selected backend.
pub fn load_people(location: Location, stores: &Stores) -> (r: Result<Vec<Person>, StoreError>)
    ensures
        location == Location::Database ==> match load_people_spec(stores.database@) {
            Ok(ps) => r is Ok && r->Ok_0.deep_view() == ps,
            Err(e) => r == Err::<Vec<Person>, StoreError>(e),
        },
        location == Location::File ==> match file_load_people_spec(stores.files@) {
            Ok(ps) => r is Ok && r->Ok_0.deep_view() == ps,
            Err(e) => r == Err::<Vec<Person>, StoreError>(e),
        },
{
    match location {
        Location::Database => load_people_from_database(&stores.database),
        Location::File => match &stores.files.people_doc {
            Some(doc) => match people_from_doc(doc.as_str()) {
                Some(ps) => Ok(ps),
                None => Err(StoreError::Malformed),
            },
            None => Err(StoreError::MissingFile),
        },
    }
}

/// Saves choices. For the relational backend every given choice is inserted
/// in order, each a sequence of independently-failable row writes. For the
/// file backend the argument is not consulted: the document is produced from
/// the relational store's current contents.
pub fn save_choices(location: Location, stores: &mut Stores, choices: &Vec<Choice>) -> (r: Result<
    (),
    StoreError,
>)
    ensures
        location == Location::Database ==> {
            &&& old(stores).database@.initialized ==> r is Ok && (final(stores).database@
                =~= db_after_insert_choices(old(stores).database@, choices.deep_view()))
                && final(stores).files == old(stores).files
            &&& (!old(stores).database@.initialized && choices@.len() > 0) ==> r == Err::<
                (),
                StoreError,
            >(StoreError::NotInitialized)
            &&& (!old(stores).database@.initialized && choices@.len() == 0) ==> r is Ok
                && final(stores).database@ == old(stores).database@ && final(stores).files == old(
                stores,
            ).files
        },
        location == Location::File ==> match load_choices_spec(old(stores).database@) {
            Ok(cs) => {
                &&& r is Ok
                &&& final(stores).files@.choices_doc == Some(ser_choices_doc(cs))
                &&& final(stores).files@.people_doc == old(stores).files@.people_doc
                &&& final(stores).database@ == old(stores).database@
            },
            Err(e) => r == Err::<(), StoreError>(e) && final(stores).database@ == old(
                stores,
            ).database@ && final(stores).files == old(stores).files,
        },
{
    match location {
        Location::Database => {
            let n = choices.len();
            let mut i: usize = 0;
            proof {
                assert(choices.deep_view().take(0) =~= Seq::<ChoiceV>::empty());
            }
            while i < n
                invariant
                    location == Location::Database,
                    i <= n,
                    n == choices@.len(),
                    i > 0 ==> old(stores).database@.initialized,
                    stores.database@.initialized == old(stores).database@.initialized,
                    stores.files == old(stores).files,
                    stores.database@ =~= db_after_insert_choices(
                        old(stores).database@,
                        choices.deep_view().take(i as int),
                    ),
                decreases n - i,
            {
                proof {
                    assert(choices.deep_view().take(i as int + 1).drop_last()
                        =~= choices.deep_view().take(i as int));
                    assert(choices.deep_view().take(i as int + 1).last() == choices.deep_view()[
                        i as int
                    ]);
                    assert(choices.deep_view()[i as int] == choices[i as int]@);
                }
                match insert_choice(&mut stores.database, &choices[i]) {
                    Ok(_) => {},
                    Err(e) => {
                        return Err(e);
                    },
                }
                i = i + 1;
            }
            proof {
                assert(choices.deep_view().take(n as int) =~= choices.deep_view());
            }
            Ok(())
        },
        Location::File => {
            match load_choices_from_database(&stores.database) {
                Ok(cs) => {
                    let doc = choices_to_doc(&cs);
                    stores.files.choices_doc = Some(doc);
                    Ok(())
                },
                Err(e) => Err(e),
            }
        },
    }
}

/// Saves people. The relational backend requires the collection to be
/// present: each person row is inserted, then its effect links. The file
/// backend ignores the argument and mirrors the relational store.
pub fn save_people(
    location: Location,
    stores: &mut Stores,
    people: Option<&Vec<Person>>,
) -> (r: Result<(), StoreError>)
    requires
        location == Location::Database ==> people is Some,
    ensures
        location == Location::Database ==> {
            &&& old(stores).database@.initialized ==> {
                &&& r is Ok
                &&& final(stores).database@.people == old(stores).database@.people + Seq::new(
                    people->Some_0.deep_view().len(),
                    |k: int| person_row_of(people->Some_0.deep_view()[k]),
                )
                &&& final(stores).database@.choices == old(stores).database@.choices
                &&& final(stores).database@.decisions == old(stores).database@.decisions
                &&& final(stores).database@.effects == old(stores).database@.effects
                &&& final(stores).database@.initialized
                &&& final(stores).files == old(stores).files
            }
            &&& (!old(stores).database@.initialized && people->Some_0@.len() > 0) ==> r == Err::<
                (),
                StoreError,
            >(StoreError::NotInitialized)
            &&& (!old(stores).database@.initialized && people->Some_0@.len() == 0) ==> r is Ok
                && final(stores).database@ == old(stores).database@ && final(stores).files == old(
                stores,
            ).files
        },
        location == Location::File ==> match load_people_spec(old(stores).database@) {
            Ok(ps) => {
                &&& r is Ok
                &&& final(stores).files@.people_doc == Some(ser_people_doc(ps))
                &&& final(stores).files@.choices_doc == old(stores).files@.choices_doc
                &&& final(stores).database@ == old(stores).database@
            },
            Err(e) => r == Err::<(), StoreError>(e) && final(stores).database@ == old(
                stores,
            ).database@ && final(stores).files == old(stores).files,
        },
{
    match location {
        Location::Database => {
            let list = match people {
                Some(list) => list,
                None => {
                    proof {
                        assert(false);
                    }
                    return Ok(());
                },
            };
            let n = list.len();
            let mut i: usize = 0;
            proof {
                assert(list.deep_view().take(0) =~= Seq::<PersonV>::empty());
                assert(old(stores).database@.people + Seq::new(
                    0nat,
                    |k: int| person_row_of(list.deep_view()[k]),
                ) =~= old(stores).database@.people);
            }
            while i < n
                invariant
                    location == Location::Database,
                    i <= n,
                    n == list@.len(),
                    people is Some && people->Some_0 == list,
                    i > 0 ==> old(stores).database@.initialized,
                    i == 0 ==> stores.database@.links == old(stores).database@.links,
                    stores.database@.initialized == old(stores).database@.initialized,
                    stores.files == old(stores).files,
                    stores.database@.choices == old(stores).database@.choices,
                    stores.database@.decisions == old(stores).database@.decisions,
                    stores.database@.effects == old(stores).database@.effects,
                    stores.database@.people == old(stores).database@.people + Seq::new(
                        i as nat,
                        |k: int| person_row_of(list.deep_view()[k]),
                    ),
                decreases n - i,
            {
                proof {
                    assert(list.deep_view()[i as int] == list[i as int]@);
                }
                let ghost pre_people = stores.database@.people;
                match insert_person(&mut stores.database, &list[i]) {
                    Ok(_) => {},
                    Err(e) => {
                        return Err(e);
                    },
                }
                proof {
                    assert(stores.database@.people =~= old(stores).database@.people + Seq::new(
                        i as nat + 1,
                        |k: int| person_row_of(list.deep_view()[k]),
                    ));
                }
                i = i + 1;
            }
            proof {
                assert(Seq::new(n as nat, |k: int| person_row_of(list.deep_view()[k])) =~= Seq::new(
                    list.deep_view().len(),
                    |k: int| person_row_of(list.deep_view()[k]),
                ));
            }
            Ok(())
        },
        Location::File => {
            match load_people_from_database(&stores.database) {
                Ok(ps) => {
                    let doc = people_to_doc(&ps);
                    stores.files.people_doc = Some(doc);
                    Ok(())
                },
                Err(e) => Err(e),
            }
        },
    }
}

/// Destroys and re-bootstraps the relational namespace; the file store is
/// not touched.
pub fn reset_db(stores: &mut Stores) -> (r: Result<(), StoreError>)
    ensures
        old(stores).database@.initialized ==> r is Ok && (final(stores).database@ =~= empty_db()),
        !old(stores).database@.initialized ==> r == Err::<(), StoreError>(
            StoreError::NotInitialized,
        ) && final(stores).database@ == old(stores).database@,
        final(stores).files == old(stores).files,
{
    crate::database::reset_db(&mut stores.database)
}

/// Bootstraps the relational namespace if it does not exist yet; idempotent.
pub fn init_db(stores: &mut Stores)
    ensures
        final(stores).database@ =~= crate::database::db_init_spec(old(stores).database@),
        final(stores).files == old(stores).files,
{
    crate::database::init(&mut stores.database)
}

} // verus!
