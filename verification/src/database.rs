//! The relational backend, modelled as plain state: one vector of rows per
//! table of the `life_sim` namespace, plus whether the namespace exists.
//! Callers that persist to a real relational service mirror these state
//! transitions row for row; the decoding, joining and encoding logic here is
//! what the adapter proves.

use vstd::prelude::*;
use crate::{deep_seq, lemma_deep_seq_push, property_token, token_to_property, Property, StoreError};
use crate::choices::{fresh_id, Choice, ChoiceV, Decision, DecisionV, Effect, EffectV, choice_wf};
use crate::people::{Person, PersonV};

verus! {

// ---------------------------------------------------------------------------
// Rows
// ---------------------------------------------------------------------------

/// A row of `choices(id, name, min_age, max_age)`.
pub struct ChoiceRow {
    pub id: u128,
    pub name: String,
    pub min_age: i32,
    pub max_age: i32,
}

#[verifier::ext_equal]
pub struct ChoiceRowV {
    pub id: u128,
    pub name: Seq<char>,
    pub min_age: i32,
    pub max_age: i32,
}

impl View for ChoiceRow {
    type V = ChoiceRowV;

    open spec fn view(&self) -> ChoiceRowV {
        ChoiceRowV { id: self.id, name: self.name@, min_age: self.min_age, max_age: self.max_age }
    }
}

impl DeepView for ChoiceRow {
    type V = ChoiceRowV;

    open spec fn deep_view(&self) -> ChoiceRowV {
        self.view()
    }
}

/// A row of `decisions(id, choice_id, description)`.
pub struct DecisionRow {
    pub id: u128,
    pub choice_id: u128,
    pub description: String,
}

#[verifier::ext_equal]
pub struct DecisionRowV {
    pub id: u128,
    pub choice_id: u128,
    pub description: Seq<char>,
}

impl View for DecisionRow {
    type V = DecisionRowV;

    open spec fn view(&self) -> DecisionRowV {
        DecisionRowV { id: self.id, choice_id: self.choice_id, description: self.description@ }
    }
}

impl DeepView for DecisionRow {
    type V = DecisionRowV;

    open spec fn deep_view(&self) -> DecisionRowV {
        self.view()
    }
}

/// A row of `effects(id, decision_id, property, value, duration)`; the
/// property is stored as its lowercase textual token.
pub struct EffectRow {
    pub id: u128,
    pub decision_id: u128,
    pub property: String,
    pub value: String,
    pub duration: i32,
}

#[verifier::ext_equal]
pub struct EffectRowV {
    pub id: u128,
    pub decision_id: u128,
    pub property: Seq<char>,
    pub value: Seq<char>,
    pub duration: i32,
}

impl View for EffectRow {
    type V = EffectRowV;

    open spec fn view(&self) -> EffectRowV {
        EffectRowV {
            id: self.id,
            decision_id: self.decision_id,
            property: self.property@,
            value: self.value@,
            duration: self.duration,
        }
    }
}

impl DeepView for EffectRow {
    type V = EffectRowV;

    open spec fn deep_view(&self) -> EffectRowV {
        self.view()
    }
}

/// A row of `people(id, first_name, last_name, age, money, credit)`.
pub struct PersonRow {
    pub id: u128,
    pub first_name: String,
    pub last_name: String,
    pub age: i32,
    pub money: i32,
    pub credit: i32,
}

#[verifier::ext_equal]
pub struct PersonRowV {
    pub id: u128,
    pub first_name: Seq<char>,
    pub last_name: Seq<char>,
    pub age: i32,
    pub money: i32,
    pub credit: i32,
}

impl View for PersonRow {
    type V = PersonRowV;

    open spec fn view(&self) -> PersonRowV {
        PersonRowV {
            id: self.id,
            first_name: self.first_name@,
            last_name: self.last_name@,
            age: self.age,
            money: self.money,
            credit: self.credit,
        }
    }
}

impl DeepView for PersonRow {
    type V = PersonRowV;

    open spec fn deep_view(&self) -> PersonRowV {
        self.view()
    }
}

/// A row of `person_effect_links(id, person_id, effect_id, time_left)`.
pub struct LinkRow {
    pub id: u128,
    pub person_id: u128,
    pub effect_id: u128,
    pub time_left: i32,
}

#[verifier::ext_equal]
pub struct LinkRowV {
    pub id: u128,
    pub person_id: u128,
    pub effect_id: u128,
    pub time_left: i32,
}

impl View for LinkRow {
    type V = LinkRowV;

    open spec fn view(&self) -> LinkRowV {
        LinkRowV {
            id: self.id,
            person_id: self.person_id,
            effect_id: self.effect_id,
            time_left: self.time_left,
        }
    }
}

impl DeepView for LinkRow {
    type V = LinkRowV;

    open spec fn deep_view(&self) -> LinkRowV {
        self.view()
    }
}

/// The whole relational store.
pub struct Database {
    pub initialized: bool,
    pub choices: Vec<ChoiceRow>,
    pub decisions: Vec<DecisionRow>,
    pub effects: Vec<EffectRow>,
    pub people: Vec<PersonRow>,
    pub links: Vec<LinkRow>,
}

#[verifier::ext_equal]
pub struct DatabaseV {
    pub initialized: bool,
    pub choices: Seq<ChoiceRowV>,
    pub decisions: Seq<DecisionRowV>,
    pub effects: Seq<EffectRowV>,
    pub people: Seq<PersonRowV>,
    pub links: Seq<LinkRowV>,
}

impl View for Database {
    type V = DatabaseV;

    open spec fn view(&self) -> DatabaseV {
        DatabaseV {
            initialized: self.initialized,
            choices: self.choices.deep_view(),
            decisions: self.decisions.deep_view(),
            effects: self.effects.deep_view(),
            people: self.people.deep_view(),
            links: self.links.deep_view(),
        }
    }
}

// ---------------------------------------------------------------------------
// Decoding: rows back to the domain model
// ---------------------------------------------------------------------------

/// The decision rows belonging to a choice, in table order.
pub open spec fn decisions_for_choice(rows: Seq<DecisionRowV>, choice_id: u128) -> Seq<
    DecisionRowV,
>
    decreases rows.len(),
{
    if rows.len() == 0 {
        Seq::empty()
    } else {
        decisions_for_choice(rows.drop_last(), choice_id) + (if rows.last().choice_id == choice_id {
            seq![rows.last()]
        } else {
            Seq::empty()
        })
    }
}

/// The effect rows belonging to a decision, in table order.
pub open spec fn effects_for_decision(rows: Seq<EffectRowV>, decision_id: u128) -> Seq<EffectRowV>
    decreases rows.len(),
{
    if rows.len() == 0 {
        Seq::empty()
    } else {
        effects_for_decision(rows.drop_last(), decision_id) + (if rows.last().decision_id
            == decision_id {
            seq![rows.last()]
        } else {
            Seq::empty()
        })
    }
}

/// The link rows belonging to a person, in table order.
pub open spec fn links_for_person(rows: Seq<LinkRowV>, person_id: u128) -> Seq<LinkRowV>
    decreases rows.len(),
{
    if rows.len() == 0 {
        Seq::empty()
    } else {
        links_for_person(rows.drop_last(), person_id) + (if rows.last().person_id == person_id {
            seq![rows.last()]
        } else {
            Seq::empty()
        })
    }
}

/// Decodes one effect row; an unrecognized property token is an error, never
/// a default.
pub open spec fn decode_effect_row(r: EffectRowV) -> Option<EffectV> {
    match token_to_property(r.property) {
        Some(p) => Some(EffectV { id: r.id, property: p, value: r.value, duration: r.duration }),
        None => None,
    }
}

pub open spec fn decode_effect_rows(rows: Seq<EffectRowV>) -> Option<Seq<EffectV>>
    decreases rows.len(),
{
    if rows.len() == 0 {
        Some(Seq::empty())
    } else {
        match decode_effect_rows(rows.drop_last()) {
            Some(init) => match decode_effect_row(rows.last()) {
                Some(e) => Some(init.push(e)),
                None => None,
            },
            None => None,
        }
    }
}

pub open spec fn decode_decision_row(db: DatabaseV, r: DecisionRowV) -> Option<DecisionV> {
    match decode_effect_rows(effects_for_decision(db.effects, r.id)) {
        Some(es) => Some(DecisionV { id: r.id, description: r.description, effects: es }),
        None => None,
    }
}

pub open spec fn decode_decision_rows(db: DatabaseV, rows: Seq<DecisionRowV>) -> Option<
    Seq<DecisionV>,
>
    decreases rows.len(),
{
    if rows.len() == 0 {
        Some(Seq::empty())
    } else {
        match decode_decision_rows(db, rows.drop_last()) {
            Some(init) => match decode_decision_row(db, rows.last()) {
                Some(d) => Some(init.push(d)),
                None => None,
            },
            None => None,
        }
    }
}

pub open spec fn decode_choice_row(db: DatabaseV, r: ChoiceRowV) -> Option<ChoiceV> {
    match decode_decision_rows(db, decisions_for_choice(db.decisions, r.id)) {
        Some(ds) => Some(
            ChoiceV {
                id: r.id,
                name: r.name,
                decisions: ds,
                min_age: r.min_age,
                max_age: r.max_age,
            },
        ),
        None => None,
    }
}

pub open spec fn decode_choice_rows(db: DatabaseV, rows: Seq<ChoiceRowV>) -> Option<Seq<ChoiceV>>
    decreases rows.len(),
{
    if rows.len() == 0 {
        Some(Seq::empty())
    } else {
        match decode_choice_rows(db, rows.drop_last()) {
            Some(init) => match decode_choice_row(db, rows.last()) {
                Some(c) => Some(init.push(c)),
                None => None,
            },
            None => None,
        }
    }
}

/// What loading every choice returns, for any store state.
pub open spec fn load_choices_spec(db: DatabaseV) -> Result<Seq<ChoiceV>, StoreError> {
    if !db.initialized {
        Err(StoreError::NotInitialized)
    } else {
        match decode_choice_rows(db, db.choices) {
            Some(cs) => Ok(cs),
            None => Err(StoreError::UnknownProperty),
        }
    }
}

/// The first effect row with the given identifier.
pub open spec fn find_effect_row(rows: Seq<EffectRowV>, id: u128) -> Option<EffectRowV>
    decreases rows.len(),
{
    if rows.len() == 0 {
        None
    } else if rows[0].id == id {
        Some(rows[0])
    } else {
        find_effect_row(rows.drop_first(), id)
    }
}

/// Decodes one person-effect link: the effect row it names, with the link's
/// remaining duration.
pub open spec fn decode_link_row(db: DatabaseV, l: LinkRowV) -> Result<EffectV, StoreError> {
    match find_effect_row(db.effects, l.effect_id) {
        Some(er) => match token_to_property(er.property) {
            Some(p) => Ok(EffectV { id: er.id, property: p, value: er.value, duration: l.time_left }),
            None => Err(StoreError::UnknownProperty),
        },
        None => Err(StoreError::MissingEffect),
    }
}

pub open spec fn decode_link_rows(db: DatabaseV, rows: Seq<LinkRowV>) -> Result<
    Seq<EffectV>,
    StoreError,
>
    decreases rows.len(),
{
    if rows.len() == 0 {
        Ok(Seq::empty())
    } else {
        match decode_link_rows(db, rows.drop_last()) {
            Ok(init) => match decode_link_row(db, rows.last()) {
                Ok(e) => Ok(init.push(e)),
                Err(err) => Err(err),
            },
            Err(err) => Err(err),
        }
    }
}

pub open spec fn decode_person_row(db: DatabaseV, r: PersonRowV) -> Result<PersonV, StoreError> {
    match decode_link_rows(db, links_for_person(db.links, r.id)) {
        Ok(es) => Ok(
            PersonV {
                id: r.id,
                first_name: r.first_name,
                last_name: r.last_name,
                age: r.age,
                money: r.money,
                credit: r.credit,
                effects: es,
            },
        ),
        Err(err) => Err(err),
    }
}

pub open spec fn decode_person_rows(db: DatabaseV, rows: Seq<PersonRowV>) -> Result<
    Seq<PersonV>,
    StoreError,
>
    decreases rows.len(),
{
    if rows.len() == 0 {
        Ok(Seq::empty())
    } else {
        match decode_person_rows(db, rows.drop_last()) {
            Ok(init) => match decode_person_row(db, rows.last()) {
                Ok(p) => Ok(init.push(p)),
                Err(err) => Err(err),
            },
            Err(err) => Err(err),
        }
    }
}

/// What loading every person returns, for any store state.
pub open spec fn load_people_spec(db: DatabaseV) -> Result<Seq<PersonV>, StoreError> {
    if !db.initialized {
        Err(StoreError::NotInitialized)
    } else {
        match decode_person_rows(db, db.people) {
            Ok(ps) => Ok(ps),
            Err(err) => Err(err),
        }
    }
}

// ---------------------------------------------------------------------------
// Encoding: the domain model to rows
// ---------------------------------------------------------------------------

pub open spec fn choice_row_of(c: ChoiceV) -> ChoiceRowV {
    ChoiceRowV { id: c.id, name: c.name, min_age: c.min_age, max_age: c.max_age }
}

pub open spec fn decision_row_of(choice_id: u128, d: DecisionV) -> DecisionRowV {
    DecisionRowV { id: d.id, choice_id, description: d.description }
}

pub open spec fn effect_row_of(decision_id: u128, e: EffectV) -> EffectRowV {
    EffectRowV {
        id: e.id,
        decision_id,
        property: property_token(e.property),
        value: e.value,
        duration: e.duration,
    }
}

pub open spec fn decision_rows_of(c: ChoiceV) -> Seq<DecisionRowV> {
    Seq::new(c.decisions.len(), |i: int| decision_row_of(c.id, c.decisions[i]))
}

pub open spec fn effect_rows_of_decision(d: DecisionV) -> Seq<EffectRowV> {
    Seq::new(d.effects.len(), |i: int| effect_row_of(d.id, d.effects[i]))
}

pub open spec fn effect_rows_of_decisions(ds: Seq<DecisionV>) -> Seq<EffectRowV>
    decreases ds.len(),
{
    if ds.len() == 0 {
        Seq::empty()
    } else {
        effect_rows_of_decisions(ds.drop_last()) + effect_rows_of_decision(ds.last())
    }
}

/// The store after a choice is inserted: the choice row, then its decision
/// rows, then their effect rows, appended in order.
pub open spec fn db_after_insert_choice(db: DatabaseV, c: ChoiceV) -> DatabaseV {
    DatabaseV {
        choices: db.choices.push(choice_row_of(c)),
        decisions: db.decisions + decision_rows_of(c),
        effects: db.effects + effect_rows_of_decisions(c.decisions),
        ..db
    }
}

pub open spec fn person_row_of(p: PersonV) -> PersonRowV {
    PersonRowV {
        id: p.id,
        first_name: p.first_name,
        last_name: p.last_name,
        age: p.age,
        money: p.money,
        credit: p.credit,
    }
}

/// The store after removing every choice row carrying the identifier.
pub open spec fn choices_without(rows: Seq<ChoiceRowV>, id: u128) -> Seq<ChoiceRowV>
    decreases rows.len(),
{
    if rows.len() == 0 {
        Seq::empty()
    } else {
        choices_without(rows.drop_last(), id) + (if rows.last().id == id {
            Seq::empty()
        } else {
            seq![rows.last()]
        })
    }
}

/// An empty but existing namespace: the state `init` bootstraps.
pub open spec fn empty_db() -> DatabaseV {
    DatabaseV {
        initialized: true,
        choices: Seq::empty(),
        decisions: Seq::empty(),
        effects: Seq::empty(),
        people: Seq::empty(),
        links: Seq::empty(),
    }
}

/// `init` is idempotent: a no-op on an existing namespace, the bootstrap
/// script otherwise.
pub open spec fn db_init_spec(db: DatabaseV) -> DatabaseV {
    if db.initialized {
        db
    } else {
        empty_db()
    }
}

// ---------------------------------------------------------------------------
// Executable operations
// ---------------------------------------------------------------------------

impl Database {
    /// A store whose namespace does not exist yet.
    pub fn new() -> (r: Database)
        ensures
            !r@.initialized,
            r@.choices.len() == 0,
            r@.decisions.len() == 0,
            r@.effects.len() == 0,
            r@.people.len() == 0,
            r@.links.len() == 0,
    {
        let r = Database {
            initialized: false,
            choices: Vec::new(),
            decisions: Vec::new(),
            effects: Vec::new(),
            people: Vec::new(),
            links: Vec::new(),
        };
        proof {
            assert(r@.choices =~= Seq::<ChoiceRowV>::empty());
        }
        r
    }
}

/// Initializes the namespace: a no-op when it already exists, otherwise the
/// bootstrap that creates the empty tables.
pub fn init(db: &mut Database)
    ensures
        final(db)@ =~= db_init_spec(old(db)@),
{
    if !db.initialized {
        db.initialized = true;
        db.choices = Vec::new();
        db.decisions = Vec::new();
        db.effects = Vec::new();
        db.people = Vec::new();
        db.links = Vec::new();
        proof {
            assert(db@.choices =~= Seq::<ChoiceRowV>::empty());
            assert(db@.decisions =~= Seq::<DecisionRowV>::empty());
            assert(db@.effects =~= Seq::<EffectRowV>::empty());
            assert(db@.people =~= Seq::<PersonRowV>::empty());
            assert(db@.links =~= Seq::<LinkRowV>::empty());
        }
    }
}

/// Destroys the whole namespace and re-runs `init`: every table is dropped,
/// then recreated empty. Dropping a namespace that does not exist fails.
pub fn reset_db(db: &mut Database) -> (r: Result<(), StoreError>)
    ensures
        old(db)@.initialized ==> r is Ok && (final(db)@ =~= empty_db()),
        !old(db)@.initialized ==> r == Err::<(), StoreError>(StoreError::NotInitialized)
            && final(db)@ == old(db)@,
{
    if !db.initialized {
        return Err(StoreError::NotInitialized);
    }
    db.initialized = false;
    db.choices = Vec::new();
    db.decisions = Vec::new();
    db.effects = Vec::new();
    db.people = Vec::new();
    db.links = Vec::new();
    init(db);
    proof {
        assert(db@.choices =~= Seq::<ChoiceRowV>::empty());
        assert(db@.decisions =~= Seq::<DecisionRowV>::empty());
        assert(db@.effects =~= Seq::<EffectRowV>::empty());
        assert(db@.people =~= Seq::<PersonRowV>::empty());
        assert(db@.links =~= Seq::<LinkRowV>::empty());
    }
    Ok(())
}

/// A destroyed-then-rebootstrapped store is empty but schema-valid, and a
/// further `init` leaves it exactly as it is: every table present with zero
/// rows.
pub proof fn lemma_reset_then_init(db: DatabaseV)
    requires
        db.initialized,
    ensures
        db_init_spec(empty_db()) == empty_db(),
        empty_db().initialized,
        empty_db().choices.len() == 0,
        empty_db().decisions.len() == 0,
        empty_db().effects.len() == 0,
        empty_db().people.len() == 0,
        empty_db().links.len() == 0,
{
}

// ---------------------------------------------------------------------------
// Row pushes that track the deep view
// ---------------------------------------------------------------------------

fn push_choice_row(v: &mut Vec<ChoiceRow>, r: ChoiceRow)
    ensures
        final(v).deep_view() == old(v).deep_view().push(r@),
{
    let ghost rx = r;
    let ghost prev_raw = v@;
    let ghost prev_deep = v.deep_view();
    v.push(r);
    proof {
        lemma_deep_seq_push(prev_raw, rx);
        assert(prev_deep =~= deep_seq(prev_raw));
        assert(v.deep_view() =~= deep_seq(prev_raw.push(rx)));
        assert(v.deep_view() =~= prev_deep.push(rx@));
    }
}

fn push_decision_row(v: &mut Vec<DecisionRow>, r: DecisionRow)
    ensures
        final(v).deep_view() == old(v).deep_view().push(r@),
{
    let ghost rx = r;
    let ghost prev_raw = v@;
    let ghost prev_deep = v.deep_view();
    v.push(r);
    proof {
        lemma_deep_seq_push(prev_raw, rx);
        assert(prev_deep =~= deep_seq(prev_raw));
        assert(v.deep_view() =~= deep_seq(prev_raw.push(rx)));
        assert(v.deep_view() =~= prev_deep.push(rx@));
    }
}

fn push_effect_row(v: &mut Vec<EffectRow>, r: EffectRow)
    ensures
        final(v).deep_view() == old(v).deep_view().push(r@),
{
    let ghost rx = r;
    let ghost prev_raw = v@;
    let ghost prev_deep = v.deep_view();
    v.push(r);
    proof {
        lemma_deep_seq_push(prev_raw, rx);
        assert(prev_deep =~= deep_seq(prev_raw));
        assert(v.deep_view() =~= deep_seq(prev_raw.push(rx)));
        assert(v.deep_view() =~= prev_deep.push(rx@));
    }
}

fn push_link_row(v: &mut Vec<LinkRow>, r: LinkRow)
    ensures
        final(v).deep_view() == old(v).deep_view().push(r@),
{
    let ghost rx = r;
    let ghost prev_raw = v@;
    let ghost prev_deep = v.deep_view();
    v.push(r);
    proof {
        lemma_deep_seq_push(prev_raw, rx);
        assert(prev_deep =~= deep_seq(prev_raw));
        assert(v.deep_view() =~= deep_seq(prev_raw.push(rx)));
        assert(v.deep_view() =~= prev_deep.push(rx@));
    }
}

fn push_effect(v: &mut Vec<Effect>, r: Effect)
    ensures
        final(v).deep_view() == old(v).deep_view().push(r@),
{
    let ghost rx = r;
    let ghost prev_raw = v@;
    let ghost prev_deep = v.deep_view();
    v.push(r);
    proof {
        lemma_deep_seq_push(prev_raw, rx);
        assert(prev_deep =~= deep_seq(prev_raw));
        assert(v.deep_view() =~= deep_seq(prev_raw.push(rx)));
        assert(v.deep_view() =~= prev_deep.push(rx@));
    }
}

fn push_decision(v: &mut Vec<Decision>, r: Decision)
    ensures
        final(v).deep_view() == old(v).deep_view().push(r@),
{
    let ghost rx = r;
    let ghost prev_raw = v@;
    let ghost prev_deep = v.deep_view();
    v.push(r);
    proof {
        lemma_deep_seq_push(prev_raw, rx);
        assert(prev_deep =~= deep_seq(prev_raw));
        assert(v.deep_view() =~= deep_seq(prev_raw.push(rx)));
        assert(v.deep_view() =~= prev_deep.push(rx@));
    }
}

fn push_choice(v: &mut Vec<Choice>, r: Choice)
    ensures
        final(v).deep_view() == old(v).deep_view().push(r@),
{
    let ghost rx = r;
    let ghost prev_raw = v@;
    let ghost prev_deep = v.deep_view();
    v.push(r);
    proof {
        lemma_deep_seq_push(prev_raw, rx);
        assert(prev_deep =~= deep_seq(prev_raw));
        assert(v.deep_view() =~= deep_seq(prev_raw.push(rx)));
        assert(v.deep_view() =~= prev_deep.push(rx@));
    }
}

fn push_person(v: &mut Vec<Person>, r: Person)
    ensures
        final(v).deep_view() == old(v).deep_view().push(r@),
{
    let ghost rx = r;
    let ghost prev_raw = v@;
    let ghost prev_deep = v.deep_view();
    v.push(r);
    proof {
        lemma_deep_seq_push(prev_raw, rx);
        assert(prev_deep =~= deep_seq(prev_raw));
        assert(v.deep_view() =~= deep_seq(prev_raw.push(rx)));
        assert(v.deep_view() =~= prev_deep.push(rx@));
    }
}

// ---------------------------------------------------------------------------
// Inserts and removal
// ---------------------------------------------------------------------------

/// Inserts a choice: its row first, then a row per decision, then a row per
/// effect, in order and without a surrounding transaction.
pub fn insert_choice(db: &mut Database, choice: &Choice) -> (r: Result<(), StoreError>)
    ensures
        old(db)@.initialized ==> r is Ok && (final(db)@ =~= db_after_insert_choice(
            old(db)@,
            choice@,
        )),
        !old(db)@.initialized ==> r == Err::<(), StoreError>(StoreError::NotInitialized)
            && final(db)@ == old(db)@,
{
    if !db.initialized {
        return Err(StoreError::NotInitialized);
    }
    let row = ChoiceRow {
        id: choice.id,
        name: choice.name.clone(),
        min_age: choice.min_age,
        max_age: choice.max_age,
    };
    proof {
        assert(row@ =~= choice_row_of(choice@));
    }
    push_choice_row(&mut db.choices, row);
    let n = choice.decisions.len();
    let mut i: usize = 0;
    proof {
        assert(decision_rows_of(choice@).take(0) =~= Seq::<DecisionRowV>::empty());
        assert(effect_rows_of_decisions(choice@.decisions.take(0)) =~= Seq::<EffectRowV>::empty());
        assert(db@.decisions + Seq::<DecisionRowV>::empty() =~= db@.decisions);
        assert(db@.effects + Seq::<EffectRowV>::empty() =~= db@.effects);
    }
    while i < n
        invariant
            i <= n,
            n == choice.decisions.len(),
            db.initialized,
            db@.choices == old(db)@.choices.push(choice_row_of(choice@)),
            db@.people == old(db)@.people,
            db@.links == old(db)@.links,
            db@.decisions == old(db)@.decisions + decision_rows_of(choice@).take(i as int),
            db@.effects == old(db)@.effects + effect_rows_of_decisions(
                choice@.decisions.take(i as int),
            ),
        decreases n - i,
    {
        proof {
            assert(choice@.decisions[i as int] == choice.decisions[i as int]@);
        }
        let drow = DecisionRow {
            id: choice.decisions[i].id,
            choice_id: choice.id,
            description: choice.decisions[i].description.clone(),
        };
        proof {
            assert(drow@ =~= decision_row_of(choice@.id, choice@.decisions[i as int]));
        }
        push_decision_row(&mut db.decisions, drow);
        proof {
            assert(decision_rows_of(choice@).take(i as int + 1) =~= decision_rows_of(
                choice@,
            ).take(i as int).push(decision_row_of(choice@.id, choice@.decisions[i as int])));
            assert(old(db)@.decisions + decision_rows_of(choice@).take(i as int + 1) =~= (old(
                db,
            )@.decisions + decision_rows_of(choice@).take(i as int)).push(
                decision_row_of(choice@.id, choice@.decisions[i as int]),
            ));
        }
        let m = choice.decisions[i].effects.len();
        let mut j: usize = 0;
        proof {
            assert(effect_rows_of_decision(choice@.decisions[i as int]).take(0)
                =~= Seq::<EffectRowV>::empty());
            assert(db@.effects + Seq::<EffectRowV>::empty() =~= db@.effects);
            assert((old(db)@.effects + effect_rows_of_decisions(choice@.decisions.take(i as int)))
                + Seq::<EffectRowV>::empty() =~= old(db)@.effects + (effect_rows_of_decisions(
                choice@.decisions.take(i as int),
            ) + Seq::<EffectRowV>::empty()));
        }
        while j < m
            invariant
                j <= m,
                i < n,
                n == choice.decisions.len(),
                m == choice.decisions[i as int].effects.len(),
                db.initialized,
                db@.choices == old(db)@.choices.push(choice_row_of(choice@)),
                db@.people == old(db)@.people,
                db@.links == old(db)@.links,
                db@.decisions == old(db)@.decisions + decision_rows_of(choice@).take(i as int + 1),
                db@.effects == old(db)@.effects + (effect_rows_of_decisions(
                    choice@.decisions.take(i as int),
                ) + effect_rows_of_decision(choice@.decisions[i as int]).take(j as int)),
            decreases m - j,
        {
            proof {
                assert(choice@.decisions[i as int] == choice.decisions[i as int]@);
                assert(choice@.decisions[i as int].effects[j as int] == choice.decisions[
                    i as int
                ].effects[j as int]@);
            }
            let tok = choice.decisions[i].effects[j].property.to_token();
            let erow = EffectRow {
                id: choice.decisions[i].effects[j].id,
                decision_id: choice.decisions[i].id,
                property: tok,
                value: choice.decisions[i].effects[j].value.clone(),
                duration: choice.decisions[i].effects[j].duration,
            };
            proof {
                assert(erow@ =~= effect_row_of(
                    choice@.decisions[i as int].id,
                    choice@.decisions[i as int].effects[j as int],
                ));
            }
            push_effect_row(&mut db.effects, erow);
            proof {
                let dv = choice@.decisions[i as int];
                assert(effect_rows_of_decision(dv).take(j as int + 1) =~= effect_rows_of_decision(
                    dv,
                ).take(j as int).push(effect_row_of(dv.id, dv.effects[j as int])));
                assert(old(db)@.effects + (effect_rows_of_decisions(
                    choice@.decisions.take(i as int),
                ) + effect_rows_of_decision(dv).take(j as int + 1)) =~= (old(db)@.effects
                    + (effect_rows_of_decisions(choice@.decisions.take(i as int))
                    + effect_rows_of_decision(dv).take(j as int))).push(
                    effect_row_of(dv.id, dv.effects[j as int]),
                ));
            }
            j = j + 1;
        }
        proof {
            let dv = choice@.decisions[i as int];
            assert(effect_rows_of_decision(dv).take(m as int) =~= effect_rows_of_decision(dv));
            assert(choice@.decisions.take(i as int + 1).drop_last() =~= choice@.decisions.take(
                i as int,
            ));
            assert(choice@.decisions.take(i as int + 1).last() == dv);
            assert(effect_rows_of_decisions(choice@.decisions.take(i as int + 1))
                == effect_rows_of_decisions(choice@.decisions.take(i as int))
                + effect_rows_of_decision(dv));
        }
        i = i + 1;
    }
    proof {
        assert(decision_rows_of(choice@).take(n as int) =~= decision_rows_of(choice@));
        assert(choice@.decisions.take(n as int) =~= choice@.decisions);
    }
    Ok(())
}

/// Inserts a person row, then one link row per attached effect, each link
/// under a freshly generated identifier, carrying the effect's remaining
/// duration. The effect rows themselves are assumed to exist already.
pub fn insert_person(db: &mut Database, person: &Person) -> (r: Result<(), StoreError>)
    ensures
        !old(db)@.initialized ==> r == Err::<(), StoreError>(StoreError::NotInitialized)
            && final(db)@ == old(db)@,
        old(db)@.initialized ==> {
            &&& r is Ok
            &&& final(db)@.people == old(db)@.people.push(person_row_of(person@))
            &&& final(db)@.links.len() == old(db)@.links.len() + person@.effects.len()
            &&& final(db)@.links.take(old(db)@.links.len() as int) == old(db)@.links
            &&& forall|k: int|
                0 <= k < person@.effects.len() ==> {
                    &&& (#[trigger] final(db)@.links[old(db)@.links.len() + k]).person_id
                        == person@.id
                    &&& final(db)@.links[old(db)@.links.len() + k].effect_id
                        == person@.effects[k].id
                    &&& final(db)@.links[old(db)@.links.len() + k].time_left
                        == person@.effects[k].duration
                }
            &&& final(db)@.choices == old(db)@.choices
            &&& final(db)@.decisions == old(db)@.decisions
            &&& final(db)@.effects == old(db)@.effects
            &&& final(db)@.initialized
        },
{
    if !db.initialized {
        return Err(StoreError::NotInitialized);
    }
    let prow = PersonRow {
        id: person.id,
        first_name: person.first_name.clone(),
        last_name: person.last_name.clone(),
        age: person.age,
        money: person.money,
        credit: person.credit,
    };
    proof {
        assert(prow@ =~= person_row_of(person@));
    }
    let ghost base = db@.links;
    let n = person.effects.len();
    let mut i: usize = 0;
    let ghost prowx = prow;
    let ghost prev_raw = db.people@;
    let ghost prev_deep = db.people.deep_view();
    db.people.push(prow);
    proof {
        lemma_deep_seq_push(prev_raw, prowx);
        assert(prev_deep =~= deep_seq(prev_raw));
        assert(db.people.deep_view() =~= deep_seq(prev_raw.push(prowx)));
        assert(db.people.deep_view() =~= prev_deep.push(prowx@));
    }
    while i < n
        invariant
            i <= n,
            n == person.effects.len(),
            db.initialized,
            db@.people == old(db)@.people.push(person_row_of(person@)),
            db@.choices == old(db)@.choices,
            db@.decisions == old(db)@.decisions,
            db@.effects == old(db)@.effects,
            base == old(db)@.links,
            db@.links.len() == base.len() + i,
            db@.links.take(base.len() as int) == base,
            forall|k: int|
                0 <= k < i ==> {
                    &&& (#[trigger] db@.links[base.len() + k]).person_id == person@.id
                    &&& db@.links[base.len() + k].effect_id == person@.effects[k].id
                    &&& db@.links[base.len() + k].time_left == person@.effects[k].duration
                },
        decreases n - i,
    {
        proof {
            assert(person@.effects[i as int] == person.effects[i as int]@);
        }
        let lrow = LinkRow {
            id: fresh_id(),
            person_id: person.id,
            effect_id: person.effects[i].id,
            time_left: person.effects[i].duration,
        };
        let ghost prev_links = db@.links;
        push_link_row(&mut db.links, lrow);
        proof {
            assert(db@.links.take(base.len() as int) =~= prev_links.take(base.len() as int));
        }
        i = i + 1;
    }
    Ok(())
}


/// Deletes every choice row carrying the identifier; decision and effect
/// rows are not touched.
pub fn remove_choice(db: &mut Database, choice_id: u128) -> (r: Result<(), StoreError>)
    ensures
        !old(db)@.initialized ==> r == Err::<(), StoreError>(StoreError::NotInitialized)
            && final(db)@ == old(db)@,
        old(db)@.initialized ==> {
            &&& r is Ok
            &&& final(db)@.choices == choices_without(old(db)@.choices, choice_id)
            &&& final(db)@.decisions == old(db)@.decisions
            &&& final(db)@.effects == old(db)@.effects
            &&& final(db)@.people == old(db)@.people
            &&& final(db)@.links == old(db)@.links
            &&& final(db)@.initialized
        },
{
    if !db.initialized {
        return Err(StoreError::NotInitialized);
    }
    let mut kept: Vec<ChoiceRow> = Vec::new();
    let n = db.choices.len();
    let mut i: usize = 0;
    proof {
        assert(kept.deep_view() =~= Seq::<ChoiceRowV>::empty());
        assert(choices_without(db@.choices.take(0), choice_id) =~= Seq::<ChoiceRowV>::empty());
    }
    while i < n
        invariant
            i <= n,
            n == db.choices.len(),
            db == old(db),
            kept.deep_view() == choices_without(db@.choices.take(i as int), choice_id),
        decreases n - i,
    {
        proof {
            assert(db@.choices.take(i as int + 1).drop_last() =~= db@.choices.take(i as int));
            assert(db@.choices.take(i as int + 1).last() == db@.choices[i as int]);
            assert(db@.choices[i as int] == db.choices[i as int]@);
        }
        if db.choices[i].id != choice_id {
            let copy = ChoiceRow {
                id: db.choices[i].id,
                name: db.choices[i].name.clone(),
                min_age: db.choices[i].min_age,
                max_age: db.choices[i].max_age,
            };
            proof {
                assert(copy@ =~= db@.choices[i as int]);
            }
            push_choice_row(&mut kept, copy);
            proof {
                assert(choices_without(db@.choices.take(i as int), choice_id).push(
                    db@.choices[i as int],
                ) =~= choices_without(db@.choices.take(i as int + 1), choice_id));
            }
        } else {
            proof {
                assert(choices_without(db@.choices.take(i as int + 1), choice_id)
                    =~= choices_without(db@.choices.take(i as int), choice_id));
            }
        }
        i = i + 1;
    }
    proof {
        assert(db@.choices.take(n as int) =~= db@.choices);
    }
    db.choices = kept;
    Ok(())
}

// ---------------------------------------------------------------------------
// Loads
// ---------------------------------------------------------------------------

/// Loads all effects of a decision, decoding each stored token; the first
/// unrecognized token fails the whole load.
fn get_effects_from_decision_id(db: &Database, decision_id: u128) -> (r: Result<
    Vec<Effect>,
    StoreError,
>)
    ensures
        match decode_effect_rows(effects_for_decision(db@.effects, decision_id)) {
            Some(es) => r is Ok && r->Ok_0.deep_view() == es,
            None => r == Err::<Vec<Effect>, StoreError>(StoreError::UnknownProperty),
        },
{
    let mut acc: Vec<Effect> = Vec::new();
    let mut bad = false;
    let n = db.effects.len();
    let mut i: usize = 0;
    proof {
        assert(effects_for_decision(db@.effects.take(0), decision_id) =~= Seq::<EffectRowV>::empty());
        assert(acc.deep_view() =~= Seq::<EffectV>::empty());
    }
    while i < n
        invariant
            i <= n,
            n == db.effects.len(),
            match decode_effect_rows(effects_for_decision(db@.effects.take(i as int), decision_id)) {
                Some(es) => !bad && acc.deep_view() == es,
                None => bad,
            },
        decreases n - i,
    {
        proof {
            assert(db@.effects.take(i as int + 1).drop_last() =~= db@.effects.take(i as int));
            assert(db@.effects.take(i as int + 1).last() == db@.effects[i as int]);
            assert(db@.effects[i as int] == db.effects[i as int]@);
        }
        if db.effects[i].decision_id == decision_id {
            proof {
                let filt = effects_for_decision(db@.effects.take(i as int), decision_id);
                let filt2 = effects_for_decision(db@.effects.take(i as int + 1), decision_id);
                assert(filt2 =~= filt + seq![db@.effects[i as int]]);
                assert(filt2.drop_last() =~= filt);
                assert(filt2.last() == db@.effects[i as int]);
            }
            match Property::from_str(db.effects[i].property.as_str()) {
                Ok(p) => {
                    if !bad {
                        let e = Effect {
                            id: db.effects[i].id,
                            property: p,
                            value: db.effects[i].value.clone(),
                            duration: db.effects[i].duration,
                        };
                        proof {
                            assert(e@ =~= decode_effect_row(db@.effects[i as int])->Some_0);
                        }
                        push_effect(&mut acc, e);
                    }
                },
                Err(_) => {
                    bad = true;
                },
            }
        } else {
            proof {
                assert(effects_for_decision(db@.effects.take(i as int + 1), decision_id)
                    =~= effects_for_decision(db@.effects.take(i as int), decision_id));
            }
        }
        i = i + 1;
    }
    proof {
        assert(db@.effects.take(n as int) =~= db@.effects);
    }
    if bad {
        Err(StoreError::UnknownProperty)
    } else {
        Ok(acc)
    }
}

/// Loads all decisions of a choice, with their effects.
fn get_decisions_from_choice_id(db: &Database, choice_id: u128) -> (r: Result<
    Vec<Decision>,
    StoreError,
>)
    ensures
        match decode_decision_rows(db@, decisions_for_choice(db@.decisions, choice_id)) {
            Some(ds) => r is Ok && r->Ok_0.deep_view() == ds,
            None => r == Err::<Vec<Decision>, StoreError>(StoreError::UnknownProperty),
        },
{
    let mut acc: Vec<Decision> = Vec::new();
    let mut bad = false;
    let n = db.decisions.len();
    let mut i: usize = 0;
    proof {
        assert(decisions_for_choice(db@.decisions.take(0), choice_id)
            =~= Seq::<DecisionRowV>::empty());
        assert(acc.deep_view() =~= Seq::<DecisionV>::empty());
    }
    while i < n
        invariant
            i <= n,
            n == db.decisions.len(),
            match decode_decision_rows(
                db@,
                decisions_for_choice(db@.decisions.take(i as int), choice_id),
            ) {
                Some(ds) => !bad && acc.deep_view() == ds,
                None => bad,
            },
        decreases n - i,
    {
        proof {
            assert(db@.decisions.take(i as int + 1).drop_last() =~= db@.decisions.take(i as int));
            assert(db@.decisions.take(i as int + 1).last() == db@.decisions[i as int]);
            assert(db@.decisions[i as int] == db.decisions[i as int]@);
        }
        if db.decisions[i].choice_id == choice_id {
            proof {
                let filt = decisions_for_choice(db@.decisions.take(i as int), choice_id);
                let filt2 = decisions_for_choice(db@.decisions.take(i as int + 1), choice_id);
                assert(filt2 =~= filt + seq![db@.decisions[i as int]]);
                assert(filt2.drop_last() =~= filt);
                assert(filt2.last() == db@.decisions[i as int]);
            }
            match get_effects_from_decision_id(db, db.decisions[i].id) {
                Ok(effects) => {
                    if !bad {
                        let d = Decision {
                            id: db.decisions[i].id,
                            description: db.decisions[i].description.clone(),
                            effects,
                        };
                        proof {
                            assert(d@ =~= decode_decision_row(db@, db@.decisions[i as int])->Some_0);
                        }
                        push_decision(&mut acc, d);
                    }
                },
                Err(_) => {
                    bad = true;
                },
            }
        } else {
            proof {
                assert(decisions_for_choice(db@.decisions.take(i as int + 1), choice_id)
                    =~= decisions_for_choice(db@.decisions.take(i as int), choice_id));
            }
        }
        i = i + 1;
    }
    proof {
        assert(db@.decisions.take(n as int) =~= db@.decisions);
    }
    if bad {
        Err(StoreError::UnknownProperty)
    } else {
        Ok(acc)
    }
}

/// Loads every choice, fanning out to its decisions and their effects.
pub fn load_choices_from_database(db: &Database) -> (r: Result<Vec<Choice>, StoreError>)
    ensures
        match load_choices_spec(db@) {
            Ok(cs) => r is Ok && r->Ok_0.deep_view() == cs,
            Err(e) => r == Err::<Vec<Choice>, StoreError>(e),
        },
{
    if !db.initialized {
        return Err(StoreError::NotInitialized);
    }
    let mut acc: Vec<Choice> = Vec::new();
    let mut bad = false;
    let n = db.choices.len();
    let mut i: usize = 0;
    proof {
        assert(db@.choices.take(0) =~= Seq::<ChoiceRowV>::empty());
        assert(acc.deep_view() =~= Seq::<ChoiceV>::empty());
    }
    while i < n
        invariant
            i <= n,
            n == db.choices.len(),
            match decode_choice_rows(db@, db@.choices.take(i as int)) {
                Some(cs) => !bad && acc.deep_view() == cs,
                None => bad,
            },
        decreases n - i,
    {
        proof {
            assert(db@.choices.take(i as int + 1).drop_last() =~= db@.choices.take(i as int));
            assert(db@.choices.take(i as int + 1).last() == db@.choices[i as int]);
            assert(db@.choices[i as int] == db.choices[i as int]@);
        }
        match get_decisions_from_choice_id(db, db.choices[i].id) {
            Ok(decisions) => {
                if !bad {
                    let c = Choice {
                        id: db.choices[i].id,
                        name: db.choices[i].name.clone(),
                        decisions,
                        min_age: db.choices[i].min_age,
                        max_age: db.choices[i].max_age,
                    };
                    proof {
                        assert(c@ =~= decode_choice_row(db@, db@.choices[i as int])->Some_0);
                    }
                    push_choice(&mut acc, c);
                }
            },
            Err(_) => {
                bad = true;
            },
        }
        i = i + 1;
    }
    proof {
        assert(db@.choices.take(n as int) =~= db@.choices);
    }
    if bad {
        Err(StoreError::UnknownProperty)
    } else {
        Ok(acc)
    }
}

/// Finds the first effect row with the given identifier.
fn find_effect(db: &Database, id: u128) -> (r: Option<usize>)
    ensures
        match find_effect_row(db@.effects, id) {
            Some(rv) => r is Some && r->Some_0 < db@.effects.len() && db@.effects[
                r->Some_0 as int
            ] == rv,
            None => r is None,
        },
{
    let n = db.effects.len();
    let mut j: usize = 0;
    proof {
        assert(db@.effects.skip(0) =~= db@.effects);
    }
    while j < n
        invariant
            j <= n,
            n == db.effects.len(),
            find_effect_row(db@.effects, id) == find_effect_row(db@.effects.skip(j as int), id),
        decreases n - j,
    {
        proof {
            assert(db@.effects.skip(j as int)[0] == db@.effects[j as int]);
            assert(db@.effects[j as int] == db.effects[j as int]@);
            assert(db@.effects.skip(j as int).drop_first() =~= db@.effects.skip(j as int + 1));
        }
        if db.effects[j].id == id {
            return Some(j);
        }
        j = j + 1;
    }
    proof {
        assert(db@.effects.skip(n as int) =~= Seq::<EffectRowV>::empty());
    }
    None
}

/// Loads all effects attached to a person through the link table: each link
/// names an effect row and carries the remaining duration.
fn get_effects_from_person_id(db: &Database, person_id: u128) -> (r: Result<
    Vec<Effect>,
    StoreError,
>)
    ensures
        match decode_link_rows(db@, links_for_person(db@.links, person_id)) {
            Ok(es) => r is Ok && r->Ok_0.deep_view() == es,
            Err(e) => r == Err::<Vec<Effect>, StoreError>(e),
        },
{
    let mut acc: Vec<Effect> = Vec::new();
    let mut err: Option<StoreError> = None;
    let n = db.links.len();
    let mut i: usize = 0;
    proof {
        assert(links_for_person(db@.links.take(0), person_id) =~= Seq::<LinkRowV>::empty());
        assert(acc.deep_view() =~= Seq::<EffectV>::empty());
    }
    while i < n
        invariant
            i <= n,
            n == db.links.len(),
            match decode_link_rows(db@, links_for_person(db@.links.take(i as int), person_id)) {
                Ok(es) => err is None && acc.deep_view() == es,
                Err(e) => err == Some(e),
            },
        decreases n - i,
    {
        proof {
            assert(db@.links.take(i as int + 1).drop_last() =~= db@.links.take(i as int));
            assert(db@.links.take(i as int + 1).last() == db@.links[i as int]);
            assert(db@.links[i as int] == db.links[i as int]@);
        }
        if db.links[i].person_id == person_id {
            proof {
                let filt = links_for_person(db@.links.take(i as int), person_id);
                let filt2 = links_for_person(db@.links.take(i as int + 1), person_id);
                assert(filt2 =~= filt + seq![db@.links[i as int]]);
                assert(filt2.drop_last() =~= filt);
                assert(filt2.last() == db@.links[i as int]);
            }
            match find_effect(db, db.links[i].effect_id) {
                Some(idx) => {
                    match Property::from_str(db.effects[idx].property.as_str()) {
                        Ok(p) => {
                            if err.is_none() {
                                let e = Effect {
                                    id: db.effects[idx].id,
                                    property: p,
                                    value: db.effects[idx].value.clone(),
                                    duration: db.links[i].time_left,
                                };
                                proof {
                                    assert(e@ =~= decode_link_row(db@, db@.links[i as int])->Ok_0);
                                }
                                push_effect(&mut acc, e);
                            }
                        },
                        Err(_) => {
                            if err.is_none() {
                                err = Some(StoreError::UnknownProperty);
                            }
                        },
                    }
                },
                None => {
                    if err.is_none() {
                        err = Some(StoreError::MissingEffect);
                    }
                },
            }
        } else {
            proof {
                assert(links_for_person(db@.links.take(i as int + 1), person_id)
                    =~= links_for_person(db@.links.take(i as int), person_id));
            }
        }
        i = i + 1;
    }
    proof {
        assert(db@.links.take(n as int) =~= db@.links);
    }
    match err {
        Some(e) => Err(e),
        None => Ok(acc),
    }
}

/// Loads every person, with the effects joined through the link table.
pub fn load_people_from_database(db: &Database) -> (r: Result<Vec<Person>, StoreError>)
    ensures
        match load_people_spec(db@) {
            Ok(ps) => r is Ok && r->Ok_0.deep_view() == ps,
            Err(e) => r == Err::<Vec<Person>, StoreError>(e),
        },
{
    if !db.initialized {
        return Err(StoreError::NotInitialized);
    }
    let mut acc: Vec<Person> = Vec::new();
    let mut err: Option<StoreError> = None;
    let n = db.people.len();
    let mut i: usize = 0;
    proof {
        assert(db@.people.take(0) =~= Seq::<PersonRowV>::empty());
        assert(acc.deep_view() =~= Seq::<PersonV>::empty());
    }
    while i < n
        invariant
            i <= n,
            n == db.people.len(),
            match decode_person_rows(db@, db@.people.take(i as int)) {
                Ok(ps) => err is None && acc.deep_view() == ps,
                Err(e) => err == Some(e),
            },
        decreases n - i,
    {
        proof {
            assert(db@.people.take(i as int + 1).drop_last() =~= db@.people.take(i as int));
            assert(db@.people.take(i as int + 1).last() == db@.people[i as int]);
            assert(db@.people[i as int] == db.people[i as int]@);
        }
        match get_effects_from_person_id(db, db.people[i].id) {
            Ok(effects) => {
                if err.is_none() {
                    let p = Person {
                        id: db.people[i].id,
                        first_name: db.people[i].first_name.clone(),
                        last_name: db.people[i].last_name.clone(),
                        age: db.people[i].age,
                        money: db.people[i].money,
                        credit: db.people[i].credit,
                        effects,
                    };
                    proof {
                        assert(p@ =~= decode_person_row(db@, db@.people[i as int])->Ok_0);
                    }
                    push_person(&mut acc, p);
                }
            },
            Err(e) => {
                if err.is_none() {
                    err = Some(e);
                }
            },
        }
        i = i + 1;
    }
    proof {
        assert(db@.people.take(n as int) =~= db@.people);
    }
    match err {
        Some(e) => Err(e),
        None => Ok(acc),
    }
}

/// Decoding a run of effect rows fails exactly when some row's stored token
/// is unrecognized: a bad token is never defaulted over, and without one the
/// decode succeeds.
pub proof fn lemma_unknown_token_fails(rows: Seq<EffectRowV>)
    ensures
        decode_effect_rows(rows) is None <==> exists|i: int|
            0 <= i < rows.len() && token_to_property(#[trigger] rows[i].property) is None,
    decreases rows.len(),
{
    if rows.len() > 0 {
        let pre = rows.drop_last();
        lemma_unknown_token_fails(pre);
        assert(forall|i: int| 0 <= i < pre.len() ==> pre[i] == rows[i]);
        if decode_effect_rows(rows) is None {
            if decode_effect_rows(pre) is None {
                let i = choose|i: int|
                    0 <= i < pre.len() && token_to_property(#[trigger] pre[i].property) is None;
                assert(token_to_property(rows[i].property) is None);
            } else {
                assert(token_to_property(rows[rows.len() - 1].property) is None);
            }
        }
        if exists|i: int|
            0 <= i < rows.len() && token_to_property(#[trigger] rows[i].property) is None {
            let i = choose|i: int|
                0 <= i < rows.len() && token_to_property(#[trigger] rows[i].property) is None;
            if i < rows.len() - 1 {
                assert(token_to_property(pre[i].property) is None);
                assert(decode_effect_rows(pre) is None);
            } else {
                assert(decode_effect_row(rows.last()) is None);
            }
        }
    }
}

// ---------------------------------------------------------------------------
// Relational round trip
// ---------------------------------------------------------------------------

proof fn lemma_filter_decisions_all_match(rows: Seq<DecisionRowV>, id: u128)
    requires
        forall|i: int| 0 <= i < rows.len() ==> (#[trigger] rows[i]).choice_id == id,
    ensures
        decisions_for_choice(rows, id) == rows,
    decreases rows.len(),
{
    if rows.len() > 0 {
        lemma_filter_decisions_all_match(rows.drop_last(), id);
        assert(decisions_for_choice(rows, id) =~= rows.drop_last() + seq![rows.last()]);
        assert(rows.drop_last() + seq![rows.last()] =~= rows);
    }
}

proof fn lemma_filter_effects_all_match(rows: Seq<EffectRowV>, id: u128)
    requires
        forall|i: int| 0 <= i < rows.len() ==> (#[trigger] rows[i]).decision_id == id,
    ensures
        effects_for_decision(rows, id) == rows,
    decreases rows.len(),
{
    if rows.len() > 0 {
        lemma_filter_effects_all_match(rows.drop_last(), id);
        assert(effects_for_decision(rows, id) =~= rows.drop_last() + seq![rows.last()]);
        assert(rows.drop_last() + seq![rows.last()] =~= rows);
    }
}

proof fn lemma_filter_effects_none_match(rows: Seq<EffectRowV>, id: u128)
    requires
        forall|i: int| 0 <= i < rows.len() ==> (#[trigger] rows[i]).decision_id != id,
    ensures
        effects_for_decision(rows, id) == Seq::<EffectRowV>::empty(),
    decreases rows.len(),
{
    if rows.len() > 0 {
        lemma_filter_effects_none_match(rows.drop_last(), id);
        assert(effects_for_decision(rows, id) =~= Seq::<EffectRowV>::empty());
    }
}

proof fn lemma_filter_effects_concat(a: Seq<EffectRowV>, b: Seq<EffectRowV>, id: u128)
    ensures
        effects_for_decision(a + b, id) == effects_for_decision(a, id) + effects_for_decision(
            b,
            id,
        ),
    decreases b.len(),
{
    if b.len() == 0 {
        assert(a + b =~= a);
        assert(effects_for_decision(a, id) + effects_for_decision(b, id) =~= effects_for_decision(
            a,
            id,
        ));
    } else {
        assert((a + b).drop_last() =~= a + b.drop_last());
        assert((a + b).last() == b.last());
        lemma_filter_effects_concat(a, b.drop_last(), id);
        assert(effects_for_decision(a + b, id) =~= effects_for_decision(a, id)
            + effects_for_decision(b, id));
    }
}

proof fn lemma_effect_groups_none(ds: Seq<DecisionV>, id: u128)
    requires
        forall|i: int| 0 <= i < ds.len() ==> (#[trigger] ds[i]).id != id,
    ensures
        effects_for_decision(effect_rows_of_decisions(ds), id) == Seq::<EffectRowV>::empty(),
    decreases ds.len(),
{
    if ds.len() > 0 {
        lemma_effect_groups_none(ds.drop_last(), id);
        lemma_filter_effects_concat(
            effect_rows_of_decisions(ds.drop_last()),
            effect_rows_of_decision(ds.last()),
            id,
        );
        assert(forall|i: int|
            0 <= i < effect_rows_of_decision(ds.last()).len() ==> (#[trigger] effect_rows_of_decision(
                ds.last(),
            )[i]).decision_id != id);
        lemma_filter_effects_none_match(effect_rows_of_decision(ds.last()), id);
        assert(effects_for_decision(effect_rows_of_decisions(ds), id)
            =~= Seq::<EffectRowV>::empty());
    }
}

proof fn lemma_effects_of_decisions_filter(ds: Seq<DecisionV>, k: int)
    requires
        0 <= k < ds.len(),
        forall|i: int, j: int| 0 <= i < j < ds.len() ==> ds[i].id != ds[j].id,
    ensures
        effects_for_decision(effect_rows_of_decisions(ds), ds[k].id) == effect_rows_of_decision(
            ds[k],
        ),
    decreases ds.len(),
{
    let id = ds[k].id;
    lemma_filter_effects_concat(
        effect_rows_of_decisions(ds.drop_last()),
        effect_rows_of_decision(ds.last()),
        id,
    );
    if k == ds.len() - 1 {
        assert(forall|i: int| 0 <= i < ds.drop_last().len() ==> (#[trigger] ds.drop_last()[i]).id != id);
        lemma_effect_groups_none(ds.drop_last(), id);
        assert(forall|i: int|
            0 <= i < effect_rows_of_decision(ds.last()).len() ==> (#[trigger] effect_rows_of_decision(
                ds.last(),
            )[i]).decision_id == id);
        lemma_filter_effects_all_match(effect_rows_of_decision(ds.last()), id);
        assert(Seq::<EffectRowV>::empty() + effect_rows_of_decision(ds[k])
            =~= effect_rows_of_decision(ds[k]));
    } else {
        assert(ds.drop_last()[k] == ds[k]);
        lemma_effects_of_decisions_filter(ds.drop_last(), k);
        assert(ds.last().id != id);
        assert(forall|i: int|
            0 <= i < effect_rows_of_decision(ds.last()).len() ==> (#[trigger] effect_rows_of_decision(
                ds.last(),
            )[i]).decision_id != id);
        lemma_filter_effects_none_match(effect_rows_of_decision(ds.last()), id);
        assert(effect_rows_of_decision(ds[k]) + Seq::<EffectRowV>::empty()
            =~= effect_rows_of_decision(ds[k]));
    }
}

proof fn lemma_decode_effect_group_prefix(d: DecisionV, m: int)
    requires
        0 <= m <= d.effects.len(),
    ensures
        decode_effect_rows(effect_rows_of_decision(d).take(m)) == Some(d.effects.take(m)),
    decreases m,
{
    if m == 0 {
        assert(effect_rows_of_decision(d).take(0) =~= Seq::<EffectRowV>::empty());
        assert(d.effects.take(0) =~= Seq::<EffectV>::empty());
    } else {
        lemma_decode_effect_group_prefix(d, m - 1);
        let rows = effect_rows_of_decision(d);
        assert(rows.take(m).drop_last() =~= rows.take(m - 1));
        assert(rows.take(m).last() == rows[m - 1]);
        assert(rows[m - 1] == effect_row_of(d.id, d.effects[m - 1]));
        let e = d.effects[m - 1];
        crate::lemma_property_token_round_trip(e.property);
        assert(decode_effect_row(rows[m - 1]) is Some);
        assert(decode_effect_row(rows[m - 1])->0 =~= e);
        assert(d.effects.take(m - 1).push(e) =~= d.effects.take(m));
    }
}

proof fn lemma_decode_decision_rows_prefix(db2: DatabaseV, c: ChoiceV, m: int)
    requires
        choice_wf(c),
        0 <= m <= c.decisions.len(),
        db2.effects == effect_rows_of_decisions(c.decisions),
    ensures
        decode_decision_rows(db2, decision_rows_of(c).take(m)) == Some(c.decisions.take(m)),
    decreases m,
{
    if m == 0 {
        assert(decision_rows_of(c).take(0) =~= Seq::<DecisionRowV>::empty());
        assert(c.decisions.take(0) =~= Seq::<DecisionV>::empty());
    } else {
        lemma_decode_decision_rows_prefix(db2, c, m - 1);
        let rows = decision_rows_of(c);
        assert(rows.take(m).drop_last() =~= rows.take(m - 1));
        assert(rows.take(m).last() == rows[m - 1]);
        assert(rows[m - 1] == decision_row_of(c.id, c.decisions[m - 1]));
        let d = c.decisions[m - 1];
        lemma_effects_of_decisions_filter(c.decisions, m - 1);
        lemma_decode_effect_group_prefix(d, d.effects.len() as int);
        assert(effect_rows_of_decision(d).take(effect_rows_of_decision(d).len() as int)
            =~= effect_rows_of_decision(d));
        assert(d.effects.take(d.effects.len() as int) =~= d.effects);
        assert(decode_decision_row(db2, rows[m - 1]) is Some);
        assert(decode_decision_row(db2, rows[m - 1])->0 =~= d);
        assert(c.decisions.take(m - 1).push(d) =~= c.decisions.take(m));
    }
}

/// Inserting a well-formed choice into a freshly bootstrapped store and
/// loading the catalogue back yields exactly that choice: the same name and
/// age bounds, its decisions in order with their descriptions, and every
/// effect's property, value and duration.
pub proof fn lemma_relational_round_trip(c: ChoiceV)
    requires
        choice_wf(c),
    ensures
        load_choices_spec(db_after_insert_choice(empty_db(), c)) == Ok::<Seq<ChoiceV>, StoreError>(seq![c]),
{
    let db2 = db_after_insert_choice(empty_db(), c);
    assert(db2.choices =~= seq![choice_row_of(c)]);
    assert(db2.decisions =~= decision_rows_of(c));
    assert(db2.effects =~= effect_rows_of_decisions(c.decisions));
    assert(forall|i: int|
        0 <= i < decision_rows_of(c).len() ==> (#[trigger] decision_rows_of(c)[i]).choice_id
            == c.id);
    lemma_filter_decisions_all_match(decision_rows_of(c), c.id);
    lemma_decode_decision_rows_prefix(db2, c, c.decisions.len() as int);
    assert(decision_rows_of(c).take(decision_rows_of(c).len() as int) =~= decision_rows_of(c));
    assert(c.decisions.take(c.decisions.len() as int) =~= c.decisions);
    assert(decode_choice_row(db2, choice_row_of(c)) is Some);
    assert(decode_choice_row(db2, choice_row_of(c))->0 =~= c);
    assert(db2.choices.drop_last() =~= Seq::<ChoiceRowV>::empty());
    assert(db2.choices.last() == choice_row_of(c));
    assert(decode_choice_rows(db2, db2.choices.drop_last()) == Some(Seq::<ChoiceV>::empty()));
    assert(decode_choice_rows(db2, db2.choices) is Some);
    assert(decode_choice_rows(db2, db2.choices)->0 =~= seq![c]);
    assert(Seq::<ChoiceV>::empty().push(c) =~= seq![c]);
}

} // verus!
