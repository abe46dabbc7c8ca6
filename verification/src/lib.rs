//! A small life-simulation domain: a catalogue of choices, each offering
//! decisions that carry timed numeric effects, and people accumulating such
//! effects. The crate verifies the persistence logic over two backends — a
//! relational store and a flat text-file store, both modelled as plain
//! in-memory state — together with the engine that folds effects into a
//! person's money and credit.

pub mod backend;
pub mod choices;
pub mod database;
pub mod filestore;
pub mod numtext;
pub mod people;

use vstd::prelude::*;

verus! {

/// How a persistence operation fails. Every failure halts the operation that
/// met it; there is no retry and no partial-success reporting.
#[derive(Clone, Copy, Debug, PartialEq, Eq, Structural)]
pub enum StoreError {
    /// The relational namespace does not exist yet.
    NotInitialized,
    /// A stored property token is not one of the closed set.
    UnknownProperty,
    /// A person-effect link names an effect row that is not present.
    MissingEffect,
    /// The file-store document has not been written.
    MissingFile,
    /// The file-store document does not parse.
    Malformed,
}

/// The element-wise deep view of a sequence.
pub open spec fn deep_seq<T: DeepView>(a: Seq<T>) -> Seq<T::V> {
    Seq::new(a.len(), |i: int| a[i].deep_view())
}

pub proof fn lemma_deep_seq_push<T: DeepView>(a: Seq<T>, x: T)
    ensures
        deep_seq(a.push(x)) =~= deep_seq(a).push(x.deep_view()),
{
}

/// The attribute an effect adjusts.
#[derive(Clone, Copy, Debug, PartialEq, Eq, Structural)]
pub enum Property {
    Money,
    Credit,
}

/// The textual token a property is stored under in both backends.
pub open spec fn property_token(p: Property) -> Seq<char> {
    match p {
        Property::Money => "money"@,
        Property::Credit => "credit"@,
    }
}

/// The total decoding of a stored token back to a property; unrecognized
/// tokens map to `None`, never to a default.
pub open spec fn token_to_property(s: Seq<char>) -> Option<Property> {
    if s == "money"@ {
        Some(Property::Money)
    } else if s == "credit"@ {
        Some(Property::Credit)
    } else {
        None
    }
}

impl Property {
    /// Parses the lowercase token form of a property.
    pub fn from_str(s: &str) -> (r: Result<Property, ()>)
        ensures
            r == match token_to_property(s@) {
                Some(p) => Result::<Property, ()>::Ok(p),
                None => Result::<Property, ()>::Err(()),
            },
    {
        let owned = s.to_owned();
        if owned == String::from_str("money") {
            Ok(Property::Money)
        } else if owned == String::from_str("credit") {
            Ok(Property::Credit)
        } else {
            Err(())
        }
    }

    /// The token form this property is stored under.
    pub fn to_token(&self) -> (r: String)
        ensures
            r@ == property_token(*self),
    {
        match self {
            Property::Money => String::from_str("money"),
            Property::Credit => String::from_str("credit"),
        }
    }
}

/// Encoding then decoding a property token recovers the property.
pub proof fn lemma_property_token_round_trip(p: Property)
    ensures
        token_to_property(property_token(p)) == Some(p),
{
    reveal_strlit("money");
    reveal_strlit("credit");
    assert("money"@.len() == 5);
    assert("credit"@.len() == 6);
    match p {
        Property::Money => {
            assert(property_token(p) == "money"@);
            assert(token_to_property("money"@) == Some(Property::Money));
        },
        Property::Credit => {
            assert(property_token(p) == "credit"@);
            assert("credit"@ != "money"@);
            assert(token_to_property("credit"@) == Some(Property::Credit));
        },
    }
}

} // verus!
