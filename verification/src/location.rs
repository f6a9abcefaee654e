//! A tagged position in a file.
use vstd::prelude::*;
use std::cmp::Ordering;
use std::hash::{Hash, Hasher};
use crate::text::{compare, text_lt, Order};
use crate::text::{lemma_text_lt_irreflexive, lemma_text_lt_total, lemma_text_lt_transitive};

verus! {

/// A tagged position: a file, an address within it, and free-form extra
/// data. Two locations are the same when file and address agree, whatever
/// the extra data.
#[derive(Debug)]
pub struct Location {
    pub file: String,
    pub address: String,
    pub extra: String,
}

/// The mathematical value of a [`Location`].
pub struct LocationView {
    pub file: Seq<char>,
    pub address: Seq<char>,
    pub extra: Seq<char>,
}

/// The identity of a location: its file and its address.
pub type Key = (Seq<char>, Seq<char>);

impl LocationView {
    /// What identifies this location.
    pub open spec fn key(self) -> Key {
        (self.file, self.address)
    }
}

impl View for Location {
    type V = LocationView;

    open spec fn view(&self) -> LocationView {
        LocationView { file: self.file@, address: self.address@, extra: self.extra@ }
    }
}

/// The values of a sequence of locations.
pub open spec fn places(locations: Seq<Location>) -> Seq<LocationView> {
    locations.map_values(|location: Location| location@)
}

/// One of the locations has the file and address `key`.
pub open spec fn has_key(s: Seq<LocationView>, key: Key) -> bool {
    exists|k: int| 0 <= k < s.len() && (#[trigger] s[k]).key() == key
}

/// The order of locations: by file, then by address, each
/// lexicographically.
pub open spec fn key_lt(a: Key, b: Key) -> bool {
    text_lt(a.0, b.0) || (a.0 == b.0 && text_lt(a.1, b.1))
}

/// Three-way comparison of keys under [`key_lt`].
pub open spec fn key_order(a: Key, b: Key) -> Order {
    if a == b {
        Order::Equal
    } else if key_lt(a, b) {
        Order::Before
    } else {
        Order::After
    }
}

/// No file and address comes before itself.
pub proof fn lemma_key_lt_irreflexive(a: Key)
    ensures
        !key_lt(a, a),
{
    lemma_text_lt_irreflexive(a.0);
    lemma_text_lt_irreflexive(a.1);
}

/// What comes before an earlier file and address comes before a later one.
pub proof fn lemma_key_lt_transitive(a: Key, b: Key, c: Key)
    requires
        key_lt(a, b),
        key_lt(b, c),
    ensures
        key_lt(a, c),
{
    if text_lt(a.0, b.0) && text_lt(b.0, c.0) {
        lemma_text_lt_transitive(a.0, b.0, c.0);
    } else if a.0 == b.0 && b.0 == c.0 {
        lemma_text_lt_transitive(a.1, b.1, c.1);
    }
}

/// Of two different files and addresses one comes before the other.
pub proof fn lemma_key_lt_total(a: Key, b: Key)
    ensures
        a == b || key_lt(a, b) || key_lt(b, a),
{
    lemma_text_lt_total(a.0, b.0);
    lemma_text_lt_total(a.1, b.1);
}

impl Location {
    /// Compares two locations by file, then by address.
    pub fn compare(&self, other: &Location) -> (o: Order)
        ensures
            o == key_order(self@.key(), other@.key()),
    {
        proof {
            lemma_text_lt_irreflexive(self.file@);
        }
        match compare(self.file.as_str(), other.file.as_str()) {
            Order::Before => Order::Before,
            Order::After => Order::After,
            Order::Equal => compare(self.address.as_str(), other.address.as_str()),
        }
    }
}

impl Clone for Location {
    fn clone(&self) -> (copy: Location)
        ensures
            copy@ == self@,
    {
        Location {
            file: self.file.clone(),
            address: self.address.clone(),
            extra: self.extra.clone(),
        }
    }
}

impl PartialEq for Location {
    fn eq(&self, other: &Location) -> (r: bool) {
        self.file == other.file && self.address == other.address
    }
}

impl vstd::std_specs::cmp::PartialEqSpecImpl for Location {
    open spec fn obeys_eq_spec() -> bool {
        true
    }

    open spec fn eq_spec(&self, other: &Location) -> bool {
        self.file@ == other.file@ && self.address@ == other.address@
    }
}

impl Eq for Location {

}

impl Hash for Location {
    fn hash<H: Hasher>(&self, state: &mut H) {
        self.file.hash(state);
        self.address.hash(state);
    }
}

impl PartialOrd for Location {
    fn partial_cmp(&self, other: &Location) -> (r: Option<Ordering>) {
        match self.compare(other) {
            Order::Before => Some(Ordering::Less),
            Order::Equal => Some(Ordering::Equal),
            Order::After => Some(Ordering::Greater),
        }
    }
}

impl vstd::std_specs::cmp::PartialOrdSpecImpl for Location {
    open spec fn obeys_partial_cmp_spec() -> bool {
        true
    }

    open spec fn partial_cmp_spec(&self, other: &Location) -> Option<Ordering> {
        match key_order(self@.key(), other@.key()) {
            Order::Before => Some(Ordering::Less),
            Order::Equal => Some(Ordering::Equal),
            Order::After => Some(Ordering::Greater),
        }
    }
}

} // verus!
