//! The records served by the paginated queries, and the key values by
//! which each query orders them.

use crate::key::{KeyPart, Part, SortField, SortKey, SortKeyValue};
use crate::page::{Connection, Record};
use vstd::prelude::*;
use vstd::string::*;
use vstd::utf8::encode_utf8;

verus! {

/// Gender recorded for a pet or an owner.
#[derive(Clone, Copy, Debug, PartialEq, Eq, Structural)]
pub enum Gender {
    Male,
    Female,
    Other,
}

/// The kinds of pet, declared in the alphabetical order of their names.
#[derive(Clone, Copy, Debug, PartialEq, Eq, Structural)]
pub enum PetTypes {
    Cat,
    Dog,
    Fish,
    Hamster,
    Turtle,
}

/// A lovable pet.
#[derive(Debug, PartialEq, Eq)]
pub struct Pet {
    pub id: String,
    pub name: String,
    pub pet_type: PetTypes,
    pub age: Option<i32>,
    pub gender: Gender,
    pub owner: Option<String>,
}

/// What is needed to register a pet.
#[derive(Debug, PartialEq, Eq)]
pub struct NewPet {
    pub name: String,
    pub pet_type: PetTypes,
    pub age: Option<i32>,
    pub gender: Gender,
    pub owner: Option<String>,
}

/// The fields of a pet to change; an absent field stays as it is.
#[derive(Debug, PartialEq, Eq)]
pub struct UpdatePet {
    pub name: Option<String>,
    pub pet_type: Option<PetTypes>,
    pub age: Option<i32>,
    pub gender: Option<Gender>,
    pub owner: Option<String>,
}

/// A person who owns pets.
#[derive(Debug, PartialEq, Eq)]
pub struct Owner {
    pub id: String,
    pub username: String,
    pub first_name: String,
    pub last_name: String,
    pub gender: Gender,
}

/// What is needed to register an owner.
#[derive(Debug, PartialEq, Eq)]
pub struct NewOwner {
    pub username: String,
    pub first_name: String,
    pub last_name: String,
    pub gender: Gender,
}

/// The fields of an owner to change; an absent field stays as it is.
#[derive(Debug, PartialEq, Eq)]
pub struct UpdateOwner {
    pub username: Option<String>,
    pub first_name: Option<String>,
    pub last_name: Option<String>,
    pub gender: Option<Gender>,
}

/// One page of pets.
pub type PetConnection = Connection<Pet>;

/// One page of owners.
pub type OwnerConnection = Connection<Owner>;

/// The records that the queries read.
#[derive(Debug, PartialEq, Eq)]
pub struct DataSources {
    pub owners: Vec<Owner>,
    pub pets: Vec<Pet>,
}

/// What a query is given to work with.
#[derive(Debug, PartialEq, Eq)]
pub struct Context {
    pub data_sources: DataSources,
}

/// The key part of a text field: its bytes.
pub open spec fn text_part(s: Seq<char>) -> Part {
    Part::Text(encode_utf8(s))
}

/// The key part of an age: absent ages sort first.
pub open spec fn age_part(age: Option<i32>) -> Part {
    match age {
        Some(a) => Part::Int(a as i64),
        None => Part::Null,
    }
}

pub(crate) fn copy_text(text: &Option<String>) -> (r: Option<String>)
    ensures
        r == *text,
{
    match text {
        Some(s) => Some(s.clone()),
        None => None,
    }
}

fn age_key(age: Option<i32>) -> (r: KeyPart)
    ensures
        r@ == age_part(age),
{
    match age {
        Some(a) => KeyPart::Int(a as i64),
        None => KeyPart::Null,
    }
}

impl PetTypes {
    /// Position of the kind in declaration order.
    pub open spec fn rank(self) -> int {
        match self {
            PetTypes::Cat => 0,
            PetTypes::Dog => 1,
            PetTypes::Fish => 2,
            PetTypes::Hamster => 3,
            PetTypes::Turtle => 4,
        }
    }

    /// The bytes of the kind's name, by which pets are sorted.
    pub open spec fn label(self) -> Seq<u8> {
        match self {
            PetTypes::Cat => seq![67u8, 97u8, 116u8],
            PetTypes::Dog => seq![68u8, 111u8, 103u8],
            PetTypes::Fish => seq![70u8, 105u8, 115u8, 104u8],
            PetTypes::Hamster => seq![72u8, 97u8, 109u8, 115u8, 116u8, 101u8, 114u8],
            PetTypes::Turtle => seq![84u8, 117u8, 114u8, 116u8, 108u8, 101u8],
        }
    }

    /// The bytes of the kind's name.
    pub fn label_bytes(self) -> (r: Vec<u8>)
        ensures
            r@ == self.label(),
    {
        let r = match self {
            PetTypes::Cat => vec![67u8, 97u8, 116u8],
            PetTypes::Dog => vec![68u8, 111u8, 103u8],
            PetTypes::Fish => vec![70u8, 105u8, 115u8, 104u8],
            PetTypes::Hamster => vec![72u8, 97u8, 109u8, 115u8, 116u8, 101u8, 114u8],
            PetTypes::Turtle => vec![84u8, 117u8, 114u8, 116u8, 108u8, 101u8],
        };
        assert(r@ =~= self.label());
        r
    }

    /// Sorting pets by the name of their kind sorts them by the order in
    /// which the kinds are declared.
    pub proof fn lemma_label_order(a: PetTypes, b: PetTypes)
        ensures
            crate::key::bytes_less(a.label(), b.label()) == (a.rank() < b.rank()),
    {
        reveal_with_fuel(crate::key::bytes_less_from, 8);
    }
}

impl Pet {
    /// The key value of a pet sorted by kind, then age, then identifier.
    pub open spec fn key_by_type_and_age(self) -> Seq<Part> {
        seq![Part::Text(self.pet_type.label()), age_part(self.age), text_part(self.id@)]
    }

    /// The key value of a pet sorted by age, then identifier.
    pub open spec fn key_by_age(self) -> Seq<Part> {
        seq![age_part(self.age), text_part(self.id@)]
    }

    /// The key value of this pet sorted by kind, then age, then
    /// identifier.
    pub fn type_and_age_key(&self) -> (r: SortKeyValue)
        ensures
            r@ == self.key_by_type_and_age(),
    {
        let mut parts: Vec<KeyPart> = Vec::new();
        parts.push(KeyPart::Text(self.pet_type.label_bytes()));
        parts.push(age_key(self.age));
        parts.push(KeyPart::text(self.id.as_str()));
        let r = SortKeyValue::new(parts);
        assert(r@ =~= self.key_by_type_and_age());
        r
    }

    /// The key value of this pet sorted by age, then identifier.
    pub fn age_key(&self) -> (r: SortKeyValue)
        ensures
            r@ == self.key_by_age(),
    {
        let mut parts: Vec<KeyPart> = Vec::new();
        parts.push(age_key(self.age));
        parts.push(KeyPart::text(self.id.as_str()));
        let r = SortKeyValue::new(parts);
        assert(r@ =~= self.key_by_age());
        r
    }

    /// The pet's identifier.
    pub fn id(&self) -> (r: String)
        ensures
            r == self.id,
    {
        self.id.clone()
    }

    /// The pet's name.
    pub fn name(&self) -> (r: String)
        ensures
            r == self.name,
    {
        self.name.clone()
    }

    /// The pet's kind.
    pub fn pet_type(&self) -> (r: PetTypes)
        ensures
            r == self.pet_type,
    {
        self.pet_type
    }

    /// The pet's age, where it is known.
    pub fn age(&self) -> (r: Option<i32>)
        ensures
            r == self.age,
    {
        match self.age {
            Some(age) => Some(age),
            None => None,
        }
    }

    /// The pet's gender.
    pub fn gender(&self) -> (r: Gender)
        ensures
            r == self.gender,
    {
        self.gender
    }
}

impl Record for Pet {
    fn duplicate(&self) -> (r: Pet) {
        Pet {
            id: self.id.clone(),
            name: self.name.clone(),
            pet_type: self.pet_type,
            age: self.age,
            gender: self.gender,
            owner: copy_text(&self.owner),
        }
    }
}

impl Owner {
    /// The key value of an owner sorted by username, then identifier.
    pub open spec fn key_by_username(self) -> Seq<Part> {
        seq![text_part(self.username@), text_part(self.id@)]
    }

    /// The key value of this owner sorted by username, then identifier.
    pub fn username_key(&self) -> (r: SortKeyValue)
        ensures
            r@ == self.key_by_username(),
    {
        let mut parts: Vec<KeyPart> = Vec::new();
        parts.push(KeyPart::text(self.username.as_str()));
        parts.push(KeyPart::text(self.id.as_str()));
        let r = SortKeyValue::new(parts);
        assert(r@ =~= self.key_by_username());
        r
    }

    /// The owner's identifier.
    pub fn id(&self) -> (r: String)
        ensures
            r == self.id,
    {
        self.id.clone()
    }

    /// The owner's username.
    pub fn username(&self) -> (r: String)
        ensures
            r == self.username,
    {
        self.username.clone()
    }

    /// The owner's first name.
    pub fn first_name(&self) -> (r: String)
        ensures
            r == self.first_name,
    {
        self.first_name.clone()
    }

    /// The owner's last name.
    pub fn last_name(&self) -> (r: String)
        ensures
            r == self.last_name,
    {
        self.last_name.clone()
    }

    /// The owner's gender.
    pub fn gender(&self) -> (r: Gender)
        ensures
            r == self.gender,
    {
        self.gender
    }
}

impl Record for Owner {
    fn duplicate(&self) -> (r: Owner) {
        Owner {
            id: self.id.clone(),
            username: self.username.clone(),
            first_name: self.first_name.clone(),
            last_name: self.last_name.clone(),
            gender: self.gender,
        }
    }
}

/// Pets by kind, then age, then identifier, all ascending.
pub fn pets_order() -> (r: SortKey)
    ensures
        r@ == seq![false, false, false],
        r.fields@[0].name@ == "pet_type"@,
        r.fields@[1].name@ == "age"@,
        r.fields@[2].name@ == "_id"@,
{
    let mut fields: Vec<SortField> = Vec::new();
    fields.push(SortField::ascending("pet_type"));
    fields.push(SortField::ascending("age"));
    fields.push(SortField::ascending("_id"));
    let r = SortKey::new(fields);
    assert(r@ =~= seq![false, false, false]);
    r
}

/// Pets of one kind by age, oldest first, then by identifier.
pub fn pets_by_age_order() -> (r: SortKey)
    ensures
        r@ == seq![true, false],
        r.fields@[0].name@ == "age"@,
        r.fields@[1].name@ == "_id"@,
{
    let mut fields: Vec<SortField> = Vec::new();
    fields.push(SortField::descending("age"));
    fields.push(SortField::ascending("_id"));
    let r = SortKey::new(fields);
    assert(r@ =~= seq![true, false]);
    r
}

/// Owners by username, then identifier, both ascending.
pub fn owners_order() -> (r: SortKey)
    ensures
        r@ == seq![false, false],
        r.fields@[0].name@ == "username"@,
        r.fields@[1].name@ == "_id"@,
{
    let mut fields: Vec<SortField> = Vec::new();
    fields.push(SortField::ascending("username"));
    fields.push(SortField::ascending("_id"));
    let r = SortKey::new(fields);
    assert(r@ =~= seq![false, false]);
    r
}

} // verus!
