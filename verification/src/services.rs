//! The paginated queries over pets and owners.

use crate::error::{LookupError, PageError, WriteError};
use crate::ids::{get_object_id, is_id, is_object_id, object_id_of};
use crate::model::{
    copy_text, owners_order, pets_by_age_order, pets_order, Context, NewOwner, NewPet, Owner,
    OwnerConnection, Pet, PetConnection, PetTypes, UpdateOwner, UpdatePet,
};
use crate::page::{row_models, Record, Row, RowModel};
use crate::plan::PageRequest;
use crate::cursor::cursor_of;
use crate::plan::DEFAULT_LIMIT;
use crate::store::{
    answer, conforming, distinct_keys, is_answer, lemma_next_previous_symmetry, lemma_rows_conform,
    paginate,
};
use vstd::utf8::encode_utf8_decode_utf8;
use vstd::prelude::*;

verus! {

/// The pets, each with its key value by kind, age and identifier.
pub open spec fn pet_rows(pets: Seq<Pet>) -> Seq<RowModel<Pet>> {
    Seq::new(pets.len(), |i: int| RowModel { key: pets[i].key_by_type_and_age(), node: pets[i] })
}

/// The pets, each with its key value by age and identifier.
pub open spec fn pet_rows_by_age(pets: Seq<Pet>) -> Seq<RowModel<Pet>> {
    Seq::new(pets.len(), |i: int| RowModel { key: pets[i].key_by_age(), node: pets[i] })
}

/// The owners, each with its key value by username and identifier.
pub open spec fn owner_rows(owners: Seq<Owner>) -> Seq<RowModel<Owner>> {
    Seq::new(owners.len(), |i: int| RowModel { key: owners[i].key_by_username(), node: owners[i] })
}

/// The test for pets of one kind.
pub open spec fn of_kind(kind: PetTypes) -> spec_fn(Pet) -> bool {
    |pet: Pet| pet.pet_type == kind
}

/// The pets of one kind, in the order in which they are held.
pub open spec fn pets_of_kind(pets: Seq<Pet>, kind: PetTypes) -> Seq<Pet> {
    pets.filter(of_kind(kind))
}

/// A page of all pets, sorted by kind, then age, then identifier.
///
/// Without a limit the page holds 25 pets at most.
pub fn get_pets(
    ctx: &Context,
    limit: Option<i32>,
    after: Option<String>,
    before: Option<String>,
    skip: Option<i32>,
) -> (r: Result<PetConnection, PageError>)
    ensures
        is_answer(
            r,
            seq![false, false, false],
            pet_rows(ctx.data_sources.pets@),
            PageRequest { limit, after, before, skip },
        ),
        conforming(seq![false, false, false], pet_rows(ctx.data_sources.pets@)),
{
    let pets = &ctx.data_sources.pets;
    let mut rows: Vec<Row<Pet>> = Vec::new();
    let mut i: usize = 0;
    while i < pets.len()
        invariant
            i <= pets@.len(),
            rows@.len() == i,
            forall|j: int| 0 <= j < i ==> (#[trigger] rows@[j])@ == pet_rows(pets@)[j],
        decreases pets@.len() - i,
    {
        rows.push(Row { key: pets[i].type_and_age_key(), node: pets[i].duplicate() });
        i += 1;
    }
    assert(row_models(rows@) =~= pet_rows(pets@));
    proof {
        lemma_rows_conform(seq![false, false, false], rows@);
    }
    let request = PageRequest { limit, after, before, skip };
    paginate(&pets_order(), rows, &request)
}

/// A page of the pets of one kind, oldest first, then by identifier.
///
/// Without a limit the page holds 25 pets at most. The total is the
/// number of pets of that kind.
pub fn get_pets_by_type(
    ctx: &Context,
    pet_type: PetTypes,
    limit: Option<i32>,
    after: Option<String>,
    before: Option<String>,
    skip: Option<i32>,
) -> (r: Result<PetConnection, PageError>)
    ensures
        is_answer(
            r,
            seq![true, false],
            pet_rows_by_age(pets_of_kind(ctx.data_sources.pets@, pet_type)),
            PageRequest { limit, after, before, skip },
        ),
        conforming(seq![true, false], pet_rows_by_age(pets_of_kind(ctx.data_sources.pets@, pet_type))),
{
    let pets = &ctx.data_sources.pets;
    let mut rows: Vec<Row<Pet>> = Vec::new();
    let mut i: usize = 0;
    assert(pets@.take(0) =~= Seq::<Pet>::empty());
    proof {
        reveal(Seq::filter);
    }
    while i < pets.len()
        invariant
            i <= pets@.len(),
            row_models(rows@) == pet_rows_by_age(pets_of_kind(pets@.take(i as int), pet_type)),
        decreases pets@.len() - i,
    {
        let ghost before_rows = row_models(rows@);
        let ghost chosen = pets_of_kind(pets@.take(i as int), pet_type);
        proof {
            assert(pets@.take(i + 1) =~= pets@.take(i as int).push(pets@[i as int]));
            pets@.take(i as int).lemma_filter_push(pets@[i as int], of_kind(pet_type));
        }
        if pets[i].pet_type == pet_type {
            rows.push(Row { key: pets[i].age_key(), node: pets[i].duplicate() });
            proof {
                let grown = pet_rows_by_age(chosen.push(pets@[i as int]));
                assert(before_rows.len() == chosen.len());
                assert forall|k: int| 0 <= k < grown.len() implies row_models(rows@)[k]
                    == grown[k] by {
                    if k < chosen.len() {
                        assert(row_models(rows@)[k] == before_rows[k]);
                    }
                }
                assert(row_models(rows@) =~= grown);
            }
        }
        i += 1;
    }
    assert(pets@.take(pets@.len() as int) =~= pets@);
    proof {
        assert forall|j: int| 0 <= j < rows@.len() implies (#[trigger] rows@[j]).key@.len()
            == 2 by {
            assert(row_models(rows@)[j].key == rows@[j].key@);
        }
        lemma_rows_conform(seq![true, false], rows@);
    }
    let request = PageRequest { limit, after, before, skip };
    paginate(&pets_by_age_order(), rows, &request)
}

/// A page of all pets, oldest first, then by identifier.
///
/// Without a limit the page holds 25 pets at most.
pub fn get_pets_by_age(
    ctx: &Context,
    limit: Option<i32>,
    after: Option<String>,
    before: Option<String>,
    skip: Option<i32>,
) -> (r: Result<PetConnection, PageError>)
    ensures
        is_answer(
            r,
            seq![true, false],
            pet_rows_by_age(ctx.data_sources.pets@),
            PageRequest { limit, after, before, skip },
        ),
        conforming(seq![true, false], pet_rows_by_age(ctx.data_sources.pets@)),
{
    let pets = &ctx.data_sources.pets;
    let mut rows: Vec<Row<Pet>> = Vec::new();
    let mut i: usize = 0;
    while i < pets.len()
        invariant
            i <= pets@.len(),
            rows@.len() == i,
            forall|j: int| 0 <= j < i ==> (#[trigger] rows@[j])@ == pet_rows_by_age(pets@)[j],
        decreases pets@.len() - i,
    {
        rows.push(Row { key: pets[i].age_key(), node: pets[i].duplicate() });
        i += 1;
    }
    assert(row_models(rows@) =~= pet_rows_by_age(pets@));
    proof {
        lemma_rows_conform(seq![true, false], rows@);
    }
    let request = PageRequest { limit, after, before, skip };
    paginate(&pets_by_age_order(), rows, &request)
}

/// A page of all owners, sorted by username, then identifier.
///
/// Without a limit the page holds 25 owners at most.
pub fn get_owners(
    ctx: &Context,
    limit: Option<i32>,
    after: Option<String>,
    before: Option<String>,
    skip: Option<i32>,
) -> (r: Result<OwnerConnection, PageError>)
    ensures
        is_answer(
            r,
            seq![false, false],
            owner_rows(ctx.data_sources.owners@),
            PageRequest { limit, after, before, skip },
        ),
        conforming(seq![false, false], owner_rows(ctx.data_sources.owners@)),
{
    let owners = &ctx.data_sources.owners;
    let mut rows: Vec<Row<Owner>> = Vec::new();
    let mut i: usize = 0;
    while i < owners.len()
        invariant
            i <= owners@.len(),
            rows@.len() == i,
            forall|j: int| 0 <= j < i ==> (#[trigger] rows@[j])@ == owner_rows(owners@)[j],
        decreases owners@.len() - i,
    {
        rows.push(Row { key: owners[i].username_key(), node: owners[i].duplicate() });
        i += 1;
    }
    assert(row_models(rows@) =~= owner_rows(owners@));
    proof {
        lemma_rows_conform(seq![false, false], rows@);
    }
    let request = PageRequest { limit, after, before, skip };
    paginate(&owners_order(), rows, &request)
}


/// The first position from `i` on whose record passes the test, or the
/// length of the list where none does.
pub open spec fn index_from<T>(s: Seq<T>, test: spec_fn(T) -> bool, i: int) -> int
    decreases s.len() - i,
{
    if i < 0 || i >= s.len() {
        s.len() as int
    } else if test(s[i]) {
        i
    } else {
        index_from(s, test, i + 1)
    }
}

/// The position of the first record that passes the test, or the length
/// of the list where none does.
pub open spec fn index_where<T>(s: Seq<T>, test: spec_fn(T) -> bool) -> int {
    index_from(s, test, 0)
}

/// The first of the records that passes the test, in the order in which
/// they are held.
pub open spec fn first_where<T>(s: Seq<T>, test: spec_fn(T) -> bool) -> Option<T> {
    if index_where(s, test) < s.len() {
        Some(s[index_where(s, test)])
    } else {
        None
    }
}

proof fn lemma_index_skip<T>(s: Seq<T>, test: spec_fn(T) -> bool, i: int, k: int)
    requires
        0 <= i <= k <= s.len(),
        forall|j: int| i <= j < k ==> !test(#[trigger] s[j]),
    ensures
        index_from(s, test, i) == index_from(s, test, k),
    decreases k - i,
{
    if i < k {
        lemma_index_skip(s, test, i + 1, k);
    }
}

/// Where the search for the first record that passes a test ends.
fn find_where_pet(pets: &Vec<Pet>, by_id: Option<&Vec<u8>>, name: &String) -> (i: usize)
    ensures
        i == index_where(
            pets@,
            match by_id {
                Some(bytes) => pet_has_id(bytes@),
                None => pet_is_named(name@),
            },
        ),
        i <= pets@.len(),
{
    let ghost test = match by_id {
        Some(bytes) => pet_has_id(bytes@),
        None => pet_is_named(name@),
    };
    let mut i: usize = 0;
    while i < pets.len()
        invariant
            i <= pets@.len(),
            test == match by_id {
                Some(bytes) => pet_has_id(bytes@),
                None => pet_is_named(name@),
            },
            forall|j: int| 0 <= j < i ==> !test(#[trigger] pets@[j]),
        decreases pets@.len() - i,
    {
        let hit = match by_id {
            Some(bytes) => is_id(pets[i].id.as_str(), bytes),
            None => pets[i].name == *name,
        };
        if hit {
            proof {
                lemma_index_skip(pets@, test, 0, i as int);
                assert(test(pets@[i as int]));
            }
            return i;
        }
        i += 1;
    }
    proof {
        lemma_index_skip(pets@, test, 0, i as int);
    }
    i
}

/// Where the search for the first owner that passes a test ends.
fn find_where_owner(owners: &Vec<Owner>, by_id: Option<&Vec<u8>>, username: &String) -> (i: usize)
    ensures
        i == index_where(
            owners@,
            match by_id {
                Some(bytes) => owner_has_id(bytes@),
                None => owner_is_called(username@),
            },
        ),
        i <= owners@.len(),
{
    let ghost test = match by_id {
        Some(bytes) => owner_has_id(bytes@),
        None => owner_is_called(username@),
    };
    let mut i: usize = 0;
    while i < owners.len()
        invariant
            i <= owners@.len(),
            test == match by_id {
                Some(bytes) => owner_has_id(bytes@),
                None => owner_is_called(username@),
            },
            forall|j: int| 0 <= j < i ==> !test(#[trigger] owners@[j]),
        decreases owners@.len() - i,
    {
        let hit = match by_id {
            Some(bytes) => is_id(owners[i].id.as_str(), bytes),
            None => owners[i].username == *username,
        };
        if hit {
            proof {
                lemma_index_skip(owners@, test, 0, i as int);
                assert(test(owners@[i as int]));
            }
            return i;
        }
        i += 1;
    }
    proof {
        lemma_index_skip(owners@, test, 0, i as int);
    }
    i
}

/// The test for the pet with the identifier of the given bytes.
pub open spec fn pet_has_id(bytes: Seq<u8>) -> spec_fn(Pet) -> bool {
    |pet: Pet| is_object_id(pet.id@) && object_id_of(pet.id@) == bytes
}

/// The test for the pet of the given name.
pub open spec fn pet_is_named(name: Seq<char>) -> spec_fn(Pet) -> bool {
    |pet: Pet| pet.name@ == name
}

/// The test for the pets of the owner with the given identifier.
pub open spec fn pet_is_owned_by(owner: Seq<char>) -> spec_fn(Pet) -> bool {
    |pet: Pet| pet.owner matches Some(id) && id@ == owner
}

/// The test for the owner with the identifier of the given bytes.
pub open spec fn owner_has_id(bytes: Seq<u8>) -> spec_fn(Owner) -> bool {
    |owner: Owner| is_object_id(owner.id@) && object_id_of(owner.id@) == bytes
}

/// The test for the owner of the given username.
pub open spec fn owner_is_called(username: Seq<char>) -> spec_fn(Owner) -> bool {
    |owner: Owner| owner.username@ == username
}

/// What a search by identifier returns: `InvalidId` for a string that is
/// no identifier, else the first record found, else `NotFound`.
pub open spec fn found_by_id<T>(
    s: Seq<T>,
    id: Seq<char>,
    test: spec_fn(Seq<u8>) -> spec_fn(T) -> bool,
) -> Result<T, LookupError> {
    if !is_object_id(id) {
        Err(LookupError::InvalidId)
    } else {
        match first_where(s, test(object_id_of(id))) {
            Some(record) => Ok(record),
            None => Err(LookupError::NotFound),
        }
    }
}

/// What a search by name returns: the first record found, else
/// `NotFound`.
pub open spec fn found_by_name<T>(s: Seq<T>, test: spec_fn(T) -> bool) -> Result<T, LookupError> {
    match first_where(s, test) {
        Some(record) => Ok(record),
        None => Err(LookupError::NotFound),
    }
}

/// The pet with the given identifier, whatever the case of its digits.
pub fn get_pet_by_id(ctx: &Context, id: String) -> (r: Result<Pet, LookupError>)
    ensures
        r == found_by_id(ctx.data_sources.pets@, id@, |bytes: Seq<u8>| pet_has_id(bytes)),
{
    let wanted = match get_object_id(id.as_str()) {
        Ok(bytes) => bytes,
        Err(e) => {
            return Err(e);
        },
    };
    let pets = &ctx.data_sources.pets;
    let i = find_where_pet(pets, Some(&wanted), &id);
    if i < pets.len() {
        Ok(pets[i].duplicate())
    } else {
        Err(LookupError::NotFound)
    }
}

/// The first pet of the given name.
pub fn get_pet_by_name(ctx: &Context, name: String) -> (r: Result<Pet, LookupError>)
    ensures
        r == found_by_name(ctx.data_sources.pets@, pet_is_named(name@)),
{
    let pets = &ctx.data_sources.pets;
    let i = find_where_pet(pets, None, &name);
    if i < pets.len() {
        Ok(pets[i].duplicate())
    } else {
        Err(LookupError::NotFound)
    }
}

/// The owner with the given identifier, whatever the case of its digits.
pub fn get_owner_by_id(ctx: &Context, id: String) -> (r: Result<Owner, LookupError>)
    ensures
        r == found_by_id(ctx.data_sources.owners@, id@, |bytes: Seq<u8>| owner_has_id(bytes)),
{
    let wanted = match get_object_id(id.as_str()) {
        Ok(bytes) => bytes,
        Err(e) => {
            return Err(e);
        },
    };
    let owners = &ctx.data_sources.owners;
    let i = find_where_owner(owners, Some(&wanted), &id);
    if i < owners.len() {
        Ok(owners[i].duplicate())
    } else {
        Err(LookupError::NotFound)
    }
}

/// The first owner of the given username.
pub fn get_owner_by_username(ctx: &Context, username: String) -> (r: Result<Owner, LookupError>)
    ensures
        r == found_by_name(ctx.data_sources.owners@, owner_is_called(username@)),
{
    let owners = &ctx.data_sources.owners;
    let i = find_where_owner(owners, None, &username);
    if i < owners.len() {
        Ok(owners[i].duplicate())
    } else {
        Err(LookupError::NotFound)
    }
}

impl Pet {
    /// The owner of this pet: the one that its owner identifier names,
    /// or nobody where it names none, is no identifier, or is unknown.
    pub fn owner(&self, ctx: &Context) -> (r: Option<Owner>)
        ensures
            r == match self.owner {
                None => None::<Owner>,
                Some(id) => match found_by_id(
                    ctx.data_sources.owners@,
                    id@,
                    |bytes: Seq<u8>| owner_has_id(bytes),
                ) {
                    Ok(owner) => Some(owner),
                    Err(_) => None,
                },
            },
    {
        match &self.owner {
            None => None,
            Some(owner_id) => match get_owner_by_id(ctx, owner_id.clone()) {
                Ok(owner) => Some(owner),
                Err(_) => None,
            },
        }
    }
}

/// The records of a page, in order.
pub open spec fn nodes_of<T>(rows: Seq<RowModel<T>>) -> Seq<T> {
    Seq::new(rows.len(), |i: int| rows[i].node)
}

/// The request for a first page of the default size.
pub open spec fn first_page() -> PageRequest {
    PageRequest { limit: None, after: None, before: None, skip: None }
}

/// The first page of the pets of one owner, by kind, then age, then
/// identifier: no more of them than the default page size.
pub open spec fn first_pets_of(pets: Seq<Pet>, owner: Seq<char>) -> Seq<Pet> {
    match answer(
        seq![false, false, false],
        pet_rows(pets.filter(pet_is_owned_by(owner))),
        first_page(),
    ) {
        Ok(page) => nodes_of(page.rows),
        Err(_) => Seq::empty(),
    }
}

impl Owner {
    /// The pets of this owner: the first page, of the default size, of
    /// those whose owner identifier is written as this owner's is,
    /// sorted by kind, then age, then identifier.
    pub fn pets(&self, ctx: &Context) -> (r: Vec<Pet>)
        ensures
            r@ == first_pets_of(ctx.data_sources.pets@, self.id@),
            r@.len() <= DEFAULT_LIMIT,
    {
        let pets = &ctx.data_sources.pets;
        let ghost test = pet_is_owned_by(self.id@);
        let mut rows: Vec<Row<Pet>> = Vec::new();
        let mut i: usize = 0;
        assert(pets@.take(0) =~= Seq::<Pet>::empty());
        proof {
            reveal(Seq::filter);
        }
        while i < pets.len()
            invariant
                i <= pets@.len(),
                test == pet_is_owned_by(self.id@),
                row_models(rows@) == pet_rows(pets@.take(i as int).filter(test)),
            decreases pets@.len() - i,
        {
            let ghost before_rows = row_models(rows@);
            let ghost chosen = pets@.take(i as int).filter(test);
            proof {
                assert(pets@.take(i + 1) =~= pets@.take(i as int).push(pets@[i as int]));
                pets@.take(i as int).lemma_filter_push(pets@[i as int], test);
            }
            let owned = match &pets[i].owner {
                Some(id) => *id == self.id,
                None => false,
            };
            if owned {
                rows.push(Row { key: pets[i].type_and_age_key(), node: pets[i].duplicate() });
                proof {
                    let grown = pet_rows(chosen.push(pets@[i as int]));
                    assert(before_rows.len() == chosen.len());
                    assert forall|k: int| 0 <= k < grown.len() implies row_models(rows@)[k]
                        == grown[k] by {
                        if k < chosen.len() {
                            assert(row_models(rows@)[k] == before_rows[k]);
                        }
                    }
                    assert(row_models(rows@) =~= grown);
                }
            }
            i += 1;
        }
        assert(pets@.take(pets@.len() as int) =~= pets@);
        let request = PageRequest::first_page();
        let mut out: Vec<Pet> = Vec::new();
        match paginate(&pets_order(), rows, &request) {
            Ok(page) => {
                let ghost shown = answer(
                    seq![false, false, false],
                    pet_rows(pets@.filter(test)),
                    first_page(),
                )->Ok_0.rows;
                proof {
                    assert(crate::plan::planned(seq![false, false, false], first_page()) is Ok);
                    assert(page@.edges.len() == shown.len());
                    assert forall|j: int| 0 <= j < shown.len() implies (
                    #[trigger] page.edges@[j]).node == shown[j].node by {
                        assert(page@.edges[j] == crate::page::edge_of(shown[j]));
                    }
                }
                let mut k: usize = 0;
                while k < page.edges.len()
                    invariant
                        k <= page.edges@.len(),
                        page.edges@.len() == shown.len(),
                        forall|j: int|
                            0 <= j < shown.len() ==> (#[trigger] page.edges@[j]).node
                                == shown[j].node,
                        out@.len() == k,
                        forall|j: int| 0 <= j < k ==> out@[j] == shown[j].node,
                    decreases page.edges@.len() - k,
                {
                    out.push(page.edges[k].node.duplicate());
                    k += 1;
                }
                assert(out@ =~= nodes_of(shown));
                out
            },
            Err(_) => out,
        }
    }
}

/// No two pets have the same identifier.
pub open spec fn distinct_ids(pets: Seq<Pet>) -> bool {
    forall|i: int, j: int| 0 <= i < j < pets.len() ==> (#[trigger] pets[i]).id@ != (
    #[trigger] pets[j]).id@
}

/// Pets with distinct identifiers have distinct key values: the
/// identifier is the tie-break.
pub proof fn lemma_pets_have_distinct_keys(pets: Seq<Pet>)
    requires
        distinct_ids(pets),
    ensures
        distinct_keys(pet_rows(pets)),
{
    let rows = pet_rows(pets);
    assert forall|i: int, j: int| 0 <= i < j < rows.len() implies (#[trigger] rows[i]).key != (
    #[trigger] rows[j]).key by {
        encode_utf8_decode_utf8(pets[i].id@);
        encode_utf8_decode_utf8(pets[j].id@);
        assert(pets[i].id@ != pets[j].id@);
        if rows[i].key == rows[j].key {
            assert(rows[i].key[2] == rows[j].key[2]);
        }
    }
}

/// Next/previous symmetry of `get_pets`: where no two pets have the same
/// identifier, take a page of a forward walk, the page after its end
/// cursor, and, that page not being empty, the page before the cursor of
/// its first edge, with one limit throughout. The last holds the pets of
/// the first, in the same order. Along a chain of forward pages this
/// gives, from any page, the page before it.
pub proof fn lemma_get_pets_pages_back(
    pets: Seq<Pet>,
    first: PageRequest,
    second: PageRequest,
    back: PageRequest,
)
    requires
        distinct_ids(pets),
        conforming(seq![false, false, false], pet_rows(pets)),
        first.after is Some || first.before is None,
        answer(seq![false, false, false], pet_rows(pets), first) matches Ok(p) && p.rows.len() > 0,
        second.limit == first.limit,
        second.after matches Some(token) && token@ == cursor_of(
            answer(seq![false, false, false], pet_rows(pets), first)->Ok_0.rows.last().key,
        ),
        back.limit == first.limit,
        back.after is None,
        answer(seq![false, false, false], pet_rows(pets), second) matches Ok(q) && q.rows.len() > 0
            && (back.before matches Some(token) && token@ == cursor_of(q.rows[0].key)),
    ensures
        answer(seq![false, false, false], pet_rows(pets), back) matches Ok(r) && r.rows == answer(
            seq![false, false, false],
            pet_rows(pets),
            first,
        )->Ok_0.rows,
{
    lemma_pets_have_distinct_keys(pets);
    lemma_next_previous_symmetry(seq![false, false, false], pet_rows(pets), first, second, back);
}

/// What a delete reports: the identifier asked for, and whether a record
/// went.
#[derive(Debug, PartialEq, Eq)]
pub struct DeleteResponse {
    pub id: String,
    pub success: bool,
}

/// The new value of a text field: the one given, or the old one.
pub open spec fn changed_text(old: String, new: Option<String>) -> String {
    match new {
        Some(s) => s,
        None => old,
    }
}

/// The pet registered from `new_pet` under `id`.
pub open spec fn registered_pet(id: String, new_pet: NewPet) -> Pet {
    Pet {
        id,
        name: new_pet.name,
        pet_type: new_pet.pet_type,
        age: new_pet.age,
        gender: new_pet.gender,
        owner: new_pet.owner,
    }
}

/// The pet with the given fields changed: an absent field stays, and an
/// age or an owner once set is not taken away.
pub open spec fn updated_pet(pet: Pet, update: UpdatePet) -> Pet {
    Pet {
        id: pet.id,
        name: changed_text(pet.name, update.name),
        pet_type: match update.pet_type {
            Some(kind) => kind,
            None => pet.pet_type,
        },
        age: match update.age {
            Some(age) => Some(age),
            None => pet.age,
        },
        gender: match update.gender {
            Some(gender) => gender,
            None => pet.gender,
        },
        owner: match update.owner {
            Some(owner) => Some(owner),
            None => pet.owner,
        },
    }
}

/// The owner registered from `new_owner` under `id`.
pub open spec fn registered_owner(id: String, new_owner: NewOwner) -> Owner {
    Owner {
        id,
        username: new_owner.username,
        first_name: new_owner.first_name,
        last_name: new_owner.last_name,
        gender: new_owner.gender,
    }
}

/// The owner with the given fields changed: an absent field stays.
pub open spec fn updated_owner(owner: Owner, update: UpdateOwner) -> Owner {
    Owner {
        id: owner.id,
        username: changed_text(owner.username, update.username),
        first_name: changed_text(owner.first_name, update.first_name),
        last_name: changed_text(owner.last_name, update.last_name),
        gender: match update.gender {
            Some(gender) => gender,
            None => owner.gender,
        },
    }
}

/// What registering a record does to the list and returns: a name that
/// is taken is refused and nothing changes; else the record is added at
/// the end and returned.
pub open spec fn created<T>(s: Seq<T>, taken: spec_fn(T) -> bool, record: T) -> (
    Seq<T>,
    Result<T, WriteError>,
) {
    if index_where(s, taken) < s.len() {
        (s, Err(WriteError::AlreadyTaken))
    } else {
        (s.push(record), Ok(record))
    }
}

/// What changing the record with the given identifier does to the list
/// and returns: a string that is no identifier and an identifier that no
/// record has are refused and nothing changes; else the first record
/// with the identifier is replaced by the changed one, which is returned.
pub open spec fn changed<T>(
    s: Seq<T>,
    id: Seq<char>,
    test: spec_fn(Seq<u8>) -> spec_fn(T) -> bool,
    change: spec_fn(T) -> T,
) -> (Seq<T>, Result<T, WriteError>) {
    if !is_object_id(id) {
        (s, Err(WriteError::InvalidId))
    } else {
        let i = index_where(s, test(object_id_of(id)));
        if i < s.len() {
            (s.update(i, change(s[i])), Ok(change(s[i])))
        } else {
            (s, Err(WriteError::NotFound))
        }
    }
}

/// What deleting the record with the given identifier does to the list
/// and returns: a string that is no identifier is refused; else the
/// first record with the identifier goes, and the answer says whether
/// there was one.
pub open spec fn deleted<T>(
    s: Seq<T>,
    id: Seq<char>,
    test: spec_fn(Seq<u8>) -> spec_fn(T) -> bool,
) -> (Seq<T>, Result<bool, WriteError>) {
    if !is_object_id(id) {
        (s, Err(WriteError::InvalidId))
    } else {
        let i = index_where(s, test(object_id_of(id)));
        if i < s.len() {
            (s.remove(i), Ok(true))
        } else {
            (s, Ok(false))
        }
    }
}

/// Registers a pet under the identifier `id`, unless a pet of that name
/// exists.
pub fn create_pet(ctx: &mut Context, new_pet: NewPet, id: String) -> (r: Result<Pet, WriteError>)
    ensures
        (final(ctx).data_sources.pets@, r) == created(
            old(ctx).data_sources.pets@,
            pet_is_named(new_pet.name@),
            registered_pet(id, new_pet),
        ),
        final(ctx).data_sources.owners == old(ctx).data_sources.owners,
{
    let i = find_where_pet(&ctx.data_sources.pets, None, &new_pet.name);
    if i < ctx.data_sources.pets.len() {
        return Err(WriteError::AlreadyTaken);
    }
    let pet = Pet {
        id,
        name: new_pet.name,
        pet_type: new_pet.pet_type,
        age: new_pet.age,
        gender: new_pet.gender,
        owner: new_pet.owner,
    };
    ctx.data_sources.pets.push(pet.duplicate());
    Ok(pet)
}

/// Changes the given fields of the pet with the identifier `id`.
pub fn update_pet(ctx: &mut Context, id: String, update: UpdatePet) -> (r: Result<
    Pet,
    WriteError,
>)
    ensures
        (final(ctx).data_sources.pets@, r) == changed(
            old(ctx).data_sources.pets@,
            id@,
            |bytes: Seq<u8>| pet_has_id(bytes),
            |pet: Pet| updated_pet(pet, update),
        ),
        final(ctx).data_sources.owners == old(ctx).data_sources.owners,
{
    let wanted = match get_object_id(id.as_str()) {
        Ok(bytes) => bytes,
        Err(_) => {
            return Err(WriteError::InvalidId);
        },
    };
    let i = find_where_pet(&ctx.data_sources.pets, Some(&wanted), &id);
    if i >= ctx.data_sources.pets.len() {
        return Err(WriteError::NotFound);
    }
    let held = &ctx.data_sources.pets[i];
    let pet = Pet {
        id: held.id.clone(),
        name: match update.name {
            Some(name) => name,
            None => held.name.clone(),
        },
        pet_type: match update.pet_type {
            Some(kind) => kind,
            None => held.pet_type,
        },
        age: match update.age {
            Some(age) => Some(age),
            None => held.age,
        },
        gender: match update.gender {
            Some(gender) => gender,
            None => held.gender,
        },
        owner: match update.owner {
            Some(owner) => Some(owner),
            None => copy_text(&held.owner),
        },
    };
    ctx.data_sources.pets.set(i, pet.duplicate());
    Ok(pet)
}

/// Removes the pet with the identifier `id`, if there is one.
pub fn delete_pet(ctx: &mut Context, id: String) -> (r: Result<DeleteResponse, WriteError>)
    ensures
        final(ctx).data_sources.pets@ == deleted(
            old(ctx).data_sources.pets@,
            id@,
            |bytes: Seq<u8>| pet_has_id(bytes),
        ).0,
        match deleted(old(ctx).data_sources.pets@, id@, |bytes: Seq<u8>| pet_has_id(bytes)).1 {
            Ok(success) => r == Ok::<DeleteResponse, WriteError>(DeleteResponse { id, success }),
            Err(e) => r == Err::<DeleteResponse, WriteError>(e),
        },
        final(ctx).data_sources.owners == old(ctx).data_sources.owners,
{
    let wanted = match get_object_id(id.as_str()) {
        Ok(bytes) => bytes,
        Err(_) => {
            return Err(WriteError::InvalidId);
        },
    };
    let i = find_where_pet(&ctx.data_sources.pets, Some(&wanted), &id);
    if i >= ctx.data_sources.pets.len() {
        return Ok(DeleteResponse { id, success: false });
    }
    ctx.data_sources.pets.remove(i);
    Ok(DeleteResponse { id, success: true })
}

/// Registers an owner under the identifier `id`, unless an owner of that
/// username exists.
pub fn create_owner(ctx: &mut Context, new_owner: NewOwner, id: String) -> (r: Result<
    Owner,
    WriteError,
>)
    ensures
        (final(ctx).data_sources.owners@, r) == created(
            old(ctx).data_sources.owners@,
            owner_is_called(new_owner.username@),
            registered_owner(id, new_owner),
        ),
        final(ctx).data_sources.pets == old(ctx).data_sources.pets,
{
    let i = find_where_owner(&ctx.data_sources.owners, None, &new_owner.username);
    if i < ctx.data_sources.owners.len() {
        return Err(WriteError::AlreadyTaken);
    }
    let owner = Owner {
        id,
        username: new_owner.username,
        first_name: new_owner.first_name,
        last_name: new_owner.last_name,
        gender: new_owner.gender,
    };
    ctx.data_sources.owners.push(owner.duplicate());
    Ok(owner)
}

/// Changes the given fields of the owner with the identifier `id`.
pub fn update_owner(ctx: &mut Context, id: String, update: UpdateOwner) -> (r: Result<
    Owner,
    WriteError,
>)
    ensures
        (final(ctx).data_sources.owners@, r) == changed(
            old(ctx).data_sources.owners@,
            id@,
            |bytes: Seq<u8>| owner_has_id(bytes),
            |owner: Owner| updated_owner(owner, update),
        ),
        final(ctx).data_sources.pets == old(ctx).data_sources.pets,
{
    let wanted = match get_object_id(id.as_str()) {
        Ok(bytes) => bytes,
        Err(_) => {
            return Err(WriteError::InvalidId);
        },
    };
    let i = find_where_owner(&ctx.data_sources.owners, Some(&wanted), &id);
    if i >= ctx.data_sources.owners.len() {
        return Err(WriteError::NotFound);
    }
    let held = &ctx.data_sources.owners[i];
    let owner = Owner {
        id: held.id.clone(),
        username: match update.username {
            Some(username) => username,
            None => held.username.clone(),
        },
        first_name: match update.first_name {
            Some(name) => name,
            None => held.first_name.clone(),
        },
        last_name: match update.last_name {
            Some(name) => name,
            None => held.last_name.clone(),
        },
        gender: match update.gender {
            Some(gender) => gender,
            None => held.gender,
        },
    };
    ctx.data_sources.owners.set(i, owner.duplicate());
    Ok(owner)
}

/// Removes the owner with the identifier `id`, if there is one.
pub fn delete_owner(ctx: &mut Context, id: String) -> (r: Result<DeleteResponse, WriteError>)
    ensures
        final(ctx).data_sources.owners@ == deleted(
            old(ctx).data_sources.owners@,
            id@,
            |bytes: Seq<u8>| owner_has_id(bytes),
        ).0,
        match deleted(old(ctx).data_sources.owners@, id@, |bytes: Seq<u8>| owner_has_id(bytes)).1 {
            Ok(success) => r == Ok::<DeleteResponse, WriteError>(DeleteResponse { id, success }),
            Err(e) => r == Err::<DeleteResponse, WriteError>(e),
        },
        final(ctx).data_sources.pets == old(ctx).data_sources.pets,
{
    let wanted = match get_object_id(id.as_str()) {
        Ok(bytes) => bytes,
        Err(_) => {
            return Err(WriteError::InvalidId);
        },
    };
    let i = find_where_owner(&ctx.data_sources.owners, Some(&wanted), &id);
    if i >= ctx.data_sources.owners.len() {
        return Ok(DeleteResponse { id, success: false });
    }
    ctx.data_sources.owners.remove(i);
    Ok(DeleteResponse { id, success: true })
}

} // verus!
