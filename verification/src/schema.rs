//! The read operations as callers see them: each paginated query behind
//! the result cache, keyed by what the request comes down to.

use crate::cache::{CacheModel, Outcome, ResultCache, Resumed, Ticket};
use crate::cursor::{cursor_of, encode, lemma_cursor_injective, representable};
use crate::error::{CacheComputeError, LookupError, PageError, WriteError};
use crate::key::{KeyPart, Part, SortKeyValue};
use crate::model::{
    text_part, Context, NewOwner, NewPet, Owner, Pet, PetTypes, UpdateOwner, UpdatePet,
};
use crate::page::{Connection, Record, RowModel};
use crate::plan::{effective_limit, PageRequest};
use crate::services::{
    changed, create_owner, create_pet, created, delete_owner, delete_pet, deleted, found_by_id,
    get_owner_by_id, get_owners, get_pet_by_id, get_pets, get_pets_by_type, owner_has_id,
    owner_is_called, owner_rows, pet_has_id, pet_is_named, pet_rows, pet_rows_by_age,
    pets_of_kind, registered_owner, registered_pet, update_owner, update_pet, updated_owner,
    updated_pet, DeleteResponse,
};
use crate::store::is_answer;
use vstd::prelude::*;
use vstd::string::*;
use vstd::utf8::encode_utf8_decode_utf8;

verus! {

/// The one paging parameter of a request that counts.
pub enum Mode {
    After(Seq<char>),
    Before(Seq<char>),
    Skip(int),
}

/// What a request comes down to: its page size, with the default filled
/// in, and the one paging parameter that counts.
pub struct Effective {
    pub limit: int,
    pub mode: Mode,
}

/// The effective parameters of a request: `after` wins over `before`,
/// either wins over `skip`, and no `skip` is a `skip` of nothing.
pub open spec fn effective(request: PageRequest) -> Effective {
    Effective {
        limit: effective_limit(request),
        mode: match request.after {
            Some(token) => Mode::After(token@),
            None => match request.before {
                Some(token) => Mode::Before(token@),
                None => match request.skip {
                    Some(s) => Mode::Skip(s as int),
                    None => Mode::Skip(0),
                },
            },
        },
    }
}

/// The parts from which a cache key is made: the name of the query, its
/// filter, and the effective parameters of the request.
pub open spec fn key_parts(scope: Seq<char>, filter: Part, request: PageRequest) -> Seq<Part> {
    let e = effective(request);
    match e.mode {
        Mode::After(token) => seq![
            text_part(scope),
            filter,
            Part::Int(e.limit as i64),
            Part::Int(0),
            text_part(token),
        ],
        Mode::Before(token) => seq![
            text_part(scope),
            filter,
            Part::Int(e.limit as i64),
            Part::Int(1),
            text_part(token),
        ],
        Mode::Skip(s) => seq![
            text_part(scope),
            filter,
            Part::Int(e.limit as i64),
            Part::Int(2),
            Part::Int(s as i64),
        ],
    }
}

/// The cache key of a request to the query `scope` under `filter`.
pub open spec fn cache_key_of(scope: Seq<char>, filter: Part, request: PageRequest) -> Seq<char> {
    cursor_of(key_parts(scope, filter, request))
}

/// Requests with the same effective parameters have the same cache key,
/// however they were written.
pub proof fn lemma_cache_key_normalized(
    scope: Seq<char>,
    filter: Part,
    one: PageRequest,
    other: PageRequest,
)
    requires
        effective(one) == effective(other),
    ensures
        cache_key_of(scope, filter, one) == cache_key_of(scope, filter, other),
{
}

/// Requests that differ in the query, the filter or an effective
/// parameter have different cache keys.
pub proof fn lemma_cache_key_distinct(
    scope: Seq<char>,
    filter: Part,
    one: PageRequest,
    other_scope: Seq<char>,
    other_filter: Part,
    other: PageRequest,
)
    requires
        representable(key_parts(scope, filter, one)),
        representable(key_parts(other_scope, other_filter, other)),
        cache_key_of(scope, filter, one) == cache_key_of(other_scope, other_filter, other),
    ensures
        scope == other_scope,
        filter == other_filter,
        effective(one) == effective(other),
{
    let a = key_parts(scope, filter, one);
    let b = key_parts(other_scope, other_filter, other);
    lemma_cursor_injective(a, b);
    assert(a[0] == b[0]);
    assert(a[1] == b[1]);
    assert(a[2] == b[2]);
    assert(a[3] == b[3]);
    assert(a[4] == b[4]);
    encode_utf8_decode_utf8(scope);
    encode_utf8_decode_utf8(other_scope);
    match (effective(one).mode, effective(other).mode) {
        (Mode::After(s), Mode::After(t)) => {
            encode_utf8_decode_utf8(s);
            encode_utf8_decode_utf8(t);
        },
        (Mode::Before(s), Mode::Before(t)) => {
            encode_utf8_decode_utf8(s);
            encode_utf8_decode_utf8(t);
        },
        _ => {},
    }
}

/// The cache key of a request to the query `scope` under `filter`.
pub fn cache_key(scope: &str, filter: &KeyPart, request: &PageRequest) -> (key: String)
    ensures
        key@ == cache_key_of(scope@, filter@, *request),
        representable(key_parts(scope@, filter@, *request)),
{
    let limit: i32 = match request.limit {
        Some(l) => l,
        None => crate::plan::DEFAULT_LIMIT,
    };
    let mut parts: Vec<KeyPart> = Vec::new();
    parts.push(KeyPart::text(scope));
    parts.push(filter.duplicate());
    parts.push(KeyPart::Int(limit as i64));
    match &request.after {
        Some(token) => {
            parts.push(KeyPart::Int(0));
            parts.push(KeyPart::text(token.as_str()));
        },
        None => match &request.before {
            Some(token) => {
                parts.push(KeyPart::Int(1));
                parts.push(KeyPart::text(token.as_str()));
            },
            None => {
                parts.push(KeyPart::Int(2));
                match request.skip {
                    Some(s) => {
                        parts.push(KeyPart::Int(s as i64));
                    },
                    None => {
                        parts.push(KeyPart::Int(0));
                    },
                }
            },
        },
    }
    let key = SortKeyValue::new(parts);
    assert(key@ =~= key_parts(scope@, filter@, *request));
    proof {
        crate::cursor::lemma_key_representable(&key);
    }
    encode(&key)
}


/// What a cached query hands back.
#[derive(Debug, PartialEq, Eq)]
pub enum Served<T> {
    /// The page, stored or just computed.
    Ready(Connection<T>),
    /// Another caller is computing the page, and this caller now waits
    /// for it: wait, then ask `collect`.
    Pending,
    /// The computation failed; nothing was stored.
    Failed(CacheComputeError<PageError>),
    /// The caller that was computing the page ran out of time: the wait
    /// is over, and the caller may ask anew.
    Abandoned,
}

/// A cache of pages.
pub type PageCache<T> = ResultCache<Connection<T>, PageError>;

/// How a cached query answers and what it leaves in the cache.
///
/// A live stored page is handed out as it is and nothing changes. While
/// another caller computes the page, the answer is `Pending` and the
/// caller is counted among the waiters. Otherwise the page is computed
/// from `records`: a page is stored for the cache's default time and
/// handed out; a failure is handed out, and put on file for the waiters.
pub open spec fn is_served<T>(
    r: Served<T>,
    before: CacheModel<Connection<T>, PageError>,
    after: CacheModel<Connection<T>, PageError>,
    key: Seq<char>,
    now: int,
    order: Seq<bool>,
    records: Seq<RowModel<T>>,
    request: PageRequest,
) -> bool {
    match before.begin(key, now).1 {
        Ticket::Hit => {
            &&& after == before
            &&& r matches Served::Ready(page)
            &&& before.live_value(key, now) matches Some(stored)
            &&& page@ == stored@
        },
        Ticket::Wait => after == before.begin(key, now).0 && r is Pending,
        Ticket::Lead => exists|outcome: Result<Connection<T>, PageError>|
            #[trigger] is_answer(outcome, order, records, request) && match outcome {
                Ok(stored) => {
                    &&& r matches Served::Ready(page)
                    &&& page@ == stored@
                    &&& after == before.begin(key, now).0.complete(
                        key,
                        stored,
                        now,
                        before.default_ttl,
                    )
                },
                Err(e) => {
                    &&& r == Served::<T>::Failed(CacheComputeError { cause: e })
                    &&& after == before.begin(key, now).0.fail(key, e)
                },
            },
    }
}

/// What a waiter is handed when it asks again: the page or the failure
/// that the leader reported, the word to wait on, or the word that the
/// leader ran out of time.
pub open spec fn is_collected<T>(
    r: Served<T>,
    before: CacheModel<Connection<T>, PageError>,
    key: Seq<char>,
    now: int,
) -> bool {
    match before.resume(key, now).1 {
        Resumed::Ready => {
            &&& r matches Served::Ready(page)
            &&& before.outcome(key) matches Outcome::Value(stored)
            &&& page@ == stored@
        },
        Resumed::Failed => {
            &&& before.outcome(key) matches Outcome::Failure(e)
            &&& r == Served::<T>::Failed(CacheComputeError { cause: e })
        },
        Resumed::Waiting => r is Pending,
        Resumed::Abandoned => r is Abandoned,
    }
}

/// A copy of the live page stored under `key`, if there is one.
pub fn stored_page<T: Record>(cache: &PageCache<T>, key: &str, now: u64) -> (r: Option<
    Connection<T>,
>)
    requires
        cache.wf(),
    ensures
        match cache@.live_value(key@, now as int) {
            Some(stored) => r matches Some(page) && page@ == stored@,
            None => r is None,
        },
{
    match cache.peek(key, now) {
        Some(page) => Some(page.duplicate()),
        None => None,
    }
}

/// Reports the outcome of a led computation to the cache and turns it
/// into what the caller gets.
pub fn report<T: Record>(
    cache: &mut PageCache<T>,
    key: &str,
    now: u64,
    outcome: Result<Connection<T>, PageError>,
) -> (r: Served<T>)
    requires
        old(cache).wf(),
    ensures
        final(cache).wf(),
        match outcome {
            Ok(stored) => {
                &&& r matches Served::Ready(page)
                &&& page@ == stored@
                &&& final(cache)@ == old(cache)@.complete(
                    key@,
                    stored,
                    now as int,
                    old(cache)@.default_ttl,
                )
            },
            Err(e) => {
                &&& r == Served::<T>::Failed(CacheComputeError { cause: e })
                &&& final(cache)@ == old(cache)@.fail(key@, e)
            },
        },
{
    match outcome {
        Ok(page) => {
            let copy = page.duplicate();
            cache.complete(key, page, now, None);
            Served::Ready(copy)
        },
        Err(e) => Served::Failed(cache.fail(key, e)),
    }
}

/// A caller that was told to wait for the page under `key` asks again:
/// see `is_collected` and `CacheModel::resume`.
pub fn collect<T: Record>(cache: &mut PageCache<T>, key: &str, now: u64) -> (r: Served<T>)
    requires
        old(cache).wf(),
    ensures
        final(cache).wf(),
        final(cache)@ == old(cache)@.resume(key@, now as int).0,
        is_collected(r, old(cache)@, key@, now as int),
{
    let page = match cache.awaited_value(key) {
        Some(stored) => Some(stored.duplicate()),
        None => None,
    };
    let cause = match cache.owed_failure(key) {
        Some(e) => Some(e.duplicate()),
        None => None,
    };
    match cache.resume(key, now) {
        Resumed::Ready => match page {
            Some(page) => Served::Ready(page),
            None => Served::Abandoned,
        },
        Resumed::Failed => match cause {
            Some(cause) => Served::Failed(CacheComputeError { cause }),
            None => Served::Abandoned,
        },
        Resumed::Waiting => Served::Pending,
        Resumed::Abandoned => Served::Abandoned,
    }
}

/// The read operations.
#[derive(Clone, Copy, Debug, PartialEq, Eq, Structural)]
pub struct Query;

/// The write operations.
#[derive(Clone, Copy, Debug, PartialEq, Eq, Structural)]
pub struct Mutation;

/// The bytes of `all_pets`, the name under which pages of all pets are
/// cached.
pub open spec fn all_pets_scope() -> Seq<char> {
    "all_pets"@
}

impl Query {
    /// A page of all pets, through the cache: see `is_served`.
    pub fn all_pets(
        ctx: &Context,
        cache: &mut PageCache<Pet>,
        now: u64,
        limit: Option<i32>,
        after: Option<String>,
        before: Option<String>,
        skip: Option<i32>,
    ) -> (r: Served<Pet>)
        requires
            old(cache).wf(),
        ensures
            final(cache).wf(),
            is_served(
                r,
                old(cache)@,
                final(cache)@,
                cache_key_of(
                    all_pets_scope(),
                    Part::Null,
                    PageRequest { limit, after, before, skip },
                ),
                now as int,
                seq![false, false, false],
                pet_rows(ctx.data_sources.pets@),
                PageRequest { limit, after, before, skip },
            ),
    {
        let request = PageRequest { limit, after, before, skip };
        let key = cache_key("all_pets", &KeyPart::Null, &request);
        let ghost start = cache@;
        match cache.begin(key.as_str(), now) {
            Ticket::Hit => match stored_page(cache, key.as_str(), now) {
                Some(page) => Served::Ready(page),
                None => Served::Pending,
            },
            Ticket::Wait => Served::Pending,
            Ticket::Lead => {
                let PageRequest { limit, after, before, skip } = request;
                let outcome = get_pets(ctx, limit, after, before, skip);
                let ghost seen = outcome;
                let r = report(cache, key.as_str(), now, outcome);
                assert(is_answer(
                    seen,
                    seq![false, false, false],
                    pet_rows(ctx.data_sources.pets@),
                    PageRequest { limit, after, before, skip },
                ));
                r
            },
        }
    }

    /// The pet with the given identifier.
    pub fn pet_by_id(ctx: &Context, id: String) -> (r: Result<Pet, LookupError>)
        ensures
            r == found_by_id(ctx.data_sources.pets@, id@, |bytes: Seq<u8>| pet_has_id(bytes)),
    {
        get_pet_by_id(ctx, id)
    }

    /// A page of pets, oldest first: those of one kind, or all of them
    /// where no kind is given.
    pub fn pets_by_type(
        ctx: &Context,
        pet_type: Option<PetTypes>,
        limit: Option<i32>,
        after: Option<String>,
        before: Option<String>,
        skip: Option<i32>,
    ) -> (r: Result<Connection<Pet>, PageError>)
        ensures
            is_answer(
                r,
                seq![true, false],
                pet_rows_by_age(
                    match pet_type {
                        Some(kind) => pets_of_kind(ctx.data_sources.pets@, kind),
                        None => ctx.data_sources.pets@,
                    },
                ),
                PageRequest { limit, after, before, skip },
            ),
    {
        match pet_type {
            Some(kind) => get_pets_by_type(ctx, kind, limit, after, before, skip),
            None => crate::services::get_pets_by_age(ctx, limit, after, before, skip),
        }
    }

    /// A page of all owners, sorted by username.
    pub fn all_owners(
        ctx: &Context,
        limit: Option<i32>,
        after: Option<String>,
        before: Option<String>,
        skip: Option<i32>,
    ) -> (r: Result<Connection<Owner>, PageError>)
        ensures
            is_answer(
                r,
                seq![false, false],
                owner_rows(ctx.data_sources.owners@),
                PageRequest { limit, after, before, skip },
            ),
    {
        get_owners(ctx, limit, after, before, skip)
    }

    /// The owner with the given identifier.
    pub fn owner_by_id(ctx: &Context, id: String) -> (r: Result<Owner, LookupError>)
        ensures
            r == found_by_id(ctx.data_sources.owners@, id@, |bytes: Seq<u8>| owner_has_id(bytes)),
    {
        get_owner_by_id(ctx, id)
    }
}


impl Mutation {
    /// Registers a pet under the identifier `id`, unless a pet of that
    /// name exists.
    pub fn create_pet(ctx: &mut Context, new_pet: NewPet, id: String) -> (r: Result<
        Pet,
        WriteError,
    >)
        ensures
            (final(ctx).data_sources.pets@, r) == created(
                old(ctx).data_sources.pets@,
                pet_is_named(new_pet.name@),
                registered_pet(id, new_pet),
            ),
            final(ctx).data_sources.owners == old(ctx).data_sources.owners,
    {
        create_pet(ctx, new_pet, id)
    }

    /// Changes the given fields of the pet with the identifier `id`.
    pub fn update_pet(ctx: &mut Context, id: String, update: UpdatePet) -> (r: Result<
        Pet,
        WriteError,
    >)
        ensures
            (final(ctx).data_sources.pets@, r) == changed(
                old(ctx).data_sources.pets@,
                id@,
                |bytes: Seq<u8>| pet_has_id(bytes),
                |pet: Pet| updated_pet(pet, update),
            ),
            final(ctx).data_sources.owners == old(ctx).data_sources.owners,
    {
        update_pet(ctx, id, update)
    }

    /// Removes the pet with the identifier `id`, if there is one.
    pub fn delete_pet(ctx: &mut Context, id: String) -> (r: Result<DeleteResponse, WriteError>)
        ensures
            final(ctx).data_sources.pets@ == deleted(
                old(ctx).data_sources.pets@,
                id@,
                |bytes: Seq<u8>| pet_has_id(bytes),
            ).0,
            match deleted(old(ctx).data_sources.pets@, id@, |bytes: Seq<u8>| pet_has_id(bytes)).1 {
                Ok(success) => r == Ok::<DeleteResponse, WriteError>(
                    DeleteResponse { id, success },
                ),
                Err(e) => r == Err::<DeleteResponse, WriteError>(e),
            },
            final(ctx).data_sources.owners == old(ctx).data_sources.owners,
    {
        delete_pet(ctx, id)
    }

    /// Registers an owner under the identifier `id`, unless an owner of
    /// that username exists.
    pub fn create_owner(ctx: &mut Context, new_owner: NewOwner, id: String) -> (r: Result<
        Owner,
        WriteError,
    >)
        ensures
            (final(ctx).data_sources.owners@, r) == created(
                old(ctx).data_sources.owners@,
                owner_is_called(new_owner.username@),
                registered_owner(id, new_owner),
            ),
            final(ctx).data_sources.pets == old(ctx).data_sources.pets,
    {
        create_owner(ctx, new_owner, id)
    }

    /// Changes the given fields of the owner with the identifier `id`.
    pub fn update_owner(ctx: &mut Context, id: String, update: UpdateOwner) -> (r: Result<
        Owner,
        WriteError,
    >)
        ensures
            (final(ctx).data_sources.owners@, r) == changed(
                old(ctx).data_sources.owners@,
                id@,
                |bytes: Seq<u8>| owner_has_id(bytes),
                |owner: Owner| updated_owner(owner, update),
            ),
            final(ctx).data_sources.pets == old(ctx).data_sources.pets,
    {
        update_owner(ctx, id, update)
    }

    /// Removes the owner with the identifier `id`, if there is one.
    pub fn delete_owner(ctx: &mut Context, id: String) -> (r: Result<DeleteResponse, WriteError>)
        ensures
            final(ctx).data_sources.owners@ == deleted(
                old(ctx).data_sources.owners@,
                id@,
                |bytes: Seq<u8>| owner_has_id(bytes),
            ).0,
            match deleted(
                old(ctx).data_sources.owners@,
                id@,
                |bytes: Seq<u8>| owner_has_id(bytes),
            ).1 {
                Ok(success) => r == Ok::<DeleteResponse, WriteError>(
                    DeleteResponse { id, success },
                ),
                Err(e) => r == Err::<DeleteResponse, WriteError>(e),
            },
            final(ctx).data_sources.pets == old(ctx).data_sources.pets,
    {
        delete_owner(ctx, id)
    }
}

} // verus!
