use mypets::cache::Ticket;
use mypets::error::{CacheComputeError, LookupError, PageError, WriteError};
use mypets::key::KeyPart;
use mypets::model::{Context, DataSources, Gender, NewOwner, NewPet, Owner, Pet, PetConnection, PetTypes, UpdateOwner, UpdatePet};
use mypets::plan::PageRequest;
use mypets::schema::{cache_key, collect, report, stored_page, Mutation, PageCache, Query, Served};
use mypets::services::{get_pets, DeleteResponse};

fn oid(n: u8) -> String {
    format!("5d00000000000000000000{:02x}", n)
}

fn pid(n: u8) -> String {
    format!("5e00000000000000000000{:02x}", n)
}

fn pet(n: u8, name: &str, kind: PetTypes, age: i32) -> Pet {
    Pet { id: pid(n), name: name.to_string(), pet_type: kind, age: Some(age), gender: Gender::Other, owner: Some(oid(1)) }
}

fn small_world() -> Context {
    Context {
        data_sources: DataSources {
            owners: vec![Owner { id: oid(1), username: "jsmith".to_string(), first_name: "John".to_string(), last_name: "Smith".to_string(), gender: Gender::Male }],
            pets: vec![
                pet(1, "Fido", PetTypes::Dog, 10),
                pet(2, "Cleo", PetTypes::Cat, 12),
                pet(3, "Oreo", PetTypes::Cat, 2),
                pet(4, "Milo", PetTypes::Dog, 10),
            ],
        },
    }
}

fn req(limit: Option<i32>, after: Option<&str>, before: Option<&str>, skip: Option<i32>) -> PageRequest {
    PageRequest { limit, after: after.map(|s| s.to_string()), before: before.map(|s| s.to_string()), skip }
}

fn names_of(page: &PetConnection) -> Vec<String> {
    page.edges.iter().map(|e| e.node.name.clone()).collect()
}

fn ready(served: Served<Pet>) -> PetConnection {
    match served {
        Served::Ready(page) => page,
        other => panic!("expected a page, got {:?}", other),
    }
}

#[test]
fn requests_that_come_down_to_the_same_have_the_same_key() {
    let none = KeyPart::Null;
    assert_eq!(cache_key("all_pets", &none, &req(None, None, None, None)), cache_key("all_pets", &none, &req(Some(25), None, None, Some(0))));
    assert_eq!(
        cache_key("all_pets", &none, &req(Some(3), Some("aa"), None, None)),
        cache_key("all_pets", &none, &req(Some(3), Some("aa"), Some("bb"), Some(9)))
    );
    assert_eq!(
        cache_key("all_pets", &none, &req(Some(3), None, Some("bb"), None)),
        cache_key("all_pets", &none, &req(Some(3), None, Some("bb"), Some(9)))
    );
}

#[test]
fn requests_that_differ_have_different_keys() {
    let none = KeyPart::Null;
    let keys = vec![
        cache_key("all_pets", &none, &req(None, None, None, None)),
        cache_key("all_pets", &none, &req(Some(3), None, None, None)),
        cache_key("all_pets", &none, &req(Some(3), None, None, Some(1))),
        cache_key("all_pets", &none, &req(Some(3), Some("aa"), None, None)),
        cache_key("all_pets", &none, &req(Some(3), None, Some("aa"), None)),
        cache_key("all_pets", &none, &req(Some(3), Some("ab"), None, None)),
        cache_key("all_owners", &none, &req(Some(3), None, None, None)),
        cache_key("all_pets", &KeyPart::text("Dog"), &req(Some(3), None, None, None)),
        cache_key("all_pets", &KeyPart::text("Cat"), &req(Some(3), None, None, None)),
        cache_key("all_pets", &none, &req(Some(3), Some("2"), None, None)),
        cache_key("all_pets", &none, &req(Some(3), None, None, Some(2))),
    ];
    for i in 0..keys.len() {
        for j in 0..keys.len() {
            if i != j {
                assert_ne!(keys[i], keys[j]);
            }
        }
    }
}

#[test]
fn key_of_the_first_page_request() {
    assert_eq!(
        cache_key("p", &KeyPart::Null, &req(None, None, None, None)),
        "010201000000000000007000011900000000000080010200000000000080010000000000000080"
    );
}

#[test]
fn first_request_computes_and_stores_the_page() {
    let ctx = small_world();
    let mut cache: PageCache<Pet> = PageCache::new(8, 10, 5);
    let page = ready(Query::all_pets(&ctx, &mut cache, 100, Some(3), None, None, None));
    assert_eq!(names_of(&page), vec!["Oreo", "Cleo", "Fido"]);
    assert_eq!(page, get_pets(&ctx, Some(3), None, None, None).unwrap());
    assert_eq!(cache.len(), 1);
}

#[test]
fn repeated_request_is_served_from_the_cache_while_fresh() {
    let mut ctx = small_world();
    let mut cache: PageCache<Pet> = PageCache::new(8, 10, 5);
    let first = ready(Query::all_pets(&ctx, &mut cache, 100, Some(3), None, None, None));
    ctx.data_sources.pets.push(pet(5, "Abby", PetTypes::Cat, 1));
    for now in 100..110 {
        let again = ready(Query::all_pets(&ctx, &mut cache, now, Some(3), None, None, None));
        assert_eq!(again, first);
    }
    let same = ready(Query::all_pets(&ctx, &mut cache, 105, Some(3), None, None, Some(0)));
    assert_eq!(same, first);
    assert_eq!(cache.len(), 1);
}

#[test]
fn request_after_the_time_to_live_is_computed_afresh() {
    let mut ctx = small_world();
    let mut cache: PageCache<Pet> = PageCache::new(8, 10, 5);
    let first = ready(Query::all_pets(&ctx, &mut cache, 100, Some(3), None, None, None));
    ctx.data_sources.pets.push(pet(5, "Abby", PetTypes::Cat, 1));
    let later = ready(Query::all_pets(&ctx, &mut cache, 110, Some(3), None, None, None));
    assert_ne!(later, first);
    assert_eq!(names_of(&later), vec!["Abby", "Oreo", "Cleo"]);
    assert_eq!(later.total_count, Some(5));
    let again = ready(Query::all_pets(&ctx, &mut cache, 111, Some(3), None, None, None));
    assert_eq!(again, later);
}

#[test]
fn different_requests_are_cached_apart() {
    let ctx = small_world();
    let mut cache: PageCache<Pet> = PageCache::new(8, 10, 5);
    let page1 = ready(Query::all_pets(&ctx, &mut cache, 100, Some(2), None, None, None));
    let page2 = ready(Query::all_pets(&ctx, &mut cache, 100, Some(2), page1.page_info.end_cursor.clone(), None, None));
    assert_eq!(names_of(&page1), vec!["Oreo", "Cleo"]);
    assert_eq!(names_of(&page2), vec!["Fido", "Milo"]);
    assert_eq!(cache.len(), 2);
    let back = ready(Query::all_pets(&ctx, &mut cache, 101, Some(2), None, page2.page_info.start_cursor.clone(), None));
    assert_eq!(back.edges, page1.edges);
    assert_eq!(cache.len(), 3);
}

#[test]
fn failed_request_is_handed_out_and_not_stored() {
    let ctx = small_world();
    let mut cache: PageCache<Pet> = PageCache::new(8, 10, 5);
    let r = Query::all_pets(&ctx, &mut cache, 100, Some(0), None, None, None);
    assert_eq!(r, Served::Failed(CacheComputeError { cause: PageError::InvalidArgument }));
    assert_eq!(cache.len(), 0);
    let r = Query::all_pets(&ctx, &mut cache, 100, Some(3), Some("zz".to_string()), None, None);
    assert_eq!(r, Served::Failed(CacheComputeError { cause: PageError::InvalidCursor }));
    let r = Query::all_pets(&ctx, &mut cache, 101, Some(0), None, None, None);
    assert_eq!(r, Served::Failed(CacheComputeError { cause: PageError::InvalidArgument }));
    assert_eq!(cache.len(), 0);
}

#[test]
fn request_is_pending_while_another_caller_computes() {
    let ctx = small_world();
    let mut cache: PageCache<Pet> = PageCache::new(8, 10, 5);
    let key = cache_key("all_pets", &KeyPart::Null, &req(Some(3), None, None, None));
    assert_eq!(cache.begin(&key, 100), Ticket::Lead);
    assert_eq!(Query::all_pets(&ctx, &mut cache, 101, Some(3), None, None, None), Served::Pending);
    assert_eq!(Query::all_pets(&ctx, &mut cache, 104, Some(3), None, None, None), Served::Pending);
    assert_eq!(collect(&mut cache, &key, 104), Served::Pending);
    let served = report(&mut cache, &key, 104, get_pets(&ctx, Some(3), None, None, None));
    let page = ready(served);
    assert_eq!(ready(collect(&mut cache, &key, 105)), page);
    assert_eq!(ready(collect(&mut cache, &key, 105)), page);
    assert_eq!(collect(&mut cache, &key, 105), Served::Abandoned);
    assert_eq!(ready(Query::all_pets(&ctx, &mut cache, 105, Some(3), None, None, None)), page);
    assert_eq!(stored_page(&cache, &key, 105), Some(page));
    assert_eq!(stored_page(&cache, &key, 114), None);
}

#[test]
fn waiters_are_handed_the_failure_of_the_leader() {
    let ctx = small_world();
    let mut cache: PageCache<Pet> = PageCache::new(8, 10, 5);
    let key = cache_key("all_pets", &KeyPart::Null, &req(Some(0), None, None, None));
    assert_eq!(cache.begin(&key, 100), Ticket::Lead);
    assert_eq!(Query::all_pets(&ctx, &mut cache, 101, Some(0), None, None, None), Served::Pending);
    assert_eq!(Query::all_pets(&ctx, &mut cache, 102, Some(0), None, None, None), Served::Pending);
    let leader = report(&mut cache, &key, 103, get_pets(&ctx, Some(0), None, None, None));
    assert_eq!(leader, Served::Failed(CacheComputeError { cause: PageError::InvalidArgument }));
    assert_eq!(collect(&mut cache, &key, 103), leader);
    assert_eq!(collect(&mut cache, &key, 200), leader);
    assert_eq!(collect(&mut cache, &key, 200), Served::Abandoned);
    assert_eq!(cache.len(), 0);
}

#[test]
fn waiter_is_told_when_its_leader_is_gone() {
    let ctx = small_world();
    let mut cache: PageCache<Pet> = PageCache::new(8, 10, 5);
    let key = cache_key("all_pets", &KeyPart::Null, &req(Some(3), None, None, None));
    assert_eq!(cache.begin(&key, 100), Ticket::Lead);
    assert_eq!(Query::all_pets(&ctx, &mut cache, 101, Some(3), None, None, None), Served::Pending);
    assert_eq!(collect(&mut cache, &key, 104), Served::Pending);
    assert_eq!(collect(&mut cache, &key, 105), Served::Abandoned);
    let page = ready(Query::all_pets(&ctx, &mut cache, 105, Some(3), None, None, None));
    assert_eq!(page, get_pets(&ctx, Some(3), None, None, None).unwrap());
}

#[test]
fn reported_failure_wraps_its_cause() {
    let mut cache: PageCache<Pet> = PageCache::new(8, 10, 5);
    assert_eq!(cache.begin("k", 0), Ticket::Lead);
    let r = report(&mut cache, "k", 1, Err(PageError::InvalidCursor));
    assert_eq!(r, Served::Failed(CacheComputeError { cause: PageError::InvalidCursor }));
    assert_eq!(stored_page(&cache, "k", 1), None);
}

#[test]
fn query_reads_by_identifier() {
    let ctx = small_world();
    assert_eq!(Query::pet_by_id(&ctx, pid(3)).unwrap().name, "Oreo");
    assert_eq!(Query::pet_by_id(&ctx, pid(30)), Err(LookupError::NotFound));
    assert_eq!(Query::pet_by_id(&ctx, "3".to_string()), Err(LookupError::InvalidId));
    assert_eq!(Query::owner_by_id(&ctx, oid(1)).unwrap().username, "jsmith");
    assert_eq!(Query::owner_by_id(&ctx, oid(2)), Err(LookupError::NotFound));
}

#[test]
fn query_pages_pets_by_type_or_all_by_age() {
    let ctx = small_world();
    let dogs = Query::pets_by_type(&ctx, Some(PetTypes::Dog), Some(5), None, None, None).unwrap();
    assert_eq!(names_of(&dogs), vec!["Fido", "Milo"]);
    assert_eq!(dogs.total_count, Some(2));
    let all = Query::pets_by_type(&ctx, None, Some(5), None, None, None).unwrap();
    assert_eq!(names_of(&all), vec!["Cleo", "Fido", "Milo", "Oreo"]);
    assert_eq!(all.total_count, Some(4));
    assert_eq!(Query::pets_by_type(&ctx, None, Some(-2), None, None, None), Err(PageError::InvalidArgument));
}

#[test]
fn query_pages_owners() {
    let ctx = small_world();
    let owners = Query::all_owners(&ctx, None, None, None, None).unwrap();
    assert_eq!(owners.edges.len(), 1);
    assert_eq!(owners.edges[0].node.username, "jsmith");
    assert_eq!(owners.total_count, Some(1));
}

#[test]
fn mutation_registers_changes_and_deletes() {
    let mut ctx = small_world();
    let rex = Mutation::create_pet(&mut ctx, NewPet { name: "Rex".to_string(), pet_type: PetTypes::Dog, age: None, gender: Gender::Male, owner: None }, pid(9)).unwrap();
    assert_eq!(rex.id, pid(9));
    assert_eq!(
        Mutation::create_pet(&mut ctx, NewPet { name: "Rex".to_string(), pet_type: PetTypes::Dog, age: None, gender: Gender::Male, owner: None }, pid(10)),
        Err(WriteError::AlreadyTaken)
    );
    let rex = Mutation::update_pet(&mut ctx, pid(9), UpdatePet { name: None, pet_type: None, age: Some(4), gender: None, owner: None }).unwrap();
    assert_eq!(rex.age, Some(4));
    assert_eq!(Mutation::delete_pet(&mut ctx, pid(9)), Ok(DeleteResponse { id: pid(9), success: true }));
    assert_eq!(ctx, small_world());
    let ann = Mutation::create_owner(&mut ctx, NewOwner { username: "ann".to_string(), first_name: "Ann".to_string(), last_name: "Lee".to_string(), gender: Gender::Female }, oid(2)).unwrap();
    assert_eq!(ann.username, "ann");
    let ann = Mutation::update_owner(&mut ctx, oid(2), UpdateOwner { username: None, first_name: None, last_name: Some("Li".to_string()), gender: None }).unwrap();
    assert_eq!(ann.last_name, "Li");
    assert_eq!(Mutation::delete_owner(&mut ctx, oid(2)), Ok(DeleteResponse { id: oid(2), success: true }));
    assert_eq!(Mutation::delete_owner(&mut ctx, oid(2)), Ok(DeleteResponse { id: oid(2), success: false }));
    assert_eq!(Mutation::update_owner(&mut ctx, oid(2), UpdateOwner { username: None, first_name: None, last_name: None, gender: None }), Err(WriteError::NotFound));
    assert_eq!(ctx, small_world());
}
