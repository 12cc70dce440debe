//! End-to-end behavior of the store: entity creation, property reads and
//! writes, lazy indexing, and multi-predicate queries.

use entity_store::EntityId;
use entity_store::context::Context;
use entity_store::init_list::InitializationList;
use entity_store::property::{GeThreshold, StoredOnly};
use entity_store::query::Query;

// Property keys, standing for the property types of a host application.
const AGE: usize = 1;
const NAME: usize = 2;
const INFECTION_STATUS: usize = 3;
const RISK_CATEGORY: usize = 4;
const SENIOR: usize = 5;

// Risk category values.
const HIGH: u8 = 0;
const LOW: u8 = 1;

fn ctx() -> Context<StoredOnly> {
    Context::new(StoredOnly)
}

/// A context whose evaluator derives `SENIOR` as "AGE is at least 65".
fn senior_ctx() -> Context<GeThreshold> {
    let mut eval = GeThreshold::new();
    eval.rule(SENIOR, 65);
    let mut context = Context::new(eval);
    {
        let data = context.get_data_container_mut();
        data.register_nonderived_property(AGE, "Age".to_string(), false);
        data.register_derived_property(SENIOR, "Senior".to_string(), &vec![AGE]);
    }
    context
}

fn init(entries: &[(usize, Vec<u8>)]) -> InitializationList {
    let mut list = InitializationList::new();
    for (key, value) in entries {
        list.with_value(*key, value.clone());
    }
    list
}

fn query(preds: &[(usize, Vec<u8>)]) -> Query {
    let mut q = Query::new();
    for (key, value) in preds {
        q.with_value(*key, value);
    }
    q
}

fn risk_query(value: u8) -> Query {
    query(&[(RISK_CATEGORY, vec![value])])
}

fn property_is_indexed<E: entity_store::property::Compute>(
    context: &Context<E>,
    key: usize,
) -> bool {
    let data = context.get_data_container();
    match data.find_rank(key) {
        None => false,
        Some(rank) => data.property_indexes.entries[rank].lookup.is_some(),
    }
}

fn max_indexed<E: entity_store::property::Compute>(context: &Context<E>, key: usize) -> usize {
    let data = context.get_data_container();
    let rank = data.find_rank(key).unwrap();
    data.property_indexes.entries[rank].max_indexed
}

#[test]
fn test_context_creation() {
    let mut context = ctx();
    assert_eq!(context.get_entity_count(), 0);
    let id = context.add_entity(InitializationList::new()).unwrap();
    println!("{:?}", id);
    assert_eq!(context.get_entity_count(), 1);
}

#[test]
fn test_entity_data() {
    let mut context = ctx();

    context
        .add_entity(init(&[
            (AGE, vec![10]),
            (NAME, "John Smith".as_bytes().to_vec()),
            (INFECTION_STATUS, vec![0]),
        ]))
        .expect("Failed to add person");
}

#[test]
fn people_test_people_data() {
    let mut context = ctx();

    context
        .add_entity(init(&[
            (AGE, vec![10]),
            (NAME, "John Smith".as_bytes().to_vec()),
            (INFECTION_STATUS, vec![0]),
        ]))
        .expect("Failed to add person");
}

#[test]
fn people_data_test_people_data() {
    let mut context = ctx();

    context
        .add_entity(init(&[
            (AGE, vec![10]),
            (NAME, "John Smith".as_bytes().to_vec()),
            (INFECTION_STATUS, vec![0]),
        ]))
        .expect("Failed to add person");
}

#[test]
fn query_entities() {
    let mut context = ctx();
    let _ = context.add_entity(init(&[(RISK_CATEGORY, vec![HIGH])])).unwrap();

    let entities = context.query_entities(&risk_query(HIGH));
    assert_eq!(entities.len(), 1);
}

#[test]
fn query_entities_empty() {
    let mut context = ctx();

    let entities = context.query_entities(&risk_query(HIGH));
    assert_eq!(entities.len(), 0);
}

#[test]
fn query_entities_count() {
    let mut context = ctx();
    let _ = context.add_entity(init(&[(RISK_CATEGORY, vec![HIGH])])).unwrap();

    assert_eq!(context.query_entity_count(&risk_query(HIGH)), 1);
}

#[test]
fn query_entity_count_empty() {
    let mut context = ctx();

    assert_eq!(context.query_entity_count(&risk_query(HIGH)), 0);
}

#[test]
fn query_entity_macro_index_first() {
    let mut context = ctx();
    let _ = context.add_entity(init(&[(RISK_CATEGORY, vec![HIGH])])).unwrap();
    context.index_property(RISK_CATEGORY);
    assert!(property_is_indexed(&context, RISK_CATEGORY));
    let entities = context.query_entities(&risk_query(HIGH));
    assert_eq!(entities.len(), 1);
}

#[test]
fn query_entity_macro_index_second() {
    let mut context = ctx();
    let _ = context.add_entity(init(&[(RISK_CATEGORY, vec![HIGH])]));
    let entities = context.query_entities(&risk_query(HIGH));
    assert!(!property_is_indexed(&context, RISK_CATEGORY));
    assert_eq!(entities.len(), 1);
    context.index_property(RISK_CATEGORY);
    assert!(property_is_indexed(&context, RISK_CATEGORY));
    let entities = context.query_entities(&risk_query(HIGH));
    assert_eq!(entities.len(), 1);
}

#[test]
fn query_entity_macro_change() {
    let mut context = ctx();
    let person1 = context.add_entity(init(&[(RISK_CATEGORY, vec![HIGH])])).unwrap();

    let entities = context.query_entities(&risk_query(HIGH));
    assert_eq!(entities.len(), 1);
    let entities = context.query_entities(&risk_query(LOW));
    assert_eq!(entities.len(), 0);

    context.set_property(RISK_CATEGORY, person1, vec![LOW]);
    let entities = context.query_entities(&risk_query(HIGH));
    assert_eq!(entities.len(), 0);
    let entities = context.query_entities(&risk_query(LOW));
    assert_eq!(entities.len(), 1);
}

#[test]
fn query_entity_index_after_add() {
    let mut context = ctx();
    let _ = context.add_entity(init(&[(RISK_CATEGORY, vec![HIGH])])).unwrap();
    context.index_property(RISK_CATEGORY);
    assert!(property_is_indexed(&context, RISK_CATEGORY));
    let entities = context.query_entities(&risk_query(HIGH));
    assert_eq!(entities.len(), 1);
}

#[test]
fn query_entities_add_after_index() {
    let mut context = ctx();
    let _ = context.add_entity(init(&[(RISK_CATEGORY, vec![HIGH])])).unwrap();
    context.index_property(RISK_CATEGORY);
    assert!(property_is_indexed(&context, RISK_CATEGORY));
    let entities = context.query_entities(&risk_query(HIGH));
    assert_eq!(entities.len(), 1);

    let _ = context.add_entity(init(&[(RISK_CATEGORY, vec![HIGH])])).unwrap();
    let entities = context.query_entities(&risk_query(HIGH));
    assert_eq!(entities.len(), 2);
}

#[test]
// This is safe because we reindex only when someone queries; an entity
// without a value for the indexed property is simply never indexed.
fn query_entities_add_after_index_without_query() {
    let mut context = ctx();
    let _ = context.add_entity(InitializationList::new()).unwrap();
    context.index_property(RISK_CATEGORY);
}

#[test]
fn query_entities_cast_value() {
    let mut context = ctx();
    let _ = context.add_entity(init(&[(AGE, vec![42])])).unwrap();

    let entities = context.query_entities(&query(&[(AGE, vec![42])]));
    assert_eq!(entities.len(), 1);
}

#[test]
fn query_entities_intersection() {
    let mut context = ctx();
    let _ = context
        .add_entity(init(&[(AGE, vec![42]), (RISK_CATEGORY, vec![HIGH])]))
        .unwrap();
    let _ = context
        .add_entity(init(&[(AGE, vec![42]), (RISK_CATEGORY, vec![HIGH])]))
        .unwrap();
    let _ = context
        .add_entity(init(&[(AGE, vec![40]), (RISK_CATEGORY, vec![LOW])]))
        .unwrap();

    let entities =
        context.query_entities(&query(&[(AGE, vec![42]), (RISK_CATEGORY, vec![HIGH])]));
    assert_eq!(entities.len(), 2);
}

#[test]
fn query_entities_intersection_non_macro() {
    let mut context = ctx();
    let _ = context
        .add_entity(init(&[(AGE, vec![42]), (RISK_CATEGORY, vec![HIGH])]))
        .unwrap();
    let _ = context
        .add_entity(init(&[(AGE, vec![42]), (RISK_CATEGORY, vec![HIGH])]))
        .unwrap();
    let _ = context
        .add_entity(init(&[(AGE, vec![40]), (RISK_CATEGORY, vec![LOW])]))
        .unwrap();

    let entities =
        context.query_entities(&query(&[(AGE, vec![42]), (RISK_CATEGORY, vec![HIGH])]));
    assert_eq!(entities.len(), 2);
}

#[test]
fn query_entities_intersection_one_indexed() {
    let mut context = ctx();
    let _ = context
        .add_entity(init(&[(AGE, vec![42]), (RISK_CATEGORY, vec![HIGH])]))
        .unwrap();
    let _ = context
        .add_entity(init(&[(AGE, vec![42]), (RISK_CATEGORY, vec![HIGH])]))
        .unwrap();
    let _ = context
        .add_entity(init(&[(AGE, vec![40]), (RISK_CATEGORY, vec![LOW])]))
        .unwrap();

    context.index_property(AGE);
    let entities =
        context.query_entities(&query(&[(AGE, vec![42]), (RISK_CATEGORY, vec![HIGH])]));
    assert_eq!(entities.len(), 2);
}

#[test]
fn query_derived_prop() {
    let mut context = senior_ctx();

    let person = context.add_entity(init(&[(AGE, vec![64])])).unwrap();
    let _ = context.add_entity(init(&[(AGE, vec![88])])).unwrap();

    let not_seniors = context.query_entities(&query(&[(SENIOR, vec![0])]));
    let seniors = context.query_entities(&query(&[(SENIOR, vec![1])]));
    assert_eq!(seniors.len(), 1, "One senior");
    assert_eq!(not_seniors.len(), 1, "One non-senior");

    context.set_property(AGE, person, vec![65]);

    let not_seniors = context.query_entities(&query(&[(SENIOR, vec![0])]));
    let seniors = context.query_entities(&query(&[(SENIOR, vec![1])]));

    assert_eq!(seniors.len(), 2, "Two seniors");
    assert_eq!(not_seniors.len(), 0, "No non-seniors");
}

#[test]
fn query_derived_prop_with_index() {
    let mut context = senior_ctx();

    context.index_property(SENIOR);
    let person = context.add_entity(init(&[(AGE, vec![64])])).unwrap();
    let _ = context.add_entity(init(&[(AGE, vec![88])])).unwrap();

    let not_seniors = context.query_entities(&query(&[(SENIOR, vec![0])]));
    let seniors = context.query_entities(&query(&[(SENIOR, vec![1])]));
    assert_eq!(seniors.len(), 1, "One senior");
    assert_eq!(not_seniors.len(), 1, "One non-senior");

    context.set_property(AGE, person, vec![65]);

    let not_seniors = context.query_entities(&query(&[(SENIOR, vec![0])]));
    let seniors = context.query_entities(&query(&[(SENIOR, vec![1])]));

    assert_eq!(seniors.len(), 2, "Two seniors");
    assert_eq!(not_seniors.len(), 0, "No non-seniors");
}

#[test]
fn required_property_checked_on_creation() {
    let mut context = ctx();
    context
        .get_data_container_mut()
        .register_nonderived_property(NAME, "Name".to_string(), true);

    let rejected = context.add_entity(init(&[(AGE, vec![10])]));
    assert!(rejected.is_err());
    assert_eq!(rejected.unwrap_err().message(), "Missing initial value Name");

    let accepted = context.add_entity(init(&[
        (AGE, vec![10]),
        (NAME, "X".as_bytes().to_vec()),
    ]));
    assert!(accepted.is_ok());
}

#[test]
fn empty_query_over_empty_population() {
    let mut context = ctx();
    let entities = context.query_entities(&Query::new());
    assert_eq!(entities.len(), 0);
}

#[test]
fn empty_query_matches_everyone() {
    let mut context = ctx();
    let _ = context.add_entity(InitializationList::new()).unwrap();
    let _ = context.add_entity(init(&[(AGE, vec![3])])).unwrap();
    let entities = context.query_entities(&Query::new());
    assert_eq!(entities.len(), 2);
}

#[test]
fn count_equals_entities_len() {
    let mut context = ctx();
    for age in [40u8, 42, 42, 80, 42] {
        let _ = context.add_entity(init(&[(AGE, vec![age])])).unwrap();
    }
    let q = query(&[(AGE, vec![42])]);
    let found = context.query_entities(&q);
    let count = context.query_entity_count(&q);
    assert_eq!(found.len(), count);
    assert_eq!(count, 3);
}

#[test]
fn adding_predicates_never_grows_result() {
    let mut context = ctx();
    for (age, risk) in [(42u8, HIGH), (42, LOW), (40, HIGH)] {
        let _ = context
            .add_entity(init(&[(AGE, vec![age]), (RISK_CATEGORY, vec![risk])]))
            .unwrap();
    }
    let broad = context.query_entity_count(&query(&[(AGE, vec![42])]));
    let narrow =
        context.query_entity_count(&query(&[(AGE, vec![42]), (RISK_CATEGORY, vec![HIGH])]));
    assert!(narrow <= broad);
    assert_eq!(broad, 2);
    assert_eq!(narrow, 1);
}

#[test]
fn query_agrees_with_match_entity() {
    let mut context = ctx();
    for (age, risk) in [(42u8, HIGH), (42, HIGH), (40, LOW), (42, LOW)] {
        let _ = context
            .add_entity(init(&[(AGE, vec![age]), (RISK_CATEGORY, vec![risk])]))
            .unwrap();
    }
    context.index_property(RISK_CATEGORY);
    let q = query(&[(AGE, vec![42]), (RISK_CATEGORY, vec![HIGH])]);
    let found = context.query_entities(&q);
    let mut by_match = Vec::new();
    for e in 0..context.get_entity_count() {
        if context.match_entity(EntityId(e), &q) {
            by_match.push(EntityId(e));
        }
    }
    assert_eq!(found.len(), by_match.len());
    for id in &by_match {
        assert!(found.contains(id));
    }
}

#[test]
fn new_entity_found_by_its_initial_values() {
    let mut context = ctx();
    let _ = context
        .add_entity(init(&[(AGE, vec![30]), (RISK_CATEGORY, vec![LOW])]))
        .unwrap();
    let list = init(&[(AGE, vec![42]), (RISK_CATEGORY, vec![HIGH])]);
    let q = Query::from_init(&list);
    let id = context.add_entity(list).unwrap();
    let found = context.query_entities(&q);
    assert!(found.contains(&id));
}

#[test]
fn index_catches_up_after_later_adds() {
    let mut context = ctx();
    context.index_property(RISK_CATEGORY);
    for risk in [HIGH, LOW, HIGH, HIGH, LOW] {
        let _ = context.add_entity(init(&[(RISK_CATEGORY, vec![risk])])).unwrap();
    }
    let found = context.query_entities(&risk_query(HIGH));
    assert_eq!(found.len(), 3);
    assert_eq!(max_indexed(&context, RISK_CATEGORY), context.get_entity_count());
}

#[test]
fn index_round_trips_boundary_values() {
    let mut context = ctx();
    let exact16: Vec<u8> = (0u8..16).collect();
    let longer17: Vec<u8> = (0u8..17).collect();
    let id16 = context.add_entity(init(&[(NAME, exact16.clone())])).unwrap();
    let id17 = context.add_entity(init(&[(NAME, longer17.clone())])).unwrap();
    context.index_property(NAME);

    let found16 = context.query_entities(&query(&[(NAME, exact16)]));
    assert_eq!(found16, vec![id16]);
    let found17 = context.query_entities(&query(&[(NAME, longer17)]));
    assert_eq!(found17, vec![id17]);
}

#[test]
fn enabling_an_index_changes_no_result() {
    let mut context = ctx();
    for (age, risk) in [(42u8, HIGH), (42, HIGH), (40, LOW)] {
        let _ = context
            .add_entity(init(&[(AGE, vec![age]), (RISK_CATEGORY, vec![risk])]))
            .unwrap();
    }
    let q = query(&[(AGE, vec![42]), (RISK_CATEGORY, vec![HIGH])]);
    let before = context.query_entities(&q);
    context.index_property(AGE);
    let after = context.query_entities(&q);
    assert_eq!(before.len(), after.len());
    for id in &before {
        assert!(after.contains(id));
    }
}

#[test]
fn indexed_query_agrees_with_full_scan() {
    let mut context = ctx();
    for e in 0..10_000u32 {
        let age = (e % 100) as u8;
        let risk = if e % 3 == 0 { HIGH } else { LOW };
        let _ = context
            .add_entity(init(&[(AGE, vec![age]), (RISK_CATEGORY, vec![risk])]))
            .unwrap();
    }
    context.index_property(RISK_CATEGORY);
    let q = query(&[(RISK_CATEGORY, vec![HIGH]), (AGE, vec![42])]);
    let found = context.query_entities(&q);
    let mut expected = 0;
    for e in 0..context.get_entity_count() {
        if context.match_entity(EntityId(e), &q) {
            expected += 1;
        }
    }
    assert_eq!(found.len(), expected);
    assert!(expected > 0);
}

#[test]
fn get_property_reads_what_was_set() {
    let mut context = ctx();
    let id = context.add_entity(init(&[(AGE, vec![12])])).unwrap();
    assert_eq!(context.get_property(AGE, id), Some(vec![12]));
    context.set_property(AGE, id, vec![13]);
    assert_eq!(context.get_property(AGE, id), Some(vec![13]));
    assert_eq!(context.get_property(NAME, id), None);
}

#[test]
fn get_property_or_default_writes_once() {
    let mut context = ctx();
    let id = context.add_entity(InitializationList::new()).unwrap();
    let first = context.get_property_or_default(AGE, id, vec![33]);
    assert_eq!(first, vec![33]);
    let second = context.get_property_or_default(AGE, id, vec![44]);
    assert_eq!(second, vec![33]);
}

#[test]
fn get_property_mut_reads_and_writes_slot() {
    let mut context = ctx();
    let id = context.add_entity(init(&[(AGE, vec![21])])).unwrap();
    {
        let slot = context.get_property_mut(AGE, id);
        assert_eq!(slot.as_deref(), Some(&[21u8][..]));
        *slot = Some(vec![22]);
    }
    assert_eq!(context.get_property(AGE, id), Some(vec![22]));
}

#[test]
fn get_property_mut_registers_on_first_use() {
    let mut context = ctx();
    let id = context.add_entity(InitializationList::new()).unwrap();
    {
        let slot = context.get_property_mut(NAME, id);
        assert!(slot.is_none());
        *slot = Some("Ada".as_bytes().to_vec());
    }
    assert_eq!(context.get_property(NAME, id), Some("Ada".as_bytes().to_vec()));
}
