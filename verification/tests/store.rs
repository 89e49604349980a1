use todo_store::database::models::tag_item_bind::{BindEntity, BindModel};
use todo_store::database::models::tags::{TagEntity, TagModel};
use todo_store::database::models::todo_item::{TodoItemEntity, TodoItemModel};
use todo_store::database::priority::{BadPriorityError, Priority};
use todo_store::database::{Database, StoreError};
use todo_store::todo_storage::{
    clean_tag, create_tag, delete_tag, delete_todo_item, edit_message, edit_priority, edit_tag,
    fetch_all_tag_todo_item, fetch_all_tags, fetch_all_todo_item, get_tag_id, rename_tag,
    save_full_todo_item, state_revert, EditMode, PriorityLevel, TodoItem,
};
use todo_store::util::ErrMapString;

fn get_model(db: &Database, id: i32) -> TodoItemModel {
    TodoItemEntity::find_all_by_id(db, &vec![id]).remove(0)
}

#[test]
fn test_insert() {
    let mut db = Database::new();
    let data = TagModel {
        id: 1,
        value: "abccc".to_string(),
    };

    let v = TagEntity::new(&mut db, &data.value);

    println!("{v}");
    assert_eq!(v, 1);
}

#[test]
fn test_edit() {
    let mut db = Database::new();
    TagEntity::new(&mut db, &"abccc".to_string());

    TagEntity::edit(&mut db, 1, &"ccb".to_string()).unwrap();
    let r = TagEntity::fetch_all(&db, None);
    println!("{r:?}");
    assert_eq!(r.len(), 1);
    assert_eq!(r[0].id, 1);
    assert_eq!(r[0].value, "ccb");
}

#[test]
fn test_create() {
    let mut db = Database::new();
    let idx = TodoItemEntity::save(&mut db, "Foo".into(), Priority::VeryHigh, None);

    let model = get_model(&db, idx);

    assert_eq!(
        model,
        TodoItemModel {
            id: idx,
            message: "Foo".into(),
            priority: Priority::VeryHigh,
            done: false
        }
    );
}

#[test]
fn test_rev() {
    let mut db = Database::new();
    TodoItemEntity::save(&mut db, "Foo".into(), Priority::VeryHigh, None);

    TodoItemEntity::revert_done(&mut db, 1).unwrap();

    let model = get_model(&db, 1);

    assert_eq!(
        model,
        TodoItemModel {
            id: 1,
            message: "Foo".into(),
            priority: Priority::VeryHigh,
            done: true
        }
    );
}

#[test]
fn get_or_create_is_idempotent() {
    let mut db = Database::new();
    let first = create_tag(&mut db, "work".to_string());
    let second = create_tag(&mut db, "work".to_string());
    let third = create_tag(&mut db, "work".to_string());
    assert_eq!(first, second);
    assert_eq!(second, third);
    let rows = fetch_all_tags(&db);
    assert_eq!(rows, vec![(first, "work".to_string())]);
}

#[test]
fn unique_tag_names_single_row() {
    let mut db = Database::new();
    create_tag(&mut db, "same".to_string());
    create_tag(&mut db, "same".to_string());
    let rows = TagEntity::fetch_all(&db, None);
    assert_eq!(rows.iter().filter(|t| t.value == "same").count(), 1);
}

#[test]
fn priority_round_trip() {
    let all = [
        Priority::VeryHigh,
        Priority::High,
        Priority::Medium,
        Priority::Low,
        Priority::VeryLow,
    ];
    for (i, p) in all.into_iter().enumerate() {
        let code = p.encode();
        assert_eq!(code, i as u8);
        assert_eq!(Priority::decode(code), Ok(p));
    }
    assert_eq!(Priority::decode(5), Err(BadPriorityError(5)));
    assert_eq!(Priority::decode(255), Err(BadPriorityError(255)));
}

#[test]
fn delete_item_leaves_no_orphan_bindings() {
    let mut db = Database::new();
    let item = TodoItem {
        message: "clean garage".to_string(),
        priority: PriorityLevel::Medium,
        done: false,
        tags: vec!["home".to_string(), "weekend".to_string()],
    };
    let id = save_full_todo_item(&mut db, item);
    assert_eq!(BindEntity::fetch_all(&db).len(), 2);

    delete_todo_item(&mut db, id);

    assert!(BindEntity::fetch_all(&db)
        .iter()
        .all(|b| b.item_id != id));
    assert!(BindEntity::fetch_all(&db).is_empty());
    assert!(TodoItemEntity::find_all_by_id(&db, &vec![id]).is_empty());
}

#[test]
fn delete_tag_leaves_no_orphan_bindings() {
    let mut db = Database::new();
    let a = save_full_todo_item(
        &mut db,
        TodoItem {
            message: "first".to_string(),
            priority: PriorityLevel::High,
            done: false,
            tags: vec!["x".to_string()],
        },
    );
    let b = save_full_todo_item(
        &mut db,
        TodoItem {
            message: "second".to_string(),
            priority: PriorityLevel::Low,
            done: false,
            tags: vec!["x".to_string()],
        },
    );
    assert_ne!(a, b);
    let tag_id = get_tag_id(&db, "x".to_string()).unwrap();

    delete_tag(&mut db, "x".to_string()).unwrap();

    assert!(BindEntity::fetch_all(&db)
        .iter()
        .all(|bind| bind.tag_id != tag_id));
    assert!(fetch_all_tag_todo_item(&db, tag_id).is_empty());
    assert_eq!(get_tag_id(&db, "x".to_string()), Err(StoreError::NotFound));
}

#[test]
fn tag_aggregation_is_complete() {
    let mut db = Database::new();
    let id = save_full_todo_item(
        &mut db,
        TodoItem {
            message: "Buy milk".to_string(),
            priority: PriorityLevel::Low,
            done: false,
            tags: vec!["shopping".to_string(), "home".to_string()],
        },
    );

    let all = fetch_all_todo_item(&db);
    assert_eq!(all.len(), 1);
    let (got_id, item) = &all[0];
    assert_eq!(*got_id, id);
    assert_eq!(item.message, "Buy milk");
    assert_eq!(item.priority, PriorityLevel::Low);
    assert!(!item.done);
    let mut tags = item.tags.clone();
    tags.sort();
    assert_eq!(tags, vec!["home".to_string(), "shopping".to_string()]);
}

#[test]
fn duplicate_tag_names_collapse_to_one_binding() {
    let mut db = Database::new();
    let id = save_full_todo_item(
        &mut db,
        TodoItem {
            message: "dedup".to_string(),
            priority: PriorityLevel::Medium,
            done: false,
            tags: vec!["twice".to_string(), "twice".to_string()],
        },
    );
    assert_eq!(BindEntity::fetch_all(&db).len(), 1);
    let all = fetch_all_todo_item(&db);
    assert_eq!(all.len(), 1);
    assert_eq!(all[0].0, id);
    assert_eq!(all[0].1.tags, vec!["twice".to_string()]);
}

#[test]
fn toggle_done_twice_is_identity() {
    let mut db = Database::new();
    let id = TodoItemEntity::save(&mut db, "flip me".into(), Priority::Medium, Some(false));
    state_revert(&mut db, id).unwrap();
    assert!(get_model(&db, id).done);
    state_revert(&mut db, id).unwrap();
    assert!(!get_model(&db, id).done);
}

#[test]
fn rename_preserves_bindings() {
    let mut db = Database::new();
    let x = save_full_todo_item(
        &mut db,
        TodoItem {
            message: "item X".to_string(),
            priority: PriorityLevel::High,
            done: false,
            tags: vec!["a".to_string()],
        },
    );
    let tag_id = get_tag_id(&db, "a".to_string()).unwrap();

    rename_tag(&mut db, tag_id, "b".to_string()).unwrap();

    assert_eq!(get_tag_id(&db, "b".to_string()), Ok(tag_id));
    assert_eq!(get_tag_id(&db, "a".to_string()), Err(StoreError::NotFound));
    let items = fetch_all_tag_todo_item(&db, tag_id);
    assert!(items.iter().any(|(id, _)| *id == x));
}

#[test]
fn rename_to_taken_name_is_rejected() {
    let mut db = Database::new();
    let first = create_tag(&mut db, "first".to_string());
    create_tag(&mut db, "second".to_string());
    assert_eq!(
        rename_tag(&mut db, first, "second".to_string()),
        Err(StoreError::DuplicateName)
    );
    assert_eq!(rename_tag(&mut db, first, "first".to_string()), Ok(()));
    assert_eq!(
        rename_tag(&mut db, 99, "other".to_string()),
        Err(StoreError::NotFound)
    );
}

#[test]
fn edit_on_missing_item_is_not_found() {
    let mut db = Database::new();
    assert_eq!(
        edit_message(&mut db, 7, "nope".to_string()),
        Err(StoreError::NotFound)
    );
    assert_eq!(
        edit_priority(&mut db, 7, PriorityLevel::Low),
        Err(StoreError::NotFound)
    );
    assert_eq!(state_revert(&mut db, 7), Err(StoreError::NotFound));
    assert_eq!(TagEntity::find_by_id(&db, 7), Err(StoreError::NotFound));
}

#[test]
fn edit_message_and_priority_update_in_place() {
    let mut db = Database::new();
    let id = TodoItemEntity::save(&mut db, "old text".into(), Priority::VeryLow, None);
    edit_message(&mut db, id, "new text".to_string()).unwrap();
    edit_priority(&mut db, id, PriorityLevel::VeryHigh).unwrap();
    let model = get_model(&db, id);
    assert_eq!(model.message, "new text");
    assert_eq!(model.priority, Priority::VeryHigh);
}

#[test]
fn edit_tag_add_and_remove() {
    let mut db = Database::new();
    let id = save_full_todo_item(
        &mut db,
        TodoItem {
            message: "taggable".to_string(),
            priority: PriorityLevel::Medium,
            done: false,
            tags: vec![],
        },
    );
    let t = edit_tag(&mut db, id, EditMode::Add, "urgent".to_string());
    assert_eq!(BindEntity::fetch_all(&db), vec![BindModel::new(t, id)]);
    // adding the same pair again is an idempotent no-op
    let t2 = edit_tag(&mut db, id, EditMode::Add, "urgent".to_string());
    assert_eq!(t2, t);
    assert_eq!(BindEntity::fetch_all(&db).len(), 1);

    let t3 = edit_tag(&mut db, id, EditMode::Remove, "urgent".to_string());
    assert_eq!(t3, t);
    assert!(BindEntity::fetch_all(&db).is_empty());
    // the tag itself persists
    assert_eq!(get_tag_id(&db, "urgent".to_string()), Ok(t));
    // removing an unbound tag still resolves (and may create) it
    let t4 = edit_tag(&mut db, id, EditMode::Remove, "brand new".to_string());
    assert_eq!(get_tag_id(&db, "brand new".to_string()), Ok(t4));
}

#[test]
fn clean_tag_keeps_tags_alive() {
    let mut db = Database::new();
    let id = save_full_todo_item(
        &mut db,
        TodoItem {
            message: "clear me".to_string(),
            priority: PriorityLevel::Low,
            done: true,
            tags: vec!["keep".to_string()],
        },
    );
    clean_tag(&mut db, id);
    assert!(BindEntity::fetch_all(&db).is_empty());
    assert!(get_tag_id(&db, "keep".to_string()).is_ok());
    assert_eq!(fetch_all_todo_item(&db)[0].1.tags.len(), 0);
}

#[test]
fn fetch_limits_and_missing_ids() {
    let mut db = Database::new();
    create_tag(&mut db, "one".to_string());
    create_tag(&mut db, "two".to_string());
    create_tag(&mut db, "three".to_string());
    assert_eq!(TagEntity::fetch_all(&db, Some(2)).len(), 2);
    assert_eq!(TagEntity::fetch_all(&db, Some(10)).len(), 3);
    assert_eq!(TagEntity::fetch_all(&db, None).len(), 3);

    let found = TagEntity::find_all_by_id(&db, &vec![1, 42, 3]);
    let values: Vec<String> = found.into_iter().map(|t| t.value).collect();
    assert_eq!(values, vec!["one".to_string(), "three".to_string()]);

    TodoItemEntity::save(&mut db, "a".into(), Priority::Low, None);
    TodoItemEntity::save(&mut db, "b".into(), Priority::Low, None);
    assert_eq!(TodoItemEntity::fetch_all(&db, Some(1)).len(), 1);
    assert!(TodoItemEntity::find_all_by_id(&db, &vec![99]).is_empty());
}

#[test]
fn raw_removes_are_no_ops_on_miss() {
    let mut db = Database::new();
    TagEntity::remove(&mut db, &"ghost".to_string());
    TodoItemEntity::remove(&mut db, 5);
    BindEntity::remove(&mut db, 1, 1);
    BindEntity::remove_bind_tag_id(&mut db, 1);
    BindEntity::remove_bind_item_id(&mut db, 1);
    assert!(TagEntity::fetch_all(&db, None).is_empty());
    assert!(TodoItemEntity::fetch_all(&db, None).is_empty());
    assert!(BindEntity::fetch_all(&db).is_empty());
    assert_eq!(
        delete_tag(&mut db, "ghost".to_string()),
        Err(StoreError::NotFound)
    );
}

#[test]
fn save_all_ignores_duplicate_pairs() {
    let mut db = Database::new();
    let tag = create_tag(&mut db, "t".to_string());
    let item = TodoItemEntity::save(&mut db, "i".into(), Priority::Medium, None);
    BindEntity::save_all(
        &mut db,
        vec![
            BindModel::new(tag, item),
            BindModel::new(tag, item),
            BindModel::new(tag, item),
        ],
    );
    assert_eq!(BindEntity::fetch_all(&db), vec![BindModel::new(tag, item)]);
    BindEntity::save_all(&mut db, vec![BindModel::new(tag, item)]);
    assert_eq!(BindEntity::fetch_all(&db).len(), 1);
}

#[test]
fn binding_lookups_follow_table_order() {
    let mut db = Database::new();
    let t1 = create_tag(&mut db, "t1".to_string());
    let t2 = create_tag(&mut db, "t2".to_string());
    let i1 = TodoItemEntity::save(&mut db, "i1".into(), Priority::Low, None);
    let i2 = TodoItemEntity::save(&mut db, "i2".into(), Priority::Low, None);
    BindEntity::save_all(
        &mut db,
        vec![
            BindModel::new(t1, i1),
            BindModel::new(t2, i1),
            BindModel::new(t1, i2),
        ],
    );
    assert_eq!(BindEntity::fetch_all_tag_id(&db, i1), vec![t1, t2]);
    assert_eq!(BindEntity::fetch_all_item_id(&db, t1), vec![i1, i2]);
    assert_eq!(BindEntity::fetch_all_item_id(&db, t2), vec![i1]);
}

#[test]
fn stale_binding_is_dropped_from_reads() {
    let mut db = Database::new();
    let id = save_full_todo_item(
        &mut db,
        TodoItem {
            message: "stale".to_string(),
            priority: PriorityLevel::High,
            done: false,
            tags: vec!["gone".to_string(), "kept".to_string()],
        },
    );
    // raw per-table removal, deliberately without the binding cascade
    TagEntity::remove(&mut db, &"gone".to_string());
    assert_eq!(BindEntity::fetch_all(&db).len(), 2);

    let all = fetch_all_todo_item(&db);
    assert_eq!(all.len(), 1);
    assert_eq!(all[0].0, id);
    assert_eq!(all[0].1.tags, vec!["kept".to_string()]);
}

#[test]
fn full_view_resolves_complete_tag_sets() {
    let mut db = Database::new();
    let a = save_full_todo_item(
        &mut db,
        TodoItem {
            message: "alpha".to_string(),
            priority: PriorityLevel::VeryHigh,
            done: false,
            tags: vec!["shared".to_string(), "only a".to_string()],
        },
    );
    let shared = get_tag_id(&db, "shared".to_string()).unwrap();
    let b = save_full_todo_item(
        &mut db,
        TodoItem {
            message: "beta".to_string(),
            priority: PriorityLevel::VeryLow,
            done: true,
            tags: vec!["shared".to_string()],
        },
    );

    let for_shared = fetch_all_tag_todo_item(&db, shared);
    let ids: Vec<i32> = for_shared.iter().map(|(id, _)| *id).collect();
    assert_eq!(ids, vec![a, b]);
    // each item carries its complete tag set, not just the queried tag
    let item_a = &for_shared[0].1;
    let mut tags_a = item_a.tags.clone();
    tags_a.sort();
    assert_eq!(tags_a, vec!["only a".to_string(), "shared".to_string()]);
}

#[test]
fn error_messages_flatten_to_strings() {
    let mut db = Database::new();
    assert_eq!(StoreError::NotFound.message(), "not found");
    assert_eq!(StoreError::DuplicateName.message(), "duplicate name");
    let flat: Result<i32, String> = get_tag_id(&db, "nope".to_string()).err_to_str();
    assert_eq!(flat, Err("not found".to_string()));
    let first = create_tag(&mut db, "a".to_string());
    create_tag(&mut db, "b".to_string());
    let dup: Result<(), String> = rename_tag(&mut db, first, "b".to_string()).err_to_str();
    assert_eq!(dup, Err("duplicate name".to_string()));
    let ok: Result<i32, String> = get_tag_id(&db, "a".to_string()).err_to_str();
    assert_eq!(ok, Ok(first));
}

#[test]
fn from_rows_rebuilds_a_store() {
    let tags = vec![
        TagModel {
            id: 3,
            value: "a".to_string(),
        },
        TagModel {
            id: 7,
            value: "b".to_string(),
        },
    ];
    let items = vec![TodoItemModel {
        id: 2,
        message: "m".to_string(),
        priority: Priority::Low,
        done: true,
    }];
    // the second binding is stale: tag 9 does not exist
    let binds = vec![BindModel::new(3, 2), BindModel::new(9, 2)];
    let mut db = Database::from_rows(tags, items, binds).unwrap();

    // counters resume past every id present, including the stale reference
    assert_eq!(create_tag(&mut db, "c".to_string()), 10);
    assert_eq!(
        TodoItemEntity::save(&mut db, "n".into(), Priority::High, None),
        3
    );
    // the stale binding is dropped on read
    let all = fetch_all_todo_item(&db);
    assert_eq!(all[0].1.tags, vec!["a".to_string()]);
}

#[test]
fn from_rows_rejects_invalid_rows() {
    let tag = |id: i32, value: &str| TagModel {
        id,
        value: value.to_string(),
    };
    // duplicate tag value
    assert!(Database::from_rows(vec![tag(1, "x"), tag(2, "x")], vec![], vec![]).is_none());
    // duplicate tag id
    assert!(Database::from_rows(vec![tag(1, "x"), tag(1, "y")], vec![], vec![]).is_none());
    // non-positive id
    assert!(Database::from_rows(vec![tag(0, "x")], vec![], vec![]).is_none());
    // duplicate binding pair
    assert!(
        Database::from_rows(vec![], vec![], vec![BindModel::new(1, 1), BindModel::new(1, 1)])
            .is_none()
    );
    // valid empty store
    assert!(Database::from_rows(vec![], vec![], vec![]).is_some());
}

#[test]
fn generated_ids_are_sequential_per_table() {
    let mut db = Database::new();
    assert_eq!(create_tag(&mut db, "t1".to_string()), 1);
    assert_eq!(create_tag(&mut db, "t2".to_string()), 2);
    assert_eq!(
        TodoItemEntity::save(&mut db, "i1".into(), Priority::Low, None),
        1
    );
    assert_eq!(
        TodoItemEntity::save(&mut db, "i2".into(), Priority::High, Some(true)),
        2
    );
    let m = get_model(&db, 2);
    assert!(m.done);
}
