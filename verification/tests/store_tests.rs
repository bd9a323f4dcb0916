use issue_tracker::models::{DBState, DbError, Epic, Status, Story};

fn epic(name: &str, description: &str) -> Epic {
    Epic::new(name.to_string(), description.to_string())
}

fn story(name: &str, description: &str) -> Story {
    Story::new(name.to_string(), description.to_string())
}

#[test]
fn scenario_create_then_delete() {
    let mut db = DBState::new();
    assert_eq!(db.last_item_id, 0);

    let id1 = db.new_epic(epic("A", "d"));
    assert_eq!(id1, 1);
    assert_eq!(db.last_item_id, 1);
    assert_eq!(db.epics.len(), 1);
    let e = db.epics.get(&1).unwrap();
    assert_eq!(e.name, "A");
    assert_eq!(e.status, Status::Open);
    assert!(e.stories.is_empty());

    let id2 = db.new_story(story("B", "d"), 1).unwrap();
    assert_eq!(id2, 2);
    assert_eq!(db.epics.get(&1).unwrap().stories, vec![2]);
    let s = db.stories.get(&2).unwrap();
    assert_eq!(s.name, "B");
    assert_eq!(s.status, Status::Open);

    db.delete_story(2, 1).unwrap();
    assert!(db.stories.is_empty());
    assert!(db.epics.get(&1).unwrap().stories.is_empty());

    db.delete_epic(1).unwrap();
    assert!(db.epics.is_empty());
}

#[test]
fn create_story_missing_epic_leaves_store_unchanged() {
    let mut db = DBState::new();
    let before = db.clone();
    let r = db.new_story(story("x", "y"), 99);
    assert_eq!(r, Err(DbError::NotFound));
    assert_eq!(db, before);
}

#[test]
fn delete_epic_cascades_all_its_stories() {
    let mut db = DBState::new();
    let e1 = db.new_epic(epic("A", "d"));
    let s1 = db.new_story(story("B", "d"), e1).unwrap();
    let s2 = db.new_story(story("C", "d"), e1).unwrap();
    let e2 = db.new_epic(epic("other", "d"));
    let s3 = db.new_story(story("kept", "d"), e2).unwrap();

    db.delete_epic(e1).unwrap();
    assert!(!db.epics.contains_key(&e1));
    assert!(!db.stories.contains_key(&s1));
    assert!(!db.stories.contains_key(&s2));
    assert!(db.stories.contains_key(&s3));
    assert_eq!(db.epics.get(&e2).unwrap().stories, vec![s3]);
}

#[test]
fn delete_epic_tolerates_missing_story_entries() {
    let mut db = DBState::new();
    let id = db.new_epic(epic("A", "d"));
    // simulate a list that names a story with no entry: the cascade must
    // pass over it silently
    db.epics.get_mut(&id).unwrap().stories.push(7);
    assert_eq!(db.delete_epic(id), Ok(()));
    assert!(db.epics.is_empty());
}

#[test]
fn ids_are_never_reused_after_deletion() {
    let mut db = DBState::new();
    let e1 = db.new_epic(epic("A", "d"));
    assert_eq!(e1, 1);
    let s1 = db.new_story(story("B", "d"), e1).unwrap();
    assert_eq!(s1, 2);
    db.delete_story(s1, e1).unwrap();
    let s2 = db.new_story(story("C", "d"), e1).unwrap();
    assert_eq!(s2, 3);
    db.delete_epic(e1).unwrap();
    let e2 = db.new_epic(epic("D", "d"));
    assert_eq!(e2, 4);
    assert_eq!(db.last_item_id, 4);
}

#[test]
fn delete_story_from_wrong_epic_rolls_back() {
    let mut db = DBState::new();
    let e1 = db.new_epic(epic("A", "d"));
    let e2 = db.new_epic(epic("B", "d"));
    let s1 = db.new_story(story("C", "d"), e1).unwrap();
    let before = db.clone();

    // both the epic and the story exist, but e2's list does not name s1
    let r = db.delete_story(s1, e2);
    assert_eq!(r, Err(DbError::Inconsistent));
    assert_eq!(db, before);
}

#[test]
fn delete_story_missing_entities_fail_not_found() {
    let mut db = DBState::new();
    let e1 = db.new_epic(epic("A", "d"));
    let s1 = db.new_story(story("B", "d"), e1).unwrap();
    let before = db.clone();

    assert_eq!(db.delete_story(s1, 99), Err(DbError::NotFound));
    assert_eq!(db, before);
    assert_eq!(db.delete_story(99, e1), Err(DbError::NotFound));
    assert_eq!(db, before);
}

#[test]
fn delete_epic_missing_fails_not_found() {
    let mut db = DBState::new();
    let before = db.clone();
    assert_eq!(db.delete_epic(42), Err(DbError::NotFound));
    assert_eq!(db, before);
}

#[test]
fn update_epic_status_applies_and_is_idempotent() {
    let mut db = DBState::new();
    let e1 = db.new_epic(epic("A", "d"));
    db.update_epic_status(e1, Status::Closed).unwrap();
    assert_eq!(db.epics.get(&e1).unwrap().status, Status::Closed);
    let once = db.clone();
    db.update_epic_status(e1, Status::Closed).unwrap();
    assert_eq!(db, once);
    assert_eq!(db.update_epic_status(99, Status::Open), Err(DbError::NotFound));
}

#[test]
fn update_story_status_applies_and_is_idempotent() {
    let mut db = DBState::new();
    let e1 = db.new_epic(epic("A", "d"));
    let s1 = db.new_story(story("B", "d"), e1).unwrap();
    db.update_story_status(s1, Status::InProgress).unwrap();
    assert_eq!(db.stories.get(&s1).unwrap().status, Status::InProgress);
    let once = db.clone();
    db.update_story_status(s1, Status::InProgress).unwrap();
    assert_eq!(db, once);
    assert_eq!(db.update_story_status(99, Status::Open), Err(DbError::NotFound));
}

#[test]
fn status_labels() {
    assert_eq!(Status::Open.label(), "OPEN");
    assert_eq!(Status::InProgress.label(), "IN PROGRESS");
    assert_eq!(Status::Resolved.label(), "RESOLVED");
    assert_eq!(Status::Closed.label(), "CLOSED");
}

#[test]
fn status_from_numeric_choice() {
    assert_eq!(Status::from_choice(1), Some(Status::Open));
    assert_eq!(Status::from_choice(2), Some(Status::InProgress));
    assert_eq!(Status::from_choice(3), Some(Status::Resolved));
    assert_eq!(Status::from_choice(4), Some(Status::Closed));
    assert_eq!(Status::from_choice(0), None);
    assert_eq!(Status::from_choice(5), None);
}
