use issue_tracker::models::{DBState, Epic, Status, Story};

fn epic_with(name: &str, stories: Vec<u32>) -> Epic {
    Epic {
        name: name.to_string(),
        description: "d".to_string(),
        status: Status::Open,
        stories,
    }
}

fn story(name: &str) -> Story {
    Story {
        name: name.to_string(),
        description: "d".to_string(),
        status: Status::Open,
    }
}

#[test]
fn valid_entries_build_a_store() {
    let db = DBState::from_entries(
        3,
        vec![(1, epic_with("A", vec![2, 3]))],
        vec![(2, story("B")), (3, story("C"))],
    )
    .unwrap();
    assert_eq!(db.last_item_id, 3);
    assert_eq!(db.epics.len(), 1);
    assert_eq!(db.epics.get(&1).unwrap().stories, vec![2, 3]);
    assert_eq!(db.stories.len(), 2);
    assert_eq!(db.stories.get(&3).unwrap().name, "C");
}

#[test]
fn empty_entries_build_an_empty_store() {
    let db = DBState::from_entries(0, vec![], vec![]).unwrap();
    assert_eq!(db, DBState::new());
}

#[test]
fn id_above_counter_is_rejected() {
    assert!(DBState::from_entries(0, vec![(1, epic_with("A", vec![]))], vec![]).is_none());
    let r = DBState::from_entries(1, vec![(1, epic_with("A", vec![]))], vec![]);
    assert!(r.is_some());
}

#[test]
fn duplicate_ids_are_rejected() {
    let r = DBState::from_entries(
        2,
        vec![(1, epic_with("A", vec![])), (1, epic_with("B", vec![]))],
        vec![],
    );
    assert!(r.is_none());
}

#[test]
fn epic_and_story_sharing_an_id_is_rejected() {
    let r = DBState::from_entries(
        2,
        vec![(1, epic_with("A", vec![1]))],
        vec![(1, story("B"))],
    );
    assert!(r.is_none());
}

#[test]
fn dangling_listed_story_is_rejected() {
    let r = DBState::from_entries(2, vec![(1, epic_with("A", vec![2]))], vec![]);
    assert!(r.is_none());
}

#[test]
fn orphaned_story_entry_is_rejected() {
    let r = DBState::from_entries(
        2,
        vec![(1, epic_with("A", vec![]))],
        vec![(2, story("B"))],
    );
    assert!(r.is_none());
}

#[test]
fn story_listed_by_two_epics_is_rejected() {
    let r = DBState::from_entries(
        3,
        vec![(1, epic_with("A", vec![3])), (2, epic_with("B", vec![3]))],
        vec![(3, story("C"))],
    );
    assert!(r.is_none());
}

#[test]
fn unsorted_story_list_is_rejected() {
    let r = DBState::from_entries(
        3,
        vec![(1, epic_with("A", vec![3, 2]))],
        vec![(2, story("B")), (3, story("C"))],
    );
    assert!(r.is_none());
}

#[test]
fn built_store_supports_further_operations() {
    let mut db = DBState::from_entries(
        2,
        vec![(1, epic_with("A", vec![2]))],
        vec![(2, story("B"))],
    )
    .unwrap();
    let id = db.new_story(Story::new("C".to_string(), "d".to_string()), 1).unwrap();
    assert_eq!(id, 3);
    assert_eq!(db.epics.get(&1).unwrap().stories, vec![2, 3]);
    db.delete_epic(1).unwrap();
    assert!(db.stories.is_empty());
}
