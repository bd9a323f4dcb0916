use issue_tracker::models::{Action, DBState, DbError, Epic, Status, Story};
use issue_tracker::navigator::{prompt_kind, Navigator, Page, PromptAnswer, PromptKind};

fn epic(name: &str, description: &str) -> Epic {
    Epic::new(name.to_string(), description.to_string())
}

fn story(name: &str, description: &str) -> Story {
    Story::new(name.to_string(), description.to_string())
}

#[test]
fn navigation_push_and_pop_to_empty() {
    let mut nav = Navigator::new(DBState::new());
    assert_eq!(nav.get_current_page(), Some(Page::Root));

    nav.handle_action(Action::NavigateToEpicDetail { epic_id: 1 }, PromptAnswer::Nothing).unwrap();
    assert_eq!(nav.get_current_page(), Some(Page::EpicDetail { epic_id: 1 }));

    nav.handle_action(Action::NavigateToPreviousPage, PromptAnswer::Nothing).unwrap();
    assert_eq!(nav.get_current_page(), Some(Page::Root));

    nav.handle_action(Action::NavigateToPreviousPage, PromptAnswer::Nothing).unwrap();
    assert_eq!(nav.get_current_page(), None);
}

#[test]
fn navigate_to_story_detail_pushes() {
    let mut nav = Navigator::new(DBState::new());
    nav.handle_action(
        Action::NavigateToStoryDetail { epic_id: 1, story_id: 2 },
        PromptAnswer::Nothing,
    )
    .unwrap();
    assert_eq!(nav.get_current_page(), Some(Page::StoryDetail { epic_id: 1, story_id: 2 }));
}

#[test]
fn exit_clears_the_whole_stack() {
    let mut nav = Navigator::new(DBState::new());
    nav.handle_action(Action::NavigateToEpicDetail { epic_id: 1 }, PromptAnswer::Nothing).unwrap();
    nav.handle_action(Action::Exit, PromptAnswer::Nothing).unwrap();
    assert_eq!(nav.get_current_page(), None);
}

#[test]
fn create_epic_through_dispatch() {
    let mut nav = Navigator::new(DBState::new());
    nav.handle_action(Action::CreateEpic, PromptAnswer::NewEpic(epic("A", "d"))).unwrap();
    assert_eq!(nav.store().epics.get(&1).unwrap().name, "A");
    assert_eq!(nav.get_current_page(), Some(Page::Root));
}

#[test]
fn create_story_through_dispatch_propagates_not_found() {
    let mut nav = Navigator::new(DBState::new());
    let r = nav.handle_action(
        Action::CreateStory { epic_id: 9 },
        PromptAnswer::NewStory(story("B", "d")),
    );
    assert_eq!(r, Err(DbError::NotFound));
    assert!(nav.store().stories.is_empty());
    assert_eq!(nav.get_current_page(), Some(Page::Root));
}

#[test]
fn update_status_through_dispatch() {
    let mut nav = Navigator::new(DBState::new());
    nav.handle_action(Action::CreateEpic, PromptAnswer::NewEpic(epic("A", "d"))).unwrap();
    nav.handle_action(
        Action::UpdateEpicStatus { epic_id: 1 },
        PromptAnswer::StatusChoice(Some(Status::Resolved)),
    )
    .unwrap();
    assert_eq!(nav.store().epics.get(&1).unwrap().status, Status::Resolved);

    // an empty selection is "no answer": nothing changes
    nav.handle_action(Action::UpdateEpicStatus { epic_id: 1 }, PromptAnswer::StatusChoice(None))
        .unwrap();
    assert_eq!(nav.store().epics.get(&1).unwrap().status, Status::Resolved);
}

#[test]
fn confirmed_delete_epic_pops_the_page() {
    let mut nav = Navigator::new(DBState::new());
    nav.handle_action(Action::CreateEpic, PromptAnswer::NewEpic(epic("A", "d"))).unwrap();
    nav.handle_action(Action::NavigateToEpicDetail { epic_id: 1 }, PromptAnswer::Nothing).unwrap();

    nav.handle_action(Action::DeleteEpic { epic_id: 1 }, PromptAnswer::Confirm(true)).unwrap();
    assert!(nav.store().epics.is_empty());
    assert_eq!(nav.get_current_page(), Some(Page::Root));
}

#[test]
fn declined_delete_changes_nothing() {
    let mut nav = Navigator::new(DBState::new());
    nav.handle_action(Action::CreateEpic, PromptAnswer::NewEpic(epic("A", "d"))).unwrap();
    nav.handle_action(Action::NavigateToEpicDetail { epic_id: 1 }, PromptAnswer::Nothing).unwrap();

    nav.handle_action(Action::DeleteEpic { epic_id: 1 }, PromptAnswer::Confirm(false)).unwrap();
    assert_eq!(nav.store().epics.len(), 1);
    assert_eq!(nav.get_current_page(), Some(Page::EpicDetail { epic_id: 1 }));
}

#[test]
fn failed_delete_keeps_the_stack() {
    let mut nav = Navigator::new(DBState::new());
    nav.handle_action(Action::NavigateToEpicDetail { epic_id: 7 }, PromptAnswer::Nothing).unwrap();
    let r = nav.handle_action(Action::DeleteEpic { epic_id: 7 }, PromptAnswer::Confirm(true));
    assert_eq!(r, Err(DbError::NotFound));
    assert_eq!(nav.get_current_page(), Some(Page::EpicDetail { epic_id: 7 }));
}

#[test]
fn confirmed_delete_story_pops_and_removes() {
    let mut nav = Navigator::new(DBState::new());
    nav.handle_action(Action::CreateEpic, PromptAnswer::NewEpic(epic("A", "d"))).unwrap();
    nav.handle_action(Action::CreateStory { epic_id: 1 }, PromptAnswer::NewStory(story("B", "d")))
        .unwrap();
    nav.handle_action(Action::NavigateToEpicDetail { epic_id: 1 }, PromptAnswer::Nothing).unwrap();
    nav.handle_action(
        Action::NavigateToStoryDetail { epic_id: 1, story_id: 2 },
        PromptAnswer::Nothing,
    )
    .unwrap();

    nav.handle_action(
        Action::DeleteStory { epic_id: 1, story_id: 2 },
        PromptAnswer::Confirm(true),
    )
    .unwrap();
    assert!(nav.store().stories.is_empty());
    assert!(nav.store().epics.get(&1).unwrap().stories.is_empty());
    assert_eq!(nav.get_current_page(), Some(Page::EpicDetail { epic_id: 1 }));
}

#[test]
fn mismatched_answer_is_treated_as_no_answer() {
    let mut nav = Navigator::new(DBState::new());
    nav.handle_action(Action::CreateEpic, PromptAnswer::Confirm(true)).unwrap();
    assert!(nav.store().epics.is_empty());
    nav.handle_action(Action::DeleteEpic { epic_id: 1 }, PromptAnswer::Nothing).unwrap();
    assert_eq!(nav.get_current_page(), Some(Page::Root));
}

#[test]
fn prompt_kind_matches_each_action() {
    assert_eq!(prompt_kind(&Action::CreateEpic), PromptKind::EpicInput);
    assert_eq!(prompt_kind(&Action::CreateStory { epic_id: 1 }), PromptKind::StoryInput);
    assert_eq!(prompt_kind(&Action::DeleteEpic { epic_id: 1 }), PromptKind::Confirmation);
    assert_eq!(
        prompt_kind(&Action::DeleteStory { epic_id: 1, story_id: 2 }),
        PromptKind::Confirmation
    );
    assert_eq!(
        prompt_kind(&Action::UpdateEpicStatus { epic_id: 1 }),
        PromptKind::StatusSelection
    );
    assert_eq!(
        prompt_kind(&Action::UpdateStoryStatus { story_id: 2 }),
        PromptKind::StatusSelection
    );
    assert_eq!(prompt_kind(&Action::NavigateToPreviousPage), PromptKind::NoPrompt);
    assert_eq!(prompt_kind(&Action::Exit), PromptKind::NoPrompt);
}
