//! The page-navigation state machine: a stack of pages over the data
//! store, dispatching user actions into stack transitions and store
//! mutations.

use crate::models::{Action, DBState, DbError, Epic, Status, Story, StoreView};
use vstd::prelude::*;

verus! {

/// A navigation location: the root list of epics, one epic's detail page,
/// or one story's detail page.
#[derive(Clone, Copy, Debug, PartialEq, Eq, Structural)]
pub enum Page {
    Root,
    EpicDetail { epic_id: u32 },
    StoryDetail { epic_id: u32, story_id: u32 },
}

/// The answer an interactive prompt produced for an action, handed to the
/// dispatcher as a plain value. The prompts themselves are input/output
/// collaborators and live outside the library.
pub enum PromptAnswer {
    /// A built epic, for `CreateEpic`.
    NewEpic(Epic),
    /// A built story, for `CreateStory`.
    NewStory(Story),
    /// A confirmation answer, for the delete actions.
    Confirm(bool),
    /// A status selection, or none, for the update actions.
    StatusChoice(Option<Status>),
    /// No prompt was run.
    Nothing,
}

/// Which prompt an action needs before it can be dispatched.
#[derive(Clone, Copy, Debug, PartialEq, Eq, Structural)]
pub enum PromptKind {
    EpicInput,
    StoryInput,
    Confirmation,
    StatusSelection,
    NoPrompt,
}

/// The prompt each action needs: creations take a built entity, deletions
/// a confirmation, status updates a selection, and navigation none.
pub open spec fn prompt_kind_spec(action: Action) -> PromptKind {
    match action {
        Action::CreateEpic => PromptKind::EpicInput,
        Action::CreateStory { .. } => PromptKind::StoryInput,
        Action::DeleteEpic { .. } => PromptKind::Confirmation,
        Action::DeleteStory { .. } => PromptKind::Confirmation,
        Action::UpdateEpicStatus { .. } => PromptKind::StatusSelection,
        Action::UpdateStoryStatus { .. } => PromptKind::StatusSelection,
        _ => PromptKind::NoPrompt,
    }
}

/// Tells the driving loop which prompt to run before dispatching an
/// action.
pub fn prompt_kind(action: &Action) -> (r: PromptKind)
    ensures
        r == prompt_kind_spec(*action),
{
    match action {
        Action::CreateEpic => PromptKind::EpicInput,
        Action::CreateStory { .. } => PromptKind::StoryInput,
        Action::DeleteEpic { .. } => PromptKind::Confirmation,
        Action::DeleteStory { .. } => PromptKind::Confirmation,
        Action::UpdateEpicStatus { .. } => PromptKind::StatusSelection,
        Action::UpdateStoryStatus { .. } => PromptKind::StatusSelection,
        _ => PromptKind::NoPrompt,
    }
}

/// The stack with its top page removed; an empty stack stays empty.
pub open spec fn popped(stack: Seq<Page>) -> Seq<Page> {
    if stack.len() == 0 {
        stack
    } else {
        stack.drop_last()
    }
}

/// The mathematical value of a [`Navigator`]: the page stack, top last,
/// and the store state.
#[verifier::ext_equal]
pub struct NavigatorView {
    pub stack: Seq<Page>,
    pub store: StoreView,
}

/// Holds the active page stack and owns the data store, and dispatches
/// actions into stack transitions and store mutations.
pub struct Navigator {
    stack: Vec<Page>,
    db: DBState,
}

impl View for Navigator {
    type V = NavigatorView;

    closed spec fn view(&self) -> NavigatorView {
        NavigatorView { stack: self.stack@, store: self.db@ }
    }
}

impl Navigator {
    /// A navigator showing the root page over the given store.
    pub fn new(db: DBState) -> (nav: Navigator)
        ensures
            nav@.stack == seq![Page::Root],
            nav@.store == db@,
    {
        let mut stack: Vec<Page> = Vec::new();
        stack.push(Page::Root);
        proof {
            assert(stack@ =~= seq![Page::Root]);
        }
        Navigator { stack, db }
    }

    /// The page on top of the stack; none when the stack is empty, which
    /// is the signal for the driving loop to stop.
    pub fn get_current_page(&self) -> (r: Option<Page>)
        ensures
            r == (if self@.stack.len() == 0 {
                None::<Page>
            } else {
                Some(self@.stack.last())
            }),
    {
        if self.stack.len() == 0 {
            None
        } else {
            Some(self.stack[self.stack.len() - 1])
        }
    }

    /// Read access to the store, for rendering and persistence.
    pub fn store(&self) -> (r: &DBState)
        ensures
            r@ == self@.store,
    {
        &self.db
    }

    /// Dispatches one action. Navigation actions push or pop pages and
    /// `Exit` clears the stack; the mutating actions apply the prompt's
    /// answer to the store, and a confirmed successful delete also pops
    /// the page it was issued from. An answer of the wrong shape for the
    /// action, a declined confirmation, and an empty status selection all
    /// mean "no answer": neither the store nor the stack changes. A store
    /// error is returned unchanged, and the stack then stays as it was.
    pub fn handle_action(&mut self, action: Action, answer: PromptAnswer) -> (r: Result<
        (),
        DbError,
    >)
        requires
            old(self)@.store.wf(),
            action is CreateEpic || action is CreateStory ==> old(self)@.store.last_item_id
                < u32::MAX,
            action is CreateEpic ==> (answer matches PromptAnswer::NewEpic(e)
                ==> e@.stories.len() == 0),
        ensures
            final(self)@.store.wf(),
            (match action {
                Action::NavigateToEpicDetail { epic_id } => {
                    &&& final(self)@.stack == old(self)@.stack.push(Page::EpicDetail { epic_id })
                    &&& final(self)@.store == old(self)@.store
                    &&& r == Ok::<(), DbError>(())
                },
                Action::NavigateToStoryDetail { epic_id, story_id } => {
                    &&& final(self)@.stack == old(self)@.stack.push(
                        Page::StoryDetail { epic_id, story_id },
                    )
                    &&& final(self)@.store == old(self)@.store
                    &&& r == Ok::<(), DbError>(())
                },
                Action::NavigateToPreviousPage => {
                    &&& final(self)@.stack == popped(old(self)@.stack)
                    &&& final(self)@.store == old(self)@.store
                    &&& r == Ok::<(), DbError>(())
                },
                Action::Exit => {
                    &&& final(self)@.stack == Seq::<Page>::empty()
                    &&& final(self)@.store == old(self)@.store
                    &&& r == Ok::<(), DbError>(())
                },
                Action::CreateEpic => (match answer {
                    PromptAnswer::NewEpic(e) => {
                        &&& final(self)@.stack == old(self)@.stack
                        &&& final(self)@.store == old(self)@.store.create_epic(e@).0
                        &&& r == Ok::<(), DbError>(())
                    },
                    _ => final(self)@ == old(self)@ && r == Ok::<(), DbError>(()),
                }),
                Action::CreateStory { epic_id } => (match answer {
                    PromptAnswer::NewStory(s) => {
                        &&& final(self)@.stack == old(self)@.stack
                        &&& final(self)@.store == old(self)@.store.create_story(s@, epic_id).0
                        &&& r == (match old(self)@.store.create_story(s@, epic_id).1 {
                            Ok(_) => Ok::<(), DbError>(()),
                            Err(e) => Err(e),
                        })
                    },
                    _ => final(self)@ == old(self)@ && r == Ok::<(), DbError>(()),
                }),
                Action::UpdateEpicStatus { epic_id } => (match answer {
                    PromptAnswer::StatusChoice(Some(status)) => {
                        &&& final(self)@.stack == old(self)@.stack
                        &&& final(self)@.store == old(self)@.store.update_epic_status(
                            epic_id,
                            status,
                        ).0
                        &&& r == old(self)@.store.update_epic_status(epic_id, status).1
                    },
                    _ => final(self)@ == old(self)@ && r == Ok::<(), DbError>(()),
                }),
                Action::UpdateStoryStatus { story_id } => (match answer {
                    PromptAnswer::StatusChoice(Some(status)) => {
                        &&& final(self)@.stack == old(self)@.stack
                        &&& final(self)@.store == old(self)@.store.update_story_status(
                            story_id,
                            status,
                        ).0
                        &&& r == old(self)@.store.update_story_status(story_id, status).1
                    },
                    _ => final(self)@ == old(self)@ && r == Ok::<(), DbError>(()),
                }),
                Action::DeleteEpic { epic_id } => (match answer {
                    PromptAnswer::Confirm(true) => {
                        &&& final(self)@.store == old(self)@.store.delete_epic(epic_id).0
                        &&& r == old(self)@.store.delete_epic(epic_id).1
                        &&& final(self)@.stack == (if r is Ok {
                            popped(old(self)@.stack)
                        } else {
                            old(self)@.stack
                        })
                    },
                    _ => final(self)@ == old(self)@ && r == Ok::<(), DbError>(()),
                }),
                Action::DeleteStory { epic_id, story_id } => (match answer {
                    PromptAnswer::Confirm(true) => {
                        &&& final(self)@.store == old(self)@.store.delete_story(
                            story_id,
                            epic_id,
                        ).0
                        &&& r == old(self)@.store.delete_story(story_id, epic_id).1
                        &&& final(self)@.stack == (if r is Ok {
                            popped(old(self)@.stack)
                        } else {
                            old(self)@.stack
                        })
                    },
                    _ => final(self)@ == old(self)@ && r == Ok::<(), DbError>(()),
                }),
            }),
    {
        match action {
            Action::NavigateToEpicDetail { epic_id } => {
                self.stack.push(Page::EpicDetail { epic_id });
                Ok(())
            },
            Action::NavigateToStoryDetail { epic_id, story_id } => {
                self.stack.push(Page::StoryDetail { epic_id, story_id });
                Ok(())
            },
            Action::NavigateToPreviousPage => {
                if self.stack.len() > 0 {
                    self.stack.pop();
                }
                Ok(())
            },
            Action::Exit => {
                self.stack = Vec::new();
                proof {
                    assert(self@.stack =~= Seq::<Page>::empty());
                }
                Ok(())
            },
            Action::CreateEpic => {
                match answer {
                    PromptAnswer::NewEpic(e) => {
                        self.db.new_epic(e);
                        Ok(())
                    },
                    _ => Ok(()),
                }
            },
            Action::CreateStory { epic_id } => {
                match answer {
                    PromptAnswer::NewStory(s) => {
                        match self.db.new_story(s, epic_id) {
                            Ok(_) => Ok(()),
                            Err(e) => Err(e),
                        }
                    },
                    _ => Ok(()),
                }
            },
            Action::UpdateEpicStatus { epic_id } => {
                match answer {
                    PromptAnswer::StatusChoice(Some(status)) => {
                        self.db.update_epic_status(epic_id, status)
                    },
                    _ => Ok(()),
                }
            },
            Action::UpdateStoryStatus { story_id } => {
                match answer {
                    PromptAnswer::StatusChoice(Some(status)) => {
                        self.db.update_story_status(story_id, status)
                    },
                    _ => Ok(()),
                }
            },
            Action::DeleteEpic { epic_id } => {
                match answer {
                    PromptAnswer::Confirm(true) => {
                        match self.db.delete_epic(epic_id) {
                            Ok(_) => {
                                if self.stack.len() > 0 {
                                    self.stack.pop();
                                }
                                Ok(())
                            },
                            Err(e) => Err(e),
                        }
                    },
                    _ => Ok(()),
                }
            },
            Action::DeleteStory { epic_id, story_id } => {
                match answer {
                    PromptAnswer::Confirm(true) => {
                        match self.db.delete_story(story_id, epic_id) {
                            Ok(_) => {
                                if self.stack.len() > 0 {
                                    self.stack.pop();
                                }
                                Ok(())
                            },
                            Err(e) => Err(e),
                        }
                    },
                    _ => Ok(()),
                }
            },
        }
    }
}

} // verus!
