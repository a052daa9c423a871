//! The watch coordinator: which root changed decides how much is rebuilt.

use vstd::prelude::*;

verus! {

/// The watched root that a change was seen under.
#[derive(Clone, Copy, Debug, PartialEq, Eq, Structural)]
pub enum FolderModified {
    StaticFolder,
    MarkdownFolder,
    TemplatesFolder,
    TemplateVariables,
}

/// What a change calls for.
#[derive(Clone, Copy, Debug, PartialEq, Eq, Structural)]
pub enum Reaction {
    /// Mirror the static assets into the output tree again.
    CopyStatic,
    /// Compile the templates again, against what the last full build left.
    CompileTemplates,
    /// Run a full build.
    BuildFromScratch,
}

/// Where the coordinator stands.
#[derive(Clone, Copy, Debug, PartialEq, Eq, Structural)]
pub enum WatchState {
    /// Nothing is watched yet.
    Idle,
    /// Waiting for a change.
    Watching,
    /// Carrying out a reaction.
    Rebuilding,
}

/// What happens to the coordinator.
#[derive(Clone, Copy, Debug, PartialEq, Eq, Structural)]
pub enum WatchEvent {
    /// The roots are subscribed to.
    Started,
    /// Something changed under a root.
    Changed(FolderModified),
    /// The reaction ended, well or not.
    Finished { succeeded: bool },
}

/// The reaction to a change under a root: static assets are copied again, a
/// change of the content compiles the templates again, and a change of the
/// templates or of their variables runs a full build.
pub open spec fn reaction_spec(folder: FolderModified) -> Reaction {
    match folder {
        FolderModified::StaticFolder => Reaction::CopyStatic,
        FolderModified::MarkdownFolder => Reaction::CompileTemplates,
        FolderModified::TemplatesFolder => Reaction::BuildFromScratch,
        FolderModified::TemplateVariables => Reaction::BuildFromScratch,
    }
}

/// One step of the coordinator: the next state and what is to be done. Every
/// change seen while watching starts one reaction; the end of a reaction
/// leads back to watching whether it went well or not; an event that the
/// state does not expect changes nothing.
pub open spec fn step_spec(state: WatchState, event: WatchEvent) -> (WatchState, Option<Reaction>) {
    match (state, event) {
        (WatchState::Idle, WatchEvent::Started) => (WatchState::Watching, None),
        (WatchState::Watching, WatchEvent::Changed(folder)) => (
            WatchState::Rebuilding,
            Some(reaction_spec(folder)),
        ),
        (WatchState::Rebuilding, WatchEvent::Finished { succeeded }) => (WatchState::Watching, None),
        _ => (state, None),
    }
}

/// The reaction to a change under a root.
pub fn reaction(folder: FolderModified) -> (r: Reaction)
    ensures
        r == reaction_spec(folder),
{
    match folder {
        FolderModified::StaticFolder => Reaction::CopyStatic,
        FolderModified::MarkdownFolder => Reaction::CompileTemplates,
        _ => Reaction::BuildFromScratch,
    }
}

/// Decides, event by event, what the watch loop does next.
#[derive(Debug)]
pub struct WatchCoordinator {
    state: WatchState,
}

impl WatchCoordinator {
    /// Where the coordinator stands.
    pub closed spec fn current(&self) -> WatchState {
        self.state
    }

    /// A coordinator that watches nothing yet.
    pub fn new() -> (c: WatchCoordinator)
        ensures
            c.current() == WatchState::Idle,
    {
        WatchCoordinator { state: WatchState::Idle }
    }

    /// Where the coordinator stands.
    pub fn state(&self) -> (s: WatchState)
        ensures
            s == self.current(),
    {
        self.state
    }

    /// Takes one event and says what is to be done.
    pub fn handle(&mut self, event: WatchEvent) -> (todo: Option<Reaction>)
        ensures
            (final(self).current(), todo) == step_spec(old(self).current(), event),
    {
        match (self.state, event) {
            (WatchState::Idle, WatchEvent::Started) => {
                self.state = WatchState::Watching;
                None
            },
            (WatchState::Watching, WatchEvent::Changed(folder)) => {
                self.state = WatchState::Rebuilding;
                Some(reaction(folder))
            },
            (WatchState::Rebuilding, WatchEvent::Finished { succeeded }) => {
                self.state = WatchState::Watching;
                None
            },
            _ => None,
        }
    }
}

/// Once started, the coordinator is watching again after every reaction,
/// however the reaction ended.
pub proof fn lemma_back_to_watching(folder: FolderModified, succeeded: bool)
    ensures
        ({
            let (rebuilding, todo) = step_spec(WatchState::Watching, WatchEvent::Changed(folder));
            let (after, _) = step_spec(rebuilding, WatchEvent::Finished { succeeded });
            todo == Some(reaction_spec(folder)) && after == WatchState::Watching
        }),
{
}

} // verus!
