//! The execution engine: wraps a backend in the staged lifecycle
//! `Queued -> Running -> (Done | Error)` and returns the events of one
//! execution in emission order.

use vstd::prelude::*;
use crate::cas::ContentAddressableStorage;
use crate::digest::Digest;
use crate::execution::{Command, DirectoryLayout, ExecuteError, ExecuteResponse, ExecuteStage,
    ExecuteStatus};

verus! {

/// The identifier assigned to one execution at acceptance, in hyphenated
/// textual form.
pub struct Uuid {
    text: String,
}

impl View for Uuid {
    type V = Seq<char>;

    closed spec fn view(&self) -> Seq<char> {
        self.text@
    }
}

impl Uuid {
    /// Relies on `uuid::Uuid::new_v4` and its hyphenated `Display` form:
    /// a fresh random identifier, 36 characters long.
    #[verifier::external_body]
    pub fn new_v4() -> (r: Uuid)
        ensures
            r@.len() == 36,
    {
        Uuid { text: uuid::Uuid::new_v4().to_string() }
    }

    pub fn text(&self) -> (r: &str)
        ensures
            r@ == self@,
    {
        self.text.as_str()
    }
}

impl Clone for Uuid {
    fn clone(&self) -> (r: Self)
        ensures
            r@ == self@,
    {
        Uuid { text: self.text.clone() }
    }
}

/// An execution backend: materializes the layout, runs the command, and
/// ingests its outputs into the store.  Implementations outside this crate
/// do filesystem and process work; nothing is assumed of their results.
pub trait ExecutionBackend<C: ContentAddressableStorage>: Sized {
    fn run_command(&mut self, cas: &mut C, command: Command, dir: DirectoryLayout) -> (r: Result<
        ExecuteResponse,
        ExecuteError,
    >)
        requires
            old(cas).wf(),
        ensures
            final(cas).wf(),
    ;
}

/// The backend that will run actions inside an isolation boundary; not yet
/// implemented, every run fails with an internal error.
pub struct Hermetic {}

impl Hermetic {
    pub fn new() -> (r: Result<Hermetic, ExecuteError>)
        ensures
            r is Ok,
    {
        Ok(Hermetic {})
    }
}

impl<C: ContentAddressableStorage> ExecutionBackend<C> for Hermetic {
    fn run_command(&mut self, _cas: &mut C, _command: Command, _dir: DirectoryLayout) -> Result<
        ExecuteResponse,
        ExecuteError,
    > {
        Err(ExecuteError::Internal(String::from_str("hermetic backend is not implemented")))
    }
}

/// Staged ordering of one execution's events: at least the terminal event is
/// present and is the last one; every earlier event is non-terminal; a
/// sequence that got past setup opens with `Queued` and then `Running`.
pub open spec fn staged_order(events: Seq<ExecuteStatus>) -> bool {
    &&& 1 <= events.len() <= 3
    &&& events.last().stage.is_terminal()
    &&& forall|i: int| 0 <= i < events.len() - 1 ==> !(#[trigger] events[i]).stage.is_terminal()
    &&& events.len() >= 2 ==> (events[0].stage matches ExecuteStage::Queued)
    &&& events.len() == 3 ==> (events[1].stage matches ExecuteStage::Running)
}

/// Wraps a backend in the staged state machine.
pub struct ExecutionEngine<B> {
    backend: B,
}

impl<B> ExecutionEngine<B> {
    pub fn new(backend: B) -> ExecutionEngine<B> {
        ExecutionEngine { backend }
    }
}

impl<B> ExecutionEngine<B> {
    /// Drives one execution: assigns a fresh identifier, emits `Queued` and
    /// `Running` once setup has succeeded, runs the backend, and closes with
    /// exactly one terminal event.  Returns the events in emission order.
    /// One identifier is carried by every event of the execution; once setup
    /// has succeeded and the action digest is known, it too is copied into
    /// every event, the terminal one included.
    pub fn execute<C: ContentAddressableStorage>(
        &mut self,
        cas: &mut C,
        setup: Result<(Digest, Command, DirectoryLayout), ExecuteError>,
    ) -> (events: Vec<ExecuteStatus>) where B: ExecutionBackend<C>
        requires
            old(cas).wf(),
        ensures
            final(cas).wf(),
            staged_order(events@),
            forall|i: int, j: int|
                0 <= i < events@.len() && 0 <= j < events@.len() ==> (#[trigger] events@[i]).uuid@
                    == (#[trigger] events@[j]).uuid@,
            forall|i: int|
                0 <= i < events@.len() ==> (#[trigger] events@[i]).uuid@.len() == 36,
            match setup {
                Err(e) => events@.len() == 1 && (events@[0].stage matches ExecuteStage::Error(e2)
                    && e2 == e) && events@[0].action_digest is None,
                Ok(t) => {
                    &&& events@.len() == 3
                    &&& forall|i: int|
                        0 <= i < events@.len() ==> ((#[trigger] events@[i]).action_digest matches
                        Some(d) && d@ == t.0@)
                },
            },
    {
        let uuid = Uuid::new_v4();
        let mut events: Vec<ExecuteStatus> = Vec::new();
        match setup {
            Err(e) => {
                events.push(
                    ExecuteStatus {
                        uuid,
                        action_digest: None,
                        stage: ExecuteStage::Error(e),
                    },
                );
                events
            },
            Ok((action_digest, cmd, layout)) => {
                events.push(
                    ExecuteStatus {
                        uuid: uuid.clone(),
                        action_digest: Some(action_digest.clone()),
                        stage: ExecuteStage::Queued,
                    },
                );
                events.push(
                    ExecuteStatus {
                        uuid: uuid.clone(),
                        action_digest: Some(action_digest.clone()),
                        stage: ExecuteStage::Running,
                    },
                );
                match self.backend.run_command(cas, cmd, layout) {
                    Ok(resp) => {
                        events.push(
                            ExecuteStatus {
                                uuid,
                                action_digest: Some(action_digest),
                                stage: ExecuteStage::Done(resp),
                            },
                        );
                    },
                    Err(err) => {
                        events.push(
                            ExecuteStatus {
                                uuid,
                                action_digest: Some(action_digest),
                                stage: ExecuteStage::Error(err),
                            },
                        );
                    },
                }
                events
            },
        }
    }
}

} // verus!
