use crate::error::Error;
use vstd::prelude::*;
use vstd::slice::*;

verus! {

/// The two ways to write a persisted byte range: extend it at its end, or
/// replace its whole content. Both create it where it is absent.
#[derive(Clone, Copy, Debug, PartialEq, Eq, Structural)]
pub enum Verb {
    Append,
    Overwrite,
}

/// How far a write has come: what the host is to do next, or how it ended.
#[derive(Clone, Copy, Debug, PartialEq, Eq, Structural)]
pub enum Stage {
    Open,
    Write,
    Sync,
    Done,
    Failed,
}

/// What the host is to do next for a write.
#[derive(Clone, Copy, Debug, PartialEq, Eq, Structural)]
pub enum Action {
    /// Open the byte range for the verb, creating it where it is absent.
    Open(Verb),
    /// Write all the bytes.
    WriteAll,
    /// Wait until the medium confirms what was written.
    SyncAll,
    /// Nothing more: the write succeeded.
    Succeed,
    /// Nothing more: the write failed with an I/O error.
    Fail,
}

/// The stage that follows `stage` once the host says whether the step it
/// was asked for went well. Every failure is final, and so is success; a
/// synced write is done only after the medium confirmed it.
pub open spec fn next_stage(stage: Stage, synced: bool, ok: bool) -> Stage {
    match stage {
        Stage::Open => if ok {
            Stage::Write
        } else {
            Stage::Failed
        },
        Stage::Write => if !ok {
            Stage::Failed
        } else if synced {
            Stage::Sync
        } else {
            Stage::Done
        },
        Stage::Sync => if ok {
            Stage::Done
        } else {
            Stage::Failed
        },
        Stage::Done => Stage::Done,
        Stage::Failed => Stage::Failed,
    }
}

/// The stage that a write reaches from `stage` on the host's answers, in
/// their order.
pub open spec fn stage_after(stage: Stage, synced: bool, answers: Seq<bool>) -> Stage
    decreases answers.len(),
{
    if answers.len() == 0 {
        stage
    } else {
        next_stage(stage_after(stage, synced, answers.drop_last()), synced, answers.last())
    }
}

/// The number of steps of a write: open and write, and sync where the write
/// is synced.
pub open spec fn steps(synced: bool) -> int {
    if synced {
        3
    } else {
        2
    }
}

/// A write succeeds only when the host said of each of its steps that it
/// went well: a synced write only after open, write and sync, a buffered one
/// after open and write.
pub proof fn lemma_success_needs_every_step(synced: bool, answers: Seq<bool>)
    requires
        stage_after(Stage::Open, synced, answers) == Stage::Done,
    ensures
        answers.len() >= steps(synced),
        forall|k: int| 0 <= k < steps(synced) ==> answers[k],
{
    lemma_stages(synced, answers);
}

/// A write whose steps all went well succeeds.
pub proof fn lemma_every_step_gives_success(synced: bool, answers: Seq<bool>)
    requires
        answers.len() == steps(synced),
        forall|k: int| 0 <= k < answers.len() ==> answers[k],
    ensures
        stage_after(Stage::Open, synced, answers) == Stage::Done,
{
    lemma_stages(synced, answers);
}

/// Where a write stands after some answers: it has not failed exactly when
/// the answers to its steps were all good so far, and it then stands at the
/// step that comes next.
pub proof fn lemma_stages(synced: bool, answers: Seq<bool>)
    ensures
        ({
            let stage = stage_after(Stage::Open, synced, answers);
            let good = forall|k: int| 0 <= k < answers.len() && k < steps(synced) ==> answers[k];
            &&& stage != Stage::Failed <==> good
            &&& good ==> stage == (if answers.len() == 0 {
                Stage::Open
            } else if answers.len() == 1 {
                Stage::Write
            } else if answers.len() == 2 && synced {
                Stage::Sync
            } else {
                Stage::Done
            })
        }),
    decreases answers.len(),
{
    if answers.len() > 0 {
        let front = answers.drop_last();
        lemma_stages(synced, front);
        let good_front = forall|k: int| 0 <= k < front.len() && k < steps(synced) ==> front[k];
        let good = forall|k: int| 0 <= k < answers.len() && k < steps(synced) ==> answers[k];
        assert forall|k: int| 0 <= k < front.len() implies front[k] == answers[k] by {}
        if good {
            assert(good_front);
        }
        if good_front && (answers.len() > steps(synced) || answers.last()) {
            assert(good);
        }
        if !good_front {
            assert(!good);
        }
    }
}

/// One write in progress: where, what, how, and how far it has come.
pub struct WriteJob {
    path: String,
    bytes: Vec<u8>,
    verb: Verb,
    synced: bool,
    stage: Stage,
}

/// What a `WriteJob` stands for.
pub struct WriteJobView {
    pub path: Seq<char>,
    pub bytes: Seq<u8>,
    pub verb: Verb,
    pub synced: bool,
    pub stage: Stage,
}

impl View for WriteJob {
    type V = WriteJobView;

    closed spec fn view(&self) -> WriteJobView {
        WriteJobView {
            path: self.path@,
            bytes: self.bytes@,
            verb: self.verb,
            synced: self.synced,
            stage: self.stage,
        }
    }
}

/// The step that the host is asked for at a stage.
pub open spec fn action_at(stage: Stage, verb: Verb) -> Action {
    match stage {
        Stage::Open => Action::Open(verb),
        Stage::Write => Action::WriteAll,
        Stage::Sync => Action::SyncAll,
        Stage::Done => Action::Succeed,
        Stage::Failed => Action::Fail,
    }
}

impl WriteJob {
    /// A write that has not begun.
    pub fn new(path: &str, bytes: &[u8], verb: Verb, synced: bool) -> (job: WriteJob)
        ensures
            job@ == (WriteJobView { path: path@, bytes: bytes@, verb, synced, stage: Stage::Open }),
    {
        WriteJob { path: path.to_owned(), bytes: slice_to_vec(bytes), verb, synced, stage: Stage::Open }
    }

    /// Where to write.
    pub fn path(&self) -> (path: &String)
        ensures
            path@ == self@.path,
    {
        &self.path
    }

    /// What to write.
    pub fn bytes(&self) -> (bytes: &Vec<u8>)
        ensures
            bytes@ == self@.bytes,
    {
        &self.bytes
    }

    /// What the host is to do next.
    pub fn action(&self) -> (action: Action)
        ensures
            action == action_at(self@.stage, self@.verb),
    {
        match self.stage {
            Stage::Open => Action::Open(self.verb),
            Stage::Write => Action::WriteAll,
            Stage::Sync => Action::SyncAll,
            Stage::Done => Action::Succeed,
            Stage::Failed => Action::Fail,
        }
    }

    /// Takes the host's answer to the step it was asked for: whether it
    /// went well.
    pub fn advance(&mut self, ok: bool)
        ensures
            final(self)@ == (WriteJobView {
                stage: next_stage(old(self)@.stage, old(self)@.synced, ok),
                ..old(self)@
            }),
    {
        self.stage = match self.stage {
            Stage::Open => if ok {
                Stage::Write
            } else {
                Stage::Failed
            },
            Stage::Write => if !ok {
                Stage::Failed
            } else if self.synced {
                Stage::Sync
            } else {
                Stage::Done
            },
            Stage::Sync => if ok {
                Stage::Done
            } else {
                Stage::Failed
            },
            Stage::Done => Stage::Done,
            Stage::Failed => Stage::Failed,
        };
    }

    /// How the write ended, once it has: well, or with `IoError`.
    pub fn result(&self) -> (r: Option<Result<(), Error>>)
        ensures
            r == (match self@.stage {
                Stage::Done => Some(Ok::<(), Error>(())),
                Stage::Failed => Some(Err::<(), Error>(Error::IoError)),
                _ => None,
            }),
    {
        match self.stage {
            Stage::Done => Some(Ok(())),
            Stage::Failed => Some(Err(Error::IoError)),
            _ => None,
        }
    }
}

/// The capability to make bytes last: it turns a call into a write that the
/// host carries out step by step. Of the two kinds, the buffered one is done
/// when the bytes are handed to the operating system, the synced one when
/// the medium has confirmed them.
pub trait Persister {
    /// Whether success waits for the medium's confirmation.
    spec fn synced(&self) -> bool;

    /// A write that extends the byte range at `path` by `bytes`.
    fn append(&self, path: &str, bytes: &[u8]) -> (job: WriteJob)
        ensures
            job@ == (WriteJobView {
                path: path@,
                bytes: bytes@,
                verb: Verb::Append,
                synced: self.synced(),
                stage: Stage::Open,
            }),
    ;

    /// A write that replaces the whole content of the byte range at `path`
    /// by `bytes`.
    fn overwrite(&self, path: &str, bytes: &[u8]) -> (job: WriteJob)
        ensures
            job@ == (WriteJobView {
                path: path@,
                bytes: bytes@,
                verb: Verb::Overwrite,
                synced: self.synced(),
                stage: Stage::Open,
            }),
    ;
}

/// The buffered persister: a write is done once the operating system has
/// taken the bytes.
#[derive(Debug)]
pub struct FilePersister;

/// The synced persister: a write is done once the medium has confirmed the
/// bytes.
#[derive(Debug)]
pub struct FileWithSyncPersister;

impl Persister for FilePersister {
    open spec fn synced(&self) -> bool {
        false
    }

    fn append(&self, path: &str, bytes: &[u8]) -> (job: WriteJob) {
        WriteJob::new(path, bytes, Verb::Append, false)
    }

    fn overwrite(&self, path: &str, bytes: &[u8]) -> (job: WriteJob) {
        WriteJob::new(path, bytes, Verb::Overwrite, false)
    }
}

impl Persister for FileWithSyncPersister {
    open spec fn synced(&self) -> bool {
        true
    }

    fn append(&self, path: &str, bytes: &[u8]) -> (job: WriteJob) {
        WriteJob::new(path, bytes, Verb::Append, true)
    }

    fn overwrite(&self, path: &str, bytes: &[u8]) -> (job: WriteJob) {
        WriteJob::new(path, bytes, Verb::Overwrite, true)
    }
}

} // verus!
