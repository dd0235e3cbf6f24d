use vstd::prelude::*;
use crate::context::Context;
use crate::file::FileType;
use crate::layer::Layer;

verus! {

/// What a writer says of itself.
#[derive(Debug)]
pub struct Metadata {
    pub id: String,
    pub name: String,
    pub description: String,
    pub filters: Vec<FileType>,
}

impl Default for Metadata {
    fn default() -> (r: Metadata)
        ensures
            r.id@ == Seq::<char>::empty(),
            r.name@ == Seq::<char>::empty(),
            r.description@ == Seq::<char>::empty(),
            r.filters@.len() == 0,
    {
        Metadata { id: String::new(), name: String::new(), description: String::new(), filters: Vec::new() }
    }
}

/// A writer: it makes one worker per export, from an argument string.
pub trait Writer {
    fn new_worker(&self, ctx: &Context, args: &str) -> Result<Box<dyn Worker>, String>;

    fn metadata(&self) -> Metadata;
}

/// The owning handle of a writer.
pub struct WriterBox {
    writer: Box<dyn Writer>,
}

impl WriterBox {
    pub fn new(writer: Box<dyn Writer>) -> (r: WriterBox) {
        WriterBox { writer }
    }

    /// Asks the writer for a worker made from `args`; a failure comes back as its
    /// message.
    pub fn new_worker(&self, ctx: &Context, args: &str) -> (r: Result<WorkerBox, String>)
        ensures
            r is Ok ==> r->Ok_0.args() == args@ && r->Ok_0.calls() == Seq::<WriterCall>::empty(),
    {
        match self.writer.new_worker(ctx, args) {
            Ok(worker) => Ok(WorkerBox::with_args(worker, Ghost(args@))),
            Err(e) => Err(e),
        }
    }

    pub fn metadata(&self) -> (r: Metadata) {
        self.writer.metadata()
    }
}

/// A writer's per-export worker: it takes frames one by one, then is told the export ended.
pub trait Worker {
    fn write(&mut self, index: u32, layers: &[Layer]) -> Result<(), String>;

    /// Called once after the last frame; by default there is nothing to finish.
    fn end(&mut self) -> Result<(), String> {
        Ok(())
    }
}

/// A call that a writer handle passed on to its worker, with what it returned.
pub ghost enum WriterCall {
    Write(u32, Seq<Layer>, Result<(), String>),
    End(Result<(), String>),
}

/// What a recorded call returned.
pub open spec fn call_result(c: WriterCall) -> Result<(), String> {
    match c {
        WriterCall::Write(_, _, r) => r,
        WriterCall::End(r) => r,
    }
}

/// The owning handle of a writer worker; it keeps a record of the calls it passed on.
pub struct WorkerBox {
    worker: Box<dyn Worker>,
    calls: Ghost<Seq<WriterCall>>,
    args: Ghost<Seq<char>>,
}

impl WorkerBox {
    /// The argument string the worker was made from; empty for one made directly.
    pub closed spec fn args(&self) -> Seq<char> {
        self.args@
    }

    fn with_args(worker: Box<dyn Worker>, args: Ghost<Seq<char>>) -> (r: WorkerBox)
        ensures
            r.calls() == Seq::<WriterCall>::empty(),
            r.args() == args@,
    {
        WorkerBox { worker, calls: Ghost(Seq::empty()), args }
    }

    /// The calls passed on to the worker so far, in order.
    pub closed spec fn calls(&self) -> Seq<WriterCall> {
        self.calls@
    }

    pub fn new(worker: Box<dyn Worker>) -> (r: WorkerBox)
        ensures
            r.calls() == Seq::<WriterCall>::empty(),
            r.args() == Seq::<char>::empty(),
    {
        WorkerBox { worker, calls: Ghost(Seq::empty()), args: Ghost(Seq::empty()) }
    }

    pub fn write(&mut self, index: u32, layers: &[Layer]) -> (r: Result<(), String>)
        ensures
            final(self).calls() == old(self).calls().push(WriterCall::Write(index, layers@, r)),
            final(self).args() == old(self).args(),
    {
        let r = self.worker.write(index, layers);
        self.calls = Ghost(self.calls@.push(WriterCall::Write(index, layers@, r)));
        r
    }

    pub fn end(&mut self) -> (r: Result<(), String>)
        ensures
            final(self).calls() == old(self).calls().push(WriterCall::End(r)),
            final(self).args() == old(self).args(),
    {
        let r = self.worker.end();
        self.calls = Ghost(self.calls@.push(WriterCall::End(r)));
        r
    }
}

} // verus!
