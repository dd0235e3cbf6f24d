use vstd::prelude::*;
use crate::context::Context;
use crate::layer::{Layer, LayerStack};

verus! {

/// What a decoder worker did with the top of a layer stack.
#[derive(Clone, Copy, PartialEq, Eq, Structural, Debug)]
pub enum Status {
    /// It pushed the layers it is responsible for.
    Done,
    /// It does not apply; the stack is as it was.
    Skip,
}

/// How a decoder asks to be scheduled.
#[derive(Clone, Copy, PartialEq, Eq, Structural, Debug)]
pub enum ExecType {
    /// Frames are independent; decode them whenever.
    Lazy,
    /// Frames are independent; decode them in the parallel stage.
    ParallelSync,
    /// Frames of one stream must reach this decoder in index order.
    SerialSync,
}

/// Status code of a failed call across the plugin boundary.
pub const STATUS_FAILURE: u8 = 0;

/// Status code of a call that did not apply.
pub const STATUS_SKIP: u8 = 1;

/// Status code of a call that succeeded.
pub const STATUS_SUCCESS: u8 = 2;

/// The status code that stands for a decode result at the plugin boundary.
pub open spec fn code_of(r: Result<Status, String>) -> u8 {
    match r {
        Ok(Status::Done) => STATUS_SUCCESS,
        Ok(Status::Skip) => STATUS_SKIP,
        Err(_) => STATUS_FAILURE,
    }
}

/// The decode result that a status code and an error message stand for.
pub open spec fn result_of(code: u8, err: String) -> Result<Status, String> {
    if code == STATUS_SUCCESS {
        Ok(Status::Done)
    } else if code == STATUS_SKIP {
        Ok(Status::Skip)
    } else {
        Err(err)
    }
}

/// Splits a decode result into the status code and the error message that cross the
/// plugin boundary; the message is empty unless the call failed.
pub fn encode_status(r: Result<Status, String>) -> (out: (u8, String))
    ensures
        out.0 == code_of(r),
        match r {
            Ok(_) => out.1@ == Seq::<char>::empty(),
            Err(e) => out.1 == e,
        },
{
    match r {
        Ok(Status::Done) => (STATUS_SUCCESS, String::new()),
        Ok(Status::Skip) => (STATUS_SKIP, String::new()),
        Err(e) => (STATUS_FAILURE, e),
    }
}

/// Rebuilds a decode result from a status code and an error message.
pub fn decode_status(code: u8, err: String) -> (r: Result<Status, String>)
    ensures
        r == result_of(code, err),
{
    if code == STATUS_SUCCESS {
        Ok(Status::Done)
    } else if code == STATUS_SKIP {
        Ok(Status::Skip)
    } else {
        Err(err)
    }
}

/// A decode result survives the trip across the plugin boundary unchanged.
pub proof fn lemma_status_round_trip(r: Result<Status, String>, message: String)
    requires
        r is Err ==> message == r->Err_0,
    ensures
        result_of(code_of(r), message) == r,
{
}

/// A decoder's per-session worker.
pub trait Worker {
    fn decode(&mut self, stack: &mut LayerStack) -> Result<Status, String>;
}

/// One run of a decoder: the layers it was given, the layers it left, and its result.
pub ghost struct DecodeRun {
    pub input: Seq<Layer>,
    pub output: Seq<Layer>,
    pub result: Result<Status, String>,
}

/// The owning handle of a decoder worker; it keeps a record of the runs of its worker.
pub struct WorkerBox {
    worker: Box<dyn Worker>,
    history: Ghost<Seq<DecodeRun>>,
}

impl WorkerBox {
    /// The runs of the worker so far, oldest first.
    pub closed spec fn history(&self) -> Seq<DecodeRun> {
        self.history@
    }

    pub fn new(worker: Box<dyn Worker>) -> (r: WorkerBox)
        ensures
            r.history() == Seq::<DecodeRun>::empty(),
    {
        WorkerBox { worker, history: Ghost(Seq::empty()) }
    }

    /// Runs the worker on the stack once; its result crosses the boundary as a status
    /// code and a message and comes back unchanged.
    pub fn decode(&mut self, stack: &mut LayerStack) -> (r: Result<Status, String>)
        ensures
            final(self).history() == old(self).history().push(
                DecodeRun { input: old(stack).layers@, output: final(stack).layers@, result: r },
            ),
    {
        let result = self.worker.decode(stack);
        let ghost given = result;
        let (code, err) = encode_status(result);
        let r = decode_status(code, err);
        assert(r == given);
        self.history = Ghost(
            self.history@.push(DecodeRun { input: old(stack).layers@, output: stack.layers@, result: r }),
        );
        r
    }
}

/// Decoders that each ran once more, in turn: the first on `from`, each next one on
/// what the one before left, the last leaving `to`.
pub open spec fn ran_in_turn(
    before: Seq<DecoderStack>,
    after: Seq<DecoderStack>,
    from: Seq<Layer>,
    to: Seq<Layer>,
) -> bool {
    &&& after.len() == before.len()
    &&& forall|i: int|
        0 <= i < after.len() ==> (#[trigger] after[i]).history().len() == before[i].history().len() + 1
            && after[i].history().drop_last() == before[i].history()
    &&& forall|i: int|
        0 <= i < after.len() ==> (#[trigger] after[i]).history().last().input == if i == 0 {
            from
        } else {
            after[i - 1].history().last().output
        }
    &&& to == if after.len() == 0 {
        from
    } else {
        after.last().history().last().output
    }
}

/// A decoder worker and the decoders that run after it has done its part, resolved
/// once when the pipeline is built.
pub struct DecoderStack {
    worker: WorkerBox,
    sub_workers: Vec<DecoderStack>,
    history: Ghost<Seq<DecodeRun>>,
}

impl DecoderStack {
    /// The runs of this whole node, its followers included, oldest first.
    pub closed spec fn history(&self) -> Seq<DecodeRun> {
        self.history@
    }

    /// The runs of this node's own worker.
    pub closed spec fn worker_history(&self) -> Seq<DecodeRun> {
        self.worker.history()
    }

    /// The decoders that run after this one, in order.
    pub closed spec fn subs(&self) -> Seq<DecoderStack> {
        self.sub_workers@
    }

    pub fn new(worker: WorkerBox, sub_workers: Vec<DecoderStack>) -> (r: DecoderStack)
        ensures
            r.history() == Seq::<DecodeRun>::empty(),
            r.worker_history() == worker.history(),
            r.subs() == sub_workers@,
    {
        DecoderStack { worker, sub_workers, history: Ghost(Seq::empty()) }
    }

    /// Runs this decoder's worker, then, if it is `Done`, each decoder after it once, in
    /// order, each on the stack the one before left; their failures are ignored. Returns
    /// the worker's own result.
    pub fn decode(&mut self, stack: &mut LayerStack) -> (r: Result<Status, String>)
        ensures
            final(self).history() == old(self).history().push(
                DecodeRun { input: old(stack).layers@, output: final(stack).layers@, result: r },
            ),
            final(self).worker_history().len() == old(self).worker_history().len() + 1,
            final(self).worker_history().drop_last() == old(self).worker_history(),
            final(self).worker_history().last().input == old(stack).layers@,
            final(self).worker_history().last().result == r,
            r == Ok::<Status, String>(Status::Done) ==> ran_in_turn(
                old(self).subs(),
                final(self).subs(),
                final(self).worker_history().last().output,
                final(stack).layers@,
            ),
            r != Ok::<Status, String>(Status::Done) ==> final(self).subs() == old(self).subs()
                && final(stack).layers@ == final(self).worker_history().last().output,
        decreases *old(self), 1int,
    {
        let top = self.worker.decode(stack);
        proof {
            assert(decreases_to!(*old(self) => old(self).sub_workers));
            assert(self.worker.history().drop_last() =~= old(self).worker.history());
        }
        let r = Self::after_worker(top, &mut self.sub_workers, stack);
        self.history = Ghost(
            self.history@.push(DecodeRun { input: old(stack).layers@, output: stack.layers@, result: r }),
        );
        r
    }

    /// Given what a decoder returned, runs each decoder of `subs` once, in order, when
    /// it is `Done`, each on the stack the one before left, ignoring their failures.
    /// Otherwise nothing runs and the stack is left alone. Returns the decoder's own
    /// result.
    pub fn after_worker(
        top: Result<Status, String>,
        subs: &mut Vec<DecoderStack>,
        stack: &mut LayerStack,
    ) -> (r: Result<Status, String>)
        ensures
            r == top,
            top == Ok::<Status, String>(Status::Done) ==> ran_in_turn(
                old(subs)@,
                final(subs)@,
                old(stack).layers@,
                final(stack).layers@,
            ),
            top != Ok::<Status, String>(Status::Done) ==> final(subs)@ == old(subs)@
                && final(stack).layers@ == old(stack).layers@,
        decreases *old(subs), 0int,
    {
        match top {
            Ok(Status::Done) => {
                let mut rest: Vec<DecoderStack> = Vec::new();
                std::mem::swap(&mut rest, subs);
                let ghost all = rest@;
                let ghost from = stack.layers@;
                let n = rest.len();
                let mut done: Vec<DecoderStack> = Vec::new();
                while rest.len() > 0
                    invariant
                        n == all.len(),
                        all == old(subs)@,
                        from == old(stack).layers@,
                        done@.len() + rest@.len() == n,
                        rest@ == all.subrange(done@.len() as int, n as int),
                        ran_in_turn(all.take(done@.len() as int), done@, from, stack.layers@),
                    decreases rest@.len(),
                {
                    let mut worker = rest.remove(0);
                    let ghost k = done@.len() as int;
                    let ghost before_done = done@;
                    let ghost at = stack.layers@;
                    proof {
                        assert(worker == all[k]);
                        assert(decreases_to!(*old(subs) => all));
                        assert(decreases_to!(all => all[k]));
                    }
                    let _ = worker.decode(stack);
                    done.push(worker);
                    proof {
                        let b = all.take(k + 1);
                        assert forall|i: int| 0 <= i < done@.len() implies (#[trigger] done@[i]).history().len()
                            == b[i].history().len() + 1 && done@[i].history().drop_last() == b[i].history() by {
                            if i < k {
                                assert(done@[i] == before_done[i]);
                                assert(b[i] == all.take(k)[i]);
                            } else {
                                assert(done@[i].history().drop_last() =~= b[i].history());
                            }
                        }
                        assert forall|i: int| 0 <= i < done@.len() implies (#[trigger] done@[i]).history().last().input
                            == if i == 0 {
                            from
                        } else {
                            done@[i - 1].history().last().output
                        } by {
                            if i < k {
                                assert(done@[i] == before_done[i]);
                                if i > 0 {
                                    assert(done@[i - 1] == before_done[i - 1]);
                                }
                            } else if i > 0 {
                                assert(done@[i - 1] == before_done[i - 1]);
                            }
                        }
                    }
                }
                assert(all.take(n as int) =~= all);
                *subs = done;
                Ok(Status::Done)
            },
            Ok(Status::Skip) => Ok(Status::Skip),
            Err(err) => Err(err),
        }
    }
}

/// A decoder: it makes one worker per decode session.
pub trait Decoder {
    fn new_worker(&self, ctx: &Context) -> Result<Box<dyn Worker>, String>;
}

/// The owning handle of a decoder.
pub struct DecoderBox {
    decoder: Box<dyn Decoder>,
}

impl DecoderBox {
    pub fn new(decoder: Box<dyn Decoder>) -> (r: DecoderBox) {
        DecoderBox { decoder }
    }

    /// Asks the decoder for a worker; a failure comes back as its message.
    pub fn new_worker(&self, ctx: &Context) -> (r: Result<WorkerBox, String>) {
        match self.decoder.new_worker(ctx) {
            Ok(worker) => Ok(WorkerBox::new(worker)),
            Err(e) => Err(e),
        }
    }
}

/// A decoder with what the pipeline needs to place it: its id, the decoders it runs
/// after, and how it is scheduled.
pub struct DecoderData {
    pub id: String,
    pub trigger_after: Vec<String>,
    pub exec_type: ExecType,
    pub decoder: DecoderBox,
}

impl DecoderData {
    /// A decoder with no id, run after nothing, scheduled lazily.
    pub fn new(decoder: DecoderBox) -> (r: DecoderData)
        ensures
            r.id@ == Seq::<char>::empty(),
            r.trigger_after@ == Seq::<String>::empty(),
            r.exec_type == ExecType::Lazy,
    {
        DecoderData { id: String::new(), trigger_after: Vec::new(), exec_type: ExecType::Lazy, decoder }
    }

    pub fn id(self, id: String) -> (r: Self)
        ensures
            r.id == id,
            r.trigger_after == self.trigger_after,
            r.exec_type == self.exec_type,
            r.decoder == self.decoder,
    {
        let mut data = self;
        data.id = id;
        data
    }

    pub fn trigger_after(self, id: String) -> (r: Self)
        ensures
            r.id == self.id,
            r.trigger_after@ == self.trigger_after@.push(id),
            r.exec_type == self.exec_type,
            r.decoder == self.decoder,
    {
        let mut data = self;
        data.trigger_after.push(id);
        data
    }

    pub fn exec_type(self, exec_type: ExecType) -> (r: Self)
        ensures
            r.id == self.id,
            r.trigger_after == self.trigger_after,
            r.exec_type == exec_type,
            r.decoder == self.decoder,
    {
        let mut data = self;
        data.exec_type = exec_type;
        data
    }
}

} // verus!
