use vstd::prelude::*;
use crate::context::Context;
use crate::file::FileType;
use crate::layer::{Layer, Token};
use url::Url;

verus! {

#[verifier::external_type_specification]
#[verifier::external_body]
pub struct ExUrl(Url);

/// Whether a text parses as an absolute URL.
pub uninterp spec fn url_parses(text: Seq<char>) -> bool;

/// Relies on `url::Url::parse`: the parsed absolute URL, or `None` where the text is
/// not one; which of the two depends on the text alone.
#[verifier::external_body]
fn parse_url(text: &str) -> (r: Option<Url>)
    ensures
        r is Some <==> url_parses(text@),
{
    Url::parse(text).ok()
}

/// The URL that stands for a text that is not one.
pub open spec fn null_url() -> Seq<char> {
    seq!['n', 'u', 'l', 'l', ':']
}

/// The text of the URL that a reader is opened on for `text`.
pub open spec fn source_of(text: Seq<char>) -> Seq<char> {
    if url_parses(text) {
        text
    } else {
        null_url()
    }
}

/// The message of the failure when neither a text nor `null:` parses as a URL.
pub open spec fn invalid_url() -> Seq<char> {
    seq!['i', 'n', 'v', 'a', 'l', 'i', 'd', ' ', 'u', 'r', 'l']
}

/// A reader: it makes one worker per source, from a URL.
pub trait Reader {
    fn new_worker(&self, ctx: &Context, url: &Url) -> Result<Box<dyn Worker>, String>;
}

/// The owning handle of a reader.
pub struct ReaderBox {
    reader: Box<dyn Reader>,
}

impl ReaderBox {
    pub fn new(reader: Box<dyn Reader>) -> (r: ReaderBox) {
        ReaderBox { reader }
    }

    /// Asks the reader for a worker on `url`; text that is not a URL is read as the
    /// URL `null:`. A failure of the reader comes back as its message.
    pub fn new_worker(&self, ctx: &Context, url: &str) -> (r: Result<WorkerBox, String>)
        ensures
            r is Ok ==> r->Ok_0.source() == source_of(url@) && r->Ok_0.reads().len() == 0,
            !url_parses(url@) && !url_parses(null_url()) ==> r is Err && r->Err_0@ == invalid_url(),
    {
        let null_text = "null:";
        let message = "invalid url";
        proof {
            reveal_strlit("null:");
            reveal_strlit("invalid url");
            assert(null_text@ =~= null_url());
            assert(message@ =~= invalid_url());
        }
        let parsed = match parse_url(url) {
            Some(u) => Some(u),
            None => parse_url(null_text),
        };
        match parsed {
            Some(u) => match self.reader.new_worker(ctx, &u) {
                Ok(worker) => Ok(WorkerBox::with_source(worker, Ghost(source_of(url@)))),
                Err(e) => Err(e),
            },
            None => Err(message.to_owned()),
        }
    }
}

/// A reader's per-source worker.
pub trait Worker {
    /// The next raw frames; an empty list ends the source.
    fn read(&mut self) -> Result<Vec<Vec<u8>>, String>;

    /// The class of the root layer of every frame this source reads.
    fn layer_id(&self) -> Token;
}

/// Root layers of class `id`, one for each buffer, in order.
pub fn to_layers(id: Token, buffers: Vec<Vec<u8>>) -> (r: Vec<Layer>)
    ensures
        r@.len() == buffers@.len(),
        forall|i: int|
            0 <= i < r@.len() ==> (#[trigger] r@[i]).id == id && r@[i].data@ == buffers@[i]@,
{
    let ghost all = buffers@;
    let n = buffers.len();
    let mut rest = buffers;
    let mut out: Vec<Layer> = Vec::new();
    while rest.len() > 0
        invariant
            n == all.len(),
            out@.len() + rest@.len() == n,
            rest@ == all.subrange(out@.len() as int, n as int),
            forall|i: int| 0 <= i < out@.len() ==> (#[trigger] out@[i]).id == id && out@[i].data@ == all[i]@,
        decreases rest@.len(),
    {
        let data = rest.remove(0);
        out.push(Layer::new(id, data));
    }
    out
}

/// The owning handle of a reader worker; it keeps a record of what each read returned.
pub struct WorkerBox {
    worker: Box<dyn Worker>,
    source: Ghost<Seq<char>>,
    reads: Ghost<Seq<Result<Vec<Vec<u8>>, String>>>,
}

impl WorkerBox {
    /// The text of the URL the worker was opened on; empty for one made directly.
    pub closed spec fn source(&self) -> Seq<char> {
        self.source@
    }

    /// What each read returned, oldest first.
    pub closed spec fn reads(&self) -> Seq<Result<Vec<Vec<u8>>, String>> {
        self.reads@
    }

    pub fn new(worker: Box<dyn Worker>) -> (r: WorkerBox)
        ensures
            r.source() == Seq::<char>::empty(),
            r.reads().len() == 0,
    {
        WorkerBox { worker, source: Ghost(Seq::empty()), reads: Ghost(Seq::empty()) }
    }

    fn with_source(worker: Box<dyn Worker>, source: Ghost<Seq<char>>) -> (r: WorkerBox)
        ensures
            r.source() == source@,
            r.reads().len() == 0,
    {
        WorkerBox { worker, source, reads: Ghost(Seq::empty()) }
    }

    /// Reads once; the result is what the worker returned.
    pub fn read(&mut self) -> (r: Result<Vec<Vec<u8>>, String>)
        ensures
            final(self).reads() == old(self).reads().push(r),
            final(self).source() == old(self).source(),
    {
        let r = self.worker.read();
        self.reads = Ghost(self.reads@.push(r));
        r
    }

    pub fn layer_id(&self) -> (r: Token) {
        self.worker.layer_id()
    }

    /// Reads once and turns the buffers into root layers, all of this source's class,
    /// in order; a failed read comes back as its message.
    pub fn read_layers(&mut self) -> (r: Result<Vec<Layer>, String>)
        ensures
            final(self).source() == old(self).source(),
            final(self).reads().drop_last() == old(self).reads(),
            final(self).reads().len() == old(self).reads().len() + 1,
            match r {
                Ok(layers) => final(self).reads().last() is Ok && {
                    let buffers = final(self).reads().last()->Ok_0@;
                    &&& layers@.len() == buffers.len()
                    &&& forall|i: int| 0 <= i < layers@.len() ==> (#[trigger] layers@[i]).data@ == buffers[i]@
                    &&& forall|i: int| 0 <= i < layers@.len() ==> (#[trigger] layers@[i]).id == layers@[0].id
                },
                Err(e) => final(self).reads().last() == Err::<Vec<Vec<u8>>, String>(e),
            },
    {
        let id = self.worker.layer_id();
        let result = self.read();
        proof {
            assert(self.reads().drop_last() =~= old(self).reads());
        }
        match result {
            Ok(buffers) => Ok(to_layers(id, buffers)),
            Err(e) => Err(e),
        }
    }
}

/// A reader with its id and the kinds of file it opens.
pub struct ReaderData {
    pub id: String,
    pub filters: Vec<FileType>,
    pub reader: ReaderBox,
}

impl ReaderData {
    pub fn new(reader: ReaderBox) -> (r: ReaderData)
        ensures
            r.id@ == Seq::<char>::empty(),
            r.filters@.len() == 0,
    {
        ReaderData { id: String::new(), filters: Vec::new(), reader }
    }

    pub fn id(self, id: String) -> (r: Self)
        ensures
            r.id == id,
            r.filters == self.filters,
    {
        let mut data = self;
        data.id = id;
        data
    }

    pub fn filter(self, file: FileType) -> (r: Self)
        ensures
            r.id == self.id,
            r.filters@ == self.filters@.push(file),
    {
        let mut data = self;
        data.filters.push(file);
        data
    }
}

} // verus!
