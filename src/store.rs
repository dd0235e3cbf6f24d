use vstd::prelude::*;
use crate::decoder::{DecodeRun, DecoderStack};
use crate::layer::{Frame, Layer, LayerStack, Token};
use crate::writer::{call_result, WorkerBox, WriterCall};
use std::collections::HashMap;
use std::ops::Range;

verus! {

broadcast use vstd::std_specs::hash::group_hash_axioms;

/// How many frames one filter examines before the store's lock is let go.
pub const MAX_FILTER_SIZE: usize = 16384;

/// How many frames one block of an output drain holds.
pub const OUTPUT_BLOCK_SIZE: usize = 65536;

/// What the host is told as the pipeline runs.
pub trait Callback {
    fn on_frames_updated(&self, frames: u32) {
    }

    fn on_async_frames_updated(&self, frames: u32) {
    }

    fn on_filtered_frames_updated(&self, id: u32, frames: u32) {
    }

    fn on_output_done(&self, id: u32, error: Option<String>) {
    }

    fn on_input_done(&self, id: u32, error: Option<String>) {
    }

    fn on_error(&self, error: String) {
    }
}

/// A compiled predicate over frames.
pub trait Filter {
    /// Whether the predicate holds of a frame.
    spec fn matches(&self, frame: Frame) -> bool;

    fn test(&self, frame: &Frame) -> (r: bool)
        ensures
            r == self.matches(*frame),
    ;
}

/// A predicate with the same answer for every frame.
pub struct ConstFilter {
    pub value: bool,
}

impl Filter for ConstFilter {
    open spec fn matches(&self, frame: Frame) -> bool {
        self.value
    }

    fn test(&self, frame: &Frame) -> (r: bool) {
        self.value
    }
}

/// Holds of a frame when one of its layers is of the given class.
pub struct LayerFilter {
    pub id: Token,
}

impl Filter for LayerFilter {
    open spec fn matches(&self, frame: Frame) -> bool {
        exists|i: int| 0 <= i < frame.layers@.len() && (#[trigger] frame.layers@[i]).id == self.id
    }

    fn test(&self, frame: &Frame) -> (r: bool) {
        let mut i: usize = 0;
        while i < frame.layers.len()
            invariant
                i <= frame.layers@.len(),
                forall|j: int| 0 <= j < i ==> (#[trigger] frame.layers@[j]).id != self.id,
            decreases frame.layers@.len() - i,
        {
            if frame.layers[i].id == self.id {
                return true;
            }
            i = i + 1;
        }
        false
    }
}

/// The indices of the frames of `frames` that `f` matches, in order.
pub open spec fn matching<F: Filter>(f: F, frames: Seq<Frame>) -> Seq<u32>
    decreases frames.len(),
{
    if frames.len() == 0 {
        Seq::empty()
    } else {
        let earlier = matching(f, frames.drop_last());
        if f.matches(frames.last()) {
            earlier.push(frames.last().index)
        } else {
            earlier
        }
    }
}

/// The part of `s` that `start..end` selects: empty when the range is empty,
/// inverted or starts past the end, and cut at the end of `s` otherwise.
pub open spec fn window<T>(s: Seq<T>, start: int, end: int) -> Seq<T> {
    if start >= end || start >= s.len() {
        Seq::empty()
    } else if end <= s.len() {
        s.subrange(start, end)
    } else {
        s.subrange(start, s.len() as int)
    }
}

/// Where a filter that has examined `offset` of `len` frames stands after one more chunk.
pub open spec fn chunk_end(offset: int, len: int) -> int {
    if len - offset > MAX_FILTER_SIZE {
        offset + MAX_FILTER_SIZE
    } else {
        len
    }
}

/// Frame `i` of a well-formed store has index `i`.
pub open spec fn contiguous_from(frames: Seq<Frame>, start: int) -> bool {
    forall|i: int| 0 <= i < frames.len() ==> (#[trigger] frames[i]).index == start + i
}

/// The frames that have been decoded and stored, and the indices that each live filter
/// has matched so far.
pub struct Store {
    frames: Vec<Frame>,
    filtered: HashMap<u32, Vec<u32>>,
}

impl Store {
    pub closed spec fn frames_view(&self) -> Seq<Frame> {
        self.frames@
    }

    /// The indices matched so far by filter `id`; empty for a filter that is not live.
    pub closed spec fn matches_of(&self, id: u32) -> Seq<u32> {
        if self.filtered@.contains_key(id) {
            self.filtered@[id]@
        } else {
            Seq::empty()
        }
    }

    pub closed spec fn wf(&self) -> bool {
        &&& contiguous_from(self.frames@, 0)
        &&& self.frames@.len() <= 0x1_0000_0000
    }

    pub fn new() -> (r: Store)
        ensures
            r.wf(),
            r.frames_view() == Seq::<Frame>::empty(),
            forall|id: u32| r.matches_of(id) == Seq::<u32>::empty(),
    {
        Store { frames: Vec::new(), filtered: HashMap::new() }
    }

    pub fn len(&self) -> (r: usize)
        ensures
            r == self.frames_view().len(),
    {
        self.frames.len()
    }

    /// The stored frames whose positions fall in `range`.
    pub fn frames(&self, range: Range<usize>) -> (r: Vec<&Frame>)
        ensures
            r@.len() == window(self.frames_view(), range.start as int, range.end as int).len(),
            forall|i: int|
                0 <= i < r@.len() ==> *r@[i] == window(
                    self.frames_view(),
                    range.start as int,
                    range.end as int,
                )[i],
    {
        let len = self.frames.len();
        let mut out: Vec<&Frame> = Vec::new();
        if range.start < range.end && range.start < len {
            let hi = if range.end < len {
                range.end
            } else {
                len
            };
            let mut i = range.start;
            while i < hi
                invariant
                    range.start <= i <= hi <= len,
                    len == self.frames@.len(),
                    out@.len() == i - range.start,
                    forall|j: int| 0 <= j < out@.len() ==> *out@[j] == self.frames@[range.start + j],
                decreases hi - i,
            {
                out.push(&self.frames[i]);
                i = i + 1;
            }
        }
        out
    }

    /// The entries of filter `id`'s match list whose positions fall in `range`.
    pub fn filtered_frames(&self, id: u32, range: Range<usize>) -> (r: Vec<u32>)
        ensures
            r@ == window(self.matches_of(id), range.start as int, range.end as int),
    {
        let mut out: Vec<u32> = Vec::new();
        match self.filtered.get(&id) {
            Some(list) => {
                let len = list.len();
                if range.start < range.end && range.start < len {
                    let hi = if range.end < len {
                        range.end
                    } else {
                        len
                    };
                    let mut i = range.start;
                    while i < hi
                        invariant
                            range.start <= i <= hi <= len,
                            len == list@.len(),
                            out@ == list@.subrange(range.start as int, i as int),
                        decreases hi - i,
                    {
                        out.push(list[i]);
                        i = i + 1;
                    }
                }
            },
            None => {},
        }
        out
    }

    /// Appends a batch whose indices continue the store's own.
    pub fn store_frames(&mut self, batch: Vec<Frame>) -> (r: usize)
        requires
            old(self).wf(),
            contiguous_from(batch@, old(self).frames_view().len() as int),
            old(self).frames_view().len() + batch@.len() <= 0x1_0000_0000,
        ensures
            final(self).wf(),
            final(self).frames_view() == old(self).frames_view() + batch@,
            forall|id: u32| final(self).matches_of(id) == old(self).matches_of(id),
            r == final(self).frames_view().len(),
    {
        let mut batch = batch;
        let ghost start = self.frames@;
        let ghost all = batch@;
        self.frames.append(&mut batch);
        assert(contiguous_from(self.frames@, 0)) by {
            assert forall|k: int| 0 <= k < self.frames@.len() implies (#[trigger] self.frames@[k]).index == k by {
                if k >= start.len() {
                    assert(self.frames@[k] == all[k - start.len()]);
                }
            }
        }
        self.frames.len()
    }

    /// The frame at position `i`.
    pub fn frame_at(&self, i: usize) -> (r: &Frame)
        requires
            i < self.frames_view().len(),
        ensures
            *r == self.frames_view()[i as int],
    {
        &self.frames[i]
    }

    /// Drops filter `id`'s match list.
    pub fn clear_matches(&mut self, id: u32)
        ensures
            final(self).frames_view() == old(self).frames_view(),
            final(self).wf() == old(self).wf(),
            final(self).matches_of(id) == Seq::<u32>::empty(),
            forall|other: u32| other != id ==> final(self).matches_of(other) == old(self).matches_of(other),
    {
        let _ = self.filtered.remove(&id);
    }

    /// Appends newly matched indices to filter `id`'s match list and returns its new length.
    pub fn append_matches(&mut self, id: u32, indices: Vec<u32>) -> (r: usize)
        ensures
            final(self).frames_view() == old(self).frames_view(),
            final(self).wf() == old(self).wf(),
            final(self).matches_of(id) == old(self).matches_of(id) + indices@,
            forall|other: u32| other != id ==> final(self).matches_of(other) == old(self).matches_of(other),
            r == final(self).matches_of(id).len(),
    {
        let mut indices = indices;
        let mut list = match self.filtered.remove(&id) {
            Some(list) => list,
            None => Vec::new(),
        };
        list.append(&mut indices);
        let n = list.len();
        self.filtered.insert(id, list);
        n
    }
}

/// `frames` are the frames made from `roots`, numbered from `start` in order.
pub open spec fn indexed_from(frames: Seq<Frame>, start: int, roots: Seq<Layer>) -> bool {
    &&& frames.len() == roots.len()
    &&& contiguous_from(frames, start)
    &&& forall|i: int| 0 <= i < frames.len() ==> (#[trigger] frames[i]).layers@ == seq![roots[i]]
}

proof fn lemma_matching_step<F: Filter>(f: F, s: Seq<Frame>, j: int)
    requires
        0 <= j < s.len(),
    ensures
        matching(f, s.take(j + 1)) == if f.matches(s[j]) {
            matching(f, s.take(j)).push(s[j].index)
        } else {
            matching(f, s.take(j))
        },
{
    assert(s.take(j + 1).drop_last() =~= s.take(j));
}

/// What an input driver does after one read.
pub enum InputStep {
    /// Hand these root layers on and read again.
    Forward(Vec<Layer>),
    /// The source has ended: report it and stop.
    End,
    /// The read failed: report the error once and stop.
    Fail(String),
}

/// Decides what an input driver does with the result of one read: a non-empty read is
/// handed on, an empty one ends the stream, a failed one ends it with its error.
pub fn input_step(result: Result<Vec<Layer>, String>) -> (r: InputStep)
    ensures
        match result {
            Ok(layers) => if layers@.len() == 0 {
                r is End
            } else {
                r is Forward && r->Forward_0@ == layers@
            },
            Err(e) => r == InputStep::Fail(e),
        },
{
    match result {
        Ok(layers) => if layers.len() == 0 {
            InputStep::End
        } else {
            InputStep::Forward(layers)
        },
        Err(e) => InputStep::Fail(e),
    }
}

/// What the loop must do after a batch of raw layers came from an input.
pub enum InputAction {
    /// Decode these freshly numbered frames.
    Decode(Vec<Frame>),
    /// Input `id` has ended, with the error that ended it, if any.
    InputDone(u32, Option<String>),
    /// Nothing to report.
    Nothing,
}

/// A live filter: its predicate and how many stored frames it has examined.
pub struct FilterContext<F> {
    pub filter: F,
    pub offset: usize,
}

/// The state that only the loop thread owns: the next frame index and the live filters.
pub struct EventLoop<F> {
    next_index: u64,
    filters: HashMap<u32, FilterContext<F>>,
    ids: Vec<u32>,
}

impl<F: Filter> EventLoop<F> {
    pub closed spec fn next_index(&self) -> int {
        self.next_index as int
    }

    /// The live filters by id.
    pub closed spec fn live_filters(&self) -> Map<u32, FilterContext<F>> {
        self.filters@
    }

    pub closed spec fn wf(&self) -> bool {
        &&& self.next_index <= 0x1_0000_0000
        &&& self.ids@.no_duplicates()
        &&& forall|id: u32| self.filters@.contains_key(id) <==> self.ids@.contains(id)
    }

    /// Every live filter has examined a prefix of the store, and the store holds exactly
    /// the indices that it matched there.
    pub open spec fn in_step(&self, store: &Store) -> bool {
        forall|id: u32|
            #![trigger self.live_filters().contains_key(id)]
            self.live_filters().contains_key(id) ==> {
                let ctx = self.live_filters()[id];
                &&& ctx.offset <= store.frames_view().len()
                &&& store.matches_of(id) == matching(
                    ctx.filter,
                    store.frames_view().take(ctx.offset as int),
                )
            }
    }

    /// The index the next frame will get.
    pub fn next(&self) -> (r: u64)
        ensures
            r == self.next_index(),
    {
        self.next_index
    }

    pub fn new() -> (r: EventLoop<F>)
        ensures
            r.wf(),
            r.next_index() == 0,
            r.live_filters() == Map::<u32, FilterContext<F>>::empty(),
    {
        EventLoop { next_index: 0, filters: HashMap::new(), ids: Vec::new() }
    }

    /// Numbers the layers of a successful read after every frame made so far; an empty
    /// read ends the input, a failed one ends it with its error.
    pub fn process_input(&mut self, id: Option<u32>, result: Result<Vec<Layer>, String>) -> (r:
        InputAction)
        requires
            old(self).wf(),
            result is Ok && result->Ok_0@.len() > 0 ==> old(self).next_index() + result->Ok_0@.len()
                <= 0x1_0000_0000,
        ensures
            final(self).wf(),
            final(self).next_index() <= 0x1_0000_0000,
            final(self).live_filters() == old(self).live_filters(),
            match result {
                Ok(layers) => if layers@.len() == 0 {
                    &&& final(self).next_index() == old(self).next_index()
                    &&& match id {
                        Some(i) => r == InputAction::InputDone(i, None),
                        None => r is Nothing,
                    }
                } else {
                    &&& final(self).next_index() == old(self).next_index() + layers@.len()
                    &&& r is Decode
                    &&& indexed_from(r->Decode_0@, old(self).next_index(), layers@)
                },
                Err(e) => {
                    &&& final(self).next_index() == old(self).next_index()
                    &&& match id {
                        Some(i) => r == InputAction::InputDone(i, Some(e)),
                        None => r is Nothing,
                    }
                },
            },
    {
        match result {
            Ok(layers) => {
                if layers.len() == 0 {
                    match id {
                        Some(i) => InputAction::InputDone(i, None),
                        None => InputAction::Nothing,
                    }
                } else {
                    let ghost roots = layers@;
                    let n = layers.len();
                    let start = self.next_index;
                    let mut rest = layers;
                    let mut frames: Vec<Frame> = Vec::new();
                    while rest.len() > 0
                        invariant
                            n == roots.len(),
                            start == old(self).next_index,
                            start + n <= 0x1_0000_0000,
                            frames@.len() + rest@.len() == n,
                            rest@ == roots.subrange(frames@.len() as int, n as int),
                            indexed_from(frames@, start as int, roots.take(frames@.len() as int)),
                        decreases rest@.len(),
                    {
                        let root = rest.remove(0);
                        let index = (start + frames.len() as u64) as u32;
                        let frame = Frame::new(index, root);
                        frames.push(frame);
                    }
                    assert(roots.take(n as int) =~= roots);
                    self.next_index = start + n as u64;
                    InputAction::Decode(frames)
                }
            },
            Err(e) => match id {
                Some(i) => InputAction::InputDone(i, Some(e)),
                None => InputAction::Nothing,
            },
        }
    }

    /// Installs filter `id` afresh, or removes it; either way its match list starts empty.
    /// Installing reports a count of zero at once.
    pub fn set_filter(&mut self, store: &mut Store, id: u32, filter: Option<F>) -> (r: Option<
        (u32, u32),
    >)
        requires
            old(self).wf(),
            old(self).in_step(old(store)),
        ensures
            final(self).wf(),
            final(self).in_step(final(store)),
            final(self).next_index() == old(self).next_index(),
            final(store).wf() == old(store).wf(),
            final(store).frames_view() == old(store).frames_view(),
            final(store).matches_of(id) == Seq::<u32>::empty(),
            forall|other: u32| other != id ==> final(store).matches_of(other) == old(store).matches_of(other),
            match filter {
                Some(f) => {
                    &&& final(self).live_filters() == old(self).live_filters().insert(
                        id,
                        FilterContext { filter: f, offset: 0 },
                    )
                    &&& r == Some((id, 0u32))
                },
                None => {
                    &&& final(self).live_filters() == old(self).live_filters().remove(id)
                    &&& r is None
                },
            },
    {
        store.clear_matches(id);
        match filter {
            Some(f) => {
                let ghost before = self.ids@;
                if !self.filters.contains_key(&id) {
                    self.ids.push(id);
                    proof {
                        assert(!before.contains(id));
                        assert(self.ids@.no_duplicates()) by {
                            assert forall|a: int, b: int| 0 <= a < b < self.ids@.len() implies self.ids@[a] != self.ids@[b] by {
                                if b == before.len() {
                                    assert(self.ids@[a] == before[a]);
                                }
                            }
                        }
                        assert(self.ids@[before.len() as int] == id);
                    }
                }
                self.filters.insert(id, FilterContext { filter: f, offset: 0 });
                proof {
                    assert(self.ids@.contains(id));
                    assert forall|k: u32| self.filters@.contains_key(k) <==> self.ids@.contains(k) by {
                        if k != id && self.ids@.contains(k) && self.ids@ != before {
                            let j = choose|j: int| 0 <= j < self.ids@.len() && self.ids@[j] == k;
                            assert(j < before.len());
                            assert(before[j] == k);
                        }
                        if k != id && before.contains(k) {
                            let j = choose|j: int| 0 <= j < before.len() && before[j] == k;
                            assert(self.ids@[j] == k);
                        }
                    }
                }
                assert(store.frames_view().take(0) =~= Seq::<Frame>::empty());
                assert(self.in_step(store)) by {
                    assert forall|k: u32| #![trigger self.live_filters().contains_key(k)]
                        self.live_filters().contains_key(k) implies {
                            let ctx = self.live_filters()[k];
                            &&& ctx.offset <= store.frames_view().len()
                            &&& store.matches_of(k) == matching(ctx.filter, store.frames_view().take(ctx.offset as int))
                        } by {
                        if k != id {
                            assert(old(self).live_filters().contains_key(k));
                        }
                    }
                }
                Some((id, 0))
            },
            None => {
                let _ = self.filters.remove(&id);
                let mut i: usize = 0;
                while i < self.ids.len()
                    invariant
                        i <= self.ids@.len(),
                        self.ids == old(self).ids,
                        forall|j: int| 0 <= j < i ==> self.ids@[j] != id,
                    ensures
                        i <= self.ids@.len(),
                        i < self.ids@.len() ==> self.ids@[i as int] == id,
                        forall|j: int| 0 <= j < i ==> self.ids@[j] != id,
                    decreases self.ids@.len() - i,
                {
                    if self.ids[i] == id {
                        break;
                    }
                    i = i + 1;
                }
                if i < self.ids.len() {
                    let ghost before = self.ids@;
                    self.ids.remove(i);
                    assert(before[i as int] == id);
                    assert(self.ids@ == before.remove(i as int));
                    assert forall|k: u32| self.filters@.contains_key(k) <==> self.ids@.contains(k) by {
                        if before.contains(k) && k != id {
                            let j = choose|j: int| 0 <= j < before.len() && before[j] == k;
                            if j < i {
                                assert(self.ids@[j] == k);
                            } else {
                                assert(j != i);
                                assert(self.ids@[j - 1] == k);
                            }
                        }
                        if self.ids@.contains(k) {
                            let j = choose|j: int| 0 <= j < self.ids@.len() && self.ids@[j] == k;
                            if j < i {
                                assert(before[j] == k);
                                assert(j != i);
                            } else {
                                assert(before[j + 1] == k);
                            }
                            assert(before.contains(k));
                            assert(k != id);
                        }
                    }
                    assert(self.ids@.no_duplicates()) by {
                        assert forall|a: int, b: int| 0 <= a < b < self.ids@.len() implies self.ids@[a] != self.ids@[b] by {
                            let a2 = if a < i { a } else { a + 1 };
                            let b2 = if b < i { b } else { b + 1 };
                            assert(before[a2] == self.ids@[a]);
                            assert(before[b2] == self.ids@[b]);
                        }
                    }
                }
                assert(self.in_step(store)) by {
                    assert forall|k: u32| #![trigger self.live_filters().contains_key(k)]
                        self.live_filters().contains_key(k) implies {
                            let ctx = self.live_filters()[k];
                            &&& ctx.offset <= store.frames_view().len()
                            &&& store.matches_of(k) == matching(ctx.filter, store.frames_view().take(ctx.offset as int))
                        } by {
                        assert(old(self).live_filters().contains_key(k));
                    }
                }
                None
            },
        }
    }

    /// Appends a decoded batch to the store; the live filters stay in step, since each
    /// has examined only frames that were there before.
    pub fn process_store(&self, store: &mut Store, batch: Vec<Frame>) -> (r: usize)
        requires
            old(store).wf(),
            self.in_step(old(store)),
            contiguous_from(batch@, old(store).frames_view().len() as int),
            old(store).frames_view().len() + batch@.len() <= 0x1_0000_0000,
        ensures
            final(store).wf(),
            self.in_step(final(store)),
            final(store).frames_view() == old(store).frames_view() + batch@,
            forall|id: u32| final(store).matches_of(id) == old(store).matches_of(id),
            r == final(store).frames_view().len(),
    {
        let ghost before = store.frames_view();
        let n = store.store_frames(batch);
        assert(self.in_step(store)) by {
            assert forall|k: u32| #![trigger self.live_filters().contains_key(k)]
                self.live_filters().contains_key(k) implies {
                    let ctx = self.live_filters()[k];
                    &&& ctx.offset <= store.frames_view().len()
                    &&& store.matches_of(k) == matching(ctx.filter, store.frames_view().take(ctx.offset as int))
                } by {
                let off = self.live_filters()[k].offset as int;
                assert(store.frames_view().take(off) =~= before.take(off));
            }
        }
        n
    }

    /// Whether some live filter has not yet examined every stored frame.
    pub fn lagging(&self, store: &Store) -> (r: bool)
        requires
            self.wf(),
        ensures
            r <==> exists|id: u32|
                self.live_filters().contains_key(id) && #[trigger] self.live_filters()[id].offset
                    < store.frames_view().len(),
    {
        let len = store.len();
        let mut i: usize = 0;
        while i < self.ids.len()
            invariant
                self.wf(),
                i <= self.ids@.len(),
                len == store.frames_view().len(),
                forall|j: int| 0 <= j < i ==> #[trigger] self.filters@[self.ids@[j]].offset >= len,
            decreases self.ids@.len() - i,
        {
            let id = self.ids[i];
            assert(self.ids@.contains(id));
            match self.filters.get(&id) {
                Some(ctx) => {
                    if ctx.offset < len {
                        assert(self.live_filters().contains_key(id) && self.live_filters()[id].offset < store.frames_view().len());
                        return true;
                    }
                },
                None => {},
            }
            i = i + 1;
        }
        proof {
            assert forall|id: u32| self.live_filters().contains_key(id) implies #[trigger] self.live_filters()[id].offset
                >= len by {
                assert(self.ids@.contains(id));
                let j = choose|j: int| 0 <= j < self.ids@.len() && self.ids@[j] == id;
                assert(self.filters@[self.ids@[j]].offset >= len);
            }
        }
        false
    }

    /// Examines the next bounded chunk of frames for one filter and appends the indices
    /// it matched. Returns the filter's new match count when the chunk matched anything.
    fn filter_chunk(id: u32, ctx: &mut FilterContext<F>, store: &mut Store) -> (r: Option<(u32, u32)>)
        requires
            old(store).wf(),
            old(ctx).offset <= old(store).frames_view().len(),
            old(store).matches_of(id) == matching(
                old(ctx).filter,
                old(store).frames_view().take(old(ctx).offset as int),
            ),
        ensures
            final(store).wf(),
            final(store).frames_view() == old(store).frames_view(),
            final(ctx).filter == old(ctx).filter,
            final(ctx).offset == chunk_end(old(ctx).offset as int, old(store).frames_view().len() as int),
            final(store).matches_of(id) == matching(
                final(ctx).filter,
                final(store).frames_view().take(final(ctx).offset as int),
            ),
            final(store).matches_of(id).len() >= old(store).matches_of(id).len(),
            forall|other: u32| other != id ==> final(store).matches_of(other) == old(store).matches_of(other),
            match r {
                Some(p) => p == (id, final(store).matches_of(id).len() as u32)
                    && final(store).matches_of(id).len() > old(store).matches_of(id).len(),
                None => final(store).matches_of(id) == old(store).matches_of(id),
            },
    {
        let len = store.len();
        let ghost frames = store.frames_view();
        let begin = ctx.offset;
        let end = if len - begin > MAX_FILTER_SIZE {
            begin + MAX_FILTER_SIZE
        } else {
            len
        };
        let mut indices: Vec<u32> = Vec::new();
        let mut j = begin;
        while j < end
            invariant
                begin <= j <= end <= len,
                len == frames.len(),
                store.frames_view() == frames,
                matching(ctx.filter, frames.take(j as int)) == matching(
                    ctx.filter,
                    frames.take(begin as int),
                ) + indices@,
            decreases end - j,
        {
            let frame = store.frame_at(j);
            proof {
                lemma_matching_step(ctx.filter, frames, j as int);
            }
            if ctx.filter.test(frame) {
                indices.push(frame.index);
            }
            j = j + 1;
        }
        ctx.offset = end;
        if indices.len() > 0 {
            let n = store.append_matches(id, indices);
            Some((id, n as u32))
        } else {
            assert(store.matches_of(id) =~= old(store).matches_of(id) + indices@);
            None
        }
    }

    /// Moves every live filter on by one bounded chunk, so that one loop iteration never
    /// blocks on a large backlog; the next call resumes where this one stopped. Returns
    /// the new match count of each filter whose chunk matched anything.
    pub fn process_filters(&mut self, store: &mut Store) -> (r: Vec<(u32, u32)>)
        requires
            old(self).wf(),
            old(store).wf(),
            old(self).in_step(old(store)),
        ensures
            final(self).wf(),
            final(self).in_step(final(store)),
            final(self).next_index() == old(self).next_index(),
            final(store).wf(),
            final(store).frames_view() == old(store).frames_view(),
            final(self).live_filters().dom() == old(self).live_filters().dom(),
            forall|id: u32|
                #![trigger final(self).live_filters().contains_key(id)]
                final(self).live_filters().contains_key(id) ==> {
                    &&& final(self).live_filters()[id].filter == old(self).live_filters()[id].filter
                    &&& final(self).live_filters()[id].offset == chunk_end(
                        old(self).live_filters()[id].offset as int,
                        final(store).frames_view().len() as int,
                    )
                    &&& final(store).matches_of(id) == matching(
                        final(self).live_filters()[id].filter,
                        final(store).frames_view().take(final(self).live_filters()[id].offset as int),
                    )
                    &&& final(store).matches_of(id).len() >= old(store).matches_of(id).len()
                },
            forall|id: u32|
                !old(self).live_filters().contains_key(id) ==> final(store).matches_of(id)
                    == old(store).matches_of(id),
            forall|k: int|
                0 <= k < r@.len() ==> {
                    let id = (#[trigger] r@[k]).0;
                    &&& old(self).live_filters().contains_key(id)
                    &&& r@[k].1 == final(store).matches_of(id).len() as u32
                    &&& final(store).matches_of(id).len() > old(store).matches_of(id).len()
                },
            forall|a: int, b: int| 0 <= a < b < r@.len() ==> (#[trigger] r@[a]).0 != (#[trigger] r@[b]).0,
            forall|id: u32|
                old(self).live_filters().contains_key(id) && final(store).matches_of(id).len()
                    > old(store).matches_of(id).len() ==> r@.contains(
                    (id, final(store).matches_of(id).len() as u32),
                ),
    {
        let mut updates: Vec<(u32, u32)> = Vec::new();
        let n = self.ids.len();
        let mut i: usize = 0;
        let ghost frames = store.frames_view();
        while i < n
            invariant
                n == self.ids@.len(),
                i <= n,
                self.ids == old(self).ids,
                self.next_index == old(self).next_index,
                self.wf(),
                store.wf(),
                store.frames_view() == frames,
                frames == old(store).frames_view(),
                self.filters@.dom() == old(self).filters@.dom(),
                old(self).wf(),
                forall|id: u32|
                    #![trigger self.filters@.contains_key(id)]
                    self.filters@.contains_key(id) ==> self.filters@[id].filter == old(
                        self,
                    ).filters@[id].filter,
                forall|j: int|
                    0 <= j < i ==> {
                        let id = #[trigger] self.ids@[j];
                        &&& self.filters@[id].offset == chunk_end(
                            old(self).filters@[id].offset as int,
                            frames.len() as int,
                        )
                        &&& store.matches_of(id) == matching(
                            self.filters@[id].filter,
                            frames.take(self.filters@[id].offset as int),
                        )
                        &&& store.matches_of(id).len() >= old(store).matches_of(id).len()
                    },
                forall|j: int|
                    i <= j < n ==> {
                        let id = #[trigger] self.ids@[j];
                        &&& self.filters@[id] == old(self).filters@[id]
                        &&& store.matches_of(id) == old(store).matches_of(id)
                    },
                old(self).in_step(old(store)),
                forall|id: u32| !self.filters@.contains_key(id) ==> store.matches_of(id) == old(store).matches_of(id),
                forall|k: int|
                    0 <= k < updates@.len() ==> {
                        let id = (#[trigger] updates@[k]).0;
                        &&& self.ids@.subrange(0, i as int).contains(id)
                        &&& updates@[k].1 == store.matches_of(id).len() as u32
                        &&& store.matches_of(id).len() > old(store).matches_of(id).len()
                    },
                forall|a: int, b: int| 0 <= a < b < updates@.len() ==> (#[trigger] updates@[a]).0 != (#[trigger] updates@[b]).0,
                forall|j: int|
                    0 <= j < i ==> {
                        let id = #[trigger] self.ids@[j];
                        store.matches_of(id).len() > old(store).matches_of(id).len() ==> updates@.contains(
                            (id, store.matches_of(id).len() as u32),
                        )
                    },
            decreases n - i,
        {
            let id = self.ids[i];
            assert(self.ids@.contains(id));
            let ghost before_updates = updates@;
            let ghost before_store = store.matches_of(id);
            proof {
                assert(self.ids@.subrange(0, i + 1) =~= self.ids@.subrange(0, i as int).push(id));
                assert(!self.ids@.subrange(0, i as int).contains(id)) by {
                    if self.ids@.subrange(0, i as int).contains(id) {
                        let j = choose|j: int| 0 <= j < i && self.ids@.subrange(0, i as int)[j] == id;
                        assert(self.ids@[j] == id);
                    }
                }
            }
            match self.filters.remove(&id) {
                Some(ctx) => {
                    let mut ctx = ctx;
                    assert(old(self).live_filters().contains_key(id));
                    let report = Self::filter_chunk(id, &mut ctx, store);
                    self.filters.insert(id, ctx);
                    match report {
                        Some(p) => {
                            updates.push(p);
                        },
                        None => {},
                    }
                    proof {
                        assert forall|j: int| 0 <= j < n && j != i implies #[trigger] self.ids@[j] != id by {
                            assert(self.ids@.no_duplicates());
                        }
                        assert forall|k: int| 0 <= k < updates@.len() implies {
                            let x = (#[trigger] updates@[k]).0;
                            &&& self.ids@.subrange(0, i + 1).contains(x)
                            &&& updates@[k].1 == store.matches_of(x).len() as u32
                            &&& store.matches_of(x).len() > old(store).matches_of(x).len()
                        } by {
                            if k < before_updates.len() {
                                let x = updates@[k].0;
                                assert(updates@[k] == before_updates[k]);
                                assert(self.ids@.subrange(0, i as int).contains(x));
                                assert(x != id);
                                let w = choose|w: int| 0 <= w < i && self.ids@.subrange(0, i as int)[w] == x;
                                assert(self.ids@.subrange(0, i + 1)[w] == x);
                            } else {
                                assert(self.ids@.subrange(0, i + 1)[i as int] == id);
                            }
                        }
                        assert forall|a: int, b: int| 0 <= a < b < updates@.len() implies (#[trigger] updates@[a]).0
                            != (#[trigger] updates@[b]).0 by {
                            if b == before_updates.len() && report is Some {
                                assert(updates@[a] == before_updates[a]);
                                assert(self.ids@.subrange(0, i as int).contains(updates@[a].0));
                            } else {
                                assert(updates@[a] == before_updates[a]);
                                assert(updates@[b] == before_updates[b]);
                            }
                        }
                        assert forall|x: (u32, u32)| before_updates.contains(x) implies updates@.contains(x) by {
                            let k = choose|k: int| 0 <= k < before_updates.len() && before_updates[k] == x;
                            assert(updates@[k] == x);
                        }
                        assert forall|j: int| 0 <= j < i + 1 implies {
                            let x = #[trigger] self.ids@[j];
                            store.matches_of(x).len() > old(store).matches_of(x).len() ==> updates@.contains(
                                (x, store.matches_of(x).len() as u32),
                            )
                        } by {
                            let x = self.ids@[j];
                            if j < i {
                                assert(x != id);
                                if store.matches_of(x).len() > old(store).matches_of(x).len() {
                                    assert(before_updates.contains((x, store.matches_of(x).len() as u32)));
                                }
                            } else {
                                if store.matches_of(x).len() > old(store).matches_of(x).len() {
                                    let last = before_updates.len() as int;
                                    assert(updates@[last] == (x, store.matches_of(x).len() as u32));
                                }
                            }
                        }
                    }
                },
                None => {},
            }
            i = i + 1;
        }
        proof {
            assert(self.in_step(store)) by {
                assert forall|id: u32| #![trigger self.live_filters().contains_key(id)]
                    self.live_filters().contains_key(id) implies {
                        let ctx = self.live_filters()[id];
                        &&& ctx.offset <= store.frames_view().len()
                        &&& store.matches_of(id) == matching(ctx.filter, store.frames_view().take(ctx.offset as int))
                    } by {
                    assert(self.ids@.contains(id));
                }
            }
            assert forall|id: u32| #![trigger self.live_filters().contains_key(id)]
                self.live_filters().contains_key(id) implies {
                    &&& self.live_filters()[id].filter == old(self).live_filters()[id].filter
                    &&& self.live_filters()[id].offset == chunk_end(
                        old(self).live_filters()[id].offset as int,
                        store.frames_view().len() as int,
                    )
                    &&& store.matches_of(id) == matching(
                        self.live_filters()[id].filter,
                        store.frames_view().take(self.live_filters()[id].offset as int),
                    )
                    &&& store.matches_of(id).len() >= old(store).matches_of(id).len()
                } by {
                assert(self.ids@.contains(id));
            }
            assert forall|k: int| 0 <= k < updates@.len() implies old(self).live_filters().contains_key(
                (#[trigger] updates@[k]).0,
            ) by {
                assert(self.ids@.subrange(0, n as int) =~= self.ids@);
                assert(self.ids@.contains(updates@[k].0));
            }
            assert forall|id: u32|
                old(self).live_filters().contains_key(id) && store.matches_of(id).len()
                    > old(store).matches_of(id).len() implies updates@.contains(
                    (id, store.matches_of(id).len() as u32),
                ) by {
                assert(self.ids@.contains(id));
                let j = choose|j: int| 0 <= j < self.ids@.len() && self.ids@[j] == id;
                assert(self.ids@[j] == id);
            }
        }
        updates
    }
}

/// Holds frames that finished decoding out of order until every frame before them has
/// finished, and lets them go strictly in index order.
pub struct SerialStage {
    next: u64,
    pending: Vec<Frame>,
}

impl SerialStage {
    /// The index of the next frame to let go.
    pub closed spec fn next(&self) -> int {
        self.next as int
    }

    /// The frames held until the frames before them have gone on.
    pub closed spec fn pending(&self) -> Seq<Frame> {
        self.pending@
    }

    pub closed spec fn wf(&self) -> bool {
        self.next <= 0x1_0000_0000
    }

    /// The index of the next frame to let go.
    pub fn next_index(&self) -> (r: u64)
        ensures
            r == self.next(),
    {
        self.next
    }

    pub fn new() -> (r: SerialStage)
        ensures
            r.wf(),
            r.next() == 0,
            r.pending() == Seq::<Frame>::empty(),
    {
        SerialStage { next: 0, pending: Vec::new() }
    }

    /// Takes frames in the order they finished and returns those that can now go on,
    /// in index order, with no gap after the frames let go before. Every frame taken is
    /// either let go or held, and no frame held is the one due next.
    pub fn process(&mut self, batch: Vec<Frame>) -> (r: Vec<Frame>)
        requires
            old(self).wf(),
        ensures
            final(self).wf(),
            contiguous_from(r@, old(self).next()),
            final(self).next() == old(self).next() + r@.len(),
            r@.to_multiset().add(final(self).pending().to_multiset()) == old(self).pending().to_multiset().add(
                batch@.to_multiset(),
            ),
            forall|j: int|
                0 <= j < final(self).pending().len() ==> (#[trigger] final(self).pending()[j]).index
                    != final(self).next(),
    {
        broadcast use vstd::seq_lib::group_to_multiset_ensures, vstd::multiset::group_multiset_axioms;

        let mut batch = batch;
        let ghost total = old(self).pending@.to_multiset().add(batch@.to_multiset());
        proof {
            vstd::seq_lib::lemma_multiset_commutative(self.pending@, batch@);
        }
        self.pending.append(&mut batch);
        let mut out: Vec<Frame> = Vec::new();
        let ghost start = self.next as int;
        assert(out@.to_multiset().add(self.pending@.to_multiset()) =~= total);
        loop
            invariant
                self.wf(),
                contiguous_from(out@, start),
                self.next == start + out@.len(),
                out@.to_multiset().add(self.pending@.to_multiset()) == total,
            ensures
                self.wf(),
                contiguous_from(out@, start),
                self.next == start + out@.len(),
                out@.to_multiset().add(self.pending@.to_multiset()) == total,
                forall|j: int| 0 <= j < self.pending@.len() ==> (#[trigger] self.pending@[j]).index != self.next,
            decreases self.pending@.len(),
        {
            let mut p: usize = 0;
            let mut found = false;
            while p < self.pending.len()
                invariant
                    p <= self.pending@.len(),
                    found ==> p < self.pending@.len() && self.pending@[p as int].index == self.next,
                    !found ==> forall|j: int| 0 <= j < p ==> (#[trigger] self.pending@[j]).index != self.next,
                ensures
                    found ==> p < self.pending@.len() && self.pending@[p as int].index == self.next,
                    !found ==> forall|j: int| 0 <= j < self.pending@.len() ==> (#[trigger] self.pending@[j]).index != self.next,
                decreases self.pending@.len() - p + (if found { 0int } else { 1int }),
            {
                if self.pending[p].index as u64 == self.next {
                    found = true;
                    break;
                }
                p = p + 1;
            }
            if !found {
                break;
            }
            let ghost before_pending = self.pending@;
            let ghost before_out = out@;
            let frame = self.pending.remove(p);
            out.push(frame);
            proof {
                vstd::seq_lib::to_multiset_remove(before_pending, p as int);
                vstd::seq_lib::to_multiset_contains(before_pending, before_pending[p as int]);
                vstd::seq_lib::to_multiset_build(before_out, before_pending[p as int]);
                assert(before_pending.contains(before_pending[p as int]));
                assert(out@.to_multiset().add(self.pending@.to_multiset()) =~= before_out.to_multiset().add(before_pending.to_multiset()));
            }
            assert(out@[before_out.len() as int].index == start + before_out.len());
            self.next = self.next + 1;
        }
        out
    }
}

/// Everything in `s`, one part after another.
pub open spec fn concat<T>(s: Seq<Seq<T>>) -> Seq<T>
    decreases s.len(),
{
    if s.len() == 0 {
        Seq::empty()
    } else {
        concat(s.drop_last()) + s.last()
    }
}

/// Frames numbered batch after batch, each batch starting where the frames of the
/// batches before it end, carry the indices 0, 1, 2, ... with no gap and no repeat, and
/// hold the pushed layers in the order they were pushed.
pub proof fn lemma_push_order(batches: Seq<Seq<Layer>>, made: Seq<Seq<Frame>>)
    requires
        made.len() == batches.len(),
        forall|k: int|
            0 <= k < batches.len() ==> indexed_from(
                #[trigger] made[k],
                concat(batches.take(k)).len() as int,
                batches[k],
            ),
    ensures
        indexed_from(concat(made), 0, concat(batches)),
    decreases batches.len(),
{
    let n = batches.len() as int;
    if n > 0 {
        let bs = batches.drop_last();
        let ms = made.drop_last();
        assert forall|k: int| 0 <= k < bs.len() implies indexed_from(
            #[trigger] ms[k],
            concat(bs.take(k)).len() as int,
            bs[k],
        ) by {
            assert(bs.take(k) =~= batches.take(k));
            assert(ms[k] == made[k]);
        }
        lemma_push_order(bs, ms);
        assert(batches.take(n - 1) =~= bs);
        let a = concat(ms);
        let b = made.last();
        let la = concat(bs);
        let lb = batches.last();
        assert(indexed_from(b, la.len() as int, lb)) by {
            assert(made[n - 1] == b);
        }
        assert(concat(made) == a + b);
        assert(concat(batches) == la + lb);
        assert forall|i: int| 0 <= i < a.len() + b.len() implies (#[trigger] (a + b)[i]).index == i
            && (a + b)[i].layers@ == seq![(la + lb)[i]] by {
            if i >= a.len() {
                assert((a + b)[i] == b[i - a.len()]);
                assert((la + lb)[i] == lb[i - la.len()]);
            } else {
                assert((a + b)[i] == a[i]);
                assert((la + lb)[i] == la[i]);
            }
        }
    }
}

/// Frames let go by successive calls of the serial stage follow each other with no gap:
/// what a later call lets go comes after all that an earlier call let go.
pub proof fn lemma_serial_order(first: Seq<Frame>, second: Seq<Frame>, start: int)
    requires
        contiguous_from(first, start),
        contiguous_from(second, start + first.len()),
    ensures
        contiguous_from(first + second, start),
        forall|i: int, j: int|
            0 <= i < first.len() && 0 <= j < second.len() ==> (#[trigger] first[i]).index < (
            #[trigger] second[j]).index,
{
    assert forall|i: int| 0 <= i < first.len() + second.len() implies (#[trigger] (first
        + second)[i]).index == start + i by {
        if i >= first.len() {
            assert((first + second)[i] == second[i - first.len()]);
        }
    }
}

/// The match list that a filter builds over a store numbered from zero is exactly the
/// indices of the frames it holds of, in store order: strictly increasing, holding an
/// index if and only if the filter matches that frame.
pub proof fn lemma_matches_in_store_order<F: Filter>(f: F, frames: Seq<Frame>)
    requires
        contiguous_from(frames, 0),
        frames.len() <= 0x1_0000_0000,
    ensures
        forall|a: int, b: int|
            0 <= a < b < matching(f, frames).len() ==> matching(f, frames)[a] < matching(
                f,
                frames,
            )[b],
        forall|i: int| 0 <= i < frames.len() ==> (f.matches(#[trigger] frames[i]) <==> matching(
            f,
            frames,
        ).contains(i as u32)),
        forall|k: int| 0 <= k < matching(f, frames).len() ==> matching(f, frames)[k] < frames.len(),
    decreases frames.len(),
{
    if frames.len() > 0 {
        let pre = frames.drop_last();
        let n = frames.len() - 1;
        assert(contiguous_from(pre, 0)) by {
            assert forall|i: int| 0 <= i < pre.len() implies (#[trigger] pre[i]).index == i by {
                assert(pre[i] == frames[i]);
            }
        }
        lemma_matches_in_store_order(f, pre);
        assert(frames.last().index == n);
        assert forall|i: int| 0 <= i < frames.len() implies (f.matches(#[trigger] frames[i])
            <==> matching(f, frames).contains(i as u32)) by {
            if i < n {
                assert(frames[i] == pre[i]);
                if matching(f, pre).contains(i as u32) {
                    let k = choose|k: int| 0 <= k < matching(f, pre).len() && matching(f, pre)[k] == i as u32;
                    assert(matching(f, frames)[k] == i as u32);
                }
                if matching(f, frames).contains(i as u32) {
                    let k = choose|k: int| 0 <= k < matching(f, frames).len() && matching(f, frames)[k] == i as u32;
                    if k < matching(f, pre).len() {
                        assert(matching(f, pre)[k] == i as u32);
                    }
                }
            } else {
                if f.matches(frames[i]) {
                    assert(matching(f, frames)[matching(f, pre).len() as int] == i as u32);
                } else if matching(f, frames).contains(i as u32) {
                    let k = choose|k: int| 0 <= k < matching(f, frames).len() && matching(f, frames)[k] == i as u32;
                    assert(matching(f, pre)[k] < n);
                }
            }
        }
    }
}

/// A query whose range is empty, inverted or starts past the end selects nothing.
pub proof fn lemma_empty_ranges<T>(s: Seq<T>, start: int, end: int)
    requires
        start >= end || start >= s.len(),
    ensures
        window(s, start, end).len() == 0,
{
}

/// A live filter that has caught up with the store holds exactly the indices of the
/// stored frames it matches, strictly increasing; its count is their number.
pub proof fn lemma_caught_up_filter<F: Filter>(ev: &EventLoop<F>, store: &Store, id: u32)
    requires
        store.wf(),
        ev.in_step(store),
        ev.live_filters().contains_key(id),
        ev.live_filters()[id].offset == store.frames_view().len(),
    ensures
        ({
            let m = store.matches_of(id);
            let f = ev.live_filters()[id].filter;
            let frames = store.frames_view();
            &&& m == matching(f, frames)
            &&& forall|a: int, b: int| 0 <= a < b < m.len() ==> m[a] < m[b]
            &&& forall|i: int| 0 <= i < frames.len() ==> (f.matches(#[trigger] frames[i]) <==> m.contains(i as u32))
            &&& forall|k: int| 0 <= k < m.len() ==> m[k] < frames.len()
        }),
{
    let frames = store.frames_view();
    assert(frames.take(frames.len() as int) =~= frames);
    lemma_matches_in_store_order(ev.live_filters()[id].filter, frames);
}

/// Clearing a filter right after installing it leaves it out of the live filters, as if
/// it had only been cleared; its match list is empty after either call.
pub proof fn lemma_clear_after_set<F>(live: Map<u32, FilterContext<F>>, id: u32, f: F)
    ensures
        !live.insert(id, FilterContext { filter: f, offset: 0 }).remove(id).contains_key(id),
        live.insert(id, FilterContext { filter: f, offset: 0 }).remove(id) == live.remove(id),
{
    assert(live.insert(id, FilterContext { filter: f, offset: 0 }).remove(id) =~= live.remove(id));
}

/// Whether a one-shot output predicate keeps a frame; with none, every frame is kept.
pub open spec fn keeps<F: Filter>(filter: Option<&F>, frame: Frame) -> bool {
    match filter {
        Some(f) => f.matches(frame),
        None => true,
    }
}

/// The positions in `start..end` of the frames of `frames` that `filter` keeps, in order.
pub open spec fn kept_positions<F: Filter>(
    filter: Option<&F>,
    frames: Seq<Frame>,
    start: int,
    end: int,
) -> Seq<usize>
    decreases end - start,
{
    if end <= start {
        Seq::empty()
    } else {
        let earlier = kept_positions(filter, frames, start, end - 1);
        if keeps(filter, frames[end - 1]) {
            earlier.push((end - 1) as usize)
        } else {
            earlier
        }
    }
}

/// The positions in `start..end` of the stored frames that `filter` keeps.
pub fn select_block<F: Filter>(store: &Store, filter: Option<&F>, start: usize, end: usize) -> (r:
    Vec<usize>)
    requires
        start <= end <= store.frames_view().len(),
    ensures
        r@ == kept_positions(filter, store.frames_view(), start as int, end as int),
{
    let mut out: Vec<usize> = Vec::new();
    let mut p = start;
    while p < end
        invariant
            start <= p <= end <= store.frames_view().len(),
            out@ == kept_positions(filter, store.frames_view(), start as int, p as int),
        decreases end - p,
    {
        let frame = store.frame_at(p);
        let keep = match filter {
            Some(f) => f.test(frame),
            None => true,
        };
        if keep {
            out.push(p);
        }
        p = p + 1;
    }
    out
}

/// The frames a drain hands to the output: those the predicate keeps, in store order.
pub open spec fn drain_plan<F: Filter>(filter: Option<&F>, frames: Seq<Frame>) -> Seq<Frame> {
    kept_positions(filter, frames, 0, frames.len() as int).map_values(|p: usize| frames[p as int])
}

/// A recorded call is the write of frame `f`.
pub open spec fn writes_frame(c: WriterCall, f: Frame) -> bool {
    match c {
        WriterCall::Write(index, layers, _) => index == f.index && layers == f.layers@,
        WriterCall::End(_) => false,
    }
}

/// `calls` is a drain of `plan` as far as it went: each kept frame written in turn while
/// the calls succeed, then `end` once after the last; the drain stops at the first call
/// that fails, and only the last call may have failed.
pub open spec fn drained(plan: Seq<Frame>, calls: Seq<WriterCall>) -> bool {
    &&& 1 <= calls.len() <= plan.len() + 1
    &&& forall|i: int| 0 <= i < calls.len() && i < plan.len() ==> writes_frame(#[trigger] calls[i], plan[i])
    &&& calls.len() == plan.len() + 1 ==> calls.last() is End
    &&& forall|i: int| 0 <= i < calls.len() - 1 ==> call_result(#[trigger] calls[i]) is Ok
    &&& calls.len() <= plan.len() ==> call_result(calls.last()) is Err
}

proof fn lemma_kept_split<F: Filter>(filter: Option<&F>, frames: Seq<Frame>, a: int, b: int, c: int)
    requires
        a <= b <= c,
    ensures
        kept_positions(filter, frames, a, c) == kept_positions(filter, frames, a, b)
            + kept_positions(filter, frames, b, c),
    decreases c - b,
{
    if c == b {
        assert(kept_positions(filter, frames, a, b) + Seq::<usize>::empty() =~= kept_positions(
            filter,
            frames,
            a,
            b,
        ));
    } else {
        lemma_kept_split(filter, frames, a, b, c - 1);
        let x = kept_positions(filter, frames, a, b);
        let y = kept_positions(filter, frames, b, c - 1);
        assert((x + y).push((c - 1) as usize) =~= x + y.push((c - 1) as usize));
    }
}

/// Drains a snapshot of the store to an output, block by block: the frames that the
/// one-shot predicate keeps are written in store order, then the output is ended once.
/// The first failure stops the drain; the result is what the last call returned, so
/// `Ok` comes exactly when every call succeeded.
pub fn process_output<F: Filter>(store: &Store, output: &mut WorkerBox, filter: Option<&F>) -> (r:
    Result<(), String>)
    requires
        store.wf(),
    ensures
        final(output).calls().subrange(0, old(output).calls().len() as int) == old(output).calls(),
        drained(
            drain_plan(filter, store.frames_view()),
            final(output).calls().subrange(
                old(output).calls().len() as int,
                final(output).calls().len() as int,
            ),
        ),
        r == call_result(final(output).calls().last()),
{
    let len = store.len();
    let ghost frames = store.frames_view();
    let ghost plan = drain_plan(filter, frames);
    let ghost whole = kept_positions(filter, frames, 0, len as int);
    let ghost start = output.calls();
    let mut offset: usize = 0;
    proof {
        lemma_kept_in_range(filter, frames, 0, len as int);
    }
    while offset < len
        invariant
            offset <= len == frames.len(),
            frames == store.frames_view(),
            store.wf(),
            plan == drain_plan(filter, frames),
            whole == kept_positions(filter, frames, 0, len as int),
            forall|j: int| 0 <= j < whole.len() ==> 0 <= #[trigger] whole[j] < len,
            start == old(output).calls(),
            output.calls().len() == start.len() + kept_positions(filter, frames, 0, offset as int).len(),
            output.calls().subrange(0, start.len() as int) == start,
            kept_positions(filter, frames, 0, offset as int).len() <= whole.len(),
            forall|i: int|
                0 <= i < kept_positions(filter, frames, 0, offset as int).len() ==> writes_frame(
                    #[trigger] output.calls()[start.len() + i],
                    plan[i],
                ) && call_result(output.calls()[start.len() + i]) is Ok,
        decreases len - offset,
    {
        let size = if len - offset < OUTPUT_BLOCK_SIZE {
            len - offset
        } else {
            OUTPUT_BLOCK_SIZE
        };
        let positions = select_block(store, filter, offset, offset + size);
        let ghost done = kept_positions(filter, frames, 0, offset as int);
        proof {
            lemma_kept_split(filter, frames, 0, offset as int, (offset + size) as int);
            lemma_kept_split(filter, frames, 0, (offset + size) as int, len as int);
            lemma_kept_in_range(filter, frames, offset as int, (offset + size) as int);
        }
        let mut k: usize = 0;
        while k < positions.len()
            invariant
                positions@ == kept_positions(filter, frames, offset as int, (offset + size) as int),
                offset + size <= len == frames.len(),
                frames == store.frames_view(),
                store.wf(),
                k <= positions@.len(),
                done == kept_positions(filter, frames, 0, offset as int),
                kept_positions(filter, frames, 0, (offset + size) as int) == done + positions@,
                whole == kept_positions(filter, frames, 0, (offset + size) as int)
                    + kept_positions(filter, frames, (offset + size) as int, len as int),
                forall|j: int| 0 <= j < positions@.len() ==> offset <= #[trigger] positions@[j] < offset + size,
                plan == drain_plan(filter, frames),
                whole == kept_positions(filter, frames, 0, len as int),
                start == old(output).calls(),
                output.calls().len() == start.len() + done.len() + k,
                output.calls().subrange(0, start.len() as int) == start,
                forall|i: int|
                    0 <= i < done.len() + k ==> writes_frame(
                        #[trigger] output.calls()[start.len() + i],
                        plan[i],
                    ) && call_result(output.calls()[start.len() + i]) is Ok,
            decreases positions@.len() - k,
        {
            let frame = store.frame_at(positions[k]);
            let ghost before = output.calls();
            let written = output.write(frame.index, frame.layers.as_slice());
            proof {
                let c = done.len() + k;
                assert(whole[c] == positions@[k as int]);
                assert(plan[c] == frames[positions@[k as int] as int]);
                assert(output.calls().subrange(0, start.len() as int) =~= before.subrange(0, start.len() as int));
                assert forall|i: int| 0 <= i < c implies writes_frame(
                    #[trigger] output.calls()[start.len() + i],
                    plan[i],
                ) && call_result(output.calls()[start.len() + i]) is Ok by {
                    assert(output.calls()[start.len() + i] == before[start.len() + i]);
                }
            }
            match written {
                Ok(()) => {},
                Err(e) => {
                    proof {
                        let calls = output.calls().subrange(start.len() as int, output.calls().len() as int);
                        assert forall|i: int| 0 <= i < calls.len() && i < plan.len() implies writes_frame(
                            #[trigger] calls[i],
                            plan[i],
                        ) by {
                            assert(calls[i] == output.calls()[start.len() + i]);
                        }
                        assert forall|i: int| 0 <= i < calls.len() - 1 implies call_result(#[trigger] calls[i]) is Ok by {
                            assert(calls[i] == output.calls()[start.len() + i]);
                        }
                    }
                    return Err(e);
                },
            }
            k = k + 1;
        }
        proof {
            assert(kept_positions(filter, frames, 0, (offset + size) as int).len() == done.len() + positions@.len());
        }
        offset = offset + size;
    }
    proof {
        assert(kept_positions(filter, frames, 0, len as int).len() == plan.len());
    }
    let ghost before_end = output.calls();
    let ended = output.end();
    proof {
        let calls = output.calls().subrange(start.len() as int, output.calls().len() as int);
        assert(output.calls().subrange(0, start.len() as int) =~= before_end.subrange(0, start.len() as int));
        assert forall|i: int| 0 <= i < calls.len() && i < plan.len() implies writes_frame(#[trigger] calls[i], plan[i]) by {
            assert(calls[i] == output.calls()[start.len() + i]);
            assert(output.calls()[start.len() + i] == before_end[start.len() + i]);
        }
        assert forall|i: int| 0 <= i < calls.len() - 1 implies call_result(#[trigger] calls[i]) is Ok by {
            assert(calls[i] == output.calls()[start.len() + i]);
            assert(output.calls()[start.len() + i] == before_end[start.len() + i]);
        }
    }
    ended
}

proof fn lemma_kept_in_range<F: Filter>(filter: Option<&F>, frames: Seq<Frame>, start: int, end: int)
    requires
        0 <= start,
        end <= usize::MAX,
    ensures
        forall|k: int|
            0 <= k < kept_positions(filter, frames, start, end).len() ==> start <= #[trigger] kept_positions(
                filter,
                frames,
                start,
                end,
            )[k] < end,
    decreases end - start,
{
    if end > start {
        lemma_kept_in_range(filter, frames, start, end - 1);
        let prev = kept_positions(filter, frames, start, end - 1);
        let all = kept_positions(filter, frames, start, end);
        assert forall|k: int| 0 <= k < all.len() implies start <= #[trigger] all[k] < end by {
            if k < prev.len() {
                assert(all[k] == prev[k]);
            } else {
                assert(all[k] == (end - 1) as usize);
            }
        }
    }
}

/// Runs the decoders once on one frame: the frame keeps its index and leaves with the
/// layers as the decoders left them.
pub fn decode_frame(decoders: &mut DecoderStack, frame: Frame) -> (r: Frame)
    ensures
        r.index == frame.index,
        final(decoders).history().len() == old(decoders).history().len() + 1,
        final(decoders).history().drop_last() == old(decoders).history(),
        final(decoders).history().last().input == frame.layers@,
        final(decoders).history().last().output == r.layers@,
{
    let index = frame.index;
    let mut stack = LayerStack { layers: frame.layers };
    let _ = decoders.decode(&mut stack);
    proof {
        assert(decoders.history().drop_last() =~= old(decoders).history());
    }
    Frame { index, layers: stack.layers }
}

/// The decoders ran once on each of `frames`, in order, after the runs `before`: run
/// `i` took the layers of frame `i` and left those of `after[i]`.
pub open spec fn ran_on_each(
    before: Seq<DecodeRun>,
    history: Seq<DecodeRun>,
    frames: Seq<Frame>,
    after: Seq<Frame>,
) -> bool {
    &&& history.len() == before.len() + frames.len()
    &&& history.subrange(0, before.len() as int) == before
    &&& forall|i: int|
        0 <= i < frames.len() ==> (#[trigger] history[before.len() + i]).input == frames[i].layers@
            && history[before.len() + i].output == after[i].layers@
}

/// Runs the decoders on each frame of a batch, in order; the batch keeps its indices.
pub fn decode_frames(decoders: &mut DecoderStack, frames: Vec<Frame>) -> (r: Vec<Frame>)
    ensures
        r@.len() == frames@.len(),
        forall|i: int| 0 <= i < r@.len() ==> (#[trigger] r@[i]).index == frames@[i].index,
        ran_on_each(old(decoders).history(), final(decoders).history(), frames@, r@),
{
    let ghost all = frames@;
    let ghost start = decoders.history();
    let n = frames.len();
    let mut rest = frames;
    let mut out: Vec<Frame> = Vec::new();
    assert(start.subrange(0, start.len() as int) =~= start);
    while rest.len() > 0
        invariant
            n == all.len(),
            start == old(decoders).history(),
            out@.len() + rest@.len() == n,
            rest@ == all.subrange(out@.len() as int, n as int),
            forall|i: int| 0 <= i < out@.len() ==> (#[trigger] out@[i]).index == all[i].index,
            ran_on_each(start, decoders.history(), all.take(out@.len() as int), out@),
        decreases rest@.len(),
    {
        let frame = rest.remove(0);
        let ghost k = out@.len() as int;
        let ghost h = decoders.history();
        let ghost before_out = out@;
        let done = decode_frame(decoders, frame);
        out.push(done);
        proof {
            let hs = decoders.history();
            assert(hs.subrange(0, start.len() as int) =~= h.subrange(0, start.len() as int)) by {
                assert forall|x: int| 0 <= x < start.len() implies hs[x] == h[x] by {
                    assert(hs.drop_last()[x] == h[x]);
                }
            }
            assert forall|i: int| 0 <= i < k + 1 implies (#[trigger] hs[start.len() + i]).input == all.take(k + 1)[i].layers@
                && hs[start.len() + i].output == out@[i].layers@ by {
                if i < k {
                    assert(hs[start.len() + i] == hs.drop_last()[start.len() + i]);
                    assert(all.take(k + 1)[i] == all.take(k)[i]);
                    assert(out@[i] == before_out[i]);
                }
            }
        }
    }
    assert(all.take(n as int) =~= all);
    out
}

/// The serial decode stage: frames are let go in index order, then the decoders that
/// need that order run once on each of them, in that order. The frames leave with no gap
/// after those let go before, so those decoders see indices strictly increasing.
pub fn serial_decode(stage: &mut SerialStage, decoders: &mut DecoderStack, batch: Vec<Frame>) -> (r:
    Vec<Frame>)
    requires
        old(stage).wf(),
    ensures
        final(stage).wf(),
        contiguous_from(r@, old(stage).next()),
        final(stage).next() == old(stage).next() + r@.len(),
        final(stage).pending().len() + r@.len() == old(stage).pending().len() + batch@.len(),
        forall|j: int|
            0 <= j < final(stage).pending().len() ==> (#[trigger] final(stage).pending()[j]).index
                != final(stage).next(),
        final(decoders).history().len() == old(decoders).history().len() + r@.len(),
        final(decoders).history().subrange(0, old(decoders).history().len() as int) == old(
            decoders,
        ).history(),
        forall|i: int|
            0 <= i < r@.len() ==> (#[trigger] final(decoders).history()[old(decoders).history().len() + i]).output
                == r@[i].layers@,
{
    broadcast use vstd::seq_lib::group_to_multiset_ensures, vstd::multiset::group_multiset_axioms;

    let ready = stage.process(batch);
    proof {
        vstd::seq_lib::lemma_multiset_commutative(old(stage).pending(), batch@);
        vstd::seq_lib::lemma_multiset_commutative(ready@, stage.pending());
        vstd::seq_lib::to_multiset_len(old(stage).pending() + batch@);
        vstd::seq_lib::to_multiset_len(ready@ + stage.pending());
    }
    let out = decode_frames(decoders, ready);
    out
}

} // verus!
