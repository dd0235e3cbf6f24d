use genet_core::decoder::{DecoderStack, Status, Worker, WorkerBox};
use genet_core::layer::{Frame, Layer, LayerStack, Token};
use genet_core::store::{
    decode_frames, input_step, process_output, serial_decode, ConstFilter, InputStep, EventLoop, InputAction, LayerFilter, SerialStage,
    Store,
};
use genet_core::writer;
use std::cell::RefCell;
use std::rc::Rc;

fn root(id: u64, data: Vec<u8>) -> Layer {
    Layer::new(Token::new(id), data)
}

fn push<F: genet_core::store::Filter>(ev: &mut EventLoop<F>, store: &mut Store, roots: Vec<Layer>) {
    match ev.process_input(Some(1), Ok(roots)) {
        InputAction::Decode(frames) => {
            ev.process_store(store, frames);
        }
        _ => panic!("expected frames to decode"),
    }
}

fn indices(store: &Store, start: usize, end: usize) -> Vec<u32> {
    store.frames(start..end).iter().map(|f| f.index).collect()
}

#[test]
fn drop() {
    let _store = Store::new();
}

#[test]
fn invalid_range() {
    let mut store = Store::new();
    let mut ev: EventLoop<ConstFilter> = EventLoop::new();
    ev.set_filter(&mut store, 0, Some(ConstFilter { value: false }));
    assert_eq!(store.frames(100..0).len(), 0);
    assert_eq!(store.filtered_frames(0, 100..0).len(), 0);
}

#[test]
fn frames_are_numbered_in_push_order() {
    let mut store = Store::new();
    let mut ev: EventLoop<ConstFilter> = EventLoop::new();
    push(&mut ev, &mut store, vec![root(1, vec![10]), root(1, vec![11]), root(1, vec![12])]);
    push(&mut ev, &mut store, vec![root(1, vec![13]), root(1, vec![14])]);
    assert_eq!(store.len(), 5);
    assert_eq!(indices(&store, 0, 5), vec![0, 1, 2, 3, 4]);
    let data: Vec<u8> = store.frames(0..5).iter().map(|f| f.layers[0].data[0]).collect();
    assert_eq!(data, vec![10, 11, 12, 13, 14]);
}

#[test]
fn ranges_are_cut_at_the_end() {
    let mut store = Store::new();
    let mut ev: EventLoop<ConstFilter> = EventLoop::new();
    push(&mut ev, &mut store, vec![root(1, vec![]), root(1, vec![]), root(1, vec![])]);
    assert_eq!(indices(&store, 1, 100), vec![1, 2]);
    assert_eq!(store.frames(3..5).len(), 0);
    assert_eq!(store.frames(2..2).len(), 0);
    assert_eq!(store.frames(100..0).len(), 0);
    assert_eq!(store.filtered_frames(9, 0..10).len(), 0);
}

#[test]
fn empty_and_failed_reads_end_the_input() {
    let mut ev: EventLoop<ConstFilter> = EventLoop::new();
    match ev.process_input(Some(4), Ok(Vec::new())) {
        InputAction::InputDone(id, None) => assert_eq!(id, 4),
        _ => panic!("expected the input to end"),
    }
    match ev.process_input(Some(5), Err("read failed".to_string())) {
        InputAction::InputDone(id, Some(e)) => {
            assert_eq!(id, 5);
            assert_eq!(e, "read failed");
        }
        _ => panic!("expected the input to fail"),
    }
    assert!(matches!(ev.process_input(None, Ok(Vec::new())), InputAction::Nothing));
    match ev.process_input(None, Ok(vec![root(1, vec![])])) {
        InputAction::Decode(frames) => assert_eq!(frames[0].index, 0),
        _ => panic!("expected frames"),
    }
}

#[test]
fn filter_installed_first_sees_matches_in_store_order() {
    let mut store = Store::new();
    let mut ev: EventLoop<LayerFilter> = EventLoop::new();
    let first = ev.set_filter(&mut store, 3, Some(LayerFilter { id: Token::new(7) }));
    assert_eq!(first, Some((3, 0)));
    push(&mut ev, &mut store, vec![root(7, vec![]), root(8, vec![]), root(7, vec![]), root(9, vec![])]);
    let updates = ev.process_filters(&mut store);
    assert_eq!(updates, vec![(3, 2)]);
    assert_eq!(store.filtered_frames(3, 0..2), vec![0, 2]);
    push(&mut ev, &mut store, vec![root(9, vec![]), root(7, vec![])]);
    let updates = ev.process_filters(&mut store);
    assert_eq!(updates, vec![(3, 3)]);
    assert_eq!(store.filtered_frames(3, 0..10), vec![0, 2, 5]);
}

#[test]
fn clearing_a_filter_drops_its_matches() {
    let mut store = Store::new();
    let mut ev: EventLoop<ConstFilter> = EventLoop::new();
    ev.set_filter(&mut store, 1, Some(ConstFilter { value: true }));
    push(&mut ev, &mut store, vec![root(1, vec![]), root(1, vec![])]);
    ev.process_filters(&mut store);
    assert_eq!(store.filtered_frames(1, 0..2), vec![0, 1]);
    assert_eq!(ev.set_filter(&mut store, 1, None), None);
    assert_eq!(store.filtered_frames(1, 0..2).len(), 0);
    push(&mut ev, &mut store, vec![root(1, vec![])]);
    assert_eq!(ev.process_filters(&mut store), Vec::new());
    assert_eq!(store.filtered_frames(1, 0..3).len(), 0);
}

#[test]
fn resetting_a_filter_starts_over() {
    let mut store = Store::new();
    let mut ev: EventLoop<ConstFilter> = EventLoop::new();
    push(&mut ev, &mut store, vec![root(1, vec![]), root(1, vec![])]);
    ev.set_filter(&mut store, 2, Some(ConstFilter { value: true }));
    ev.process_filters(&mut store);
    assert_eq!(ev.set_filter(&mut store, 2, Some(ConstFilter { value: false })), Some((2, 0)));
    assert_eq!(store.filtered_frames(2, 0..2).len(), 0);
    assert_eq!(ev.process_filters(&mut store), Vec::new());
}

#[test]
fn large_backlog_is_filtered_in_chunks() {
    let mut store = Store::new();
    let mut ev: EventLoop<ConstFilter> = EventLoop::new();
    ev.set_filter(&mut store, 0, Some(ConstFilter { value: true }));
    let roots: Vec<Layer> = (0..20000).map(|_| root(1, vec![])).collect();
    push(&mut ev, &mut store, roots);
    assert!(ev.lagging(&store));
    let updates = ev.process_filters(&mut store);
    assert_eq!(updates, vec![(0, 16384)]);
    assert_eq!(store.filtered_frames(0, 16380..30000).len(), 4);
    assert!(ev.lagging(&store));
    let updates = ev.process_filters(&mut store);
    assert_eq!(updates, vec![(0, 20000)]);
    assert!(!ev.lagging(&store));
    assert_eq!(ev.process_filters(&mut store), Vec::new());
    let matched = store.filtered_frames(0, 19998..30000);
    assert_eq!(matched, vec![19998, 19999]);
}

#[derive(Clone, Debug, PartialEq)]
enum Event {
    Write(u32, Vec<u8>),
    End,
}

struct Recorder {
    log: Rc<RefCell<Vec<Event>>>,
    fail_at: Option<u32>,
}

impl writer::Worker for Recorder {
    fn write(&mut self, index: u32, layers: &[Layer]) -> Result<(), String> {
        if self.fail_at == Some(index) {
            return Err("disk full".to_string());
        }
        self.log.borrow_mut().push(Event::Write(index, layers[0].data.clone()));
        Ok(())
    }

    fn end(&mut self) -> Result<(), String> {
        self.log.borrow_mut().push(Event::End);
        Ok(())
    }
}

#[test]
fn draining_three_frames_writes_them_in_order_then_ends() {
    let mut store = Store::new();
    let mut ev: EventLoop<ConstFilter> = EventLoop::new();
    push(&mut ev, &mut store, vec![root(1, vec![1]), root(1, vec![2]), root(1, vec![3])]);
    let log = Rc::new(RefCell::new(Vec::new()));
    let mut out = writer::WorkerBox::new(Box::new(Recorder { log: log.clone(), fail_at: None }));
    assert_eq!(process_output::<ConstFilter>(&store, &mut out, None), Ok(()));
    assert_eq!(
        *log.borrow(),
        vec![Event::Write(0, vec![1]), Event::Write(1, vec![2]), Event::Write(2, vec![3]), Event::End]
    );
}

#[test]
fn draining_an_empty_store_only_ends() {
    let store = Store::new();
    let log = Rc::new(RefCell::new(Vec::new()));
    let mut out = writer::WorkerBox::new(Box::new(Recorder { log: log.clone(), fail_at: None }));
    assert_eq!(process_output::<ConstFilter>(&store, &mut out, None), Ok(()));
    assert_eq!(*log.borrow(), vec![Event::End]);
}

#[test]
fn draining_with_a_predicate_and_a_failure() {
    let mut store = Store::new();
    let mut ev: EventLoop<LayerFilter> = EventLoop::new();
    push(&mut ev, &mut store, vec![root(5, vec![1]), root(6, vec![2]), root(5, vec![3])]);
    let log = Rc::new(RefCell::new(Vec::new()));
    let mut out = writer::WorkerBox::new(Box::new(Recorder { log: log.clone(), fail_at: None }));
    let only = LayerFilter { id: Token::new(5) };
    assert_eq!(process_output(&store, &mut out, Some(&only)), Ok(()));
    assert_eq!(*log.borrow(), vec![Event::Write(0, vec![1]), Event::Write(2, vec![3]), Event::End]);

    let log = Rc::new(RefCell::new(Vec::new()));
    let mut out = writer::WorkerBox::new(Box::new(Recorder { log: log.clone(), fail_at: Some(1) }));
    assert_eq!(process_output::<ConstFilter>(&store, &mut out, None), Err("disk full".to_string()));
    assert_eq!(*log.borrow(), vec![Event::Write(0, vec![1])]);
}

fn frame(index: u32) -> Frame {
    Frame::new(index, root(1, vec![index as u8]))
}

#[test]
fn serial_stage_lets_frames_go_in_index_order() {
    let mut stage = SerialStage::new();
    let out: Vec<u32> = stage.process(vec![frame(2), frame(0)]).iter().map(|f| f.index).collect();
    assert_eq!(out, vec![0]);
    let out: Vec<u32> = stage.process(vec![frame(3)]).iter().map(|f| f.index).collect();
    assert_eq!(out, Vec::<u32>::new());
    let out: Vec<u32> = stage.process(vec![frame(1)]).iter().map(|f| f.index).collect();
    assert_eq!(out, vec![1, 2, 3]);
}

struct Tagger {}

impl Worker for Tagger {
    fn decode(&mut self, stack: &mut LayerStack) -> Result<Status, String> {
        let data = stack.top().unwrap().data.clone();
        stack.add_child(Layer::new(Token::new(42), data));
        Ok(Status::Done)
    }
}

#[test]
fn decoding_a_batch_keeps_indices_and_adds_layers() {
    let mut decoders = DecoderStack::new(WorkerBox::new(Box::new(Tagger {})), Vec::new());
    let out = decode_frames(&mut decoders, vec![frame(4), frame(5)]);
    assert_eq!(out.len(), 2);
    assert_eq!(out[0].index, 4);
    assert_eq!(out[1].index, 5);
    assert_eq!(out[1].layers.len(), 2);
    assert_eq!(out[1].layers[1].id, Token::new(42));
    assert_eq!(out[1].layers[1].data, vec![5]);
}

struct Seen {
    log: Rc<RefCell<Vec<u8>>>,
}

impl Worker for Seen {
    fn decode(&mut self, stack: &mut LayerStack) -> Result<Status, String> {
        self.log.borrow_mut().push(stack.bottom().unwrap().data[0]);
        Ok(Status::Skip)
    }
}

#[test]
fn serial_decoder_sees_frames_in_index_order() {
    let log = Rc::new(RefCell::new(Vec::new()));
    let mut decoders = DecoderStack::new(WorkerBox::new(Box::new(Seen { log: log.clone() })), Vec::new());
    let mut stage = SerialStage::new();
    let first = serial_decode(&mut stage, &mut decoders, vec![frame(3), frame(1), frame(0)]);
    assert_eq!(first.iter().map(|f| f.index).collect::<Vec<u32>>(), vec![0, 1]);
    let second = serial_decode(&mut stage, &mut decoders, vec![frame(4), frame(2)]);
    assert_eq!(second.iter().map(|f| f.index).collect::<Vec<u32>>(), vec![2, 3, 4]);
    assert_eq!(*log.borrow(), vec![0, 1, 2, 3, 4]);
    assert_eq!(stage.next_index(), 5);
}

#[test]
fn input_step_forwards_ends_and_fails() {
    match input_step(Ok(vec![root(1, vec![4])])) {
        InputStep::Forward(layers) => assert_eq!(layers[0].data, vec![4]),
        _ => panic!("expected the layers to go on"),
    }
    assert!(matches!(input_step(Ok(Vec::new())), InputStep::End));
    match input_step(Err("gone".to_string())) {
        InputStep::Fail(e) => assert_eq!(e, "gone"),
        _ => panic!("expected a failure"),
    }
}

#[test]
fn filters_with_nothing_new_report_nothing() {
    let mut store = Store::new();
    let mut ev: EventLoop<LayerFilter> = EventLoop::new();
    ev.set_filter(&mut store, 1, Some(LayerFilter { id: Token::new(7) }));
    ev.set_filter(&mut store, 2, Some(LayerFilter { id: Token::new(8) }));
    push(&mut ev, &mut store, vec![root(8, vec![]), root(9, vec![])]);
    assert_eq!(ev.process_filters(&mut store), vec![(2, 1)]);
    assert_eq!(store.filtered_frames(1, 0..5).len(), 0);
}
