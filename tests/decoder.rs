use genet_core::context::Context;
use genet_core::decoder::{
    decode_status, encode_status, Decoder, DecoderBox, DecoderData, DecoderStack, ExecType,
    Status, Worker, WorkerBox, STATUS_FAILURE, STATUS_SKIP, STATUS_SUCCESS,
};
use genet_core::layer::{Layer, LayerStack, Token};
use std::cell::RefCell;
use std::rc::Rc;

struct TestWorker {}

impl Worker for TestWorker {
    fn decode(&mut self, stack: &mut LayerStack) -> Result<Status, String> {
        let layer = Layer::new(Token::new(1234), Vec::new());
        stack.add_child(layer);
        Ok(Status::Done)
    }
}

struct TestDecoder {}

impl Decoder for TestDecoder {
    fn new_worker(&self, _ctx: &Context) -> Result<Box<dyn Worker>, String> {
        Ok(Box::new(TestWorker {}))
    }
}

struct FailingDecoder {}

impl Decoder for FailingDecoder {
    fn new_worker(&self, _ctx: &Context) -> Result<Box<dyn Worker>, String> {
        Err("no worker".to_string())
    }
}

#[test]
fn decode() {
    let ctx = Context::new();
    let diss = DecoderBox::new(Box::new(TestDecoder {}));
    let mut worker = diss.new_worker(&ctx).unwrap();

    let mut layer = LayerStack::new(Layer::new(Token::null(), Vec::new()));

    assert_eq!(worker.decode(&mut layer).unwrap(), Status::Done);
    assert_eq!(layer.len(), 2);
    assert_eq!(layer.top().unwrap().id, Token::new(1234));
}

#[test]
fn new_worker_failure_keeps_message() {
    let ctx = Context::new();
    let diss = DecoderBox::new(Box::new(FailingDecoder {}));
    match diss.new_worker(&ctx) {
        Ok(_) => panic!("expected a failure"),
        Err(e) => assert_eq!(e, "no worker"),
    }
}

#[test]
fn status_codes_cross_the_boundary() {
    assert_eq!(encode_status(Ok(Status::Done)).0, STATUS_SUCCESS);
    assert_eq!(encode_status(Ok(Status::Skip)).0, STATUS_SKIP);
    let (code, msg) = encode_status(Err("bad".to_string()));
    assert_eq!(code, STATUS_FAILURE);
    assert_eq!(msg, "bad");
    assert_eq!(decode_status(2, String::new()), Ok(Status::Done));
    assert_eq!(decode_status(1, String::new()), Ok(Status::Skip));
    assert_eq!(decode_status(0, "x".to_string()), Err("x".to_string()));
    assert_eq!(decode_status(7, "y".to_string()), Err("y".to_string()));
}

struct Scripted {
    result: Result<Status, String>,
    log: Rc<RefCell<Vec<&'static str>>>,
    name: &'static str,
}

impl Worker for Scripted {
    fn decode(&mut self, _stack: &mut LayerStack) -> Result<Status, String> {
        self.log.borrow_mut().push(self.name);
        self.result.clone()
    }
}

fn node(
    name: &'static str,
    result: Result<Status, String>,
    log: &Rc<RefCell<Vec<&'static str>>>,
    subs: Vec<DecoderStack>,
) -> DecoderStack {
    let worker = Scripted { result, log: log.clone(), name };
    DecoderStack::new(WorkerBox::new(Box::new(worker)), subs)
}

#[test]
fn decoder_stack_runs_followers_after_done() {
    let log = Rc::new(RefCell::new(Vec::new()));
    let inner = node("c", Ok(Status::Done), &log, Vec::new());
    let subs = vec![
        node("a", Err("broken".to_string()), &log, Vec::new()),
        node("b", Ok(Status::Done), &log, vec![inner]),
    ];
    let mut stack = node("top", Ok(Status::Done), &log, subs);
    let mut layers = LayerStack::new(Layer::new(Token::null(), vec![1, 2]));
    assert_eq!(stack.decode(&mut layers), Ok(Status::Done));
    assert_eq!(*log.borrow(), vec!["top", "a", "b", "c"]);
}

#[test]
fn decoder_stack_skip_and_error_stop_followers() {
    let log = Rc::new(RefCell::new(Vec::new()));
    let mut skip = node("top", Ok(Status::Skip), &log, vec![node("a", Ok(Status::Done), &log, Vec::new())]);
    let mut layers = LayerStack::new(Layer::new(Token::null(), Vec::new()));
    assert_eq!(skip.decode(&mut layers), Ok(Status::Skip));
    let mut fail = node("bad", Err("e".to_string()), &log, vec![node("b", Ok(Status::Done), &log, Vec::new())]);
    assert_eq!(fail.decode(&mut layers), Err("e".to_string()));
    assert_eq!(*log.borrow(), vec!["top", "bad"]);
}

#[test]
fn decoder_data_builders() {
    let data = DecoderData::new(DecoderBox::new(Box::new(TestDecoder {})))
        .id("ntp".to_string())
        .trigger_after("udp".to_string())
        .trigger_after("tcp".to_string())
        .exec_type(ExecType::SerialSync);
    assert_eq!(data.id, "ntp");
    assert_eq!(data.trigger_after, vec!["udp".to_string(), "tcp".to_string()]);
    assert_eq!(data.exec_type, ExecType::SerialSync);
}
