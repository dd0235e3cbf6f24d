use genet_core::attr::{bytes_of_bits, Attr, AttrQuery, AttrType};
use genet_core::context::Context;
use genet_core::file::FileType;
use genet_core::layer::{Layer, LayerStack, Token};
use genet_core::reader::{self, to_layers, Reader, ReaderBox, ReaderData};
use genet_core::writer::{Metadata, Writer, WriterBox};
use std::cell::RefCell;
use std::rc::Rc;

#[test]
fn tokens_are_interned_once() {
    let mut ctx = Context::new();
    let a = ctx.get_token("eth");
    let b = ctx.get_token("ipv4");
    let c = ctx.get_token("eth");
    assert_eq!(a, c);
    assert_ne!(a, b);
    assert_eq!(a.id, 1);
    assert_eq!(b.id, 2);
    assert_eq!(ctx.name_of(b).unwrap(), "ipv4");
    assert!(ctx.name_of(Token::null()).is_none());
    assert_eq!(ctx.find_token("ipv4"), Some(b));
    assert_eq!(ctx.find_token("udp"), None);
}

#[test]
fn byte_range_covers_partial_bytes() {
    assert_eq!(bytes_of_bits(&(3..13)), 0..2);
    assert_eq!(bytes_of_bits(&(8..16)), 1..2);
    assert_eq!(bytes_of_bits(&(0..0)), 0..0);
    assert_eq!(bytes_of_bits(&(9..17)), 1..3);
}

#[test]
fn attr_type_keeps_its_description() {
    let mut ctx = Context::new();
    let ty = AttrType::new(&mut ctx, "eth.src", "@eth:mac", 0..48, "Source", "Source address", &["_.src"]);
    assert_eq!(ty.id(), "eth.src");
    assert_eq!(ty.ty(), "@eth:mac");
    assert_eq!(ty.name(), "Source");
    assert_eq!(ty.description(), "Source address");
    assert_eq!(ty.aliases(), &["_.src".to_string()]);
    assert_eq!(ty.bit_range(), 0..48);
    assert_eq!(ty.byte_range(), 0..6);
    assert_eq!(ty.id_token(), ctx.find_token("eth.src").unwrap());
    assert_eq!(ty.id_ty(), ctx.find_token("@eth:mac").unwrap());
    let attr = Attr::new(&ty, 4..12);
    assert_eq!(attr.bit_range(), 4..12);
    assert_eq!(attr.byte_range(), 0..2);
    assert_eq!(attr.ty().id(), "eth.src");
}

#[test]
fn attr_query_interns_its_names() {
    let mut ctx = Context::new();
    let q = AttrQuery::new(&mut ctx, "udp.src", Some("@int"));
    assert_eq!(q.id(), ctx.find_token("udp.src").unwrap());
    assert_eq!(q.ty(), ctx.find_token("@int"));
    let q = AttrQuery::new(&mut ctx, "udp.src", None);
    assert_eq!(q.id().id, 1);
    assert_eq!(q.ty(), None);
}

#[test]
fn file_type_copies_extensions() {
    let f = FileType::new("pcap", &["pcap", "cap"]);
    assert_eq!(f.name, "pcap");
    assert_eq!(f.extensions, vec!["pcap".to_string(), "cap".to_string()]);
}

#[test]
fn buffers_become_root_layers() {
    let layers = to_layers(Token::new(9), vec![vec![1, 2], vec![3]]);
    assert_eq!(layers.len(), 2);
    assert_eq!(layers[0].id, Token::new(9));
    assert_eq!(layers[0].data, vec![1, 2]);
    assert_eq!(layers[1].data, vec![3]);
}

struct OneShot {
    left: Vec<Vec<u8>>,
}

impl reader::Worker for OneShot {
    fn read(&mut self) -> Result<Vec<Vec<u8>>, String> {
        Ok(std::mem::take(&mut self.left))
    }

    fn layer_id(&self) -> Token {
        Token::new(5)
    }
}

struct UrlRecorder {
    seen: Rc<RefCell<Vec<String>>>,
}

impl Reader for UrlRecorder {
    fn new_worker(&self, _ctx: &Context, url: &url::Url) -> Result<Box<dyn reader::Worker>, String> {
        self.seen.borrow_mut().push(url.as_str().to_string());
        Ok(Box::new(OneShot { left: vec![vec![8, 9]] }))
    }
}

#[test]
fn reader_worker_gets_a_parsed_url() {
    let seen = Rc::new(RefCell::new(Vec::new()));
    let boxed = ReaderBox::new(Box::new(UrlRecorder { seen: seen.clone() }));
    let ctx = Context::new();
    let mut worker = boxed.new_worker(&ctx, "file:///tmp/a.pcap").unwrap();
    boxed.new_worker(&ctx, "not a url").unwrap();
    assert_eq!(*seen.borrow(), vec!["file:///tmp/a.pcap".to_string(), "null:".to_string()]);
    assert_eq!(worker.layer_id(), Token::new(5));
    let layers = worker.read_layers().unwrap();
    assert_eq!(layers.len(), 1);
    assert_eq!(layers[0].id, Token::new(5));
    assert_eq!(layers[0].data, vec![8, 9]);
    assert!(worker.read_layers().unwrap().is_empty());
}

#[test]
fn reader_data_builders() {
    let seen = Rc::new(RefCell::new(Vec::new()));
    let data = ReaderData::new(ReaderBox::new(Box::new(UrlRecorder { seen })))
        .id("pcap".to_string())
        .filter(FileType::new("pcap", &["pcap"]));
    assert_eq!(data.id, "pcap");
    assert_eq!(data.filters.len(), 1);
}

struct NullWriter {}

impl Writer for NullWriter {
    fn new_worker(&self, _ctx: &Context, args: &str) -> Result<Box<dyn genet_core::writer::Worker>, String> {
        Err(format!("cannot write to {}", args))
    }

    fn metadata(&self) -> Metadata {
        let mut m = Metadata::default();
        m.id = "null".to_string();
        m
    }
}

#[test]
fn writer_box_forwards() {
    let w = WriterBox::new(Box::new(NullWriter {}));
    let ctx = Context::new();
    match w.new_worker(&ctx, "x") {
        Ok(_) => panic!("expected a failure"),
        Err(e) => assert_eq!(e, "cannot write to x"),
    }
    assert_eq!(w.metadata().id, "null");
    let d = Metadata::default();
    assert!(d.id.is_empty() && d.name.is_empty() && d.description.is_empty() && d.filters.is_empty());
}

#[test]
fn layer_stack_top_and_bottom() {
    let mut stack = LayerStack::new(Layer::new(Token::new(1), vec![]));
    stack.add_child(Layer::new(Token::new(2), vec![]));
    assert_eq!(stack.bottom().unwrap().id, Token::new(1));
    assert_eq!(stack.top().unwrap().id, Token::new(2));
}
