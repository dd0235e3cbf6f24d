use genet_core::context::Context;
use genet_core::export::{genet_file_metadata, output_path, GenetFileWorker};
use genet_core::layer::{Layer, Token};

fn le(n: u64) -> Vec<u8> {
    n.to_le_bytes().to_vec()
}

#[test]
fn export_file_has_header_then_entries() {
    let mut ctx = Context::new();
    let eth = ctx.get_token("eth");
    let mut worker = GenetFileWorker::new();
    assert_eq!(worker.write(0, &[Layer::new(eth, vec![1, 2, 3])]), Ok(()));
    assert_eq!(worker.write(1, &[]), Ok(()));
    assert_eq!(worker.write(2, &[Layer::new(eth, vec![9])]), Ok(()));
    let bytes = worker.finish(&ctx).unwrap();

    let header = bincode::serialize(&(vec!["eth".to_string()], Vec::<(u64, u64)>::new(), 2u64)).unwrap();
    let mut expected = le(header.len() as u64);
    expected.extend_from_slice(&header);
    for data in [vec![1u8, 2, 3], vec![9u8]] {
        expected.extend(le(24));
        expected.extend(le(0));
        expected.extend(le(data.len() as u64));
        expected.extend(le(0));
        expected.extend(data);
    }
    assert_eq!(bytes, expected);
}

#[test]
fn export_header_lists_attribute_classes_by_position() {
    let mut ctx = Context::new();
    let ipv4 = ctx.get_token("ipv4");
    let src = ctx.get_token("ipv4.src");
    let addr = ctx.get_token("@ipv4:addr");
    let mut worker = GenetFileWorker::new();
    assert_eq!(worker.get_attr_index(src, addr), 0);
    assert_eq!(worker.get_attr_index(src, addr), 0);
    worker.write(0, &[Layer::new(ipv4, vec![7])]).unwrap();
    assert_eq!(worker.get_token_index(ipv4), 0);
    let bytes = worker.finish(&ctx).unwrap();
    let header = bincode::serialize(&(
        vec!["ipv4".to_string(), "ipv4.src".to_string(), "@ipv4:addr".to_string()],
        vec![(1u64, 2u64)],
        1u64,
    ))
    .unwrap();
    assert_eq!(&bytes[0..8], &le(header.len() as u64)[..]);
    assert_eq!(&bytes[8..8 + header.len()], &header[..]);
}

#[test]
fn export_fails_on_a_token_without_name() {
    let ctx = Context::new();
    let mut worker = GenetFileWorker::new();
    worker.write(0, &[Layer::new(Token::new(3), vec![1])]).unwrap();
    assert!(worker.finish(&ctx).is_err());
}

#[test]
fn output_path_reads_the_file_field() {
    assert_eq!(output_path(r#"{"file": "/tmp/out.genet"}"#), Ok("/tmp/out.genet".to_string()));
    assert!(output_path("{}").is_err());
    assert!(output_path(r#"{"file": 3}"#).is_err());
    assert!(output_path("not json").is_err());
}

#[test]
fn export_writer_metadata() {
    let m = genet_file_metadata();
    assert_eq!(m.id, "app.genet.writer.genet-file");
    assert_eq!(m.filters.len(), 1);
    assert_eq!(m.filters[0].name, "genet");
    assert_eq!(m.filters[0].extensions, vec!["genet".to_string()]);
}
