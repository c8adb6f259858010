use object_archiver::s3::get_s3_params;
use object_archiver::tokio_to_async::read_outcome;
use object_archiver::tokio_to_async::TokioBufReadAsAsyncRead;

#[test]
fn region_falls_back_to_the_default() {
    let params = get_s3_params(None, None, "access".to_string(), "secret".to_string());
    assert_eq!(params.region(), "us-east-1");
    assert_eq!(params.endpoint(), None);
    assert_eq!(params.access_key(), "access");
    assert_eq!(params.secret_key(), "secret");
}

#[test]
fn configured_values_are_kept() {
    let params = get_s3_params(
        Some("eu-west-3".to_string()),
        Some("http://localhost:9000".to_string()),
        "a".to_string(),
        "s".to_string(),
    );
    assert_eq!(params.region(), "eu-west-3");
    assert_eq!(params.endpoint(), Some("http://localhost:9000"));
}

#[test]
fn adapter_holds_its_reader() {
    let mut adapter = TokioBufReadAsAsyncRead::new(vec![1u8, 2, 3]);
    assert_eq!(adapter.get_ref(), &vec![1u8, 2, 3]);
    adapter.get_mut().push(4);
    assert_eq!(adapter.get_ref(), &vec![1u8, 2, 3, 4]);
    assert_eq!(adapter.into_inner(), vec![1u8, 2, 3, 4]);
}

#[test]
fn read_reports_the_bytes_filled() {
    assert_eq!(read_outcome::<String>(Ok(()), 17), Ok(17));
    assert_eq!(read_outcome::<String>(Ok(()), 0), Ok(0));
    assert_eq!(read_outcome(Err("broken".to_string()), 17), Err("broken".to_string()));
}
