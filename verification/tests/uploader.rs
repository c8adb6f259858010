use object_archiver::uploader::MultipartUploadSink;
use object_archiver::uploader::Rejection;
use object_archiver::uploader::SinkError;
use object_archiver::uploader::SinkRequest;
use object_archiver::uploader::SinkResponse;
use object_archiver::uploader::SinkState;
use object_archiver::uploader::UploadPart;

fn sink(threshold: usize) -> MultipartUploadSink {
    MultipartUploadSink::new("bucket".to_string(), "key".to_string(), threshold)
}

/// Plays a store that always succeeds: answers `first` and every request that
/// follows from an answer, and returns all the requests in order.
fn serve(sink: &mut MultipartUploadSink, first: Option<SinkRequest>) -> Vec<SinkRequest> {
    let mut served = Vec::new();
    let mut next = first;
    while let Some(request) = next {
        let response = match &request {
            SinkRequest::CreateUpload => SinkResponse::UploadCreated { upload_id: Some("session".to_string()) },
            SinkRequest::UploadPart { part_number, .. } => {
                SinkResponse::PartUploaded { etag: Some(format!("etag-{}", part_number)) }
            }
            SinkRequest::CompleteUpload { .. } => SinkResponse::Completed,
            SinkRequest::PutObject { .. } => SinkResponse::Completed,
        };
        served.push(request);
        next = sink.respond(response).unwrap();
    }
    served
}

fn part(number: i32, body: &[u8]) -> SinkRequest {
    SinkRequest::UploadPart {
        upload_id: "session".to_string(),
        part_number: number,
        body: body.to_vec(),
    }
}

fn acknowledged(count: i32) -> Vec<UploadPart> {
    (1..=count).map(|n| UploadPart { part_number: n, etag: format!("etag-{}", n) }).collect()
}

#[test]
fn twelve_units_with_threshold_five() {
    let mut sink = sink(5);
    let data: Vec<u8> = (1..=12).collect();
    let written = sink.write(&data).unwrap();
    assert_eq!(written.accepted, 12);
    let mut requests = serve(&mut sink, written.request);
    assert_eq!(sink.state(), SinkState::Idle);
    assert_eq!(sink.buffered(), 2);
    let closing = sink.close().unwrap();
    requests.extend(serve(&mut sink, closing));
    assert_eq!(
        requests,
        vec![
            SinkRequest::CreateUpload,
            part(1, &[1, 2, 3, 4, 5]),
            part(2, &[6, 7, 8, 9, 10]),
            part(3, &[11, 12]),
            SinkRequest::CompleteUpload { upload_id: "session".to_string(), parts: acknowledged(3) },
        ]
    );
    assert_eq!(sink.state(), SinkState::Completed);
}

#[test]
fn small_input_is_one_whole_write() {
    let mut sink = sink(5);
    let written = sink.write(&[7, 8, 9]).unwrap();
    assert_eq!(written.accepted, 3);
    assert_eq!(written.request, None);
    assert_eq!(sink.state(), SinkState::Idle);
    let closing = sink.close().unwrap();
    assert_eq!(closing, Some(SinkRequest::PutObject { body: vec![7, 8, 9] }));
    assert_eq!(sink.state(), SinkState::CompletingUpload);
    assert_eq!(sink.respond(SinkResponse::Completed), Ok(None));
    assert_eq!(sink.state(), SinkState::Completed);
}

#[test]
fn empty_input_is_one_empty_write() {
    let mut sink = sink(5);
    let closing = sink.close().unwrap();
    assert_eq!(closing, Some(SinkRequest::PutObject { body: vec![] }));
    assert_eq!(sink.respond(SinkResponse::Completed), Ok(None));
    assert_eq!(sink.state(), SinkState::Completed);
}

#[test]
fn exact_multiple_has_no_short_part() {
    let mut sink = sink(4);
    let data: Vec<u8> = (0..8).collect();
    let written = sink.write(&data).unwrap();
    let mut requests = serve(&mut sink, written.request);
    assert_eq!(sink.buffered(), 0);
    let closing = sink.close().unwrap();
    requests.extend(serve(&mut sink, closing));
    assert_eq!(
        requests,
        vec![
            SinkRequest::CreateUpload,
            part(1, &[0, 1, 2, 3]),
            part(2, &[4, 5, 6, 7]),
            SinkRequest::CompleteUpload { upload_id: "session".to_string(), parts: acknowledged(2) },
        ]
    );
}

#[test]
fn bytes_keep_their_order_over_many_writes() {
    let mut sink = sink(3);
    let mut requests = Vec::new();
    for byte in 0u8..10 {
        let written = sink.write(&[byte]).unwrap();
        assert_eq!(written.accepted, 1);
        requests.extend(serve(&mut sink, written.request));
    }
    let closing = sink.close().unwrap();
    requests.extend(serve(&mut sink, closing));
    assert_eq!(
        requests,
        vec![
            SinkRequest::CreateUpload,
            part(1, &[0, 1, 2]),
            part(2, &[3, 4, 5]),
            part(3, &[6, 7, 8]),
            part(4, &[9]),
            SinkRequest::CompleteUpload { upload_id: "session".to_string(), parts: acknowledged(4) },
        ]
    );
}

#[test]
fn threshold_reached_starts_the_session() {
    let mut sink = sink(5);
    assert_eq!(sink.write(&[1, 2, 3, 4]).unwrap().request, None);
    let written = sink.write(&[5]).unwrap();
    assert_eq!(written.request, Some(SinkRequest::CreateUpload));
    assert_eq!(sink.state(), SinkState::InitiatingUpload);
    let next = sink.respond(SinkResponse::UploadCreated { upload_id: Some("session".to_string()) });
    assert_eq!(next, Ok(Some(part(1, &[1, 2, 3, 4, 5]))));
    assert_eq!(sink.state(), SinkState::UploadingPart);
    assert_eq!(sink.respond(SinkResponse::PartUploaded { etag: Some("a".to_string()) }), Ok(None));
    assert_eq!(sink.state(), SinkState::Idle);
}

#[test]
fn busy_sink_takes_nothing() {
    let mut sink = sink(2);
    let written = sink.write(&[1, 2, 3]).unwrap();
    assert_eq!(written.request, Some(SinkRequest::CreateUpload));
    assert_eq!(sink.write(&[4]), Err(Rejection::Busy));
    assert_eq!(sink.close(), Err(Rejection::Busy));
    assert_eq!(sink.flush(), Err(Rejection::Busy));
    assert_eq!(sink.buffered(), 3);
}

#[test]
fn flush_of_a_quiet_sink_is_ready() {
    let mut sink = sink(10);
    assert_eq!(sink.flush(), Ok(()));
    sink.write(&[1, 2, 3]).unwrap();
    assert_eq!(sink.flush(), Ok(()));
    assert_eq!(sink.buffered(), 3);
}

#[test]
fn failed_session_is_final() {
    let mut sink = sink(2);
    sink.write(&[1, 2]).unwrap();
    let error = SinkError::UploadSession("denied".to_string());
    assert_eq!(
        sink.respond(SinkResponse::Failed { message: "denied".to_string() }),
        Err(SinkError::UploadSession("denied".to_string()))
    );
    assert_eq!(sink.state(), SinkState::Failed(SinkError::UploadSession("denied".to_string())));
    assert_eq!(sink.write(&[3]), Err(Rejection::Failed(SinkError::UploadSession("denied".to_string()))));
    assert_eq!(sink.close(), Err(Rejection::Failed(SinkError::UploadSession("denied".to_string()))));
    assert_eq!(sink.flush(), Err(Rejection::Failed(SinkError::UploadSession("denied".to_string()))));
    assert_eq!(sink.respond(SinkResponse::Completed), Err(error));
}

#[test]
fn failed_part_fails_the_sink() {
    let mut sink = sink(2);
    sink.write(&[1, 2]).unwrap();
    sink.respond(SinkResponse::UploadCreated { upload_id: Some("session".to_string()) }).unwrap();
    assert_eq!(
        sink.respond(SinkResponse::Failed { message: "timeout".to_string() }),
        Err(SinkError::UploadPart("timeout".to_string()))
    );
    assert_eq!(sink.state(), SinkState::Failed(SinkError::UploadPart("timeout".to_string())));
}

#[test]
fn failed_completion_fails_the_sink() {
    let mut sink = sink(2);
    sink.write(&[1, 2]).unwrap();
    sink.respond(SinkResponse::UploadCreated { upload_id: Some("session".to_string()) }).unwrap();
    sink.respond(SinkResponse::PartUploaded { etag: Some("a".to_string()) }).unwrap();
    let closing = sink.close().unwrap();
    assert_eq!(
        closing,
        Some(SinkRequest::CompleteUpload {
            upload_id: "session".to_string(),
            parts: vec![UploadPart { part_number: 1, etag: "a".to_string() }],
        })
    );
    assert_eq!(
        sink.respond(SinkResponse::Failed { message: "gone".to_string() }),
        Err(SinkError::UploadComplete("gone".to_string()))
    );
}

#[test]
fn failed_whole_write_fails_the_sink() {
    let mut sink = sink(9);
    sink.write(&[1]).unwrap();
    sink.close().unwrap();
    assert_eq!(
        sink.respond(SinkResponse::Failed { message: "no".to_string() }),
        Err(SinkError::UploadComplete("no".to_string()))
    );
}

#[test]
fn answer_of_another_kind_fails_the_sink() {
    let mut sink = sink(2);
    sink.write(&[1, 2]).unwrap();
    assert_eq!(
        sink.respond(SinkResponse::PartUploaded { etag: Some("a".to_string()) }),
        Err(SinkError::UploadSession("unexpected response".to_string()))
    );
}

#[test]
fn answer_without_request_changes_nothing() {
    let mut sink = sink(4);
    sink.write(&[1]).unwrap();
    assert_eq!(sink.respond(SinkResponse::Completed), Ok(None));
    assert_eq!(sink.state(), SinkState::Idle);
    assert_eq!(sink.buffered(), 1);
}

#[test]
fn completed_sink_is_closed() {
    let mut sink = sink(4);
    sink.write(&[1]).unwrap();
    let closing = sink.close().unwrap();
    serve(&mut sink, closing);
    assert_eq!(sink.write(&[2]), Err(Rejection::Closed));
    assert_eq!(sink.close(), Ok(None));
    assert_eq!(sink.flush(), Ok(()));
    assert_eq!(sink.state(), SinkState::Completed);
}

#[test]
fn sink_knows_its_destination() {
    let sink = MultipartUploadSink::new("archive-bucket".to_string(), "a/b.tar.xz".to_string(), 7);
    assert_eq!(sink.bucket(), "archive-bucket");
    assert_eq!(sink.key(), "a/b.tar.xz");
    assert_eq!(sink.threshold(), 7);
    assert_eq!(sink.buffered(), 0);
    assert_eq!(sink.state(), SinkState::Idle);
}

#[test]
fn part_count_follows_the_size() {
    for total in 0usize..40 {
        let threshold = 7;
        let mut sink = sink(threshold);
        let data: Vec<u8> = (0..total).map(|i| i as u8).collect();
        let written = sink.write(&data).unwrap();
        let mut requests = serve(&mut sink, written.request);
        let closing = sink.close().unwrap();
        requests.extend(serve(&mut sink, closing));
        let parts: Vec<&SinkRequest> =
            requests.iter().filter(|r| matches!(r, SinkRequest::UploadPart { .. })).collect();
        let puts = requests.iter().filter(|r| matches!(r, SinkRequest::PutObject { .. })).count();
        if total < threshold {
            assert_eq!(parts.len(), 0);
            assert_eq!(puts, 1);
        } else {
            let full = total / threshold;
            let rest = total % threshold;
            assert_eq!(parts.len(), full + if rest > 0 { 1 } else { 0 });
            assert_eq!(puts, 0);
            let mut joined = Vec::new();
            for (index, request) in parts.iter().enumerate() {
                match request {
                    SinkRequest::UploadPart { part_number, body, .. } => {
                        assert_eq!(*part_number as usize, index + 1);
                        if index < full {
                            assert_eq!(body.len(), threshold);
                        } else {
                            assert_eq!(body.len(), rest);
                        }
                        joined.extend_from_slice(body);
                    }
                    _ => unreachable!(),
                }
            }
            assert_eq!(joined, data);
        }
    }
}

#[test]
fn session_without_identifier_fails_the_sink() {
    let mut sink = sink(2);
    sink.write(&[1, 2]).unwrap();
    assert_eq!(
        sink.respond(SinkResponse::UploadCreated { upload_id: None }),
        Err(SinkError::UploadSession("No upload ID received".to_string()))
    );
    assert_eq!(
        sink.state(),
        SinkState::Failed(SinkError::UploadSession("No upload ID received".to_string()))
    );
}

#[test]
fn part_without_tag_fails_the_sink() {
    let mut sink = sink(2);
    sink.write(&[1, 2]).unwrap();
    sink.respond(SinkResponse::UploadCreated { upload_id: Some("session".to_string()) }).unwrap();
    assert_eq!(
        sink.respond(SinkResponse::PartUploaded { etag: None }),
        Err(SinkError::UploadPart("No ETag in upload part response".to_string()))
    );
}

#[test]
fn last_part_without_tag_fails_the_sink() {
    let mut sink = sink(2);
    sink.write(&[1, 2, 3]).unwrap();
    sink.respond(SinkResponse::UploadCreated { upload_id: Some("session".to_string()) }).unwrap();
    sink.respond(SinkResponse::PartUploaded { etag: Some("a".to_string()) }).unwrap();
    let closing = sink.close().unwrap();
    assert_eq!(closing, Some(part(2, &[3])));
    assert_eq!(sink.state(), SinkState::CompletingUpload);
    assert_eq!(
        sink.respond(SinkResponse::PartUploaded { etag: None }),
        Err(SinkError::UploadPart("No ETag in upload part response".to_string()))
    );
}

#[test]
fn answer_of_another_kind_while_completing_fails_the_sink() {
    let mut sink = sink(2);
    sink.write(&[1]).unwrap();
    sink.close().unwrap();
    assert_eq!(
        sink.respond(SinkResponse::UploadCreated { upload_id: None }),
        Err(SinkError::UploadComplete("unexpected response".to_string()))
    );
}
