use async_compression::tokio::bufread::XzDecoder;
use async_compression::tokio::write::XzEncoder;
use async_compression::Level;
use futures::StreamExt;
use object_archiver::archive::archive;
use object_archiver::archive::compress;
use object_archiver::archive::RunAction;
use object_archiver::archive::RunEvent;
use object_archiver::deletion::BatchOutcome;
use object_archiver::listing::ListedObject;
use object_archiver::uploader::MultipartUploadSink;
use object_archiver::uploader::SinkRequest;
use object_archiver::uploader::SinkResponse;
use std::io;
use std::pin::Pin;
use std::sync::Arc;
use std::sync::Mutex;
use std::task::Context;
use std::task::Poll;
use tokio::io::AsyncReadExt;
use tokio::io::AsyncWrite;
use tokio::io::AsyncWriteExt;
use tokio_tar::Archive;
use tokio_tar::Builder;
use tokio_tar::Header;

/// What a store in memory has seen and holds.
#[derive(Default)]
struct Store {
    calls: Vec<String>,
    parts: Vec<Vec<u8>>,
    object: Option<Vec<u8>>,
}

/// The library's sink as a writer over a store in memory that answers at
/// once.
struct MemorySink {
    sink: MultipartUploadSink,
    store: Arc<Mutex<Store>>,
}

impl MemorySink {
    fn serve(&mut self, first: Option<SinkRequest>) -> io::Result<()> {
        let mut next = first;
        while let Some(request) = next {
            let mut store = self.store.lock().unwrap();
            let response = match request {
                SinkRequest::CreateUpload => {
                    store.calls.push("create".to_string());
                    SinkResponse::UploadCreated { upload_id: Some("session".to_string()) }
                }
                SinkRequest::UploadPart { part_number, body, .. } => {
                    store.calls.push(format!("part {} of {}", part_number, body.len()));
                    store.parts.push(body);
                    SinkResponse::PartUploaded { etag: Some(format!("tag-{}", part_number)) }
                }
                SinkRequest::CompleteUpload { parts, .. } => {
                    store.calls.push(format!("complete {}", parts.len()));
                    let mut object = Vec::new();
                    for part in parts {
                        assert_eq!(part.etag, format!("tag-{}", part.part_number));
                        object.extend_from_slice(&store.parts[part.part_number as usize - 1]);
                    }
                    store.object = Some(object);
                    SinkResponse::Completed
                }
                SinkRequest::PutObject { body } => {
                    store.calls.push(format!("put {}", body.len()));
                    store.object = Some(body);
                    SinkResponse::Completed
                }
            };
            drop(store);
            next = self
                .sink
                .respond(response)
                .map_err(|e| io::Error::new(io::ErrorKind::Other, format!("{:?}", e)))?;
        }
        Ok(())
    }
}

impl AsyncWrite for MemorySink {
    fn poll_write(
        mut self: Pin<&mut Self>,
        _cx: &mut Context<'_>,
        buf: &[u8],
    ) -> Poll<io::Result<usize>> {
        let written = match self.sink.write(buf) {
            Ok(written) => written,
            Err(e) => return Poll::Ready(Err(io::Error::new(io::ErrorKind::Other, format!("{:?}", e)))),
        };
        Poll::Ready(self.serve(written.request).map(|_| written.accepted))
    }

    fn poll_flush(self: Pin<&mut Self>, _cx: &mut Context<'_>) -> Poll<io::Result<()>> {
        Poll::Ready(
            self.sink.flush().map_err(|e| io::Error::new(io::ErrorKind::Other, format!("{:?}", e))),
        )
    }

    fn poll_shutdown(mut self: Pin<&mut Self>, _cx: &mut Context<'_>) -> Poll<io::Result<()>> {
        let closing = match self.sink.close() {
            Ok(closing) => closing,
            Err(e) => return Poll::Ready(Err(io::Error::new(io::ErrorKind::Other, format!("{:?}", e)))),
        };
        Poll::Ready(self.serve(closing))
    }
}

fn bytes_of(seed: u64, len: usize) -> Vec<u8> {
    let mut state = seed.wrapping_mul(6364136223846793005).wrapping_add(1442695040888963407);
    let mut bytes = Vec::with_capacity(len);
    for _ in 0..len {
        state = state.wrapping_mul(6364136223846793005).wrapping_add(1442695040888963407);
        bytes.push((state >> 33) as u8);
    }
    bytes
}

/// Archives `objects` (key, last modification, bytes) through the run, the
/// container, the compression and the sink, and returns what the store saw,
/// the entries read back from the stored archive, and the keys deleted.
fn run_archive(
    objects: Vec<(String, i64, Vec<u8>)>,
    cutoff: i64,
    threshold: usize,
) -> (Vec<String>, Vec<(String, Vec<u8>)>, Vec<String>) {
    let runtime = tokio::runtime::Builder::new_current_thread().enable_all().build().unwrap();
    runtime.block_on(async move {
        let plan = archive("s3://source", "s3://backup/old", Some(cutoff), cutoff + 10, threshold)
            .unwrap();
        let store = Arc::new(Mutex::new(Store::default()));
        let sink = MemorySink { sink: plan.sink(), store: store.clone() };
        let mut builder = Some(Builder::new(XzEncoder::with_quality(sink, Level::Fastest)));
        let mut deleted = Vec::new();
        let (mut run, mut action) = compress(&plan);
        loop {
            let event = match action {
                RunAction::ListPage(_) => RunEvent::PageListed {
                    entries: objects
                        .iter()
                        .map(|(key, modified, bytes)| ListedObject {
                            key: Some(key.clone()),
                            size: Some(bytes.len() as i64),
                            last_modified: Some(*modified),
                        })
                        .collect(),
                    next_token: None,
                },
                RunAction::ArchiveObject { key, header, .. } => {
                    let bytes = &objects.iter().find(|(k, _, _)| *k == key).unwrap().2;
                    let mut header = Header::from_byte_slice(&header).clone();
                    builder
                        .as_mut()
                        .unwrap()
                        .append_data(&mut header, &key, bytes.as_slice())
                        .await
                        .unwrap();
                    RunEvent::EntryWritten { bytes: bytes.len() as u64 }
                }
                RunAction::FinishArchive => {
                    let mut archive = builder.take().unwrap();
                    archive.finish().await.unwrap();
                    let mut encoder = archive.into_inner().await.unwrap();
                    encoder.flush().await.unwrap();
                    encoder.shutdown().await.unwrap();
                    RunEvent::ArchiveFinished
                }
                RunAction::DeleteBatch { bucket, keys } => {
                    assert_eq!(bucket, "source");
                    let count = keys.len();
                    deleted.extend(keys);
                    RunEvent::BatchDone(BatchOutcome::Deleted { deleted: count, failed: 0 })
                }
                RunAction::Finished(_) => break,
                RunAction::Failed(error) => panic!("the run failed: {:?}", error),
            };
            action = run.advance(event);
        }
        let stored = store.lock().unwrap().object.clone().unwrap();
        let mut archive = Archive::new(XzDecoder::new(stored.as_slice()));
        let mut entries = archive.entries().unwrap();
        let mut found = Vec::new();
        while let Some(entry) = entries.next().await {
            let mut entry = entry.unwrap();
            let name = entry.path().unwrap().to_string_lossy().to_string();
            let mut bytes = Vec::new();
            entry.read_to_end(&mut bytes).await.unwrap();
            found.push((name, bytes));
        }
        let calls = store.lock().unwrap().calls.clone();
        (calls, found, deleted)
    })
}

#[test]
fn archive_gives_back_keys_and_bytes() {
    let cutoff = 1_704_067_200;
    let long_key = format!("logs/{}/tail.bin", "deep/".repeat(40));
    let objects = vec![
        ("logs/one.txt".to_string(), cutoff - 1, b"first object".to_vec()),
        ("logs/new.txt".to_string(), cutoff + 1, b"too new".to_vec()),
        ("logs/empty".to_string(), 5, Vec::new()),
        (long_key.clone(), 1_685_577_600, bytes_of(7, 5000)),
        ("logs/at-cutoff".to_string(), cutoff, b"not yet".to_vec()),
        ("logs/big.bin".to_string(), 1_600_000_000, bytes_of(11, 100_000)),
    ];
    let (calls, found, deleted) = run_archive(objects.clone(), cutoff, 4096);
    let expected: Vec<(String, Vec<u8>)> = objects
        .iter()
        .filter(|(_, modified, _)| *modified < cutoff)
        .map(|(key, _, bytes)| (key.clone(), bytes.clone()))
        .collect();
    assert_eq!(expected.len(), 4);
    assert_eq!(found, expected);
    let keys: Vec<String> = expected.iter().map(|(key, _)| key.clone()).collect();
    assert_eq!(deleted, keys);
    assert_eq!(calls[0], "create");
    assert!(calls.len() > 3);
    assert!(calls[calls.len() - 1].starts_with("complete "));
    for (index, call) in calls[1..calls.len() - 1].iter().enumerate() {
        assert!(call.starts_with(&format!("part {} of ", index + 1)));
        if index + 2 < calls.len() - 1 {
            assert_eq!(*call, format!("part {} of 4096", index + 1));
        }
    }
}

#[test]
fn small_archive_is_written_whole() {
    let objects = vec![("a".to_string(), 1, b"tiny".to_vec())];
    let (calls, found, deleted) = run_archive(objects, 100, 1 << 20);
    assert_eq!(found, vec![("a".to_string(), b"tiny".to_vec())]);
    assert_eq!(deleted, vec!["a".to_string()]);
    assert_eq!(calls.len(), 1);
    assert!(calls[0].starts_with("put "));
}

#[test]
fn archive_of_nothing_deletes_nothing() {
    let objects = vec![("a".to_string(), 200, b"new".to_vec())];
    let (calls, found, deleted) = run_archive(objects, 100, 1 << 20);
    assert_eq!(found, vec![]);
    assert_eq!(deleted, Vec::<String>::new());
    assert_eq!(calls.len(), 1);
}
