use at_runner::chunks::{build_upload_chunks, FileChunk, FileChunker, StreamedFile, UploadAction, UploadReceiver};
use at_runner::error::StatusCode;

fn chunk(name: &str, data: &[u8]) -> FileChunk {
    FileChunk { name: name.to_string(), data: data.to_vec() }
}

#[test]
fn upload_chunks_cut_the_file() {
    let c = build_upload_chunks("a.env", b"abcdefg", 3);
    assert_eq!(c.len(), 3);
    assert_eq!(c[0].name, "a.env");
    assert_eq!(c[0].data, b"abc");
    assert_eq!(c[1].name, "");
    assert_eq!(c[1].data, b"def");
    assert_eq!(c[2].name, "");
    assert_eq!(c[2].data, b"g");

    let c = build_upload_chunks("a.env", b"abcdef", 3);
    assert_eq!(c.len(), 2);
    assert_eq!(c[1].data, b"def");

    let c = build_upload_chunks("empty", b"", 65536);
    assert_eq!(c.len(), 1);
    assert_eq!(c[0].name, "empty");
    assert!(c[0].data.is_empty());
}

#[test]
fn uploaded_chunks_round_trip() {
    let data: Vec<u8> = (0..200u8).collect();
    let mut r = UploadReceiver::new();
    let mut written: Vec<u8> = vec![];
    let mut created = None;
    for c in build_upload_chunks("Munk.bty", &data, 64) {
        match r.on_chunk(c).unwrap() {
            UploadAction::Create(name, bytes) => {
                assert!(created.is_none());
                created = Some(name);
                written.extend(bytes);
            }
            UploadAction::Append(bytes) => written.extend(bytes),
        }
    }
    assert_eq!(created.as_deref(), Some("Munk.bty"));
    assert_eq!(written, data);
    assert_eq!(r.total_size, 200);
    assert_eq!(r.finish().unwrap(), "Munk.bty");
}

#[test]
fn upload_protocol_errors() {
    let mut r = UploadReceiver::new();
    let e = r.on_chunk(chunk("", b"x")).unwrap_err();
    assert_eq!(e.code, StatusCode::InvalidArgument);
    assert_eq!(e.message, "no filename provided in first chunk");

    let mut r = UploadReceiver::new();
    r.on_chunk(chunk("a", b"x")).unwrap();
    let e = r.on_chunk(chunk("b", b"y")).unwrap_err();
    assert_eq!(e.message, "filename may only be set in the first chunk");

    let mut r = UploadReceiver::new();
    let e = r.on_chunk(chunk("../a", b"x")).unwrap_err();
    assert_eq!(e.message, "filename must not contain '/', '\\', or '..'");

    let r = UploadReceiver::new();
    let e = r.finish().unwrap_err();
    assert_eq!(e.code, StatusCode::InvalidArgument);
    assert_eq!(e.message, "no filename provided");
}

#[test]
fn file_chunker_names_the_first_chunk_only() {
    let mut c = FileChunker::new("out.shd");
    let a = c.on_read(b"12".to_vec()).unwrap();
    assert_eq!(a.name, "out.shd");
    assert_eq!(a.data, b"12");
    let b = c.on_read(b"3".to_vec()).unwrap();
    assert_eq!(b.name, "");
    assert_eq!(b.data, b"3");
    assert!(c.on_read(vec![]).is_none());

    // an empty file is still sent, as one empty named chunk
    let mut c = FileChunker::new("empty.prt");
    let e = c.on_read(vec![]).unwrap();
    assert_eq!(e.name, "empty.prt");
    assert!(e.data.is_empty());
}

#[test]
fn streamed_file_counts_chunks_rounding_up() {
    let f = StreamedFile::new(0, 65536);
    assert_eq!((f.bytes, f.chunks), (0, 0));
    let f = StreamedFile::new(65536, 65536);
    assert_eq!(f.chunks, 1);
    let f = StreamedFile::new(65537, 65536);
    assert_eq!(f.chunks, 2);
    let f = StreamedFile::new(10, 3);
    assert_eq!(f.chunks, 4);
}

#[test]
fn a_downloaded_file_is_the_joined_chunks() {
    let reads: Vec<&[u8]> = vec![b"abc", b"de", b"f"];
    let mut c = FileChunker::new("big.shd");
    let mut joined = vec![];
    let mut named = vec![];
    for r in reads.iter().map(|r| r.to_vec()).chain(std::iter::once(vec![])) {
        if let Some(chunk) = c.on_read(r) {
            named.push(!chunk.name.is_empty());
            joined.extend(chunk.data);
        }
    }
    assert_eq!(joined, b"abcdef");
    assert_eq!(named, vec![true, false, false]);
}
