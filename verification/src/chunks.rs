use vstd::prelude::*;

use crate::error::{invalid_argument, ErrorView, RunnerError, StatusCode};
use crate::assemble::chunks_of_file;
use crate::validation::{validate_workspace_filename, workspace_filename_check};

verus! {

/// A piece of a file on the wire: the first piece of a file carries its
/// name, later pieces an empty name.
#[derive(Debug)]
pub struct FileChunk {
    pub name: String,
    pub data: Vec<u8>,
}

pub open spec fn min_int(a: int, b: int) -> int {
    if a <= b { a } else { b }
}

/// The bytes of piece `k` when `data` is cut into pieces of `size` bytes.
pub open spec fn piece(data: Seq<u8>, size: nat, k: int) -> Seq<u8> {
    data.subrange(min_int(k * size, data.len() as int), min_int(k * size + size, data.len() as int))
}

/// The bytes of `data` from `from` up to `to`.
pub fn copy_range(data: &[u8], from: usize, to: usize) -> (v: Vec<u8>)
    requires
        from <= to <= data@.len(),
    ensures
        v@ == data@.subrange(from as int, to as int),
{
    let mut v: Vec<u8> = Vec::new();
    let mut i: usize = from;
    while i < to
        invariant
            from <= i <= to,
            to <= data@.len(),
            v@ == data@.subrange(from as int, i as int),
        decreases to - i,
    {
        v.push(data[i]);
        proof {
            assert(data@.subrange(from as int, i + 1 as int) =~= data@.subrange(from as int, i as int).push(data@[i as int]));
        }
        i = i + 1;
    }
    v
}

/// Cuts a file into the chunks of an upload: pieces of `chunk_size` bytes
/// (the last one shorter), the first one named; an empty file is one empty
/// named chunk.
pub fn build_upload_chunks(name: &str, data: &[u8], chunk_size: usize) -> (chunks: Vec<FileChunk>)
    requires
        chunk_size > 0 || data@.len() == 0,
        data@.len() + chunk_size <= usize::MAX,
    ensures
        chunks@.len() >= 1,
        data@.len() == 0 ==> chunks@.len() == 1,
        data@.len() > 0 ==> (chunks@.len() - 1) * chunk_size < data@.len() <= chunks@.len() * chunk_size,
        forall|k: int| 0 <= k < chunks@.len() ==> (#[trigger] chunks@[k]).name@ == (if k == 0 {
            name@
        } else {
            Seq::<char>::empty()
        }),
        forall|k: int| 0 <= k < chunks@.len() ==> (#[trigger] chunks@[k]).data@ == piece(data@, chunk_size as nat, k),
{
    let len = data.len();
    let ghost size = chunk_size as nat;
    let mut chunks: Vec<FileChunk> = Vec::new();
    let mut offset: usize = 0;
    let mut first = true;
    while offset < len || first
        invariant
            len == data@.len(),
            chunk_size > 0 || len == 0,
            len + chunk_size <= usize::MAX,
            size == chunk_size as nat,
            first <==> chunks@.len() == 0,
            offset as int == min_int((chunks@.len() * size) as int, len as int),
            chunks@.len() > 0 ==> (chunks@.len() - 1) * size < len || (chunks@.len() == 1 && len == 0),
            forall|k: int| 0 <= k < chunks@.len() ==> (#[trigger] chunks@[k]).name@ == (if k == 0 {
                name@
            } else {
                Seq::<char>::empty()
            }),
            forall|k: int| 0 <= k < chunks@.len() ==> (#[trigger] chunks@[k]).data@ == piece(data@, size, k),
        decreases len - offset + (if first { 1int } else { 0int }),
    {
        let ghost k = chunks@.len() as int;
        proof {
            assert(k * size + size == (k + 1) * size) by (nonlinear_arith);
            if !first {
                assert(offset < len);
            }
            assert(offset as int == k * size || (k == 0)) by {
                if k == 0 {
                    assert(k * size == 0) by (nonlinear_arith) requires k == 0;
                }
            }
            assert(k == 0 ==> k * size == 0) by (nonlinear_arith);
        }
        let end = if offset + chunk_size < len { offset + chunk_size } else { len };
        let piece_name = if first { name.to_owned() } else { String::new() };
        let bytes = copy_range(data, offset, end);
        chunks.push(FileChunk { name: piece_name, data: bytes });
        proof {
            assert(chunks@[k].data@ == piece(data@, size, k));
        }
        first = false;
        offset = end;
        proof {
            if chunk_size == 0 {
                assert(len == 0);
                assert((k + 1) * size == 0) by (nonlinear_arith) requires size == 0;
            }
        }
    }
    proof {
        if len > 0 {
            assert(chunks@.len() * size >= len);
        }
    }
    chunks
}


/// The bytes of a sequence of chunks, joined.
pub open spec fn joined(chunks: Seq<(Seq<char>, Seq<u8>)>) -> Seq<u8>
    decreases chunks.len(),
{
    if chunks.len() == 0 {
        Seq::empty()
    } else {
        joined(chunks.drop_last()) + chunks.last().1
    }
}

pub open spec fn chunk_views(chunks: Seq<FileChunk>) -> Seq<(Seq<char>, Seq<u8>)> {
    chunks.map_values(|c: FileChunk| (c.name@, c.data@))
}

/// The first `k` pieces of `data`, joined, are its first `k * size` bytes.
pub proof fn lemma_pieces_join(data: Seq<u8>, size: nat, chunks: Seq<(Seq<char>, Seq<u8>)>, k: int)
    requires
        size > 0,
        0 <= k <= chunks.len(),
        forall|j: int| 0 <= j < chunks.len() ==> (#[trigger] chunks[j]).1 == piece(data, size, j),
    ensures
        joined(chunks.take(k)) == data.subrange(0, min_int(k * size, data.len() as int)),
    decreases k,
{
    if k > 0 {
        lemma_pieces_join(data, size, chunks, k - 1);
        assert(chunks.take(k).drop_last() =~= chunks.take(k - 1));
        assert((k - 1) * size + size == k * size) by (nonlinear_arith);
        assert((k - 1) * size >= 0) by (nonlinear_arith) requires k >= 1;
        assert(data.subrange(0, min_int(k * size, data.len() as int)) =~= data.subrange(
            0,
            min_int((k - 1) * size, data.len() as int),
        ) + piece(data, size, k - 1));
    } else {
        assert(chunks.take(0) =~= Seq::<(Seq<char>, Seq<u8>)>::empty());
    }
}

/// The chunks of an upload join back to the file.
pub proof fn lemma_upload_chunks_join(name: Seq<char>, data: Seq<u8>, size: nat, chunks: Seq<FileChunk>)
    requires
        chunks.len() >= 1,
        size > 0 || data.len() == 0,
        data.len() == 0 ==> chunks.len() == 1,
        data.len() > 0 ==> (chunks.len() - 1) * size < data.len() <= chunks.len() * size,
        forall|k: int| 0 <= k < chunks.len() ==> (#[trigger] chunks[k]).data@ == piece(data, size, k),
    ensures
        joined(chunk_views(chunks)) == data,
{
    let views = chunk_views(chunks);
    if size > 0 {
        lemma_pieces_join(data, size, views, views.len() as int);
        assert(views.take(views.len() as int) =~= views);
        if data.len() == 0 {
            assert(data.subrange(0, 0) =~= data);
        } else {
            assert(data.subrange(0, data.len() as int) =~= data);
        }
    } else {
        assert(views.drop_last() =~= Seq::<(Seq<char>, Seq<u8>)>::empty());
        assert(piece(data, size, 0) =~= data);
        assert(views.len() == 1);
        assert(joined(views.drop_last()) =~= Seq::<u8>::empty());
        assert(joined(views) =~= views.last().1);
    }
}

/// The chunk that a read of `data` gives (by name and bytes), and whether
/// the next chunk is still the first: a non-empty read is sent, named when
/// first; the end of the file sends one empty named chunk when nothing was
/// sent yet.
pub open spec fn chunker_next(first: bool, name: Seq<char>, data: Seq<u8>) -> (Option<(Seq<char>, Seq<u8>)>, bool) {
    if data.len() > 0 {
        (Some((if first { name } else { Seq::<char>::empty() }, data)), false)
    } else if first {
        (Some((name, Seq::<u8>::empty())), true)
    } else {
        (None, false)
    }
}

/// The chunks sent for a sequence of reads, from the given first-chunk state.
pub open spec fn chunker_run(first: bool, name: Seq<char>, reads: Seq<Seq<u8>>) -> Seq<(Seq<char>, Seq<u8>)>
    decreases reads.len(),
{
    if reads.len() == 0 {
        Seq::empty()
    } else {
        let (c, next_first) = chunker_next(first, name, reads[0]);
        match c {
            Some(x) => seq![x] + chunker_run(next_first, name, reads.drop_first()),
            None => chunker_run(next_first, name, reads.drop_first()),
        }
    }
}

/// The pieces a file is sent in: the bytes of each read, or one empty
/// piece for an empty file.
pub open spec fn sent_pieces(reads: Seq<Seq<u8>>) -> Seq<Seq<u8>> {
    if reads.len() == 0 {
        seq![Seq::<u8>::empty()]
    } else {
        reads
    }
}

proof fn lemma_chunker_later(name: Seq<char>, reads: Seq<Seq<u8>>)
    requires
        forall|k: int| 0 <= k < reads.len() ==> (#[trigger] reads[k]).len() > 0,
    ensures
        chunker_run(false, name, reads.push(Seq::empty())) == Seq::new(
            reads.len(),
            |k: int| (Seq::<char>::empty(), reads[k]),
        ),
    decreases reads.len(),
{
    let all = reads.push(Seq::empty());
    if reads.len() == 0 {
        assert(all.drop_first() =~= Seq::<Seq<u8>>::empty());
        assert(all[0].len() == 0);
        assert(chunker_run(false, name, all.drop_first()) == Seq::<(Seq<char>, Seq<u8>)>::empty());
        assert(chunker_run(false, name, all) =~= Seq::<(Seq<char>, Seq<u8>)>::empty());
    } else {
        assert(all.drop_first() =~= reads.drop_first().push(Seq::empty()));
        assert(all[0] == reads[0]);
        lemma_chunker_later(name, reads.drop_first());
        assert(chunker_run(false, name, all) =~= Seq::new(reads.len(), |k: int| (Seq::<char>::empty(), reads[k])));
    }
}

/// Streaming a file sends the chunks the client reassembles it from: for
/// reads of non-empty pieces followed by the end of the file, the chunks
/// are the file's pieces in order, the first one named (one empty named
/// chunk for an empty file).
pub proof fn lemma_file_stream_chunks(name: Seq<char>, reads: Seq<Seq<u8>>)
    requires
        forall|k: int| 0 <= k < reads.len() ==> (#[trigger] reads[k]).len() > 0,
    ensures
        chunker_run(true, name, reads.push(Seq::empty())) == chunks_of_file(name, sent_pieces(reads)),
{
    let all = reads.push(Seq::empty());
    if reads.len() == 0 {
        assert(all.drop_first() =~= Seq::<Seq<u8>>::empty());
        assert(chunker_run(true, name, all.drop_first()) =~= Seq::<(Seq<char>, Seq<u8>)>::empty());
        assert(chunker_run(true, name, all) =~= chunks_of_file(name, sent_pieces(reads)));
    } else {
        assert(all.drop_first() =~= reads.drop_first().push(Seq::empty()));
        assert(all[0] == reads[0]);
        lemma_chunker_later(name, reads.drop_first());
        assert(chunker_run(true, name, all) =~= chunks_of_file(name, sent_pieces(reads)));
    }
}

/// Emits the chunks of a file as it is read: the first chunk carries the
/// name, and an empty file still gets one empty named chunk, so that a
/// client can tell an empty output from a missing one.
pub struct FileChunker {
    pub name: String,
    pub first: bool,
}

impl FileChunker {
    pub fn new(name: &str) -> (c: FileChunker)
        ensures
            c.name@ == name@,
            c.first,
    {
        FileChunker { name: name.to_owned(), first: true }
    }

    /// A read gave `data` (empty at the end of the file): the chunk to send,
    /// if any. The stream of a file ends with the first empty read.
    pub fn on_read(&mut self, data: Vec<u8>) -> (chunk: Option<FileChunk>)
        ensures
            final(self).name@ == old(self).name@,
            (match chunk {
                Some(c) => Some((c.name@, c.data@)),
                None => None,
            }, final(self).first) == chunker_next(old(self).first, old(self).name@, data@),
            data@.len() > 0 ==> {
                &&& chunk matches Some(c) && c.data@ == data@ && c.name@ == (if old(self).first {
                    old(self).name@
                } else {
                    Seq::<char>::empty()
                })
                &&& !final(self).first
            },
            data@.len() == 0 ==> {
                &&& old(self).first ==> (chunk matches Some(c) && c.data@.len() == 0 && c.name@ == old(self).name@)
                &&& !old(self).first ==> chunk is None
                &&& final(self).first == old(self).first
            },
    {
        if data.len() == 0 {
            if self.first {
                return Some(FileChunk { name: self.name.clone(), data: Vec::new() });
            }
            return None;
        }
        let name = if self.first { self.name.clone() } else { String::new() };
        self.first = false;
        Some(FileChunk { name, data })
    }
}

/// What streaming a file reports: its size and how many chunks of the
/// configured size that makes.
pub struct StreamedFile {
    pub bytes: u64,
    pub chunks: u64,
}

impl StreamedFile {
    /// A file of `bytes` bytes sent in chunks of `chunk_size`: the number of
    /// chunks is the size divided by the chunk size, rounded up.
    pub fn new(bytes: u64, chunk_size: u64) -> (f: StreamedFile)
        requires
            chunk_size > 0,
        ensures
            f.bytes == bytes,
            (f.chunks as int) * (chunk_size as int) >= bytes,
            f.chunks == 0 || ((f.chunks - 1) as int) * (chunk_size as int) < bytes,
    {
        let q = bytes / chunk_size;
        let r = bytes % chunk_size;
        proof {
            assert(q * chunk_size + r == bytes) by (nonlinear_arith) requires q == bytes / chunk_size, r == bytes % chunk_size, chunk_size > 0;
            assert(q <= q * chunk_size) by (nonlinear_arith) requires chunk_size > 0, q >= 0;
            assert((q - 1) * chunk_size == q * chunk_size - chunk_size) by (nonlinear_arith);
        }
        let chunks = if r != 0 { q + 1 } else { q };
        proof {
            assert(q * chunk_size + r == bytes) by (nonlinear_arith) requires q == bytes / chunk_size, r == bytes % chunk_size, chunk_size > 0;
            assert(r < chunk_size) by (nonlinear_arith) requires r == bytes % chunk_size, chunk_size > 0;
            assert((q + 1) * chunk_size == q * chunk_size + chunk_size) by (nonlinear_arith);
            assert(q * chunk_size <= bytes);
        }
        StreamedFile { bytes, chunks }
    }
}

/// What the server does with an accepted upload chunk.
#[derive(Debug)]
pub enum UploadAction {
    /// The first chunk: create the file `name` and write `data` to it.
    Create(String, Vec<u8>),
    /// A later chunk: append `data`.
    Append(Vec<u8>),
}

/// How the upload protocol answers one chunk, from the file name taken so
/// far: the name after it, or an error.
pub open spec fn upload_step(filename: Option<Seq<char>>, chunk_name: Seq<char>) -> Result<Option<Seq<char>>, ErrorView> {
    if chunk_name.len() > 0 {
        if filename is Some {
            Err(invalid_argument("filename may only be set in the first chunk"@))
        } else if workspace_filename_check(chunk_name) is Some {
            Err(workspace_filename_check(chunk_name)->0)
        } else {
            Ok(Some(chunk_name))
        }
    } else if filename is Some {
        Ok(filename)
    } else {
        Err(invalid_argument("no filename provided in first chunk"@))
    }
}

/// Feeding a stream of chunks to the upload protocol: the name and bytes
/// of the file written, or the first error.
pub open spec fn upload_fold(chunks: Seq<(Seq<char>, Seq<u8>)>) -> Result<(Option<Seq<char>>, Seq<u8>), ErrorView>
    decreases chunks.len(),
{
    if chunks.len() == 0 {
        Ok((None, Seq::empty()))
    } else {
        match upload_fold(chunks.drop_last()) {
            Err(e) => Err(e),
            Ok((name, bytes)) => match upload_step(name, chunks.last().0) {
                Err(e) => Err(e),
                Ok(n) => Ok((n, bytes + chunks.last().1)),
            },
        }
    }
}

/// The server side of `UploadFile`: the first chunk names the file, later
/// chunks only add bytes.
pub struct UploadReceiver {
    pub filename: Option<String>,
    pub total_size: u64,
}

impl UploadReceiver {
    pub open spec fn name_view(&self) -> Option<Seq<char>> {
        match self.filename {
            Some(n) => Some(n@),
            None => None,
        }
    }

    pub fn new() -> (r: UploadReceiver)
        ensures
            r.filename is None,
            r.total_size == 0,
    {
        UploadReceiver { filename: None, total_size: 0 }
    }

    /// Takes one chunk: the action to perform, or the error that ends the
    /// upload.
    pub fn on_chunk(&mut self, chunk: FileChunk) -> (res: Result<UploadAction, RunnerError>)
        requires
            old(self).total_size + chunk.data@.len() <= u64::MAX,
        ensures
            match upload_step(old(self).name_view(), chunk.name@) {
                Err(e) => res matches Err(r) && r@ == e,
                Ok(n) => {
                    &&& final(self).name_view() == n
                    &&& final(self).total_size == old(self).total_size + chunk.data@.len()
                    &&& match res {
                        Ok(UploadAction::Create(name, data)) => old(self).filename is None && name@ == chunk.name@
                            && data@ == chunk.data@,
                        Ok(UploadAction::Append(data)) => old(self).filename is Some && data@ == chunk.data@,
                        Err(_) => false,
                    }
                },
            },
    {
        let len = chunk.data.len();
        if !chunk.name.as_str().is_empty() {
            proof {
                assert(chunk.name@.len() > 0);
            }
            if self.filename.is_some() {
                return Err(RunnerError::new(
                    StatusCode::InvalidArgument,
                    "filename may only be set in the first chunk".to_owned(),
                ));
            }
            match validate_workspace_filename(chunk.name.as_str()) {
                Ok(()) => {},
                Err(e) => {
                    return Err(e);
                },
            }
            self.filename = Some(chunk.name.clone());
            self.total_size = self.total_size + len as u64;
            Ok(UploadAction::Create(chunk.name, chunk.data))
        } else {
            proof {
                assert(chunk.name@.len() == 0);
            }
            if self.filename.is_some() {
                self.total_size = self.total_size + len as u64;
                Ok(UploadAction::Append(chunk.data))
            } else {
                Err(RunnerError::new(StatusCode::InvalidArgument, "no filename provided in first chunk".to_owned()))
            }
        }
    }

    /// The stream ended: the name of the uploaded file, or an error when no
    /// chunk named one.
    pub fn finish(&self) -> (res: Result<String, RunnerError>)
        ensures
            match self.filename {
                Some(n) => res matches Ok(r) && r@ == n@,
                None => res matches Err(e) && e@ == invalid_argument("no filename provided"@),
            },
    {
        match &self.filename {
            Some(n) => Ok(n.clone()),
            None => Err(RunnerError::new(StatusCode::InvalidArgument, "no filename provided".to_owned())),
        }
    }
}

/// Uploading a file by the client's chunks writes the file under its name:
/// for a valid name, the server ends with that name and exactly the bytes
/// of the file.
pub proof fn lemma_upload_round_trip(name: Seq<char>, data: Seq<u8>, size: nat, chunks: Seq<FileChunk>)
    requires
        workspace_filename_check(name) is None,
        chunks.len() >= 1,
        size > 0 || data.len() == 0,
        data.len() == 0 ==> chunks.len() == 1,
        data.len() > 0 ==> (chunks.len() - 1) * size < data.len() <= chunks.len() * size,
        forall|k: int| 0 <= k < chunks.len() ==> (#[trigger] chunks[k]).name@ == (if k == 0 {
            name
        } else {
            Seq::<char>::empty()
        }),
        forall|k: int| 0 <= k < chunks.len() ==> (#[trigger] chunks[k]).data@ == piece(data, size, k),
    ensures
        upload_fold(chunk_views(chunks)) == Ok::<(Option<Seq<char>>, Seq<u8>), ErrorView>((Some(name), data)),
{
    lemma_upload_chunks_join(name, data, size, chunks);
    let views = chunk_views(chunks);
    lemma_upload_fold_prefix(name, views, views.len() as int);
    assert(views.take(views.len() as int) =~= views);
}

proof fn lemma_upload_fold_prefix(name: Seq<char>, views: Seq<(Seq<char>, Seq<u8>)>, k: int)
    requires
        workspace_filename_check(name) is None,
        1 <= k <= views.len(),
        forall|j: int| 0 <= j < views.len() ==> (#[trigger] views[j]).0 == (if j == 0 {
            name
        } else {
            Seq::<char>::empty()
        }),
    ensures
        upload_fold(views.take(k)) == Ok::<(Option<Seq<char>>, Seq<u8>), ErrorView>((Some(name), joined(views.take(k)))),
    decreases k,
{
    assert(views.take(k).drop_last() =~= views.take(k - 1));
    assert(views.take(k).last() == views[k - 1]);
    if k == 1 {
        assert(views.take(0) =~= Seq::<(Seq<char>, Seq<u8>)>::empty());
        assert(name.len() > 0);
    } else {
        lemma_upload_fold_prefix(name, views, k - 1);
    }
}
} // verus!
