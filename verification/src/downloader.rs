//! What the downloader decides: how a file is split into byte ranges, how a
//! server's `Content-Range` answer is read and checked, and how the progress
//! record evolves while bytes arrive.
use crate::error::Error;
use crate::text::{
    chars_eq_ignore_ascii_case, chars_of, decimal, eq_ignore_ascii_case, find_char, header_chars,
    header_text, header_view, is_digit, last_piece, last_piece_of, lemma_last_piece_has_no_separator, lemma_decimal,
    lemma_decimal_injective, lemma_first_of, lemma_parse_u64_decimal, parse_u64, parse_u64_in,
    push_decimal, second_piece, second_piece_of, split_once, string_of, trim_quotes, trim_quotes_of,
};
use std::time::Instant;
use vstd::prelude::*;
use vstd::string::*;

verus! {

/// Where a download stands.
#[derive(Debug, Clone, Copy, PartialEq, Eq, Structural)]
pub enum DownloadStatus {
    Connecting,
    Downloading,
    ConnectingNewConnection,
    Stalled,
    Completed,
    Failed,
}

/// What is known of a download while it runs; shown to the user after every change.
#[derive(Debug, Clone, Copy)]
pub struct DownloadProgress {
    pub status: DownloadStatus,
    /// The HTTP status code of the server's first answer.
    pub http_status: Option<u16>,
    pub connections: u8,
    /// The size the server announced, when it announced one.
    pub total_size: Option<u64>,
    pub downloaded_size: u64,
    pub started_at: Option<Instant>,
    pub last_bytestream: Option<Instant>,
}

/// Whether an HTTP status code means success (200 to 299), as `StatusCode::is_success` says.
pub open spec fn is_success(status: u16) -> bool {
    200 <= status && status < 300
}

/// How many connections a progress record shows for `n` connections: the
/// count is kept in a byte and wraps as `n as u8` does.
pub open spec fn shown_connections(n: nat) -> u8 {
    (n % 256) as u8
}

/// How many connections a file of `total` bytes is fetched over when
/// `wanted` are asked for: no more than it has bytes.
pub open spec fn usable_connections(wanted: nat, total: nat) -> nat {
    if wanted < total {
        wanted
    } else {
        total
    }
}

/// The number of parallel connections used unless the user forces another.
pub const DEFAULT_CONNECTIONS: usize = 4;

/// The number of connections asked for: the forced number when the user
/// forced one, the default otherwise.
pub open spec fn wanted_connections(force_connection: bool, forced: Option<u32>) -> nat {
    if force_connection {
        match forced {
            Some(n) => n as nat,
            None => DEFAULT_CONNECTIONS as nat,
        }
    } else {
        DEFAULT_CONNECTIONS as nat
    }
}

/// The number of connections asked for on the command line.
pub fn connection_count(force_connection: bool, forced: Option<u32>) -> (n: usize)
    ensures
        n == wanted_connections(force_connection, forced),
        force_connection && forced is Some ==> n == forced->0,
        !force_connection || forced is None ==> n == 4,
{
    if force_connection {
        match forced {
            Some(n) => n as usize,
            None => DEFAULT_CONNECTIONS,
        }
    } else {
        DEFAULT_CONNECTIONS
    }
}

/// A number of connections forced by the user is the number used, whatever
/// it is; without one, four connections are used.
pub proof fn lemma_forced_connections_are_used(n: u32, forced: Option<u32>)
    ensures
        wanted_connections(true, Some(n)) == n,
        wanted_connections(true, None) == 4,
        wanted_connections(false, forced) == 4,
{
}

/// `b` can follow `a` in what a download shows: the bytes downloaded never
/// go down, the start time never changes once set, and a download that has
/// left `Connecting` never shows `Connecting` again.
pub open spec fn advances(a: DownloadProgress, b: DownloadProgress) -> bool {
    &&& a.downloaded_size <= b.downloaded_size
    &&& a.started_at is Some ==> b.started_at == a.started_at
    &&& a.status != DownloadStatus::Connecting ==> b.status != DownloadStatus::Connecting
}

/// `b` does not complete what `a` had not completed: only `complete_ranges`
/// and `complete_stream` make a download `Completed`.
pub open spec fn completes_nothing(a: DownloadProgress, b: DownloadProgress) -> bool {
    b.status == DownloadStatus::Completed ==> a.status == DownloadStatus::Completed
}

/// Over any run of progress values each of which follows the one before
/// it, every value follows every earlier one: the downloaded count never
/// goes down, the start time once set stays, and `Connecting` never comes back.
pub proof fn lemma_progress_never_goes_back(ws: Seq<DownloadProgress>)
    requires
        forall|i: int| 0 <= i < ws.len() - 1 ==> advances(#[trigger] ws[i], ws[i + 1]),
    ensures
        forall|i: int, j: int| 0 <= i <= j < ws.len() ==> advances(#[trigger] ws[i], #[trigger] ws[j]),
{
    assert forall|i: int, j: int| 0 <= i <= j < ws.len() implies advances(
        #[trigger] ws[i],
        #[trigger] ws[j],
    ) by {
        lemma_advances_from(ws, i, j);
    }
}

proof fn lemma_advances_from(ws: Seq<DownloadProgress>, i: int, j: int)
    requires
        forall|k: int| 0 <= k < ws.len() - 1 ==> advances(#[trigger] ws[k], ws[k + 1]),
        0 <= i <= j < ws.len(),
    ensures
        advances(ws[i], ws[j]),
    decreases j - i,
{
    if i < j {
        lemma_advances_from(ws, i, j - 1);
        assert(advances(ws[j - 1], ws[j]));
    }
}

impl DownloadProgress {
    /// A download that is still connecting and has received nothing.
    pub fn new() -> (p: Self)
        ensures
            p.status == DownloadStatus::Connecting,
            p.http_status is None,
            p.connections == 0,
            p.total_size is None,
            p.downloaded_size == 0,
            p.started_at is None,
            p.last_bytestream is None,
    {
        DownloadProgress {
            status: DownloadStatus::Connecting,
            http_status: None,
            connections: 0,
            total_size: None,
            downloaded_size: 0,
            started_at: None,
            last_bytestream: None,
        }
    }

    /// Records the server's first answer, its status code and announced
    /// length; a status outside 200..=299 ends the download with that status.
    pub fn record_response(&mut self, status: u16, content_length: Option<u64>) -> (r: Result<
        (),
        Error,
    >)
        ensures
            final(self).http_status == Some(status),
            final(self).total_size == content_length,
            final(self).status == old(self).status,
            final(self).connections == old(self).connections,
            final(self).downloaded_size == old(self).downloaded_size,
            final(self).started_at == old(self).started_at,
            final(self).last_bytestream == old(self).last_bytestream,
            advances(*old(self), *final(self)),
            completes_nothing(*old(self), *final(self)),
            is_success(status) ==> r is Ok,
            !is_success(status) ==> (r matches Err(Error::NetworkStatus(s)) && s == status),
    {
        self.http_status = Some(status);
        self.total_size = content_length;
        if !(200 <= status && status < 300) {
            return Err(Error::NetworkStatus(status));
        }
        Ok(())
    }

    /// Chooses how to fetch the body. When the size is known, the server
    /// announced byte ranges and answered a probe for a range with
    /// "206 Partial Content", the file is split into `connectionsno` ranges
    /// fetched in parallel, or into one range per byte for a file smaller
    /// than that; otherwise (and for an empty file or no connection at all)
    /// it is read as one stream.
    pub fn plan_connections(
        &mut self,
        accepts_ranges: bool,
        range_probe_status: u16,
        connectionsno: usize,
    ) -> (r: Option<Vec<Connection>>)
        ensures
            match old(self).total_size {
                Some(t) => if accepts_ranges && range_probe_status == 206 && usable_connections(
                    connectionsno as nat,
                    t as nat,
                ) > 0 {
                    let n = usable_connections(connectionsno as nat, t as nat);
                    &&& r matches Some(c) && is_split(c@, t as nat, n)
                    &&& final(self).connections == shown_connections(n)
                } else {
                    r is None && final(self).connections == 1
                },
                None => r is None && final(self).connections == 1,
            },
            advances(*old(self), *final(self)),
            completes_nothing(*old(self), *final(self)),
            final(self).status == old(self).status,
            final(self).http_status == old(self).http_status,
            final(self).total_size == old(self).total_size,
            final(self).downloaded_size == old(self).downloaded_size,
            final(self).started_at == old(self).started_at,
            final(self).last_bytestream == old(self).last_bytestream,
    {
        match self.total_size {
            Some(total_size) => {
                let usable: usize = if (connectionsno as u64) < total_size {
                    connectionsno
                } else {
                    total_size as usize
                };
                if accepts_ranges && range_probe_status == 206 && usable > 0 {
                    let connections = split_connections(total_size, usable);
                    self.connections = (connections.len() % 256) as u8;
                    return Some(connections);
                }
            },
            None => {},
        }
        self.connections = 1;
        None
    }

    /// Records `n` more bytes received at `now`. The first bytes mark the
    /// start of the transfer: the download is then downloading.
    pub fn add_bytes(&mut self, n: u64, now: Instant)
        requires
            old(self).downloaded_size + n <= u64::MAX,
        ensures
            final(self).downloaded_size == old(self).downloaded_size + n,
            final(self).last_bytestream == Some(now),
            old(self).started_at is None ==> final(self).started_at == Some(now)
                && final(self).status == DownloadStatus::Downloading,
            old(self).started_at is Some ==> final(self).started_at == old(self).started_at
                && final(self).status == old(self).status,
            final(self).http_status == old(self).http_status,
            final(self).connections == old(self).connections,
            final(self).total_size == old(self).total_size,
            advances(*old(self), *final(self)),
            completes_nothing(*old(self), *final(self)),
    {
        self.downloaded_size = self.downloaded_size + n;
        self.last_bytestream = Some(now);
        if self.started_at.is_none() {
            self.started_at = Some(now);
            self.status = DownloadStatus::Downloading;
        }
    }

    /// Marks a download over parallel ranges as complete: all `total_size`
    /// bytes are in and no connection is open.
    pub fn complete_ranges(&mut self, total_size: u64)
        ensures
            final(self).downloaded_size == total_size,
            final(self).connections == 0,
            final(self).status == DownloadStatus::Completed,
            final(self).http_status == old(self).http_status,
            final(self).total_size == old(self).total_size,
            final(self).started_at == old(self).started_at,
            final(self).last_bytestream == old(self).last_bytestream,
            old(self).downloaded_size <= total_size ==> advances(*old(self), *final(self)),
    {
        self.downloaded_size = total_size;
        self.connections = 0;
        self.status = DownloadStatus::Completed;
    }

    /// Marks a streamed download as complete: no connection is open.
    pub fn complete_stream(&mut self)
        ensures
            final(self).status == DownloadStatus::Completed,
            final(self).connections == 0,
            final(self).downloaded_size == old(self).downloaded_size,
            final(self).http_status == old(self).http_status,
            final(self).total_size == old(self).total_size,
            final(self).started_at == old(self).started_at,
            final(self).last_bytestream == old(self).last_bytestream,
            advances(*old(self), *final(self)),
    {
        self.status = DownloadStatus::Completed;
        self.connections = 0;
    }
}

/// An inclusive range of byte positions `start..=end` of the remote file.
#[derive(Debug, Clone, Copy)]
pub struct ByteRange {
    pub start: u64,
    pub end: u64,
}

impl ByteRange {
    /// The number of bytes the range covers, `end - start + 1`.
    pub open spec fn span(self) -> int {
        self.end - self.start + 1
    }

    /// The number of bytes in the range.
    pub fn size(&self) -> (n: u64)
        requires
            self.start <= self.end,
            self.span() <= u64::MAX,
        ensures
            n == self.span(),
    {
        self.end - self.start + 1
    }
}

/// One of the parallel connections of a download, with the range it fetches
/// and how many bytes of it have been written so far.
pub struct Connection {
    pub id: usize,
    pub range: ByteRange,
    pub downloaded: u64,
}

/// How many received bytes a connection gathers before writing them out.
pub const BATCH_SIZE: usize = 1048576;

/// The bytes one connection has received but not yet written, and the file
/// position where they belong.
pub struct ConnectionWriter {
    pub connection: Connection,
    /// The file position of the next byte to be written.
    pub offset: u64,
    pub buffer: Vec<u8>,
}

impl ConnectionWriter {
    /// The next byte goes right after all those handed out so far.
    pub open spec fn wf(&self) -> bool {
        self.offset == self.connection.range.start + self.connection.downloaded
    }

    /// Starts writing `connection`'s range at its first byte.
    pub fn new(connection: Connection) -> (w: Self)
        ensures
            w.connection == connection,
            w.offset == connection.range.start,
            w.buffer@.len() == 0,
            connection.downloaded == 0 ==> w.wf(),
    {
        let start = connection.range.start;
        ConnectionWriter { connection, offset: start, buffer: Vec::new() }
    }

    /// Takes in a chunk received from the server. Once a full batch has
    /// gathered, hands it out with the file position where it goes, and
    /// counts it as written: the next batch goes right after it.
    pub fn push_chunk(&mut self, chunk: &[u8]) -> (r: Option<(Vec<u8>, u64)>)
        requires
            old(self).offset + old(self).buffer@.len() + chunk@.len() <= u64::MAX,
            old(self).connection.downloaded + old(self).buffer@.len() + chunk@.len() <= u64::MAX,
        ensures
            final(self).connection.id == old(self).connection.id,
            final(self).connection.range == old(self).connection.range,
            old(self).wf() ==> final(self).wf(),
            ({
                let all = old(self).buffer@ + chunk@;
                if all.len() >= BATCH_SIZE {
                    &&& r matches Some((batch, at)) && batch@ == all && at == old(self).offset
                    &&& final(self).buffer@.len() == 0
                    &&& final(self).offset == old(self).offset + all.len()
                    &&& final(self).connection.downloaded == old(self).connection.downloaded
                        + all.len()
                } else {
                    &&& r is None
                    &&& final(self).buffer@ == all
                    &&& final(self).offset == old(self).offset
                    &&& final(self).connection.downloaded == old(self).connection.downloaded
                }
            }),
    {
        let mut i: usize = 0;
        let ghost before = self.buffer@;
        let ghost offset0 = self.offset;
        let ghost id0 = self.connection.id;
        let ghost range0 = self.connection.range;
        let ghost downloaded0 = self.connection.downloaded;
        while i < chunk.len()
            invariant
                i <= chunk@.len(),
                self.buffer@ == before + chunk@.take(i as int),
                self.offset == offset0,
                self.connection.id == id0,
                self.connection.range == range0,
                self.connection.downloaded == downloaded0,
                offset0 + before.len() + chunk@.len() <= u64::MAX,
                downloaded0 + before.len() + chunk@.len() <= u64::MAX,
            decreases chunk@.len() - i,
        {
            self.buffer.push(chunk[i]);
            i = i + 1;
            assert(self.buffer@ =~= before + chunk@.take(i as int));
        }
        assert(chunk@.take(i as int) =~= chunk@);
        if self.buffer.len() >= BATCH_SIZE {
            let mut batch: Vec<u8> = Vec::new();
            std::mem::swap(&mut batch, &mut self.buffer);
            let at = self.offset;
            let len = batch.len() as u64;
            self.offset = self.offset + len;
            self.connection.downloaded = self.connection.downloaded + len;
            Some((batch, at))
        } else {
            None
        }
    }

    /// Hands out what is left once the server has sent everything, with the
    /// file position where it goes.
    pub fn finish(&mut self) -> (r: Option<(Vec<u8>, u64)>)
        requires
            old(self).offset + old(self).buffer@.len() <= u64::MAX,
            old(self).connection.downloaded + old(self).buffer@.len() <= u64::MAX,
        ensures
            final(self).connection.id == old(self).connection.id,
            final(self).connection.range == old(self).connection.range,
            old(self).wf() ==> final(self).wf(),
            final(self).buffer@.len() == 0,
            final(self).offset == old(self).offset + old(self).buffer@.len(),
            final(self).connection.downloaded == old(self).connection.downloaded + old(
                self,
            ).buffer@.len(),
            old(self).buffer@.len() == 0 ==> r is None,
            old(self).buffer@.len() > 0 ==> (r matches Some((batch, at)) && batch@ == old(
                self,
            ).buffer@ && at == old(self).offset),
    {
        if self.buffer.len() == 0 {
            return None;
        }
        let mut batch: Vec<u8> = Vec::new();
        std::mem::swap(&mut batch, &mut self.buffer);
        let at = self.offset;
        let len = batch.len() as u64;
        self.offset = self.offset + len;
        self.connection.downloaded = self.connection.downloaded + len;
        Some((batch, at))
    }

    /// Refuses a connection that did not write exactly its range's size.
    pub fn check_complete(&self) -> (r: Result<(), Error>)
        requires
            self.connection.range.start <= self.connection.range.end,
            self.connection.range.span() <= u64::MAX,
        ensures
            self.connection.downloaded == self.connection.range.span() ==> r is Ok,
            self.connection.downloaded != self.connection.range.span() ==> r matches Err(
                Error::InvalidArguments,
            ),
    {
        if self.connection.downloaded != self.connection.range.size() {
            return Err(Error::InvalidArguments);
        }
        Ok(())
    }
}

/// The first byte of piece `i` when `total` bytes are cut into `n` pieces.
pub open spec fn piece_start(total: nat, n: nat, i: nat) -> nat {
    i * (total / n)
}

/// One past the last byte of piece `i`: the last piece also takes the remainder.
pub open spec fn piece_stop(total: nat, n: nat, i: nat) -> nat {
    if i + 1 == n {
        total
    } else {
        (i + 1) * (total / n)
    }
}

/// `conns` is the result of cutting `total` bytes into `n` connections: the
/// `i`-th, numbered `i`, covers `piece_start..piece_stop` and has nothing
/// downloaded yet.
pub open spec fn is_split(conns: Seq<Connection>, total: nat, n: nat) -> bool {
    &&& conns.len() == n
    &&& forall|i: int|
        0 <= i < n ==> {
            let c = #[trigger] conns[i];
            &&& c.id == i
            &&& c.downloaded == 0
            &&& c.range.start == piece_start(total, n, i as nat)
            &&& c.range.end + 1 == piece_stop(total, n, i as nat)
        }
}

/// The number of bytes covered by all the ranges of `conns` together.
pub open spec fn total_span(conns: Seq<Connection>) -> int
    decreases conns.len(),
{
    if conns.len() == 0 {
        0
    } else {
        total_span(conns.drop_last()) + conns.last().range.span()
    }
}

proof fn lemma_split_prefix_span(conns: Seq<Connection>, total: nat, n: nat, k: nat)
    requires
        0 < n <= total,
        is_split(conns, total, n),
        k <= n,
    ensures
        total_span(conns.take(k as int)) == (if k == n {
            total as int
        } else {
            (k * (total / n)) as int
        }),
    decreases k,
{
    let split = total / n;
    assert(n * split <= total) by (nonlinear_arith)
        requires
            split == total / n,
            0 < n,
    ;
    if k == 0 {
        assert(conns.take(0) =~= Seq::<Connection>::empty());
    } else {
        let j = (k - 1) as nat;
        lemma_split_prefix_span(conns, total, n, j);
        assert(conns.take(k as int).drop_last() =~= conns.take(j as int));
        assert(conns.take(k as int).last() == conns[j as int]);
        let c = conns[j as int];
        assert(c.range.start == j * split);
        assert(k * split == j * split + split) by (nonlinear_arith)
            requires
                k == j + 1,
        ;
    }
}

/// Splitting a file into connections covers it exactly once: the ranges are
/// non-empty, the first starts at byte 0, each starts right after the one
/// before it ends, the last ends at the file's last byte, and their sizes add
/// up to the file's size.
pub proof fn lemma_split_tiles_file(conns: Seq<Connection>, total: nat, n: nat)
    requires
        0 < n <= total,
        is_split(conns, total, n),
    ensures
        conns[0].range.start == 0,
        conns[n - 1].range.end + 1 == total,
        forall|i: int| 0 <= i < n ==> #[trigger] conns[i].range.start <= conns[i].range.end,
        forall|i: int|
            0 <= i < n - 1 ==> #[trigger] conns[i + 1].range.start == conns[i].range.end + 1,
        total_span(conns) == total,
{
    let split = total / n;
    assert(n * split <= total && split >= 1) by (nonlinear_arith)
        requires
            split == total / n,
            0 < n <= total,
    ;
    assert(conns[0].range.start == 0) by {
        assert(0 * split == 0);
    }
    assert forall|i: int| 0 <= i < n implies #[trigger] conns[i].range.start
        <= conns[i].range.end by {
        assert(i * split + split == (i + 1) * split) by (nonlinear_arith);
        assert((i + 1) * split <= n * split) by (nonlinear_arith)
            requires
                i + 1 <= n,
                split >= 1,
        ;
    }
    assert forall|i: int| 0 <= i < n - 1 implies #[trigger] conns[i + 1].range.start
        == conns[i].range.end + 1 by {
        assert(conns[i].range.end + 1 == (i + 1) * split);
    }
    lemma_split_prefix_span(conns, total, n, n);
    assert(conns.take(n as int) =~= conns);
}

/// The bytes written by all the connections of `conns` together.
pub open spec fn total_downloaded(conns: Seq<Connection>) -> int
    decreases conns.len(),
{
    if conns.len() == 0 {
        0
    } else {
        total_downloaded(conns.drop_last()) + conns.last().downloaded
    }
}

proof fn lemma_downloaded_matches_spans(done: Seq<Connection>, planned: Seq<Connection>)
    requires
        done.len() == planned.len(),
        forall|i: int|
            0 <= i < done.len() ==> (#[trigger] done[i]).range == planned[i].range
                && done[i].downloaded == done[i].range.span(),
    ensures
        total_downloaded(done) == total_span(planned),
    decreases done.len(),
{
    if done.len() > 0 {
        lemma_downloaded_matches_spans(done.drop_last(), planned.drop_last());
    }
}

/// When every connection of a split has written exactly its range (what
/// `ConnectionWriter::check_complete` accepts), the bytes they wrote add up
/// to the file's size: a download over ranges that completes has received
/// the whole file, so its count does not go back when it is set to the size.
pub proof fn lemma_completed_connections_cover_file(
    planned: Seq<Connection>,
    done: Seq<Connection>,
    total: nat,
    n: nat,
)
    requires
        0 < n <= total,
        is_split(planned, total, n),
        done.len() == n,
        forall|i: int|
            0 <= i < n ==> (#[trigger] done[i]).range == planned[i].range
                && done[i].downloaded == done[i].range.span(),
    ensures
        total_downloaded(done) == total,
{
    lemma_split_tiles_file(planned, total, n);
    lemma_downloaded_matches_spans(done, planned);
}

/// Cuts a file of `total_size` bytes into `connectionsno` consecutive ranges
/// of equal size; the last range also takes the remainder.
pub fn split_connections(total_size: u64, connectionsno: usize) -> (connections: Vec<Connection>)
    requires
        0 < connectionsno,
        connectionsno <= total_size,
    ensures
        is_split(connections@, total_size as nat, connectionsno as nat),
{
    let n = connectionsno as u64;
    let split_size = total_size / n;
    let remainder = total_size % n;
    let ghost t = total_size as nat;
    let ghost nn = n as nat;
    assert(split_size >= 1 && n * split_size + remainder == total_size) by (nonlinear_arith)
        requires
            split_size == total_size / n,
            remainder == total_size % n,
            0 < n <= total_size,
    ;
    let mut connections: Vec<Connection> = Vec::with_capacity(connectionsno);
    let mut start: u64 = 0;
    let mut id: usize = 0;
    while id < connectionsno
        invariant
            n == connectionsno,
            0 < n <= total_size,
            split_size == total_size / n,
            remainder == total_size % n,
            split_size >= 1,
            n * split_size + remainder == total_size,
            id <= connectionsno,
            id < n ==> start == id * split_size,
            connections@.len() == id,
            forall|i: int|
                0 <= i < id ==> {
                    let c = #[trigger] connections@[i];
                    &&& c.id == i
                    &&& c.downloaded == 0
                    &&& c.range.start == piece_start(total_size as nat, n as nat, i as nat)
                    &&& c.range.end + 1 == piece_stop(total_size as nat, n as nat, i as nat)
                },
        decreases connectionsno - id,
    {
        assert((id + 1) * split_size <= n * split_size) by (nonlinear_arith)
            requires
                id + 1 <= n,
                split_size >= 1,
        ;
        assert((id + 1) * split_size == id * split_size + split_size) by (nonlinear_arith);
        assert(id * split_size + split_size + remainder <= total_size);
        let size = if id == connectionsno - 1 {
            split_size + remainder
        } else {
            split_size
        };
        let end = start + size - 1;
        connections.push(Connection { id, range: ByteRange { start, end }, downloaded: 0 });
        start = end + 1;
        id = id + 1;
    }
    connections
}

/// The text `bytes ` that starts a `Content-Range` value.
pub open spec fn bytes_unit_prefix() -> Seq<char> {
    seq!['b', 'y', 't', 'e', 's', ' ']
}

/// The `(start, end, total)` of a `Content-Range` value `bytes START-END/TOTAL`,
/// read as `parse_content_range` reads it: after the prefix, the text is cut
/// at its first `/` into range and total, the range at its first `-` into
/// start and end, and each of the three must parse as a `u64`.
pub open spec fn content_range(s: Seq<char>) -> Option<(u64, u64, u64)> {
    if s.len() >= 6 && s.take(6) == bytes_unit_prefix() {
        match split_once(s.skip(6), '/') {
            Some((range, total)) => match split_once(range, '-') {
                Some((a, b)) => match (parse_u64(a), parse_u64(b), parse_u64(total)) {
                    (Some(x), Some(y), Some(z)) => Some((x, y, z)),
                    _ => None,
                },
                None => None,
            },
            None => None,
        }
    } else {
        None
    }
}

/// The `Content-Range` value a server sends for bytes `start..=end` of a
/// file of `total` bytes.
pub open spec fn content_range_text(start: u64, end: u64, total: u64) -> Seq<char> {
    bytes_unit_prefix() + decimal(start as nat) + seq!['-'] + decimal(end as nat) + seq!['/']
        + decimal(total as nat)
}

/// Reading a `Content-Range` value gives back the numbers it was written from.
pub proof fn lemma_content_range_round_trip(start: u64, end: u64, total: u64)
    ensures
        content_range(content_range_text(start, end, total)) == Some((start, end, total)),
{
    let ds = decimal(start as nat);
    let de = decimal(end as nat);
    let dt = decimal(total as nat);
    lemma_decimal(start as nat);
    lemma_decimal(end as nat);
    lemma_decimal(total as nat);
    lemma_parse_u64_decimal(start);
    lemma_parse_u64_decimal(end);
    lemma_parse_u64_decimal(total);
    let s = content_range_text(start, end, total);
    let range = ds + seq!['-'] + de;
    let rest = range + seq!['/'] + dt;
    assert(s.take(6) =~= bytes_unit_prefix());
    assert(s.skip(6) =~= rest);
    let k = range.len() as int;
    assert forall|j: int| 0 <= j < k implies rest[j] != '/' by {
        if j < ds.len() {
            assert(rest[j] == ds[j]);
            assert(is_digit(ds[j]));
        } else if j > ds.len() {
            assert(rest[j] == de[j - ds.len() - 1]);
            assert(is_digit(de[j - ds.len() - 1]));
        }
    }
    lemma_first_of(rest, '/', k);
    assert(rest.take(k) =~= range);
    assert(rest.skip(k + 1) =~= dt);
    let m = ds.len() as int;
    assert forall|j: int| 0 <= j < m implies range[j] != '-' by {
        assert(range[j] == ds[j]);
        assert(is_digit(ds[j]));
    }
    lemma_first_of(range, '-', m);
    assert(range.take(m) =~= ds);
    assert(range.skip(m + 1) =~= de);
}

/// Reads a `Content-Range` header value such as `bytes 0-499/1234`.
pub fn parse_content_range(value: &str) -> (r: Result<(u64, u64, u64), Error>)
    ensures
        match content_range(value@) {
            Some(t) => r matches Ok(u) && u == t,
            None => r matches Err(Error::InvalidArguments),
        },
{
    let v = chars_of(value);
    content_range_of(&v)
}

/// Reads the `Content-Range` value held in `v`.
fn content_range_of(v: &Vec<char>) -> (r: Result<(u64, u64, u64), Error>)
    ensures
        match content_range(v@) {
            Some(t) => r matches Ok(u) && u == t,
            None => r matches Err(Error::InvalidArguments),
        },
{
    let n = v.len();
    let ghost s = v@;
    if n < 6 || v[0] != 'b' || v[1] != 'y' || v[2] != 't' || v[3] != 'e' || v[4] != 's' || v[5]
        != ' ' {
        assert(s.len() < 6 || s.take(6) != bytes_unit_prefix()) by {
            if s.len() >= 6 {
                assert(s.take(6)[0] == s[0]);
                assert(s.take(6)[1] == s[1]);
                assert(s.take(6)[2] == s[2]);
                assert(s.take(6)[3] == s[3]);
                assert(s.take(6)[4] == s[4]);
                assert(s.take(6)[5] == s[5]);
            }
        }
        return Err(Error::InvalidArguments);
    }
    assert(s.take(6) =~= bytes_unit_prefix());
    let ghost rest = s.skip(6);
    assert(v@.subrange(6, n as int) =~= rest);
    let k = match find_char(v, 6, n, '/') {
        Some(k) => k,
        None => {
            return Err(Error::InvalidArguments);
        },
    };
    proof {
        lemma_first_of(rest, '/', k - 6);
    }
    let ghost range = rest.take(k - 6);
    let ghost total = rest.skip(k - 6 + 1);
    assert(v@.subrange(6, k as int) =~= range);
    assert(v@.subrange(k + 1, n as int) =~= total);
    let j = match find_char(v, 6, k, '-') {
        Some(j) => j,
        None => {
            return Err(Error::InvalidArguments);
        },
    };
    proof {
        lemma_first_of(range, '-', j - 6);
    }
    assert(v@.subrange(6, j as int) =~= range.take(j - 6));
    assert(v@.subrange(j + 1, k as int) =~= range.skip(j - 6 + 1));
    let start = match parse_u64_in(v, 6, j) {
        Some(x) => x,
        None => {
            return Err(Error::InvalidArguments);
        },
    };
    let end = match parse_u64_in(v, j + 1, k) {
        Some(x) => x,
        None => {
            return Err(Error::InvalidArguments);
        },
    };
    let total_size = match parse_u64_in(v, k + 1, n) {
        Some(x) => x,
        None => {
            return Err(Error::InvalidArguments);
        },
    };
    Ok((start, end, total_size))
}

/// Whether the answer to a ranged request for `range` of a `total_size`
/// file is acceptable: its `Content-Range` header is present, is text, and
/// names exactly that range and total.
pub open spec fn range_answer_matches(
    content_range_header: Option<Seq<u8>>,
    range: ByteRange,
    total_size: u64,
) -> bool {
    match content_range_header {
        Some(h) => match header_text(h) {
            Some(t) => content_range(t) == Some((range.start, range.end, total_size)),
            None => false,
        },
        None => false,
    }
}

/// Checks the `Content-Range` header of the answer to a ranged request:
/// a missing, unreadable or mismatching header is refused.
pub fn check_range_answer(
    content_range_header: Option<&[u8]>,
    range: &ByteRange,
    total_size: u64,
) -> (r: Result<(), Error>)
    ensures
        range_answer_matches(header_view(content_range_header), *range, total_size) ==> r is Ok,
        !range_answer_matches(header_view(content_range_header), *range, total_size)
            ==> r matches Err(Error::InvalidArguments),
{
    let h = match content_range_header {
        Some(h) => h,
        None => {
            return Err(Error::InvalidArguments);
        },
    };
    let v = match header_chars(h) {
        Some(v) => v,
        None => {
            return Err(Error::InvalidArguments);
        },
    };
    let (start, end, total) = match content_range_of(&v) {
        Ok(t) => t,
        Err(e) => {
            return Err(e);
        },
    };
    if start != range.start || end != range.end || total != total_size {
        return Err(Error::InvalidArguments);
    }
    Ok(())
}

/// The text `bytes`, the one range unit a server may name in `Accept-Ranges`.
pub open spec fn bytes_unit() -> Seq<char> {
    seq!['b', 'y', 't', 'e', 's']
}

/// Whether an `Accept-Ranges` header announces byte ranges: it is present,
/// is text, and equals `bytes` ignoring ASCII case.
pub open spec fn announces_byte_ranges(accept_ranges_header: Option<Seq<u8>>) -> bool {
    match accept_ranges_header {
        Some(h) => match header_text(h) {
            Some(t) => eq_ignore_ascii_case(t, bytes_unit()),
            None => false,
        },
        None => false,
    }
}

/// Reads the `Accept-Ranges` header of the server's first answer.
pub fn accepts_byte_ranges(accept_ranges_header: Option<&[u8]>) -> (r: bool)
    ensures
        r == announces_byte_ranges(header_view(accept_ranges_header)),
{
    match accept_ranges_header {
        Some(h) => match header_chars(h) {
            Some(v) => {
                let mut unit: Vec<char> = Vec::new();
                unit.push('b');
                unit.push('y');
                unit.push('t');
                unit.push('e');
                unit.push('s');
                assert(unit@ =~= bytes_unit());
                chars_eq_ignore_ascii_case(&v, &unit)
            },
            None => false,
        },
        None => false,
    }
}

/// The name tried for the `count`-th time a file of that name already exists:
/// `STEM (COUNT).EXT`, or `STEM (COUNT)` for a name without an extension.
pub open spec fn numbered_name(stem: Seq<char>, extension: Option<Seq<char>>, count: nat) -> Seq<
    char,
> {
    let base = stem + seq![' ', '('] + decimal(count) + seq![')'];
    match extension {
        Some(e) => base + seq!['.'] + e,
        None => base,
    }
}

/// The name to try instead of a file name that is taken, `count` being the
/// number of names tried so far.
pub fn numbered_file_name(stem: &str, extension: Option<&str>, count: u64) -> (name: String)
    ensures
        name@ == numbered_name(
            stem@,
            match extension {
                Some(e) => Some(e@),
                None => None,
            },
            count as nat,
        ),
        extension is Some ==> name@ == stem@ + seq![' ', '('] + decimal(count as nat) + seq![
            ')',
            '.',
        ] + extension->0@,
        extension is None ==> name@ == stem@ + seq![' ', '('] + decimal(count as nat) + seq![')'],
{
    let mut name = String::from_str(stem);
    name.push(' ');
    name.push('(');
    push_decimal(&mut name, count);
    name.push(')');
    match extension {
        Some(e) => {
            name.push('.');
            name.append(e);
        },
        None => {},
    }
    assert(name@ =~= numbered_name(
        stem@,
        match extension {
            Some(e) => Some(e@),
            None => None,
        },
        count as nat,
    ));
    name
}

/// Every numbered name keeps the stem and the extension, for every count:
/// it starts with `STEM (COUNT)` and, for a name with an extension, ends
/// with `.EXT`.
pub proof fn lemma_numbered_name_keeps_stem_and_extension(
    stem: Seq<char>,
    extension: Option<Seq<char>>,
    count: nat,
)
    ensures
        ({
            let head = stem + seq![' ', '('] + decimal(count) + seq![')'];
            let name = numbered_name(stem, extension, count);
            &&& name.take(head.len() as int) == head
            &&& match extension {
                Some(e) => name.len() == head.len() + 1 + e.len() && name.skip(
                    head.len() as int,
                ) == seq!['.'] + e,
                None => name == head,
            }
        }),
{
    let head = stem + seq![' ', '('] + decimal(count) + seq![')'];
    let name = numbered_name(stem, extension, count);
    match extension {
        Some(e) => {
            assert(name.take(head.len() as int) =~= head);
            assert(name.skip(head.len() as int) =~= seq!['.'] + e);
        },
        None => {
            assert(name.take(head.len() as int) =~= head);
        },
    }
}

/// Creating the output file never tries the same name twice: for a given
/// stem and extension, different counts give different names.
pub proof fn lemma_numbered_names_differ(
    stem: Seq<char>,
    extension: Option<Seq<char>>,
    a: nat,
    b: nat,
)
    requires
        a != b,
    ensures
        numbered_name(stem, extension, a) != numbered_name(stem, extension, b),
{
    let na = numbered_name(stem, extension, a);
    let nb = numbered_name(stem, extension, b);
    let da = decimal(a);
    let db = decimal(b);
    let l = stem.len() + 2int;
    if da.len() == db.len() && na == nb {
        assert(na.subrange(l, l + da.len() as int) =~= da);
        assert(nb.subrange(l, l + db.len() as int) =~= db);
        lemma_decimal_injective(a, b);
    }
    if da.len() != db.len() {
        assert(na.len() != nb.len());
    }
}

/// The path of `url` as `reqwest::Url::parse` reads it, or `None` when it
/// refuses the text.
pub uninterp spec fn parsed_url_path(url: Seq<char>) -> Option<Seq<char>>;

/// Parses `url` with `reqwest::Url::parse` (the `url` crate) and returns the
/// path of the result. Claimed: the result depends on the text alone, and is
/// `None` exactly when the parser refuses it. Nothing is claimed of what the
/// path is.
#[verifier::external_body]
fn url_path(url: &str) -> (r: Option<String>)
    ensures
        match r {
            Some(p) => parsed_url_path(url@) == Some(p@),
            None => parsed_url_path(url@) is None,
        },
{
    reqwest::Url::parse(url).ok().map(|u| u.path().to_string())
}

/// The name `filename=` that introduces a file name in `Content-Disposition`.
pub open spec fn filename_key() -> Seq<char> {
    seq!['f', 'i', 'l', 'e', 'n', 'a', 'm', 'e', '=']
}

/// The file name a `Content-Disposition` header gives: the text after its
/// first `filename=` (up to a second one), without surrounding quotes.
pub open spec fn disposition_file_name(header: Option<Seq<u8>>) -> Option<Seq<char>> {
    match header {
        Some(h) => match header_text(h) {
            Some(t) => match second_piece(t, filename_key()) {
                Some(piece) => Some(trim_quotes(piece)),
                None => None,
            },
            None => None,
        },
        None => None,
    }
}

/// The last segment of a URL path, as `Url::path_segments().last()` gives
/// it: paths that do not start with `/` have no segments.
pub open spec fn last_path_segment(path: Seq<char>) -> Option<Seq<char>> {
    if path.len() > 0 && path[0] == '/' {
        Some(last_piece(path.drop_first(), '/'))
    } else {
        None
    }
}

/// The name used when neither the header nor the URL gives one.
pub open spec fn untitled() -> Seq<char> {
    seq!['U', 'n', 't', 'i', 't', 'l', 'e', 'd']
}

/// A name that stands for one file in the working directory: not empty,
/// without a `/`, and neither `.` nor `..`.
pub open spec fn is_plain_name(s: Seq<char>) -> bool {
    &&& s.len() > 0
    &&& !s.contains('/')
    &&& s != seq!['.']
    &&& s != seq!['.', '.']
}

/// The name a download is saved under for a proposed `name`: its last
/// `/`-separated part, or `Untitled` when that part is empty, `.` or `..`,
/// so that the file lands in the working directory.
pub open spec fn local_file_name(name: Seq<char>) -> Seq<char> {
    let last = last_piece(name, '/');
    if is_plain_name(last) {
        last
    } else {
        untitled()
    }
}

/// A proposed name whose last `/`-separated part is a plain name is kept
/// whole: that part, every character of it, is the saved name; only a part
/// that is empty, `.` or `..` is replaced.
pub proof fn lemma_plain_last_part_is_kept(name: Seq<char>)
    ensures
        is_plain_name(last_piece(name, '/')) ==> local_file_name(name) == last_piece(name, '/'),
        !is_plain_name(last_piece(name, '/')) ==> local_file_name(name) == seq![
            'U',
            'n',
            't',
            'i',
            't',
            'l',
            'e',
            'd',
        ],
{
}

/// The name a download is saved under is always a plain name.
pub proof fn lemma_local_file_name_is_plain(name: Seq<char>)
    ensures
        is_plain_name(local_file_name(name)),
{
    lemma_last_piece_has_no_separator(name, '/');
    let u = untitled();
    assert(!u.contains('/')) by {
        assert forall|i: int| 0 <= i < u.len() implies u[i] != '/' by {}
    }
    assert(u != seq!['.']) by {
        assert(u.len() != 1);
    }
    assert(u != seq!['.', '.']) by {
        assert(u.len() != 2);
    }
}

/// The name a download is saved under: the one the server gives in
/// `Content-Disposition`; otherwise the last segment of the URL's path, or
/// `Untitled` when the path has none; in either case kept to a plain name
/// by `local_file_name`. `None` when the URL cannot be parsed.
pub open spec fn download_file_name(disposition: Option<Seq<u8>>, url: Seq<char>) -> Option<
    Seq<char>,
> {
    match disposition_file_name(disposition) {
        Some(name) => Some(local_file_name(name)),
        None => match parsed_url_path(url) {
            Some(path) => match last_path_segment(path) {
                Some(segment) => Some(local_file_name(segment)),
                None => Some(local_file_name(untitled())),
            },
            None => None,
        },
    }
}

/// The plain name to save a download under for a proposed `name`.
pub fn local_file_name_of(name: &Vec<char>) -> (s: String)
    ensures
        s@ == local_file_name(name@),
        is_plain_name(s@),
        is_plain_name(last_piece(name@, '/')) ==> s@ == last_piece(name@, '/'),
        !is_plain_name(last_piece(name@, '/')) ==> s@ == seq!['U', 'n', 't', 'i', 't', 'l', 'e', 'd'],
{
    proof {
        lemma_local_file_name_is_plain(name@);
    }
    assert(name@.skip(0) =~= name@);
    let last = last_piece_of(name, 0, '/');
    let n = last.len();
    let plain = if n == 0 {
        false
    } else if n == 1 && last[0] == '.' {
        assert(last@ =~= seq!['.']);
        false
    } else if n == 2 && last[0] == '.' && last[1] == '.' {
        assert(last@ =~= seq!['.', '.']);
        false
    } else {
        proof {
            lemma_last_piece_has_no_separator(name@, '/');
        }
        assert(last@ != seq!['.']) by {
            if n == 1 {
                assert(last@[0] != seq!['.'][0]);
            }
        }
        assert(last@ != seq!['.', '.']) by {
            if n == 2 {
                if last[0] != '.' {
                    assert(last@[0] != seq!['.', '.'][0]);
                } else {
                    assert(last@[1] != seq!['.', '.'][1]);
                }
            }
        }
        true
    };
    if plain {
        string_of(&last)
    } else {
        let mut u = String::new();
        u.push('U');
        u.push('n');
        u.push('t');
        u.push('i');
        u.push('t');
        u.push('l');
        u.push('e');
        u.push('d');
        assert(u@ =~= untitled());
        u
    }
}

/// The name a download is saved under, from the `Content-Disposition`
/// header of the server's answer or else from the URL; always a plain name,
/// so the file is written in the working directory.
pub fn get_filename(content_disposition: Option<&[u8]>, url: &str) -> (r: Result<String, Error>)
    ensures
        match download_file_name(header_view(content_disposition), url@) {
            Some(name) => r matches Ok(s) && s@ == name,
            None => r matches Err(Error::InvalidArguments),
        },
        r matches Ok(s) ==> is_plain_name(s@),
{
    let mut key: Vec<char> = Vec::new();
    key.push('f');
    key.push('i');
    key.push('l');
    key.push('e');
    key.push('n');
    key.push('a');
    key.push('m');
    key.push('e');
    key.push('=');
    assert(key@ =~= filename_key());
    let from_header = match content_disposition {
        Some(h) => match header_chars(h) {
            Some(text) => match second_piece_of(&text, &key) {
                Some(piece) => Some(trim_quotes_of(&piece)),
                None => None,
            },
            None => None,
        },
        None => None,
    };
    match from_header {
        Some(name) => Ok(local_file_name_of(&name)),
        None => match url_path(url) {
            Some(path) => {
                let from_url = url_file_name(path.as_str());
                let v = chars_of(from_url.as_str());
                Ok(local_file_name_of(&v))
            },
            None => Err(Error::InvalidArguments),
        },
    }
}

/// The name a download is saved under when only its URL's path names it:
/// the path's last segment, or `Untitled` for a path without segments.
pub fn url_file_name(path: &str) -> (name: String)
    ensures
        name@ == match last_path_segment(path@) {
            Some(segment) => segment,
            None => untitled(),
        },
{
    let p = chars_of(path);
    if p.len() > 0 && p[0] == '/' {
        assert(p@.skip(1) =~= p@.drop_first());
        string_of(&last_piece_of(&p, 1, '/'))
    } else {
        let mut name = String::new();
        name.push('U');
        name.push('n');
        name.push('t');
        name.push('i');
        name.push('t');
        name.push('l');
        name.push('e');
        name.push('d');
        assert(name@ =~= untitled());
        name
    }
}

} // verus!
