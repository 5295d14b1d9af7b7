//! Requests exchanged between porters and their byte encoding.
//!
//! A request starts with a one-byte type: SYNC (1), COPY (2) or TAKE (3).
//! * COPY and TAKE carry a list of object IDs: a little-endian `u16` count followed by the
//!   20-byte IDs.
//! * SYNC carries a little-endian `u16` number of subtasks followed by the subtasks; each
//!   subtask is a one-byte type (COPY = 2, TAKE = 3), a peer address and a list of object IDs.
//! * A peer address is a one-byte type (IPv4 = 4, IPv6 = 6) followed by a little-endian `u16`
//!   port and the address octets; IPv6 addresses can be written but not read.

use crate::stream::errors::RequestError;
use vstd::prelude::*;

verus! {

// CONSTANTS
// ================================================================================================

pub const OBJECT_ID_BYTES: usize = 20;

pub const SYNC_TYPE_ID: u8 = 1;

pub const COPY_TYPE_ID: u8 = 2;

pub const TAKE_TYPE_ID: u8 = 3;

pub const IPV4_TYPE_ID: u8 = 4;

pub const IPV6_TYPE_ID: u8 = 6;

pub const MAX_OBJECT_ID_LIST_LEN: usize = 65_535;

/// Identifier of an object in a store.
pub type ObjectId = [u8; 20];

// TYPES
// ================================================================================================

/// Network address of a peer porter.
#[derive(Debug, Clone, Copy, PartialEq, Eq)]
#[allow(inconsistent_fields)]
pub enum PeerAddr {
    V4 { ip: [u8; 4], port: u16 },
    V6 { ip: [u8; 16], port: u16 },
}

/// A subtask of a SYNC request: fetch objects from a peer.
#[derive(Debug, Clone, PartialEq, Eq)]
pub enum SyncSubtask {
    Copy { from: PeerAddr, objects: Vec<ObjectId> },
    Take { from: PeerAddr, objects: Vec<ObjectId> },
}

/// A request sent to a porter.
#[derive(Debug, Clone, PartialEq, Eq)]
pub enum Request {
    Sync(Vec<SyncSubtask>),
    Copy(Vec<ObjectId>),
    Take(Vec<ObjectId>),
}

/// Errors while reading a request from a byte stream.
#[derive(Debug, Clone, Copy, PartialEq, Eq)]
pub enum ReadError {
    /// The bytes do not describe a valid request.
    Request(RequestError),
    /// The stream ended in the middle of a request.
    UnexpectedEof,
}

// MATHEMATICAL MODEL
// ================================================================================================

/// Abstract peer address: octets and port.
pub enum PeerAddrV {
    V4(Seq<u8>, u16),
    V6(Seq<u8>, u16),
}

/// Abstract SYNC subtask.
pub enum SubtaskV {
    Copy(PeerAddrV, Seq<Seq<u8>>),
    Take(PeerAddrV, Seq<Seq<u8>>),
}

/// Abstract request.
pub enum RequestV {
    Sync(Seq<SubtaskV>),
    Copy(Seq<Seq<u8>>),
    Take(Seq<Seq<u8>>),
}

/// Why a read stops short of a value: an error that the reader reports, or an IPv6 address,
/// which the reader does not support.
pub enum ParseFail {
    Error(ReadError),
    Ipv6,
}

pub open spec fn ids_view(ids: Seq<ObjectId>) -> Seq<Seq<u8>> {
    ids.map_values(|id: ObjectId| id@)
}

impl View for PeerAddr {
    type V = PeerAddrV;

    open spec fn view(&self) -> PeerAddrV {
        match *self {
            PeerAddr::V4 { ip, port } => PeerAddrV::V4(ip@, port),
            PeerAddr::V6 { ip, port } => PeerAddrV::V6(ip@, port),
        }
    }
}

impl View for SyncSubtask {
    type V = SubtaskV;

    open spec fn view(&self) -> SubtaskV {
        match self {
            SyncSubtask::Copy { from, objects } => SubtaskV::Copy(from@, ids_view(objects@)),
            SyncSubtask::Take { from, objects } => SubtaskV::Take(from@, ids_view(objects@)),
        }
    }
}

pub open spec fn subtasks_view(ts: Seq<SyncSubtask>) -> Seq<SubtaskV> {
    ts.map_values(|t: SyncSubtask| t@)
}

impl View for Request {
    type V = RequestV;

    open spec fn view(&self) -> RequestV {
        match self {
            Request::Sync(ts) => RequestV::Sync(subtasks_view(ts@)),
            Request::Copy(ids) => RequestV::Copy(ids_view(ids@)),
            Request::Take(ids) => RequestV::Take(ids_view(ids@)),
        }
    }
}

pub open spec fn eof<T>() -> Result<T, ParseFail> {
    Err(ParseFail::Error(ReadError::UnexpectedEof))
}

pub open spec fn fail<T>(e: RequestError) -> Result<T, ParseFail> {
    Err(ParseFail::Error(ReadError::Request(e)))
}

/// Value of a little-endian `u16` from two bytes.
pub open spec fn u16_le(lo: u8, hi: u8) -> u16 {
    (lo + 256 * hi) as u16
}

// READING (specification)
// ================================================================================================

pub open spec fn sp_u8(b: Seq<u8>, pos: int) -> Result<(u8, int), ParseFail> {
    if 0 <= pos < b.len() {
        Ok((b[pos], pos + 1))
    } else {
        eof()
    }
}

pub open spec fn sp_u16_le(b: Seq<u8>, pos: int) -> Result<(u16, int), ParseFail> {
    if 0 <= pos && pos + 2 <= b.len() {
        Ok((u16_le(b[pos], b[pos + 1]), pos + 2))
    } else {
        eof()
    }
}

/// The `n` consecutive 20-byte IDs starting at `pos`.
pub open spec fn ids_at(b: Seq<u8>, pos: int, n: nat) -> Seq<Seq<u8>> {
    Seq::new(n, |i: int| b.subrange(pos + 20 * i, pos + 20 * i + 20))
}

/// Reads a list of object IDs: a `u16` count followed by the IDs.
pub open spec fn sp_id_list(b: Seq<u8>, pos: int) -> Result<(Seq<Seq<u8>>, int), ParseFail> {
    match sp_u16_le(b, pos) {
        Ok((n, p)) => if p + 20 * n <= b.len() {
            Ok((ids_at(b, p, n as nat), p + 20 * n))
        } else {
            eof()
        },
        Err(e) => Err(e),
    }
}

/// Reads a peer address: type byte, port (little-endian) and octets.
pub open spec fn sp_peer(b: Seq<u8>, pos: int) -> Result<(PeerAddrV, int), ParseFail> {
    match sp_u8(b, pos) {
        Ok((t, p)) => match sp_u16_le(b, p) {
            Ok((port, q)) => if t == IPV4_TYPE_ID {
                if q + 4 <= b.len() {
                    Ok((PeerAddrV::V4(b.subrange(q, q + 4), port), q + 4))
                } else {
                    eof()
                }
            } else if t == IPV6_TYPE_ID {
                Err(ParseFail::Ipv6)
            } else {
                fail(RequestError::InvalidPeerAddressType(t))
            },
            Err(e) => Err(e),
        },
        Err(e) => Err(e),
    }
}

/// Reads a SYNC subtask.
pub open spec fn sp_subtask(b: Seq<u8>, pos: int) -> Result<(SubtaskV, int), ParseFail> {
    match sp_u8(b, pos) {
        Ok((t, p)) => if t == COPY_TYPE_ID || t == TAKE_TYPE_ID {
            match sp_peer(b, p) {
                Ok((from, q)) => match sp_id_list(b, q) {
                    Ok((ids, r)) => if t == COPY_TYPE_ID {
                        Ok((SubtaskV::Copy(from, ids), r))
                    } else {
                        Ok((SubtaskV::Take(from, ids), r))
                    },
                    Err(e) => Err(e),
                },
                Err(e) => Err(e),
            }
        } else {
            fail(RequestError::InvalidSubtaskType(t))
        },
        Err(e) => Err(e),
    }
}

/// Reads `n` consecutive SYNC subtasks.
pub open spec fn sp_subtasks(b: Seq<u8>, pos: int, n: nat) -> Result<(Seq<SubtaskV>, int), ParseFail>
    decreases n,
{
    if n == 0 {
        Ok((Seq::empty(), pos))
    } else {
        match sp_subtasks(b, pos, (n - 1) as nat) {
            Ok((ts, p)) => match sp_subtask(b, p) {
                Ok((t, q)) => Ok((ts.push(t), q)),
                Err(e) => Err(e),
            },
            Err(e) => Err(e),
        }
    }
}

/// Reads a request from the start of `b`. A stream that ends before the first byte holds no
/// request (`None`).
pub open spec fn sp_request(b: Seq<u8>) -> Result<Option<(RequestV, int)>, ParseFail> {
    if b.len() == 0 {
        Ok(None)
    } else {
        let t = b[0];
        if t == SYNC_TYPE_ID {
            match sp_u16_le(b, 1) {
                Ok((n, p)) => match sp_subtasks(b, p, n as nat) {
                    Ok((ts, q)) => Ok(Some((RequestV::Sync(ts), q))),
                    Err(e) => Err(e),
                },
                Err(e) => Err(e),
            }
        } else if t == COPY_TYPE_ID || t == TAKE_TYPE_ID {
            match sp_id_list(b, 1) {
                Ok((ids, q)) => if t == COPY_TYPE_ID {
                    Ok(Some((RequestV::Copy(ids), q)))
                } else {
                    Ok(Some((RequestV::Take(ids), q)))
                },
                Err(e) => Err(e),
            }
        } else {
            fail(RequestError::InvalidRequestType(t))
        }
    }
}

/// Whether reading a request from `b` reaches an IPv6 peer address, which reading does not
/// support.
pub open spec fn request_reaches_ipv6(b: Seq<u8>) -> bool {
    sp_request(b) matches Err(ParseFail::Ipv6)
}

/// Lifts the result of an executable read to the model.
pub open spec fn lift<T, V>(r: Result<(T, usize), ReadError>, f: spec_fn(T) -> V) -> Result<
    (V, int),
    ParseFail,
> {
    match r {
        Ok((v, p)) => Ok((f(v), p as int)),
        Err(e) => Err(ParseFail::Error(e)),
    }
}

// WRITING (specification)
// ================================================================================================

pub open spec fn sw_u16_le(v: u16) -> Seq<u8> {
    seq![(v % 256) as u8, (v / 256) as u8]
}

/// Concatenation of IDs.
pub open spec fn concat_ids(ids: Seq<Seq<u8>>) -> Seq<u8>
    decreases ids.len(),
{
    if ids.len() == 0 {
        Seq::empty()
    } else {
        concat_ids(ids.drop_last()) + ids.last()
    }
}

/// Bytes of a list of object IDs: the count as a `u16`, then the IDs; a list longer than a `u16`
/// can count is refused.
pub open spec fn sw_id_list(ids: Seq<Seq<u8>>) -> Result<Seq<u8>, RequestError> {
    if ids.len() > MAX_OBJECT_ID_LIST_LEN {
        Err(RequestError::ObjectIdListTooLong(ids.len() as usize))
    } else {
        Ok(sw_u16_le(ids.len() as u16) + concat_ids(ids))
    }
}

pub open spec fn sw_peer(p: PeerAddrV) -> Seq<u8> {
    match p {
        PeerAddrV::V4(ip, port) => seq![IPV4_TYPE_ID] + sw_u16_le(port) + ip,
        PeerAddrV::V6(ip, port) => seq![IPV6_TYPE_ID] + sw_u16_le(port) + ip,
    }
}

pub open spec fn sw_subtask(t: SubtaskV) -> Result<Seq<u8>, RequestError> {
    match t {
        SubtaskV::Copy(from, ids) => match sw_id_list(ids) {
            Ok(s) => Ok(seq![COPY_TYPE_ID] + sw_peer(from) + s),
            Err(e) => Err(e),
        },
        SubtaskV::Take(from, ids) => match sw_id_list(ids) {
            Ok(s) => Ok(seq![TAKE_TYPE_ID] + sw_peer(from) + s),
            Err(e) => Err(e),
        },
    }
}

pub open spec fn sw_subtasks(ts: Seq<SubtaskV>) -> Result<Seq<u8>, RequestError>
    decreases ts.len(),
{
    if ts.len() == 0 {
        Ok(Seq::empty())
    } else {
        match sw_subtasks(ts.drop_last()) {
            Ok(s) => match sw_subtask(ts.last()) {
                Ok(t) => Ok(s + t),
                Err(e) => Err(e),
            },
            Err(e) => Err(e),
        }
    }
}

/// Bytes of a request; the number of SYNC subtasks is written as a `u16` and so wraps around.
pub open spec fn sw_request(r: RequestV) -> Result<Seq<u8>, RequestError> {
    match r {
        RequestV::Sync(ts) => match sw_subtasks(ts) {
            Ok(s) => Ok(seq![SYNC_TYPE_ID] + sw_u16_le((ts.len() % 65536) as u16) + s),
            Err(e) => Err(e),
        },
        RequestV::Copy(ids) => match sw_id_list(ids) {
            Ok(s) => Ok(seq![COPY_TYPE_ID] + s),
            Err(e) => Err(e),
        },
        RequestV::Take(ids) => match sw_id_list(ids) {
            Ok(s) => Ok(seq![TAKE_TYPE_ID] + s),
            Err(e) => Err(e),
        },
    }
}

// READING (executable)
// ================================================================================================

fn read_u8_at(bytes: &[u8], pos: usize) -> (r: Result<(u8, usize), ReadError>)
    ensures
        lift(r, |v: u8| v) == sp_u8(bytes@, pos as int),
{
    if pos < bytes.len() {
        Ok((bytes[pos], pos + 1))
    } else {
        Err(ReadError::UnexpectedEof)
    }
}

fn read_u16_le_at(bytes: &[u8], pos: usize) -> (r: Result<(u16, usize), ReadError>)
    ensures
        lift(r, |v: u16| v) == sp_u16_le(bytes@, pos as int),
{
    if pos < bytes.len() && bytes.len() - pos >= 2 {
        let lo = bytes[pos];
        let hi = bytes[pos + 1];
        Ok((lo as u16 + 256 * (hi as u16), pos + 2))
    } else {
        Err(ReadError::UnexpectedEof)
    }
}

fn read_id(bytes: &[u8], pos: usize) -> (id: ObjectId)
    requires
        pos + 20 <= bytes@.len(),
    ensures
        id@ == bytes@.subrange(pos as int, pos + 20),
{
    let mut id: ObjectId = [0u8; 20];
    let mut k: usize = 0;
    while k < 20
        invariant
            pos + 20 <= bytes.len(),
            k <= 20,
            forall|j: int| 0 <= j < k ==> id@[j] == bytes@[pos + j],
        decreases 20 - k,
    {
        id[k] = bytes[pos + k];
        k = k + 1;
    }
    assert(id@ =~= bytes@.subrange(pos as int, pos + 20));
    id
}

/// Reads a list of object IDs starting at `pos`.
fn read_object_id_list(bytes: &[u8], pos: usize) -> (r: Result<(Vec<ObjectId>, usize), ReadError>)
    ensures
        lift(r, |ids: Vec<ObjectId>| ids_view(ids@)) == sp_id_list(bytes@, pos as int),
{
    let (n, p) = match read_u16_le_at(bytes, pos) {
        Ok(v) => v,
        Err(e) => return Err(e),
    };
    let num = n as usize;
    if bytes.len() - p < 20 * num {
        return Err(ReadError::UnexpectedEof);
    }
    let mut ids: Vec<ObjectId> = Vec::new();
    let mut i: usize = 0;
    while i < num
        invariant
            i <= num,
            p + 20 * num <= bytes.len(),
            ids_view(ids@) =~= ids_at(bytes@, p as int, i as nat),
        decreases num - i,
    {
        let id = read_id(bytes, p + 20 * i);
        let ghost before = ids@;
        ids.push(id);
        proof {
            assert(ids@ == before.push(id));
            assert(ids_view(before).len() == before.len());
            assert(ids_at(bytes@, p as int, i as nat).len() == i);
            assert(before.len() == i);
            assert(ids_view(ids@).len() == i + 1);
            assert forall|j: int| 0 <= j < i + 1 implies #[trigger] ids_view(ids@)[j] == ids_at(
                bytes@,
                p as int,
                (i + 1) as nat,
            )[j] by {
                assert(ids_view(ids@)[j] == ids@[j]@);
                if j < i {
                    assert(ids@[j] == before[j]);
                    assert(ids_view(before)[j] == before[j]@);
                    assert(ids_view(before)[j] == ids_at(bytes@, p as int, i as nat)[j]);
                } else {
                    assert(ids@[j] == id);
                }
            }
        }
        i = i + 1;
    }
    Ok((ids, p + 20 * num))
}

/// Reads a peer address starting at `pos`.
fn read_socket_addr(bytes: &[u8], pos: usize) -> (r: Result<(PeerAddr, usize), ReadError>)
    requires
        !(sp_peer(bytes@, pos as int) matches Err(ParseFail::Ipv6)),
    ensures
        lift(r, |a: PeerAddr| a@) == sp_peer(bytes@, pos as int),
{
    let (t, p) = match read_u8_at(bytes, pos) {
        Ok(v) => v,
        Err(e) => return Err(e),
    };
    let (port, q) = match read_u16_le_at(bytes, p) {
        Ok(v) => v,
        Err(e) => return Err(e),
    };
    if t == IPV4_TYPE_ID {
        if bytes.len() - q < 4 {
            return Err(ReadError::UnexpectedEof);
        }
        let ip: [u8; 4] = [bytes[q], bytes[q + 1], bytes[q + 2], bytes[q + 3]];
        assert(ip@ =~= bytes@.subrange(q as int, q + 4));
        Ok((PeerAddr::V4 { ip, port }, q + 4))
    } else {
        Err(ReadError::Request(RequestError::InvalidPeerAddressType(t)))
    }
}

impl SyncSubtask {
    /// The objects that the subtask fetches.
    pub fn incoming_objects(&self) -> (r: &[ObjectId])
        ensures
            r@ == match self {
                SyncSubtask::Copy { objects, .. } => objects@,
                SyncSubtask::Take { objects, .. } => objects@,
            },
    {
        match self {
            SyncSubtask::Copy { objects, .. } => objects.as_slice(),
            SyncSubtask::Take { objects, .. } => objects.as_slice(),
        }
    }

    /// Reads a SYNC request subtask starting at position `pos` of `bytes`; returns the subtask
    /// and the position just past it.
    pub fn read_from(bytes: &[u8], pos: usize) -> (r: Result<(SyncSubtask, usize), ReadError>)
        requires
            !(sp_subtask(bytes@, pos as int) matches Err(ParseFail::Ipv6)),
        ensures
            lift(r, |t: SyncSubtask| t@) == sp_subtask(bytes@, pos as int),
    {
        let (t, p) = match read_u8_at(bytes, pos) {
            Ok(v) => v,
            Err(e) => return Err(e),
        };
        if t == COPY_TYPE_ID || t == TAKE_TYPE_ID {
            let (from, q) = match read_socket_addr(bytes, p) {
                Ok(v) => v,
                Err(e) => return Err(e),
            };
            let (objects, r) = match read_object_id_list(bytes, q) {
                Ok(v) => v,
                Err(e) => return Err(e),
            };
            if t == COPY_TYPE_ID {
                Ok((SyncSubtask::Copy { from, objects }, r))
            } else {
                Ok((SyncSubtask::Take { from, objects }, r))
            }
        } else {
            Err(ReadError::Request(RequestError::InvalidSubtaskType(t)))
        }
    }
}

/// Once reading subtasks fails, reading more of them fails the same way.
proof fn lemma_subtasks_fail_persists(b: Seq<u8>, pos: int, k: nat, n: nat)
    requires
        k <= n,
        sp_subtasks(b, pos, k) is Err,
    ensures
        sp_subtasks(b, pos, n) == sp_subtasks(b, pos, k),
    decreases n - k,
{
    if k < n {
        lemma_subtasks_fail_persists(b, pos, k, (n - 1) as nat);
    }
}

/// Reads `n` consecutive subtasks starting at `pos`.
fn read_subtasks(bytes: &[u8], pos: usize, n: u16) -> (r: Result<(Vec<SyncSubtask>, usize), ReadError>)
    requires
        !(sp_subtasks(bytes@, pos as int, n as nat) matches Err(ParseFail::Ipv6)),
    ensures
        lift(r, |ts: Vec<SyncSubtask>| subtasks_view(ts@)) == sp_subtasks(bytes@, pos as int, n as nat),
{
    let mut subtasks: Vec<SyncSubtask> = Vec::new();
    let mut p = pos;
    let mut k: u16 = 0;
    assert(subtasks_view(subtasks@) =~= Seq::<SubtaskV>::empty());
    while k < n
        invariant
            k <= n,
            !(sp_subtasks(bytes@, pos as int, n as nat) matches Err(ParseFail::Ipv6)),
            sp_subtasks(bytes@, pos as int, k as nat) == Ok::<(Seq<SubtaskV>, int), ParseFail>(
                (subtasks_view(subtasks@), p as int),
            ),
        decreases n - k,
    {
        let ghost before = subtasks@;
        proof {
            if sp_subtask(bytes@, p as int) is Err {
                assert(sp_subtasks(bytes@, pos as int, (k + 1) as nat) is Err);
                lemma_subtasks_fail_persists(bytes@, pos as int, (k + 1) as nat, n as nat);
            }
        }
        let (t, q) = match SyncSubtask::read_from(bytes, p) {
            Ok(v) => v,
            Err(e) => {
                return Err(e);
            },
        };
        subtasks.push(t);
        p = q;
        k = k + 1;
        proof {
            assert(subtasks@ == before.push(t));
            assert(subtasks_view(subtasks@) =~= subtasks_view(before).push(t@));
        }
    }
    Ok((subtasks, p))
}

impl Request {
    /// Reads a request from the start of `bytes`, the data received so far on a connection.
    ///
    /// Returns `Ok(None)` when `bytes` is empty (the connection closed before a request began),
    /// and otherwise the request together with the number of bytes it occupies.
    pub fn read_from(bytes: &[u8]) -> (r: Result<Option<(Request, usize)>, ReadError>)
        requires
            !request_reaches_ipv6(bytes@),
        ensures
            match r {
                Ok(None) => sp_request(bytes@) == Ok::<Option<(RequestV, int)>, ParseFail>(None),
                Ok(Some((req, n))) => sp_request(bytes@) == Ok::<Option<(RequestV, int)>, ParseFail>(
                    Some((req@, n as int)),
                ),
                Err(e) => sp_request(bytes@) == Err::<Option<(RequestV, int)>, ParseFail>(
                    ParseFail::Error(e),
                ),
            },
    {
        if bytes.len() == 0 {
            return Ok(None);
        }
        let t = bytes[0];
        if t == SYNC_TYPE_ID {
            let (n, p) = match read_u16_le_at(bytes, 1) {
                Ok(v) => v,
                Err(e) => return Err(e),
            };
            match read_subtasks(bytes, p, n) {
                Ok((ts, q)) => Ok(Some((Request::Sync(ts), q))),
                Err(e) => Err(e),
            }
        } else if t == COPY_TYPE_ID || t == TAKE_TYPE_ID {
            let (ids, q) = match read_object_id_list(bytes, 1) {
                Ok(v) => v,
                Err(e) => return Err(e),
            };
            if t == COPY_TYPE_ID {
                Ok(Some((Request::Copy(ids), q)))
            } else {
                Ok(Some((Request::Take(ids), q)))
            }
        } else {
            Err(ReadError::Request(RequestError::InvalidRequestType(t)))
        }
    }
}

// DETECTING UNSUPPORTED ADDRESSES
// ================================================================================================

/// Outcome of scanning a part of a request: where the next part starts, an IPv6 peer address
/// was reached, or the bytes hold no valid part (an error or the end of the bytes).
enum Scan {
    Next(usize),
    Ipv6,
    Stop,
}

/// The scan outcome that corresponds to a modelled read.
spec fn scan_of<T>(r: Result<(T, int), ParseFail>) -> Scan {
    match r {
        Ok((_, p)) => Scan::Next(p as usize),
        Err(ParseFail::Ipv6) => Scan::Ipv6,
        Err(ParseFail::Error(_)) => Scan::Stop,
    }
}

fn scan_peer(bytes: &[u8], pos: usize) -> (r: Scan)
    ensures
        r == scan_of(sp_peer(bytes@, pos as int)),
        r matches Scan::Next(p) ==> sp_peer(bytes@, pos as int) matches Ok((_, q)) && q == p,
{
    let (t, p) = match read_u8_at(bytes, pos) {
        Ok(v) => v,
        Err(_) => return Scan::Stop,
    };
    if t == IPV6_TYPE_ID {
        return match read_u16_le_at(bytes, p) {
            Ok(_) => Scan::Ipv6,
            Err(_) => Scan::Stop,
        };
    }
    match read_socket_addr(bytes, pos) {
        Ok((_, q)) => Scan::Next(q),
        Err(_) => Scan::Stop,
    }
}

fn scan_subtask(bytes: &[u8], pos: usize) -> (r: Scan)
    ensures
        r == scan_of(sp_subtask(bytes@, pos as int)),
        r matches Scan::Next(p) ==> sp_subtask(bytes@, pos as int) matches Ok((_, q)) && q == p,
{
    let (t, p) = match read_u8_at(bytes, pos) {
        Ok(v) => v,
        Err(_) => return Scan::Stop,
    };
    if t != COPY_TYPE_ID && t != TAKE_TYPE_ID {
        return Scan::Stop;
    }
    let q = match scan_peer(bytes, p) {
        Scan::Next(q) => q,
        Scan::Ipv6 => return Scan::Ipv6,
        Scan::Stop => return Scan::Stop,
    };
    match read_object_id_list(bytes, q) {
        Ok((_, r)) => Scan::Next(r),
        Err(_) => Scan::Stop,
    }
}

/// Whether reading a request from `bytes` reaches an IPv6 peer address, which
/// [Request::read_from] does not read.
pub fn reaches_ipv6(bytes: &[u8]) -> (r: bool)
    ensures
        r == request_reaches_ipv6(bytes@),
{
    if bytes.len() == 0 || bytes[0] != SYNC_TYPE_ID {
        return false;
    }
    let (n, pos) = match read_u16_le_at(bytes, 1) {
        Ok(v) => v,
        Err(_) => return false,
    };
    let mut p = pos;
    let mut k: u16 = 0;
    while k < n
        invariant
            k <= n,
            bytes@.len() > 0,
            bytes@[0] == SYNC_TYPE_ID,
            sp_u16_le(bytes@, 1) == Ok::<(u16, int), ParseFail>((n, pos as int)),
            sp_subtasks(bytes@, pos as int, k as nat) matches Ok((_, q)) && q == p,
        decreases n - k,
    {
        match scan_subtask(bytes, p) {
            Scan::Next(q) => {
                p = q;
            },
            Scan::Ipv6 => {
                proof {
                    lemma_subtasks_fail_persists(bytes@, pos as int, (k + 1) as nat, n as nat);
                }
                return true;
            },
            Scan::Stop => {
                proof {
                    lemma_subtasks_fail_persists(bytes@, pos as int, (k + 1) as nat, n as nat);
                }
                return false;
            },
        }
        k = k + 1;
    }
    false
}

// WRITING (executable)
// ================================================================================================

fn append_bytes(out: &mut Vec<u8>, src: &[u8])
    ensures
        final(out)@ == old(out)@ + src@,
{
    let mut i: usize = 0;
    while i < src.len()
        invariant
            i <= src@.len(),
            out@ == old(out)@ + src@.subrange(0, i as int),
        decreases src.len() - i,
    {
        out.push(src[i]);
        i = i + 1;
        assert(out@ =~= old(out)@ + src@.subrange(0, i as int));
    }
    assert(src@.subrange(0, i as int) =~= src@);
}

fn append_u16_le(out: &mut Vec<u8>, v: u16)
    ensures
        final(out)@ == old(out)@ + sw_u16_le(v),
{
    out.push((v % 256) as u8);
    out.push((v / 256) as u8);
    assert(out@ =~= old(out)@ + sw_u16_le(v));
}

/// Writes a list of object IDs: the number of IDs as a `u16`, followed by the IDs.
fn write_object_id_list(object_ids: &Vec<ObjectId>, out: &mut Vec<u8>) -> (r: Result<(), RequestError>)
    ensures
        match r {
            Ok(()) => sw_id_list(ids_view(object_ids@)) matches Ok(s) && final(out)@ == old(out)@ + s,
            Err(e) => sw_id_list(ids_view(object_ids@)) == Err::<Seq<u8>, RequestError>(e),
        },
{
    if object_ids.len() > MAX_OBJECT_ID_LIST_LEN {
        return Err(RequestError::ObjectIdListTooLong(object_ids.len()));
    }
    let count = object_ids.len() as u16;
    append_u16_le(out, count);
    let ghost start = out@;
    let mut i: usize = 0;
    assert(concat_ids(ids_view(object_ids@.take(0))) =~= Seq::<u8>::empty());
    while i < object_ids.len()
        invariant
            i <= object_ids@.len(),
            out@ == start + concat_ids(ids_view(object_ids@.take(i as int))),
        decreases object_ids.len() - i,
    {
        let id: &ObjectId = &object_ids[i];
        append_bytes(out, id.as_slice());
        proof {
            let prev = ids_view(object_ids@.take(i as int));
            let next = ids_view(object_ids@.take(i + 1));
            assert(next.drop_last() =~= prev);
            assert(next.last() == object_ids@[i as int]@);
            assert(out@ =~= start + concat_ids(next));
        }
        i = i + 1;
    }
    assert(object_ids@.take(i as int) =~= object_ids@);
    assert(out@ =~= old(out)@ + (sw_u16_le(count) + concat_ids(ids_view(object_ids@))));
    Ok(())
}

fn write_peer_addr(peer_addr: &PeerAddr, out: &mut Vec<u8>)
    ensures
        final(out)@ == old(out)@ + sw_peer(peer_addr@),
{
    match peer_addr {
        PeerAddr::V4 { ip, port } => {
            out.push(IPV4_TYPE_ID);
            append_u16_le(out, *port);
            append_bytes(out, ip.as_slice());
        },
        PeerAddr::V6 { ip, port } => {
            out.push(IPV6_TYPE_ID);
            append_u16_le(out, *port);
            append_bytes(out, ip.as_slice());
        },
    }
    assert(out@ =~= old(out)@ + sw_peer(peer_addr@));
}

impl SyncSubtask {
    /// Appends the bytes of this SYNC request subtask to `out`.
    pub fn write_into(&self, out: &mut Vec<u8>) -> (r: Result<(), RequestError>)
        ensures
            match r {
                Ok(()) => sw_subtask(self@) matches Ok(s) && final(out)@ == old(out)@ + s,
                Err(e) => sw_subtask(self@) == Err::<Seq<u8>, RequestError>(e),
            },
    {
        let ghost start = out@;
        match self {
            SyncSubtask::Copy { from, objects } => {
                out.push(COPY_TYPE_ID);
                write_peer_addr(from, out);
                let r = write_object_id_list(objects, out);
                assert(r is Ok ==> out@ =~= start + (seq![COPY_TYPE_ID] + sw_peer(from@) + sw_id_list(ids_view(objects@))->Ok_0));
                r
            },
            SyncSubtask::Take { from, objects } => {
                out.push(TAKE_TYPE_ID);
                write_peer_addr(from, out);
                let r = write_object_id_list(objects, out);
                assert(r is Ok ==> out@ =~= start + (seq![TAKE_TYPE_ID] + sw_peer(from@) + sw_id_list(ids_view(objects@))->Ok_0));
                r
            },
        }
    }
}

impl Request {
    /// Returns the bytes of this request, or the error of the first list of object IDs that is
    /// too long to be written.
    pub fn write_into(&self) -> (r: Result<Vec<u8>, RequestError>)
        ensures
            match r {
                Ok(bytes) => sw_request(self@) == Ok::<Seq<u8>, RequestError>(bytes@),
                Err(e) => sw_request(self@) == Err::<Seq<u8>, RequestError>(e),
            },
    {
        let mut out: Vec<u8> = Vec::new();
        match self {
            Request::Sync(frames) => {
                out.push(SYNC_TYPE_ID);
                append_u16_le(&mut out, (frames.len() % 65536) as u16);
                let ghost start = out@;
                let mut i: usize = 0;
                assert(subtasks_view(frames@.take(0)) =~= Seq::<SubtaskV>::empty());
                while i < frames.len()
                    invariant
                        i <= frames@.len(),
                        self@ == RequestV::Sync(subtasks_view(frames@)),
                        sw_subtasks(subtasks_view(frames@.take(i as int))) matches Ok(s) && out@
                            == start + s,
                    decreases frames.len() - i,
                {
                    let ghost prefix = sw_subtasks(subtasks_view(frames@.take(i as int)))->Ok_0;
                    let ghost next = subtasks_view(frames@.take(i + 1));
                    proof {
                        assert(next.drop_last() =~= subtasks_view(frames@.take(i as int)));
                        assert(next.last() == frames@[i as int]@);
                    }
                    match frames[i].write_into(&mut out) {
                        Ok(()) => {},
                        Err(e) => {
                            proof {
                                let later = subtasks_view(frames@);
                                assert(later.take(i + 1) =~= next);
                                assert(sw_subtasks(next) == Err::<Seq<u8>, RequestError>(e));
                                lemma_subtasks_write_fail_persists(later, (i + 1) as nat);
                            }
                            return Err(e);
                        },
                    }
                    proof {
                        assert(out@ =~= start + sw_subtasks(next)->Ok_0);
                    }
                    i = i + 1;
                }
                assert(frames@.take(i as int) =~= frames@);
                let ghost whole = sw_subtasks(subtasks_view(frames@))->Ok_0;
                assert(out@ =~= seq![SYNC_TYPE_ID] + sw_u16_le((frames@.len() % 65536) as u16) + whole);
                Ok(out)
            },
            Request::Copy(object_ids) => {
                out.push(COPY_TYPE_ID);
                match write_object_id_list(object_ids, &mut out) {
                    Ok(()) => Ok(out),
                    Err(e) => Err(e),
                }
            },
            Request::Take(object_ids) => {
                out.push(TAKE_TYPE_ID);
                match write_object_id_list(object_ids, &mut out) {
                    Ok(()) => Ok(out),
                    Err(e) => Err(e),
                }
            },
        }
    }
}

/// Once writing a prefix of the subtasks fails, writing all of them fails with the same error.
proof fn lemma_subtasks_write_fail_persists(ts: Seq<SubtaskV>, k: nat)
    requires
        k <= ts.len(),
        sw_subtasks(ts.take(k as int)) is Err,
    ensures
        sw_subtasks(ts) == sw_subtasks(ts.take(k as int)),
    decreases ts.len() - k,
{
    if k < ts.len() {
        let t1 = ts.take((k + 1) as int);
        assert(t1.drop_last() =~= ts.take(k as int));
        lemma_subtasks_write_fail_persists(ts, k + 1);
    } else {
        assert(ts.take(k as int) =~= ts);
    }
}

// ROUND TRIP
// ================================================================================================

/// Requests that survive a write followed by a read: every list of object IDs has fewer than
/// 65536 entries, a SYNC request has fewer than 65536 subtasks (their count is written as a `u16`
/// and wraps around), and every peer address is an IPv4 address (IPv6 addresses are written but
/// not read).
pub open spec fn wire_safe(r: RequestV) -> bool {
    match r {
        RequestV::Sync(ts) => ts.len() < 65536 && forall|i: int|
            0 <= i < ts.len() ==> subtask_wire_safe(#[trigger] ts[i]),
        RequestV::Copy(ids) => ids.len() < 65536,
        RequestV::Take(ids) => ids.len() < 65536,
    }
}

pub open spec fn subtask_wire_safe(t: SubtaskV) -> bool {
    match t {
        SubtaskV::Copy(from, ids) => ids.len() < 65536 && peer_wire_safe(from),
        SubtaskV::Take(from, ids) => ids.len() < 65536 && peer_wire_safe(from),
    }
}

pub open spec fn peer_wire_safe(p: PeerAddrV) -> bool {
    match p {
        PeerAddrV::V4(ip, port) => true,
        PeerAddrV::V6(ip, port) => false,
    }
}

/// Shapes of the abstract values of executable requests: IDs have 20 bytes, IPv4 addresses 4
/// and IPv6 addresses 16.
pub open spec fn ids_shaped(ids: Seq<Seq<u8>>) -> bool {
    forall|i: int| 0 <= i < ids.len() ==> (#[trigger] ids[i]).len() == 20
}

pub open spec fn peer_shaped(p: PeerAddrV) -> bool {
    match p {
        PeerAddrV::V4(ip, port) => ip.len() == 4,
        PeerAddrV::V6(ip, port) => ip.len() == 16,
    }
}

pub open spec fn subtask_shaped(t: SubtaskV) -> bool {
    match t {
        SubtaskV::Copy(from, ids) => peer_shaped(from) && ids_shaped(ids),
        SubtaskV::Take(from, ids) => peer_shaped(from) && ids_shaped(ids),
    }
}

pub open spec fn request_shaped(r: RequestV) -> bool {
    match r {
        RequestV::Sync(ts) => forall|i: int| 0 <= i < ts.len() ==> subtask_shaped(#[trigger] ts[i]),
        RequestV::Copy(ids) => ids_shaped(ids),
        RequestV::Take(ids) => ids_shaped(ids),
    }
}

/// `s` occurs in `b` at position `pos`.
pub open spec fn occurs_at(b: Seq<u8>, pos: int, s: Seq<u8>) -> bool {
    0 <= pos && pos + s.len() <= b.len() && b.subrange(pos, pos + s.len()) =~= s
}

proof fn lemma_ids_of_view(ids: Seq<ObjectId>)
    ensures
        ids_shaped(ids_view(ids)),
        ids_view(ids).len() == ids.len(),
{
    broadcast use vstd::array::group_array_axioms;

    assert forall|i: int| 0 <= i < ids_view(ids).len() implies (#[trigger] ids_view(ids)[i]).len()
        == 20 by {
        assert(ids_view(ids)[i] == ids[i]@);
    }
}

/// Every executable request has a well-shaped abstract value.
pub proof fn lemma_request_shaped(r: Request)
    ensures
        request_shaped(r@),
{
    broadcast use vstd::array::group_array_axioms;

    match r {
        Request::Sync(ts) => {
            assert forall|i: int| 0 <= i < subtasks_view(ts@).len() implies subtask_shaped(
                #[trigger] subtasks_view(ts@)[i],
            ) by {
                let t = ts@[i];
                assert(subtasks_view(ts@)[i] == t@);
                match t {
                    SyncSubtask::Copy { from, objects } => {
                        lemma_ids_of_view(objects@);
                    },
                    SyncSubtask::Take { from, objects } => {
                        lemma_ids_of_view(objects@);
                    },
                }
            }
        },
        Request::Copy(ids) => {
            lemma_ids_of_view(ids@);
        },
        Request::Take(ids) => {
            lemma_ids_of_view(ids@);
        },
    }
}

proof fn lemma_concat_ids(ids: Seq<Seq<u8>>)
    requires
        ids_shaped(ids),
    ensures
        concat_ids(ids).len() == 20 * ids.len(),
        forall|i: int, k: int|
            0 <= i < ids.len() && 0 <= k < 20 ==> #[trigger] concat_ids(ids)[20 * i + k]
                == #[trigger] ids[i][k],
    decreases ids.len(),
{
    if ids.len() > 0 {
        let front = ids.drop_last();
        assert(ids_shaped(front)) by {
            assert forall|i: int| 0 <= i < front.len() implies (#[trigger] front[i]).len() == 20 by {
                assert(front[i] == ids[i]);
            }
        }
        lemma_concat_ids(front);
        assert(ids[ids.len() - 1].len() == 20);
        assert forall|i: int, k: int| 0 <= i < ids.len() && 0 <= k < 20 implies #[trigger] concat_ids(
            ids,
        )[20 * i + k] == #[trigger] ids[i][k] by {
            if i < ids.len() - 1 {
                assert(front[i] == ids[i]);
                assert(concat_ids(front)[20 * i + k] == front[i][k]);
                assert(20 * i + k < 20 * front.len()) by (nonlinear_arith)
                    requires
                        i < front.len(),
                        k < 20,
                ;
            }
        }
    }
}

proof fn lemma_u16_le_round_trip(b: Seq<u8>, pos: int, v: u16)
    requires
        occurs_at(b, pos, sw_u16_le(v)),
    ensures
        sp_u16_le(b, pos) == Ok::<(u16, int), ParseFail>((v, pos + 2)),
{
    assert(b[pos] == sw_u16_le(v)[0]);
    assert(b[pos + 1] == sw_u16_le(v)[1]);
}

proof fn lemma_id_list_round_trip(b: Seq<u8>, pos: int, ids: Seq<Seq<u8>>)
    requires
        ids_shaped(ids),
        ids.len() < 65536,
        occurs_at(b, pos, sw_id_list(ids)->Ok_0),
    ensures
        sw_id_list(ids) is Ok,
        sp_id_list(b, pos) == Ok::<(Seq<Seq<u8>>, int), ParseFail>(
            (ids, pos + sw_id_list(ids)->Ok_0.len()),
        ),
{
    let n = ids.len();
    let head = sw_u16_le(n as u16);
    let s = sw_id_list(ids)->Ok_0;
    lemma_concat_ids(ids);
    assert(s =~= head + concat_ids(ids));
    assert(b.subrange(pos, pos + 2) =~= head);
    lemma_u16_le_round_trip(b, pos, n as u16);
    let p = pos + 2;
    assert(ids_at(b, p, n) =~= ids) by {
        assert forall|i: int| 0 <= i < n implies #[trigger] ids_at(b, p, n)[i] =~= ids[i] by {
            assert forall|k: int| 0 <= k < 20 implies b.subrange(p + 20 * i, p + 20 * i + 20)[k]
                == ids[i][k] by {
                assert(b[p + 20 * i + k] == s[2 + 20 * i + k]);
                assert(s[2 + 20 * i + k] == concat_ids(ids)[20 * i + k]);
            }
        }
    }
}

proof fn lemma_peer_round_trip(b: Seq<u8>, pos: int, peer: PeerAddrV)
    requires
        peer_shaped(peer),
        peer_wire_safe(peer),
        occurs_at(b, pos, sw_peer(peer)),
    ensures
        sp_peer(b, pos) == Ok::<(PeerAddrV, int), ParseFail>((peer, pos + sw_peer(peer).len())),
{
    match peer {
        PeerAddrV::V4(ip, port) => {
            let s = sw_peer(peer);
            assert(s.len() == 7);
            assert(b[pos] == s[0]);
            assert(b[pos + 1] == s[1]);
            assert(b[pos + 2] == s[2]);
            assert(u16_le(b[pos + 1], b[pos + 2]) == port);
            assert(b.subrange(pos + 3, pos + 7) =~= ip) by {
                assert forall|k: int| 0 <= k < 4 implies b.subrange(pos + 3, pos + 7)[k] == ip[k] by {
                    assert(b[pos + 3 + k] == s[3 + k]);
                }
            }
        },
        PeerAddrV::V6(ip, port) => {},
    }
}

proof fn lemma_subtask_round_trip(b: Seq<u8>, pos: int, t: SubtaskV)
    requires
        subtask_shaped(t),
        subtask_wire_safe(t),
        occurs_at(b, pos, sw_subtask(t)->Ok_0),
    ensures
        sw_subtask(t) is Ok,
        sp_subtask(b, pos) == Ok::<(SubtaskV, int), ParseFail>((t, pos + sw_subtask(t)->Ok_0.len())),
{
    match t {
        SubtaskV::Copy(from, ids) => {
            let s = sw_subtask(t)->Ok_0;
            let ps = sw_peer(from);
            let is = sw_id_list(ids)->Ok_0;
            assert(s =~= seq![COPY_TYPE_ID] + ps + is);
            assert(b[pos] == s[0]);
            assert(b.subrange(pos + 1, pos + 1 + ps.len()) =~= ps) by {
                assert forall|k: int| 0 <= k < ps.len() implies b.subrange(pos + 1, pos + 1 + ps.len())[k] == ps[k] by {
                    assert(b[pos + 1 + k] == s[1 + k]);
                }
            }
            lemma_peer_round_trip(b, pos + 1, from);
            let q = pos + 1 + ps.len();
            assert(b.subrange(q, q + is.len()) =~= is) by {
                assert forall|k: int| 0 <= k < is.len() implies b.subrange(q, q + is.len())[k] == is[k] by {
                    assert(b[q + k] == s[1 + ps.len() + k]);
                }
            }
            lemma_id_list_round_trip(b, q, ids);
        },
        SubtaskV::Take(from, ids) => {
            let s = sw_subtask(t)->Ok_0;
            let ps = sw_peer(from);
            let is = sw_id_list(ids)->Ok_0;
            assert(s =~= seq![TAKE_TYPE_ID] + ps + is);
            assert(b[pos] == s[0]);
            assert(b.subrange(pos + 1, pos + 1 + ps.len()) =~= ps) by {
                assert forall|k: int| 0 <= k < ps.len() implies b.subrange(pos + 1, pos + 1 + ps.len())[k] == ps[k] by {
                    assert(b[pos + 1 + k] == s[1 + k]);
                }
            }
            lemma_peer_round_trip(b, pos + 1, from);
            let q = pos + 1 + ps.len();
            assert(b.subrange(q, q + is.len()) =~= is) by {
                assert forall|k: int| 0 <= k < is.len() implies b.subrange(q, q + is.len())[k] == is[k] by {
                    assert(b[q + k] == s[1 + ps.len() + k]);
                }
            }
            lemma_id_list_round_trip(b, q, ids);
        },
    }
}

proof fn lemma_subtasks_round_trip(b: Seq<u8>, pos: int, ts: Seq<SubtaskV>)
    requires
        forall|i: int| 0 <= i < ts.len() ==> subtask_shaped(#[trigger] ts[i]),
        forall|i: int| 0 <= i < ts.len() ==> subtask_wire_safe(#[trigger] ts[i]),
        sw_subtasks(ts) is Ok,
        occurs_at(b, pos, sw_subtasks(ts)->Ok_0),
    ensures
        sp_subtasks(b, pos, ts.len()) == Ok::<(Seq<SubtaskV>, int), ParseFail>(
            (ts, pos + sw_subtasks(ts)->Ok_0.len()),
        ),
    decreases ts.len(),
{
    if ts.len() > 0 {
        let front = ts.drop_last();
        let last = ts.last();
        let s = sw_subtasks(ts)->Ok_0;
        let fs = sw_subtasks(front)->Ok_0;
        let ls = sw_subtask(last)->Ok_0;
        assert(s =~= fs + ls);
        assert(b.subrange(pos, pos + fs.len()) =~= fs) by {
            assert forall|k: int| 0 <= k < fs.len() implies b.subrange(pos, pos + fs.len())[k] == fs[k] by {
                assert(b[pos + k] == s[k]);
            }
        }
        assert forall|i: int| 0 <= i < front.len() implies subtask_shaped(#[trigger] front[i])
            && subtask_wire_safe(front[i]) by {
            assert(front[i] == ts[i]);
        }
        lemma_subtasks_round_trip(b, pos, front);
        let q = pos + fs.len();
        assert(b.subrange(q, q + ls.len()) =~= ls) by {
            assert forall|k: int| 0 <= k < ls.len() implies b.subrange(q, q + ls.len())[k] == ls[k] by {
                assert(b[q + k] == s[fs.len() + k]);
            }
        }
        assert(subtask_shaped(ts[ts.len() - 1]) && subtask_wire_safe(ts[ts.len() - 1]));
        lemma_subtask_round_trip(b, q, last);
        assert(front.push(last) =~= ts);
        assert(front.len() == (ts.len() - 1) as nat);
        assert(sp_subtasks(b, pos, ts.len()) == match sp_subtasks(b, pos, front.len()) {
            Ok((xs, p)) => match sp_subtask(b, p) {
                Ok((t, q)) => Ok((xs.push(t), q)),
                Err(e) => Err(e),
            },
            Err(e) => Err(e),
        });
    } else {
        assert(ts =~= Seq::<SubtaskV>::empty());
    }
}

#[verifier::spinoff_prover]
#[verifier::rlimit(40)]
proof fn lemma_sync_round_trip(ts: Seq<SubtaskV>, rest: Seq<u8>)
    requires
        wire_safe(RequestV::Sync(ts)),
        request_shaped(RequestV::Sync(ts)),
    ensures
        sw_request(RequestV::Sync(ts)) is Ok,
        sp_request(sw_request(RequestV::Sync(ts))->Ok_0 + rest) == Ok::<
            Option<(RequestV, int)>,
            ParseFail,
        >(Some((RequestV::Sync(ts), sw_request(RequestV::Sync(ts))->Ok_0.len() as int))),
{
    lemma_subtasks_ok(ts);
    let s = sw_request(RequestV::Sync(ts))->Ok_0;
    let b = s + rest;
    let ss = sw_subtasks(ts)->Ok_0;
    let n = (ts.len() % 65536) as u16;
    assert(s =~= seq![SYNC_TYPE_ID] + sw_u16_le(n) + ss);
    assert(b[0] == SYNC_TYPE_ID);
    assert(b.subrange(1, 3) =~= sw_u16_le(n));
    lemma_u16_le_round_trip(b, 1, n);
    assert(b.subrange(3, 3 + ss.len() as int) =~= ss) by {
        assert forall|k: int| 0 <= k < ss.len() implies b.subrange(3, 3 + ss.len() as int)[k]
            == ss[k] by {
            assert(b[3 + k] == s[3 + k]);
        }
    }
    lemma_subtasks_round_trip(b, 3, ts);
}

proof fn lemma_list_round_trip(r: RequestV, ids: Seq<Seq<u8>>, rest: Seq<u8>)
    requires
        r == RequestV::Copy(ids) || r == RequestV::Take(ids),
        wire_safe(r),
        request_shaped(r),
    ensures
        sw_request(r) is Ok,
        sp_request(sw_request(r)->Ok_0 + rest) == Ok::<Option<(RequestV, int)>, ParseFail>(
            Some((r, sw_request(r)->Ok_0.len() as int)),
        ),
{
    let is = sw_id_list(ids)->Ok_0;
    let s = sw_request(r)->Ok_0;
    let b = s + rest;
    assert(s.len() == 1 + is.len());
    assert(b.subrange(1, 1 + is.len() as int) =~= is) by {
        assert forall|k: int| 0 <= k < is.len() implies b.subrange(1, 1 + is.len() as int)[k]
            == is[k] by {
            assert(b[1 + k] == s[1 + k]);
        }
    }
    lemma_id_list_round_trip(b, 1, ids);
}

/// Round trip: writing a request and reading the resulting bytes (whatever follows them on the
/// connection) gives back the same request and the number of bytes written, for every request
/// that `wire_safe` admits.
pub proof fn lemma_request_round_trip(r: Request, rest: Seq<u8>)
    requires
        wire_safe(r@),
    ensures
        sw_request(r@) is Ok,
        sp_request(sw_request(r@)->Ok_0 + rest) == Ok::<Option<(RequestV, int)>, ParseFail>(
            Some((r@, sw_request(r@)->Ok_0.len() as int)),
        ),
{
    lemma_request_shaped(r);
    match r@ {
        RequestV::Sync(ts) => lemma_sync_round_trip(ts, rest),
        RequestV::Copy(ids) => lemma_list_round_trip(r@, ids, rest),
        RequestV::Take(ids) => lemma_list_round_trip(r@, ids, rest),
    }
}

/// Round trip of a subtask: the bytes that `SyncSubtask::write_into` appends read back, whatever
/// stands before and after them, as the same subtask (same kind, same peer address and port, same
/// object IDs in the same order), for every subtask that `subtask_wire_safe` admits.
pub proof fn lemma_sync_subtask_round_trip(t: SyncSubtask, before: Seq<u8>, rest: Seq<u8>)
    requires
        subtask_wire_safe(t@),
    ensures
        sw_subtask(t@) is Ok,
        sp_subtask(before + sw_subtask(t@)->Ok_0 + rest, before.len() as int) == Ok::<
            (SubtaskV, int),
            ParseFail,
        >((t@, (before.len() + sw_subtask(t@)->Ok_0.len()) as int)),
{
    broadcast use vstd::array::group_array_axioms;

    match t {
        SyncSubtask::Copy { from, objects } => {
            lemma_ids_of_view(objects@);
        },
        SyncSubtask::Take { from, objects } => {
            lemma_ids_of_view(objects@);
        },
    }
    let s = sw_subtask(t@)->Ok_0;
    let b = before + s + rest;
    let pos = before.len() as int;
    assert(b.subrange(pos, pos + s.len()) =~= s) by {
        assert forall|k: int| 0 <= k < s.len() implies b.subrange(pos, pos + s.len())[k] == s[k] by {
            assert(b[pos + k] == s[k]);
        }
    }
    lemma_subtask_round_trip(b, pos, t@);
}

/// Writing subtasks succeeds when all their ID lists are short enough.
proof fn lemma_subtasks_ok(ts: Seq<SubtaskV>)
    requires
        forall|i: int| 0 <= i < ts.len() ==> subtask_wire_safe(#[trigger] ts[i]),
    ensures
        sw_subtasks(ts) is Ok,
    decreases ts.len(),
{
    if ts.len() > 0 {
        let front = ts.drop_last();
        assert forall|i: int| 0 <= i < front.len() implies subtask_wire_safe(#[trigger] front[i]) by {
            assert(front[i] == ts[i]);
        }
        lemma_subtasks_ok(front);
        assert(subtask_wire_safe(ts[ts.len() - 1]));
    }
}

} // verus!
