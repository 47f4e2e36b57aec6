//! What an authority that keeps its data in a key-value store decides: the paths of its
//! keys, who leads, and how the controller's state is cut into chunks that fit the store.
//!
//! The values of the store cannot exceed 512 KB, and the state of the controller can. The
//! state is therefore compressed and stored in chunks, under one of two versions in turn:
//! the chunks of the new state are written under the version that is not in use, and only
//! then does the key of the state name the new version and its number of chunks. A reader
//! takes the version and the number of chunks from that key and reads as many chunks, so
//! that it never sees a state in part.

use crate::text::{
    decimal, last_index_of_char, part, push_decimal, rfind_char,
};
use vstd::prelude::*;

verus! {

/// Prefix of the keys of the workers.
pub const WORKER_PREFIX: &'static str = "workers/";

/// Path to the leader key.
pub const CONTROLLER_KEY: &'static str = "controller";

/// Path to the controller state.
pub const STATE_KEY: &'static str = "state";

/// Prefix of the keys of the adapters.
pub const ADAPTER_PREFIX: &'static str = "adapters/";

/// The size of each chunk of the state. The store encodes a chunk in base64, and the
/// encoded chunk must stay below 512 KB.
pub const CHUNK_SIZE: usize = 256000;

/// The longest compressed state that is taken apart: twice its length is within what a
/// vector can hold on any machine.
pub const MAX_COMPRESSED: usize = 0x3fffffff;

/// The error of `base64::decode`.
#[verifier::external_type_specification]
#[verifier::external_body]
pub struct ExDecodeError(base64::DecodeError);

/// The error of `yazi::compress` and `yazi::decompress`.
#[verifier::external_type_specification]
#[verifier::external_body]
pub struct ExYaziError(yazi::Error);

/// What `base64::decode` makes of `input`: the bytes that the text stands for in the
/// standard alphabet with padding, or `None` where the text is no such encoding.
pub uninterp spec fn base64_decoded(input: Seq<u8>) -> Option<Seq<u8>>;

/// What `yazi::compress` makes of `data` in the zlib format at the default level, or `None`
/// where it fails.
pub uninterp spec fn zlib_compressed(data: Seq<u8>) -> Option<Seq<u8>>;

/// What `yazi::decompress` makes of `data` in the zlib format, or `None` where `data` is no
/// zlib stream.
pub uninterp spec fn zlib_decompressed(data: Seq<u8>) -> Option<Seq<u8>>;

/// `base64::decode`: the bytes that a base64 text stands for. The result depends on the
/// text alone.
#[verifier::external_body]
fn base64_decode(input: &Vec<u8>) -> (r: Result<Vec<u8>, base64::DecodeError>)
    ensures
        r matches Ok(v) ==> base64_decoded(input@) == Some(v@),
        r is Err ==> base64_decoded(input@).is_none(),
{
    base64::decode(input)
}

/// `yazi::compress` with the zlib format and the default level. The result depends on the
/// data alone.
#[verifier::external_body]
fn compress(data: &Vec<u8>) -> (r: Result<Vec<u8>, yazi::Error>)
    ensures
        r matches Ok(v) ==> zlib_compressed(data@) == Some(v@),
        r is Err ==> zlib_compressed(data@).is_none(),
{
    yazi::compress(data, yazi::Format::Zlib, yazi::CompressionLevel::Default)
}

/// `yazi::decompress` with the zlib format; the checksum is dropped. The result depends on
/// the data alone. The function reserves twice the length of the data before it starts, so
/// that much must be within what a vector can hold: the data may not be longer than
/// [`MAX_COMPRESSED`].
#[verifier::external_body]
fn decompress(data: &Vec<u8>) -> (r: Result<Vec<u8>, yazi::Error>)
    requires
        data@.len() <= MAX_COMPRESSED,
    ensures
        r matches Ok(v) ==> zlib_decompressed(data@) == Some(v@),
        r is Err ==> zlib_decompressed(data@).is_none(),
{
    yazi::decompress(data, yazi::Format::Zlib).map(|found| found.0)
}

/// What can go wrong at the authority.
#[derive(Clone, Copy, Debug, PartialEq, Eq, Structural)]
pub enum AuthorityError {
    /// The connect string names no deployment.
    MissingDeployment,
    /// The authority was made for reading only.
    ReadOnly,
    /// A value of the store is no base64 text.
    Encoding,
    /// The stored state is no compressed stream, or is too long to take apart.
    Compression,
    /// Somebody else leads.
    NotLeader,
}

/// The part of a path after its last slash: the identifier of a worker. A path without a
/// slash has no such part.
pub fn path_to_worker_id(path: &str) -> (id: String)
    requires
        last_index_of_char(path@, '/') >= 0,
    ensures
        id@ == path@.subrange(last_index_of_char(path@, '/') + 1, path@.len() as int),
{
    let slash: usize = rfind_char(path, '/').unwrap();
    let n: usize = path.unicode_len();
    part(path, slash + 1, n)
}

/// The part of a path after its last slash: the identifier of an adapter. A path without a
/// slash has no such part.
pub fn path_to_adapter_id(path: &str) -> (id: String)
    requires
        last_index_of_char(path@, '/') >= 0,
    ensures
        id@ == path@.subrange(last_index_of_char(path@, '/') + 1, path@.len() as int),
{
    let slash: usize = rfind_char(path, '/').unwrap();
    let n: usize = path.unicode_len();
    part(path, slash + 1, n)
}

/// The path of the key of the worker `id`.
pub fn worker_id_to_path(id: &str) -> (path: String)
    ensures
        path@ == WORKER_PREFIX@ + id@,
{
    let mut path = String::from_str(WORKER_PREFIX);
    path.append(id);
    path
}

/// The path of the key of the adapter `id`.
pub fn adapter_id_to_path(id: &str) -> (path: String)
    ensures
        path@ == ADAPTER_PREFIX@ + id@,
{
    let mut path = String::from_str(ADAPTER_PREFIX);
    path.append(id);
    path
}

/// The version after `current`: the versions "0" and "1" take turns.
pub open spec fn next_version(current: Seq<char>) -> Seq<char> {
    if current == "0"@ {
        "1"@
    } else {
        "0"@
    }
}

/// Returns the next controller state version. Returns a version in the set { "0", "1" }
/// since only two versions are required.
pub fn next_state_version(current: &str) -> (next: String)
    ensures
        next@ == next_version(current@),
{
    let zero = String::from_str("0");
    let cur = String::from_str(current);
    if cur == zero {
        String::from_str("1")
    } else {
        String::from_str("0")
    }
}

/// The bytes `v` cut into pieces of `size` bytes; the last piece may be shorter.
pub open spec fn chunked(v: Seq<u8>, size: nat) -> Seq<Seq<u8>>
    decreases v.len(),
{
    if v.len() == 0 {
        Seq::empty()
    } else if v.len() <= size || size == 0 {
        seq![v]
    } else {
        seq![v.take(size as int)] + chunked(v.skip(size as int), size)
    }
}

/// The pieces `chunks` put together again.
pub open spec fn joined(chunks: Seq<Seq<u8>>) -> Seq<u8>
    decreases chunks.len(),
{
    if chunks.len() == 0 {
        Seq::empty()
    } else {
        joined(chunks.drop_last()) + chunks.last()
    }
}

/// Putting pieces together after a first piece gives the first piece and then the rest.
pub proof fn lemma_joined_prepend(first: Seq<u8>, rest: Seq<Seq<u8>>)
    ensures
        joined(seq![first] + rest) == first + joined(rest),
    decreases rest.len(),
{
    if rest.len() == 0 {
        assert(seq![first] + rest =~= seq![first]);
        assert(seq![first].drop_last() =~= Seq::<Seq<u8>>::empty());
        assert(seq![first].last() == first);
        reveal_with_fuel(joined, 2);
        assert(joined(seq![first]) =~= first);
        assert(first + joined(rest) =~= first);
    } else {
        let all = seq![first] + rest;
        assert(all.drop_last() =~= seq![first] + rest.drop_last());
        assert(all.last() == rest.last());
        lemma_joined_prepend(first, rest.drop_last());
        assert(joined(all) =~= first + joined(rest));
    }
}

/// The pieces of a state put together give the state back; no piece is longer than the
/// size, and none but the last is shorter.
pub proof fn lemma_chunks_roundtrip(v: Seq<u8>, size: nat)
    requires
        size > 0,
    ensures
        joined(chunked(v, size)) == v,
        forall|i: int|
            0 <= i < chunked(v, size).len() ==> 0 < (#[trigger] chunked(v, size)[i]).len()
                <= size,
        forall|i: int|
            0 <= i < chunked(v, size).len() - 1 ==> (#[trigger] chunked(v, size)[i]).len()
                == size,
        chunked(v, size).len() == (v.len() + size - 1) / size as int,
    decreases v.len(),
{
    if v.len() == 0 {
        assert((v.len() + size - 1) / size as int == 0) by (nonlinear_arith)
            requires
                v.len() == 0,
                size > 0,
        ;
    } else if v.len() <= size {
        assert(seq![v].drop_last() =~= Seq::<Seq<u8>>::empty());
        assert(seq![v].last() == v);
        reveal_with_fuel(joined, 2);
        assert(joined(seq![v]) =~= v);
        assert((v.len() + size - 1) / size as int == 1) by (nonlinear_arith)
            requires
                0 < v.len() <= size,
        ;
    } else {
        let head = v.take(size as int);
        let tail = v.skip(size as int);
        lemma_chunks_roundtrip(tail, size);
        lemma_joined_prepend(head, chunked(tail, size));
        assert(head + tail =~= v);
        let all = chunked(v, size);
        assert forall|i: int| 0 <= i < all.len() implies 0 < (#[trigger] all[i]).len()
            <= size by {
            if i > 0 {
                assert(all[i] == chunked(tail, size)[i - 1]);
            }
        }
        assert forall|i: int| 0 <= i < all.len() - 1 implies (#[trigger] all[i]).len()
            == size by {
            if i > 0 {
                assert(all[i] == chunked(tail, size)[i - 1]);
            }
        }
        assert((v.len() + size - 1) / size as int == 1 + (v.len() - size + size - 1)
            / size as int) by (nonlinear_arith)
            requires
                v.len() > size,
                size > 0,
        ;
    }
}

/// The state of the controller in the pieces in which it is stored.
#[derive(Debug)]
pub struct ChunkedState(pub Vec<Vec<u8>>);

impl ChunkedState {
    /// The pieces.
    pub open spec fn pieces(self) -> Seq<Seq<u8>> {
        Seq::new(self.0@.len(), |i: int| self.0@[i]@)
    }

    /// Cuts `v` into pieces of `size` bytes.
    pub fn cut(v: &Vec<u8>, size: usize) -> (c: ChunkedState)
        requires
            size > 0,
        ensures
            c.pieces() == chunked(v@, size as nat),
    {
        let mut out: Vec<Vec<u8>> = Vec::new();
        let mut pos: usize = 0;
        let ghost mut done = Seq::<Seq<u8>>::empty();
        proof {
            assert(v@.skip(0) =~= v@);
            assert(done + chunked(v@.skip(0), size as nat) =~= chunked(v@, size as nat));
        }
        while pos < v.len()
            invariant
                size > 0,
                pos <= v@.len(),
                done.len() == out@.len(),
                forall|i: int| 0 <= i < out@.len() ==> (#[trigger] out@[i])@ == done[i],
                chunked(v@, size as nat) == done + chunked(v@.skip(pos as int), size as nat),
            decreases v@.len() - pos,
        {
            let left: usize = v.len() - pos;
            let take: usize = if left <= size {
                left
            } else {
                size
            };
            let mut piece: Vec<u8> = Vec::with_capacity(take);
            let mut i: usize = 0;
            while i < take
                invariant
                    i <= take,
                    pos + take <= v@.len() <= usize::MAX,
                    piece@ == v@.subrange(pos as int, pos + i),
                decreases take - i,
            {
                piece.push(v[pos + i]);
                assert(piece@ =~= v@.subrange(pos as int, pos + i + 1));
                i += 1;
            }
            proof {
                let rest = v@.skip(pos as int);
                assert(rest.len() == left);
                if left <= size {
                    assert(piece@ =~= rest);
                    assert(v@.skip(pos + take) =~= Seq::<u8>::empty());
                    assert(chunked(rest, size as nat) =~= seq![piece@] + chunked(
                        v@.skip(pos + take),
                        size as nat,
                    ));
                } else {
                    assert(piece@ =~= rest.take(size as int));
                    assert(rest.skip(size as int) =~= v@.skip(pos + take));
                }
                assert(done + chunked(rest, size as nat) =~= done.push(piece@) + chunked(
                    v@.skip(pos + take),
                    size as nat,
                ));
                done = done.push(piece@);
            }
            out.push(piece);
            pos += take;
        }
        let c = ChunkedState(out);
        proof {
            assert(v@.skip(pos as int) =~= Seq::<u8>::empty());
            assert(c.pieces() =~= done);
            assert(done + Seq::<Seq<u8>>::empty() =~= done);
        }
        c
    }

    /// Puts the pieces together.
    pub fn join(self) -> (v: Vec<u8>)
        ensures
            v@ == joined(self.pieces()),
    {
        let ghost all = self.pieces();
        let mut v: Vec<u8> = Vec::new();
        let mut i: usize = 0;
        proof {
            assert(all.take(0) =~= Seq::<Seq<u8>>::empty());
        }
        while i < self.0.len()
            invariant
                i <= self.0@.len(),
                all == self.pieces(),
                v@ == joined(all.take(i as int)),
            decreases self.0@.len() - i,
        {
            let ghost before = v@;
            let piece = &self.0[i];
            let mut j: usize = 0;
            while j < piece.len()
                invariant
                    j <= piece@.len(),
                    v@ == before + piece@.take(j as int),
                decreases piece@.len() - j,
            {
                v.push(piece[j]);
                assert(v@ =~= before + piece@.take(j + 1));
                j += 1;
            }
            proof {
                assert(piece@.take(piece@.len() as int) =~= piece@);
                assert(all.take(i + 1).drop_last() =~= all.take(i as int));
                assert(all.take(i + 1).last() == piece@);
            }
            i += 1;
        }
        proof {
            assert(all.take(self.0@.len() as int) =~= all);
        }
        v
    }
}

/// Which version of the state is in use, and in how many chunks it is stored. The number
/// of chunks is kept because a shorter state cannot delete the chunks that it no longer
/// needs.
#[derive(Debug)]
pub struct StateVersion {
    /// The number of chunks of the state.
    pub num_chunks: usize,
    /// The version.
    pub version: String,
}

impl Default for StateVersion {
    fn default() -> (v: StateVersion)
        ensures
            v.num_chunks == 0,
            v.version@ == "0"@,
    {
        StateVersion { num_chunks: 0, version: String::from_str("0") }
    }
}

/// A key of the store with its value, and what the store tells of it.
#[derive(Debug)]
pub struct KvPair {
    /// The path of the key.
    pub key: String,
    /// The value, as the store hands it out: in base64.
    pub value: Vec<u8>,
    /// The session that holds the lock on the key, if one does.
    pub session: Option<String>,
    /// The index at which the key was last modified.
    pub modify_index: Option<u64>,
    /// The index at which the key was created.
    pub create_index: Option<u64>,
}

impl KvPair {
    /// The index that tells how new the key is: that of its last modification, or of its
    /// creation, or zero.
    pub open spec fn index(self) -> u64 {
        match (self.modify_index, self.create_index) {
            (Some(modify), _) => modify,
            (_, Some(create)) => create,
            _ => 0,
        }
    }
}

/// Whether the key is newer than the index `current_index`: it is if nothing has been seen
/// yet, or if the key has no index, or if its index is greater.
pub open spec fn newer(current_index: Option<u64>, kv: KvPair) -> bool {
    match current_index {
        None => true,
        Some(current) => match (kv.modify_index, kv.create_index) {
            (Some(modify), _) => modify > current,
            (_, Some(create)) => create > current,
            _ => true,
        },
    }
}

/// Whether the key is newer than what was seen last.
pub fn is_new_index(current_index: Option<u64>, kv: &KvPair) -> (b: bool)
    ensures
        b == newer(current_index, *kv),
{
    match current_index {
        Some(current) => match (kv.modify_index, kv.create_index) {
            (Some(modify), _) => modify > current,
            (_, Some(create)) => create > current,
            _ => true,
        },
        None => true,
    }
}

/// What the authority remembers while it may write.
#[derive(Debug)]
pub struct ConsulAuthorityInner {
    /// The identifier of the session, once there is one.
    pub session: Option<String>,
    /// The last index that the controller key was modified or created at.
    pub controller_index: Option<u64>,
}

/// What is found when the leader is asked for.
#[derive(Debug)]
pub enum GetLeaderResult {
    /// A leader that was not known before: its payload, as bytes.
    NewLeader(Vec<u8>),
    /// The leader is the one that was known.
    Unchanged,
    /// Nobody leads.
    NoLeader,
}

/// Coordinator that shares connection information between workers and clients through a
/// key-value store.
#[derive(Debug)]
pub struct ConsulAuthority {
    /// The address of the store.
    address: String,
    /// Deployment associated with this authority.
    deployment: String,
    /// Internal authority state required to handle operations.
    inner: Option<ConsulAuthorityInner>,
}

impl ConsulAuthority {
    /// The address of the store.
    pub closed spec fn spec_address(self) -> Seq<char> {
        self.address@
    }

    /// The deployment.
    pub closed spec fn spec_deployment(self) -> Seq<char> {
        self.deployment@
    }

    /// What the authority remembers, unless it only reads.
    pub closed spec fn remembered(self) -> Option<ConsulAuthorityInner> {
        self.inner
    }

    /// Whether the authority may write.
    pub closed spec fn writable(self) -> bool {
        self.inner.is_some()
    }

    /// The identifier of the session, once there is one.
    pub closed spec fn spec_session(self) -> Option<Seq<char>> {
        match self.inner {
            Some(inner) => match inner.session {
                Some(s) => Some(s@),
                None => None,
            },
            None => None,
        }
    }

    /// The last index that the controller key was seen at.
    pub closed spec fn spec_controller_index(self) -> Option<u64> {
        match self.inner {
            Some(inner) => inner.controller_index,
            None => None,
        }
    }

    /// The path `path` within the deployment `deployment`.
    pub open spec fn prefixed(deployment: Seq<char>, path: Seq<char>) -> Seq<char> {
        deployment + "/"@ + path
    }

    /// The authority for a connect string, which has the form
    /// `http(s)://<address>:<port>/<deployment>`: what follows the last slash is the
    /// deployment, what precedes it the address. `inner` says what the authority remembers,
    /// or that it only reads.
    pub fn new_with_inner(connect_string: &str, inner: Option<ConsulAuthorityInner>) -> (r:
        Result<Self, AuthorityError>)
        ensures
            r.is_ok() == (last_index_of_char(connect_string@, '/') >= 0),
            r.is_err() ==> r.unwrap_err() == AuthorityError::MissingDeployment,
            r.is_ok() ==> {
                let split = last_index_of_char(connect_string@, '/');
                &&& r.unwrap().spec_address() == connect_string@.subrange(0, split)
                &&& r.unwrap().spec_deployment() == connect_string@.subrange(
                    split + 1,
                    connect_string@.len() as int,
                )
                &&& r.unwrap().remembered() == inner
            },
    {
        match rfind_char(connect_string, '/') {
            None => Err(AuthorityError::MissingDeployment),
            Some(split_idx) => {
                let n: usize = connect_string.unicode_len();
                let deployment = part(connect_string, split_idx + 1, n);
                let address = part(connect_string, 0, split_idx);
                Ok(Self { address, deployment, inner })
            },
        }
    }

    /// Create a new instance, which may write and has no session yet.
    pub fn new(connect_string: &str) -> (r: Result<Self, AuthorityError>)
        ensures
            r.is_ok() == (last_index_of_char(connect_string@, '/') >= 0),
            r.is_err() ==> r.unwrap_err() == AuthorityError::MissingDeployment,
            r.is_ok() ==> {
                let split = last_index_of_char(connect_string@, '/');
                &&& r.unwrap().spec_address() == connect_string@.subrange(0, split)
                &&& r.unwrap().spec_deployment() == connect_string@.subrange(
                    split + 1,
                    connect_string@.len() as int,
                )
                &&& r.unwrap().writable()
                &&& r.unwrap().spec_session().is_none()
                &&& r.unwrap().spec_controller_index().is_none()
            },
    {
        let inner = Some(ConsulAuthorityInner { controller_index: None, session: None });
        Self::new_with_inner(connect_string, inner)
    }

    /// The address of the store.
    pub fn address(&self) -> (a: &String)
        ensures
            a@ == self.spec_address(),
    {
        &self.address
    }

    /// The deployment.
    pub fn deployment(&self) -> (d: &String)
        ensures
            d@ == self.spec_deployment(),
    {
        &self.deployment
    }

    /// Takes note of the session that the store has opened for this authority. An authority
    /// that only reads cannot have a session.
    pub fn set_session(&mut self, id: String) -> (r: Result<(), AuthorityError>)
        ensures
            final(self).spec_address() == old(self).spec_address(),
            final(self).spec_deployment() == old(self).spec_deployment(),
            final(self).spec_controller_index() == old(self).spec_controller_index(),
            final(self).writable() == old(self).writable(),
            r.is_ok() == old(self).writable(),
            r.is_err() ==> r.unwrap_err() == AuthorityError::ReadOnly && final(self).spec_session()
                == old(self).spec_session(),
            r.is_ok() ==> final(self).spec_session() == Some(id@),
    {
        match self.inner.take() {
            Some(inner) => {
                self.inner = Some(
                    ConsulAuthorityInner {
                        session: Some(id),
                        controller_index: inner.controller_index,
                    },
                );
                Ok(())
            },
            None => Err(AuthorityError::ReadOnly),
        }
    }

    /// The identifier of the session, which must have been opened.
    pub fn get_session(&self) -> (r: String)
        requires
            self.spec_session().is_some(),
        ensures
            r@ == self.spec_session().unwrap(),
    {
        match &self.inner {
            Some(inner) => match &inner.session {
                Some(s) => s.clone(),
                None => String::new(),
            },
            None => String::new(),
        }
    }

    /// Remembers the index of the controller key `kv`. An authority that only reads
    /// remembers nothing.
    pub fn update_controller_index_from_pair(&mut self, kv: &KvPair) -> (r: Result<
        (),
        AuthorityError,
    >)
        ensures
            final(self).spec_address() == old(self).spec_address(),
            final(self).spec_deployment() == old(self).spec_deployment(),
            final(self).spec_session() == old(self).spec_session(),
            final(self).writable() == old(self).writable(),
            r.is_ok() == old(self).writable(),
            r.is_err() ==> r.unwrap_err() == AuthorityError::ReadOnly && final(self).spec_controller_index() == old(self).spec_controller_index(),
            r.is_ok() ==> final(self).spec_controller_index() == Some(kv.index()),
    {
        let new_index: u64 = match (kv.modify_index, kv.create_index) {
            (Some(modify), _) => modify,
            (_, Some(create)) => create,
            _ => 0,
        };
        match self.inner.take() {
            Some(inner) => {
                self.inner = Some(
                    ConsulAuthorityInner {
                        session: inner.session,
                        controller_index: Some(new_index),
                    },
                );
                Ok(())
            },
            None => Err(AuthorityError::ReadOnly),
        }
    }

    /// The path `path` within this authority's deployment.
    pub fn prefix_with_deployment(&self, path: &str) -> (p: String)
        ensures
            p@ == Self::prefixed(self.spec_deployment(), path@),
    {
        let mut p = self.deployment.clone();
        p.append("/");
        p.append(path);
        p
    }

    /// The path of chunk `chunk` of the state with the version `version`.
    pub open spec fn chunk_path(self, version: Seq<char>, chunk: nat) -> Seq<char> {
        Self::prefixed(self.spec_deployment(), STATE_KEY@) + "/"@ + version + "/"@ + decimal(
            chunk,
        )
    }

    /// The paths of the chunks of the state `version`, in order.
    pub fn chunk_paths(&self, version: &StateVersion) -> (paths: Vec<String>)
        ensures
            paths@.len() == version.num_chunks,
            forall|c: int|
                0 <= c < paths@.len() ==> (#[trigger] paths@[c])@ == self.chunk_path(
                    version.version@,
                    c as nat,
                ),
    {
        let mut paths: Vec<String> = Vec::new();
        let mut c: usize = 0;
        while c < version.num_chunks
            invariant
                c <= version.num_chunks,
                paths@.len() == c,
                forall|i: int|
                    0 <= i < c ==> (#[trigger] paths@[i])@ == self.chunk_path(
                        version.version@,
                        i as nat,
                    ),
            decreases version.num_chunks - c,
        {
            let mut path = self.prefix_with_deployment(STATE_KEY);
            path.append("/");
            path.append(version.version.as_str());
            path.append("/");
            push_decimal(&mut path, c as u64);
            paths.push(path);
            c += 1;
        }
        paths
    }

    /// Whether the session `holder` that holds the lock on the controller key is this
    /// authority's: only then may the authority write the state.
    pub fn leads(&self, holder: &Option<String>) -> (b: bool)
        ensures
            b == match *holder {
                Some(h) => self.spec_session() == Some(h@),
                None => false,
            },
    {
        match (&self.inner, holder) {
            (Some(inner), Some(h)) => match &inner.session {
                Some(s) => *s == *h,
                None => false,
            },
            _ => false,
        }
    }

    /// What the controller key says of the leader, where `found` is the key as the store has
    /// it, if it has it. A key that is not newer than what was seen says that nothing has
    /// changed; a newer key without a session says that nobody leads; a newer key with a
    /// session names a new leader, whose payload is the decoded value, and its index is
    /// remembered.
    pub fn try_get_leader(&mut self, found: Option<&KvPair>) -> (r: Result<
        GetLeaderResult,
        AuthorityError,
    >)
        ensures
            final(self).spec_address() == old(self).spec_address(),
            final(self).spec_deployment() == old(self).spec_deployment(),
            final(self).spec_session() == old(self).spec_session(),
            final(self).writable() == old(self).writable(),
            !old(self).writable() ==> r == Err::<GetLeaderResult, AuthorityError>(
                AuthorityError::ReadOnly,
            ) && final(self).spec_controller_index() == old(self).spec_controller_index(),
            old(self).writable() ==> match found {
                None => r matches Ok(GetLeaderResult::NoLeader) && final(self).spec_controller_index() == old(self).spec_controller_index(),
                Some(kv) => if !newer(old(self).spec_controller_index(), *kv) {
                    r matches Ok(GetLeaderResult::Unchanged) && final(self).spec_controller_index()
                        == old(self).spec_controller_index()
                } else if kv.session.is_none() {
                    r matches Ok(GetLeaderResult::NoLeader) && final(self).spec_controller_index()
                        == old(self).spec_controller_index()
                } else {
                    &&& final(self).spec_controller_index() == Some(kv.index())
                    &&& match base64_decoded(kv.value@) {
                        Some(bytes) => r matches Ok(GetLeaderResult::NewLeader(payload))
                            && payload@ == bytes,
                        None => r == Err::<GetLeaderResult, AuthorityError>(
                            AuthorityError::Encoding,
                        ),
                    }
                },
            },
    {
        let current_index: Option<u64> = match &self.inner {
            Some(inner) => inner.controller_index,
            None => {
                return Err(AuthorityError::ReadOnly);
            },
        };
        match found {
            Some(kv) => {
                if is_new_index(current_index, kv) {
                    if kv.session.is_none() {
                        return Ok(GetLeaderResult::NoLeader);
                    }
                    let updated = self.update_controller_index_from_pair(kv);
                    match base64_decode(&kv.value) {
                        Ok(bytes) => Ok(GetLeaderResult::NewLeader(bytes)),
                        Err(_) => Err(AuthorityError::Encoding),
                    }
                } else {
                    Ok(GetLeaderResult::Unchanged)
                }
            },
            None => Ok(GetLeaderResult::NoLeader),
        }
    }

    /// What is written for a new state of the controller, `serialized`, where `version` is
    /// the version in use, if there is one: the state is compressed and cut into chunks,
    /// and each chunk goes to its path under the next version. The result names that
    /// version with the number of chunks, and gives each path with its chunk, in order.
    pub fn write_controller_state(&self, version: Option<StateVersion>, serialized: &Vec<u8>) -> (r:
        Result<(StateVersion, Vec<(String, Vec<u8>)>), AuthorityError>)
        ensures
            r.is_ok() == zlib_compressed(serialized@).is_some(),
            r.is_err() ==> r.unwrap_err() == AuthorityError::Compression,
            r.is_ok() ==> {
                let current = match version {
                    Some(v) => v.version@,
                    None => "0"@,
                };
                let chunks = chunked(zlib_compressed(serialized@).unwrap(), CHUNK_SIZE as nat);
                let (new_version, writes) = r.unwrap();
                &&& new_version.version@ == next_version(current)
                &&& new_version.num_chunks == chunks.len()
                &&& writes@.len() == chunks.len()
                &&& forall|i: int|
                    0 <= i < writes@.len() ==> (#[trigger] writes@[i]).0@ == self.chunk_path(
                        next_version(current),
                        i as nat,
                    ) && writes@[i].1@ == chunks[i]
            },
    {
        let current = version.unwrap_or_default();
        let new_version = next_state_version(current.version.as_str());
        let compressed = match compress(serialized) {
            Ok(c) => c,
            Err(_) => {
                return Err(AuthorityError::Compression);
            },
        };
        let chunked_state = ChunkedState::cut(&compressed, CHUNK_SIZE);
        let ghost chunks = chunked_state.pieces();
        let num_chunks: usize = chunked_state.0.len();
        let mut pieces = chunked_state.0;
        let mut writes: Vec<(String, Vec<u8>)> = Vec::new();
        let mut i: usize = 0;
        while i < num_chunks
            invariant
                i <= num_chunks,
                num_chunks == chunks.len(),
                pieces@.len() == num_chunks - i,
                forall|j: int| 0 <= j < pieces@.len() ==> (#[trigger] pieces@[j])@ == chunks[j + i],
                writes@.len() == i,
                forall|j: int|
                    0 <= j < i ==> (#[trigger] writes@[j]).0@ == self.chunk_path(
                        new_version@,
                        j as nat,
                    ) && writes@[j].1@ == chunks[j],
            decreases num_chunks - i,
        {
            let chunk = pieces.remove(0);
            let mut path = self.prefix_with_deployment(STATE_KEY);
            path.append("/");
            path.append(new_version.as_str());
            path.append("/");
            push_decimal(&mut path, i as u64);
            writes.push((path, chunk));
            i += 1;
        }
        Ok((StateVersion { num_chunks, version: new_version }, writes))
    }
}

/// The state of the controller, as bytes, from the values of its chunks as the store hands
/// them out: each value is decoded from base64, the pieces are put together, and the
/// whole is decompressed.
pub open spec fn assembled(values: Seq<Seq<u8>>) -> Result<Seq<u8>, AuthorityError>
    decreases values.len(),
{
    match decoded_all(values) {
        None => Err(AuthorityError::Encoding),
        Some(pieces) => if joined(pieces).len() > MAX_COMPRESSED {
            Err(AuthorityError::Compression)
        } else {
            match zlib_decompressed(joined(pieces)) {
                Some(state) => Ok(state),
                None => Err(AuthorityError::Compression),
            }
        },
    }
}

/// The values decoded from base64, or `None` where one of them is no base64 text.
pub open spec fn decoded_all(values: Seq<Seq<u8>>) -> Option<Seq<Seq<u8>>>
    decreases values.len(),
{
    if values.len() == 0 {
        Some(Seq::empty())
    } else {
        match (decoded_all(values.drop_last()), base64_decoded(values.last())) {
            (Some(before), Some(piece)) => Some(before.push(piece)),
            _ => None,
        }
    }
}

/// Puts the state of the controller together from the values of its chunks.
pub fn get_controller_state(values: &Vec<Vec<u8>>) -> (r: Result<Vec<u8>, AuthorityError>)
    ensures
        match assembled(Seq::new(values@.len(), |i: int| values@[i]@)) {
            Ok(state) => r.is_ok() && r.unwrap()@ == state,
            Err(e) => r == Err::<Vec<u8>, AuthorityError>(e),
        },
{
    let ghost all = Seq::new(values@.len(), |i: int| values@[i]@);
    let mut pieces: Vec<Vec<u8>> = Vec::new();
    let mut i: usize = 0;
    proof {
        assert(all.take(0) =~= Seq::<Seq<u8>>::empty());
    }
    while i < values.len()
        invariant
            i <= values@.len(),
            all == Seq::new(values@.len(), |i: int| values@[i]@),
            decoded_all(all.take(i as int)) == Some(ChunkedState(pieces).pieces()),
        decreases values@.len() - i,
    {
        proof {
            assert(all.take(i + 1).drop_last() =~= all.take(i as int));
            assert(all.take(i + 1).last() == values@[i as int]@);
        }
        let ghost before = ChunkedState(pieces).pieces();
        match base64_decode(&values[i]) {
            Ok(piece) => {
                pieces.push(piece);
                assert(ChunkedState(pieces).pieces() =~= before.push(piece@));
            },
            Err(_) => {
                proof {
                    lemma_decoded_all_fails(all, i + 1);
                }
                return Err(AuthorityError::Encoding);
            },
        }
        i += 1;
    }
    proof {
        assert(all.take(values@.len() as int) =~= all);
    }
    let contiguous = ChunkedState(pieces).join();
    if contiguous.len() > MAX_COMPRESSED {
        return Err(AuthorityError::Compression);
    }
    match decompress(&contiguous) {
        Ok(state) => Ok(state),
        Err(_) => Err(AuthorityError::Compression),
    }
}

/// Where the first `n` values cannot all be decoded, neither can all of them.
pub proof fn lemma_decoded_all_fails(values: Seq<Seq<u8>>, n: int)
    requires
        0 <= n <= values.len(),
        decoded_all(values.take(n)).is_none(),
    ensures
        decoded_all(values).is_none(),
    decreases values.len() - n,
{
    if n < values.len() {
        assert(values.take(n + 1).drop_last() =~= values.take(n));
        lemma_decoded_all_fails(values, n + 1);
    } else {
        assert(values.take(n) =~= values);
    }
}

/// The identifiers of the workers that are alive, from the keys below the prefix of the
/// workers: a worker is alive while a session holds its key. The identifiers come in the
/// order of the keys.
pub fn get_workers(children: &Vec<KvPair>) -> (ids: Vec<String>)
    requires
        forall|i: int|
            0 <= i < children@.len() ==> last_index_of_char((#[trigger] children@[i]).key@, '/')
                >= 0,
    ensures
        ids@.len() <= children@.len(),
        Seq::new(ids@.len(), |i: int| ids@[i]@) == live_ids(
            Seq::new(children@.len(), |i: int| (children@[i].key@, children@[i].session.is_some())),
        ),
{
    let ghost all = Seq::new(
        children@.len(),
        |i: int| (children@[i].key@, children@[i].session.is_some()),
    );
    let mut ids: Vec<String> = Vec::new();
    let mut i: usize = 0;
    proof {
        assert(all.take(0) =~= Seq::<(Seq<char>, bool)>::empty());
        assert(Seq::new(ids@.len(), |i: int| ids@[i]@) =~= live_ids(all.take(0)));
    }
    while i < children.len()
        invariant
            i <= children@.len(),
            ids@.len() <= i,
            all == Seq::new(
                children@.len(),
                |i: int| (children@[i].key@, children@[i].session.is_some()),
            ),
            forall|j: int|
                0 <= j < children@.len() ==> last_index_of_char(
                    (#[trigger] children@[j]).key@,
                    '/',
                ) >= 0,
            Seq::new(ids@.len(), |i: int| ids@[i]@) == live_ids(all.take(i as int)),
        decreases children@.len() - i,
    {
        proof {
            assert(all.take(i + 1).drop_last() =~= all.take(i as int));
            assert(all.take(i + 1).last() == all[i as int]);
        }
        let ghost before = Seq::new(ids@.len(), |i: int| ids@[i]@);
        if children[i].session.is_some() {
            let id = path_to_worker_id(children[i].key.as_str());
            ids.push(id);
            assert(Seq::new(ids@.len(), |i: int| ids@[i]@) =~= before.push(id@));
        }
        i += 1;
    }
    proof {
        assert(all.take(children@.len() as int) =~= all);
    }
    ids
}

/// The identifiers of the keys, each given with whether a session holds it, that a session
/// holds: the part of the key after its last slash.
pub open spec fn live_ids(keys: Seq<(Seq<char>, bool)>) -> Seq<Seq<char>>
    decreases keys.len(),
{
    if keys.len() == 0 {
        Seq::empty()
    } else if keys.last().1 {
        live_ids(keys.drop_last()).push(
            keys.last().0.subrange(
                last_index_of_char(keys.last().0, '/') + 1,
                keys.last().0.len() as int,
            ),
        )
    } else {
        live_ids(keys.drop_last())
    }
}

} // verus!
