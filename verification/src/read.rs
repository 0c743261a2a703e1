//! Taking bytes from a source held in memory.
//!
//! A [`Cursor`] is a buffer of bytes with a position in it. Each of the
//! three operations takes bytes at the position and moves it forward, or
//! fails with [`ErrorKind::UnexpectedEof`] and leaves the cursor as it was.

use crate::error::{Error, ErrorKind};
use vstd::prelude::*;
use vstd::slice::{slice_subrange, slice_to_vec};
use vstd::string::{StrSliceExecFns, StringExecFns};

verus! {

/// What a [`Cursor`] is to a specification: its bytes and its position.
pub struct CursorView {
    pub bytes: Seq<u8>,
    pub pos: nat,
}

impl CursorView {
    /// The bytes from the position to the end; none when the position lies
    /// behind the end.
    pub open spec fn remaining(self) -> Seq<u8> {
        if self.pos <= self.bytes.len() {
            self.bytes.subrange(self.pos as int, self.bytes.len() as int)
        } else {
            Seq::empty()
        }
    }

    /// The same bytes with the position moved forward by `n`.
    pub open spec fn advance(self, n: nat) -> CursorView {
        CursorView { bytes: self.bytes, pos: self.pos + n }
    }

    /// The same bytes with the position at `pos`.
    pub open spec fn at(self, pos: nat) -> CursorView {
        CursorView { bytes: self.bytes, pos }
    }
}

/// Where to move a cursor: to an offset from the start, from the end, or
/// from the current position.
#[derive(Debug, Clone, Copy, PartialEq, Eq, Structural)]
pub enum SeekFrom {
    /// The position, counted from the start.
    Start(u64),
    /// The position relative to the end of the bytes.
    End(i64),
    /// The position relative to the current one.
    Current(i64),
}

impl CursorView {
    /// The position that a seek aims at; it may be negative or beyond what
    /// a position can hold.
    pub open spec fn seek_target(self, to: SeekFrom) -> int {
        match to {
            SeekFrom::Start(n) => n as int,
            SeekFrom::End(n) => self.bytes.len() + n,
            SeekFrom::Current(n) => self.pos + n,
        }
    }
}

/// A buffer of bytes with a read position. The position may lie behind the
/// end of the buffer; nothing can be taken there.
#[derive(Debug)]
pub struct Cursor {
    inner: Vec<u8>,
    pos: u64,
}

impl View for Cursor {
    type V = CursorView;

    closed spec fn view(&self) -> CursorView {
        CursorView { bytes: self.inner@, pos: self.pos as nat }
    }
}

impl Cursor {
    /// A cursor at the start of `inner`.
    pub fn new(inner: Vec<u8>) -> (c: Cursor)
        ensures
            c@.bytes == inner@,
            c@.pos == 0,
    {
        Cursor { inner, pos: 0 }
    }

    /// The current position.
    pub fn position(&self) -> (p: u64)
        ensures
            p == self@.pos,
    {
        self.pos
    }

    /// Moves the cursor to `pos`.
    pub fn set_position(&mut self, pos: u64)
        ensures
            final(self)@ == old(self)@.at(pos as nat),
    {
        self.pos = pos;
    }

    /// The bytes of the buffer, whatever the position.
    pub fn get_ref(&self) -> (v: &Vec<u8>)
        ensures
            v@ == self@.bytes,
    {
        &self.inner
    }

    /// Gives up the cursor for its buffer.
    pub fn into_inner(self) -> (v: Vec<u8>)
        ensures
            v@ == self@.bytes,
    {
        self.inner
    }

    /// Moves the cursor to where `to` says and gives the new position.
    ///
    /// Fails with `InvalidInput`, leaving the cursor where it was, exactly
    /// when the new position would be negative or above `u64::MAX`. A
    /// position behind the end of the bytes is accepted.
    pub fn seek(&mut self, to: SeekFrom) -> (r: Result<u64, Error>)
        ensures
            r is Ok <==> 0 <= old(self)@.seek_target(to) <= u64::MAX,
            r is Ok ==> r->Ok_0 == old(self)@.seek_target(to) && final(self)@ == old(self)@.at(
                r->Ok_0 as nat,
            ),
            r is Err ==> r->Err_0.kind == ErrorKind::InvalidInput && final(self)@ == old(self)@,
    {
        let target: Option<u64> = match to {
            SeekFrom::Start(n) => Some(n),
            SeekFrom::End(n) => (self.inner.len() as u64).checked_add_signed(n),
            SeekFrom::Current(n) => self.pos.checked_add_signed(n),
        };
        match target {
            Some(pos) => {
                self.pos = pos;
                Ok(pos)
            },
            None => Err(Error::new(ErrorKind::InvalidInput)),
        }
    }

    /// The number of bytes from the position to the end.
    pub fn remaining_len(&self) -> (n: usize)
        ensures
            n == self@.remaining().len(),
            n > 0 ==> self@.pos + n == self@.bytes.len(),
    {
        let len: usize = self.inner.len();
        if self.pos >= len as u64 {
            0
        } else {
            len - self.pos as usize
        }
    }
}

/// Takes one byte from `b`.
///
/// Succeeds exactly when a byte is left, with that byte, and moves the
/// position past it. Otherwise fails with `UnexpectedEof` and leaves `b` as
/// it was.
pub fn take_byte(b: &mut Cursor) -> (r: Result<u8, Error>)
    ensures
        r is Ok <==> old(b)@.remaining().len() >= 1,
        r is Ok ==> r->Ok_0 == old(b)@.remaining()[0] && final(b)@ == old(b)@.advance(1),
        r is Err ==> r->Err_0.kind == ErrorKind::UnexpectedEof && final(b)@ == old(b)@,
{
    if b.remaining_len() < 1 {
        return Err(Error::new(ErrorKind::UnexpectedEof));
    }
    assert(b.pos < b.inner.len());
    let byte: u8 = b.inner[b.pos as usize];
    b.pos = b.pos + 1;
    Ok(byte)
}

/// Takes `C` bytes from `b` as an array.
///
/// Succeeds exactly when `C` bytes are left, with those bytes, and moves
/// the position past them. Otherwise fails with `UnexpectedEof` and leaves
/// `b` as it was.
pub fn take_byte_array<const C: usize>(b: &mut Cursor) -> (r: Result<[u8; C], Error>)
    ensures
        r is Ok <==> old(b)@.remaining().len() >= C,
        r is Ok ==> r->Ok_0@ == old(b)@.remaining().take(C as int) && final(b)@ == old(b)@.advance(
            C as nat,
        ),
        r is Err ==> r->Err_0.kind == ErrorKind::UnexpectedEof && final(b)@ == old(b)@,
{
    if b.remaining_len() < C {
        return Err(Error::new(ErrorKind::UnexpectedEof));
    }
    let mut buf: [u8; C] = [0u8; C];
    if C == 0 {
        assert(buf@ =~= old(b)@.remaining().take(0));
        return Ok(buf);
    }
    assert(b.pos + C <= b.inner.len());
    let start: usize = b.pos as usize;
    let mut i: usize = 0;
    while i < C
        invariant
            i <= C,
            start + C <= b.inner.len(),
            start == b.pos,
            *b == *old(b),
            forall|k: int| 0 <= k < i ==> buf@[k] == b.inner@[start + k],
        decreases C - i,
    {
        buf[i] = b.inner[start + i];
        i += 1;
    }
    b.pos = b.pos + C as u64;
    assert(buf@ =~= old(b)@.remaining().take(C as int));
    Ok(buf)
}

/// Takes `len` bytes from `b` as a vector.
///
/// Succeeds exactly when `len` bytes are left, with those bytes, and moves
/// the position past them. Otherwise fails with `UnexpectedEof` and leaves
/// `b` as it was.
pub fn take_byte_slice(b: &mut Cursor, len: usize) -> (r: Result<Vec<u8>, Error>)
    ensures
        r is Ok <==> old(b)@.remaining().len() >= len,
        r is Ok ==> r->Ok_0@ == old(b)@.remaining().take(len as int) && final(b)@
            == old(b)@.advance(len as nat),
        r is Err ==> r->Err_0.kind == ErrorKind::UnexpectedEof && final(b)@ == old(b)@,
{
    if b.remaining_len() < len {
        return Err(Error::new(ErrorKind::UnexpectedEof));
    }
    if len == 0 {
        let empty: Vec<u8> = Vec::new();
        assert(empty@ =~= old(b)@.remaining().take(0));
        return Ok(empty);
    }
    assert(b.pos + len <= b.inner.len());
    let start: usize = b.pos as usize;
    let buf: Vec<u8> = slice_to_vec(slice_subrange(b.inner.as_slice(), start, start + len));
    b.pos = b.pos + len as u64;
    assert(buf@ =~= old(b)@.remaining().take(len as int));
    Ok(buf)
}

/// The place of the dot that starts the extension of the path's last
/// component, looking only at the characters before index `i`: the last
/// dot behind the last `/`, unless the component starts with that dot.
pub open spec fn extension_dot_before(path: Seq<char>, i: int) -> Option<int>
    decreases i,
{
    if i <= 0 {
        None
    } else if path[i - 1] == '/' {
        None
    } else if path[i - 1] == '.' {
        if i - 1 == 0 || path[i - 2] == '/' {
            None
        } else {
            Some(i - 1)
        }
    } else {
        extension_dot_before(path, i - 1)
    }
}

/// The path of the index file that goes with the data file at `path`: the
/// extension gets `index.` put before it, and a path without an extension
/// gets the extension `index`.
pub open spec fn index_path_of(path: Seq<char>) -> Seq<char> {
    match extension_dot_before(path, path.len() as int) {
        Some(dot) => path.take(dot + 1) + "index."@ + path.skip(dot + 1),
        None => path + ".index"@,
    }
}

/// The path of the index file that goes with the data file at `path`:
/// `foo.sst` gives `foo.index.sst`, and `foo` gives `foo.index`.
///
/// The extension is what follows the last dot of the last component of the
/// path; a component that starts with its only dot has none.
pub fn create_index_path(path: &str) -> (r: String)
    ensures
        r@ == index_path_of(path@),
{
    let n: usize = path.unicode_len();
    let mut i: usize = n;
    let mut dot: Option<usize> = None;
    let mut scanning: bool = true;
    while scanning && i > 0
        invariant
            i <= n,
            n == path@.len(),
            scanning ==> dot is None && extension_dot_before(path@, n as int)
                == extension_dot_before(path@, i as int),
            !scanning ==> extension_dot_before(path@, n as int) == match dot {
                Some(d) => Some(d as int),
                None => None,
            },
            dot is Some ==> dot->Some_0 < n,
        decreases i + if scanning { 1nat } else { 0nat },
    {
        let c: char = path.get_char(i - 1);
        if c == '/' {
            scanning = false;
        } else if c == '.' {
            if i - 1 > 0 && path.get_char(i - 2) != '/' {
                dot = Some(i - 1);
            }
            scanning = false;
        } else {
            i -= 1;
        }
    }
    match dot {
        Some(d) => {
            let mut r: String = String::from_str(path.substring_char(0, d + 1));
            r.append("index.");
            r.append(path.substring_char(d + 1, n));
            assert(r@ =~= index_path_of(path@));
            r
        },
        None => {
            let mut r: String = String::from_str(path);
            r.append(".index");
            r
        },
    }
}

} // verus!
