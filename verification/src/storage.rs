//! Files as the table layer sees them: something to append bytes to, and something to read
//! bytes from at an offset.
use crate::error::Error;
use crate::util::coding::append_range;
use vstd::prelude::*;
use vstd::utf8::encode_utf8;

verus! {

/// Contents that a `usize` can count hold `len` bytes from `offset` on.
pub open spec fn holds_range(contents: Seq<u8>, offset: u64, len: usize) -> bool {
    contents.len() <= usize::MAX && offset + len <= contents.len()
}

/// Contents that a `usize` can count do not hold `len` bytes from `offset` on, and some
/// bytes are asked for.
pub open spec fn falls_short(contents: Seq<u8>, offset: u64, len: usize) -> bool {
    contents.len() <= usize::MAX && len > 0 && offset + len > contents.len()
}

/// The error of a file that is too short for a read.
pub open spec fn short_read(e: Error) -> bool {
    e matches Error::IO { interrupted, message } && !interrupted && message@
        == "failed to fill whole buffer"@
}

/// The error of a read that was interrupted.
pub open spec fn interrupted_read(e: Error) -> bool {
    e matches Error::IO { interrupted, message } && interrupted
}

/// What a read of up to `l` bytes at `o` came to keeps an exact read from going on as
/// before: it was interrupted, it brought nothing, or it ended where no offset is.
pub open spec fn stops_reading(o: u64, l: usize, x: Result<Vec<u8>, Error>) -> bool {
    match x {
        Ok(v) => spec_next_read(o, l, v@.len() as usize) is None,
        Err(e) => interrupted_read(e),
    }
}

/// The bytes `v` are what a read of up to `l` bytes at `o` may bring of `contents`: no
/// more than `l`, and those that `contents` has from `o` on.
pub open spec fn brings_part(contents: Seq<u8>, o: u64, l: usize, v: Seq<u8>) -> bool {
    &&& v.len() <= l
    &&& v.len() > 0 ==> o + v.len() <= contents.len() && v == contents.subrange(
        o as int,
        o + v.len(),
    )
}

/// The bytes `v` are what a read of up to `l` bytes at `o` may bring of `contents`, and
/// there is at least one of them where one is asked for and `contents` has one.
pub open spec fn brings_some(contents: Seq<u8>, o: u64, l: usize, v: Seq<u8>) -> bool {
    &&& brings_part(contents, o, l, v)
    &&& l > 0 && o < contents.len() ==> v.len() >= 1
}

/// Where to move the position of a file: so many bytes from its start, from its end, or
/// from where the position is.
#[derive(Debug, Clone, Copy)]
pub enum SeekFrom {
    Start(u64),
    End(i64),
    Current(i64),
}

/// Where a move by `pos` takes the position of a file of `len` bytes that is at `at`;
/// `None` where that is before the start of the file or beyond what a `u64` can say.
pub open spec fn spec_seek(len: nat, at: u64, pos: SeekFrom) -> Option<u64> {
    let target: int = match pos {
        SeekFrom::Start(n) => n as int,
        SeekFrom::End(d) => len + d,
        SeekFrom::Current(d) => at + d,
    };
    if 0 <= target <= u64::MAX {
        Some(target as u64)
    } else {
        None
    }
}

/// The error of a move of the position to where no position is.
pub open spec fn bad_seek(e: Error) -> bool {
    e matches Error::InvalidArgument(m) && m@
        == "invalid seek to a negative or overflowing position"@
}

/// The position `delta` bytes from `base`, if there is one.
pub fn moved(base: u64, delta: i64) -> (r: Option<u64>)
    ensures
        r == (if 0 <= base + delta <= u64::MAX {
            Some((base + delta) as u64)
        } else {
            None
        }),
{
    if delta >= 0 {
        let forth: u64 = delta as u64;
        if forth > u64::MAX - base {
            None
        } else {
            Some(base + forth)
        }
    } else {
        // the size of a negative number, which for the least of them is no `i64`
        let back: u64 = (-(delta + 1)) as u64 + 1;
        if back > base {
            None
        } else {
            Some(base - back)
        }
    }
}

/// A file. Whoever implements it decides what the operations do; the library relies on
/// nothing but the types.
pub trait File: Send + Sync {
    /// Appends all of `buf` to the file and says how many bytes were written.
    fn write(&mut self, buf: &[u8]) -> Result<usize, Error>;

    /// Hands what was written on to the medium.
    fn flush(&mut self) -> Result<(), Error>;

    /// Ends the use of the file.
    fn close(&mut self) -> Result<(), Error>;

    /// The length of the file in bytes.
    fn len(&self) -> Result<u64, Error>;

    /// Whether the file is known to have no bytes. A file whose length cannot be had is
    /// not taken to be empty.
    fn is_empty(&self) -> (b: bool)
        ensures
            exists|l: Result<u64, Error>| #[trigger]
                call_ensures(Self::len, (self,), l) && b == (l matches Ok(n) && n == 0),
    {
        let l = self.len();
        proof {
            assert(call_ensures(Self::len, (self,), l));
        }
        match l {
            Ok(length) => length == 0,
            Err(_) => false,
        }
    }

    /// Moves the position from which `read` and `read_all` read, and says where it is
    /// then, counted from the start of the file.
    fn seek(&mut self, pos: SeekFrom) -> Result<u64, Error>;

    /// Reads up to `len` bytes from the position, and moves the position behind them.
    /// Fewer bytes may come back, and none at the end of the file.
    fn read(&mut self, len: usize) -> Result<Vec<u8>, Error>;

    /// Reads all that follows the position, puts it behind what `buf` holds, and says how
    /// many bytes there were.
    fn read_all(&mut self, buf: &mut Vec<u8>) -> Result<usize, Error>;

    /// Locks the file for the use of one, and waits while another holds it.
    fn lock(&self) -> Result<(), Error>;

    /// Gives the lock up.
    fn unlock(&self) -> Result<(), Error>;

    /// Reads up to `len` bytes that start at `offset`. Fewer bytes may come back, and none
    /// at the end of the file.
    fn read_at(&self, offset: u64, len: usize) -> Result<Vec<u8>, Error>;

    /// Reads exactly `len` bytes that start at `offset`, in as many reads as it takes: each
    /// read asks for what is still missing, from where the last one ended, and what it
    /// brings is put behind what is there.
    ///
    /// A read that is interrupted is tried again; any other error ends the reading and
    /// comes back as it is; and a read that brings nothing before `len` bytes are there ends
    /// the reading with an I/O error, the file being too short. No byte is read where none
    /// is asked for.
    ///
    /// Of a file whose reads, where they succeed, bring a part of what was asked for of some
    /// contents: a success brings the bytes of the contents, however the reads were split,
    /// and there is none where the contents are too short. Where every read succeeds and
    /// brings at least one byte while bytes are left, the reading succeeds.
    fn read_exact_at(&self, offset: u64, len: usize) -> (r: Result<Vec<u8>, Error>)
        ensures
            r matches Ok(v) ==> v@.len() == len,
            len == 0 ==> r is Ok,
            r matches Err(e) ==> (!interrupted_read(e) && exists|o: u64, l: usize| #[trigger]
                call_ensures(Self::read_at, (self, o, l), Err::<Vec<u8>, Error>(e))) || (
            short_read(e) && exists|o: u64, l: usize, x: Result<Vec<u8>, Error>| #[trigger]
                call_ensures(Self::read_at, (self, o, l), x) && stops_reading(o, l, x)),
            r is Ok && len > 0 ==> exists|o: u64, l: usize, x: Result<Vec<u8>, Error>| #[trigger]
                call_ensures(Self::read_at, (self, o, l), x) && (x matches Ok(v) && v@.len() > 0),
            forall|x: Error|
                len > 0 && !(#[trigger] interrupted_read(x)) && (forall|
                    o: u64,
                    l: usize,
                    y: Result<Vec<u8>, Error>,
                | #[trigger]
                    call_ensures(Self::read_at, (self, o, l), y) ==> y == Err::<Vec<u8>, Error>(x))
                    ==> r == Err::<Vec<u8>, Error>(x),
            forall|contents: Seq<u8>|
                #[trigger] holds_range(contents, offset, len) && (forall|
                    o: u64,
                    l: usize,
                    x: Result<Vec<u8>, Error>,
                | #[trigger]
                    call_ensures(Self::read_at, (self, o, l), x) ==> (x matches Ok(v)
                        ==> brings_part(contents, o, l, v@))) ==> (r matches Ok(v) ==> v@
                    == contents.subrange(offset as int, offset + len)),
            forall|contents: Seq<u8>|
                #[trigger] holds_range(contents, offset, len) && (forall|
                    o: u64,
                    l: usize,
                    x: Result<Vec<u8>, Error>,
                | #[trigger]
                    call_ensures(Self::read_at, (self, o, l), x) ==> (x matches Ok(v)
                        && brings_some(contents, o, l, v@))) ==> r is Ok,
            forall|contents: Seq<u8>|
                #[trigger] falls_short(contents, offset, len) && (forall|
                    o: u64,
                    l: usize,
                    x: Result<Vec<u8>, Error>,
                | #[trigger]
                    call_ensures(Self::read_at, (self, o, l), x) ==> (x matches Ok(v)
                        ==> brings_part(contents, o, l, v@))) ==> r is Err,
    {
        // what it is for the reads of the file to bring parts of `contents` where they
        // succeed
        let ghost parts = |contents: Seq<u8>| -> bool
            {
                &&& contents.len() <= usize::MAX
                &&& forall|o: u64, l: usize, x: Result<Vec<u8>, Error>| #[trigger]
                    call_ensures(Self::read_at, (self, o, l), x) ==> (x matches Ok(v)
                        ==> brings_part(contents, o, l, v@))
            };
        // what it is for the reads of the file to succeed and bring some of `contents`,
        // which hold the bytes asked for
        let ghost whole = |contents: Seq<u8>| -> bool
            {
                &&& holds_range(contents, offset, len)
                &&& forall|o: u64, l: usize, x: Result<Vec<u8>, Error>| #[trigger]
                    call_ensures(Self::read_at, (self, o, l), x) ==> (x matches Ok(v)
                        && brings_some(contents, o, l, v@))
            };
        let mut buf: Vec<u8> = Vec::new();
        let mut at: u64 = offset;
        let mut budget: u64 = MAX_READ_ATTEMPTS;
        let mut failure: Option<Error> = None;
        // whether a read was interrupted
        let ghost mut interrupted: bool = false;
        while buf.len() < len && budget > 0 && failure.is_none()
            invariant
                buf@.len() <= len,
                failure is None ==> at == offset + buf@.len(),
                failure matches Some(e) ==> buf@.len() < len && ((!interrupted_read(e) && exists|
                    o: u64,
                    l: usize,
                | #[trigger] call_ensures(Self::read_at, (self, o, l), Err::<Vec<u8>, Error>(e)))
                    || (short_read(e) && exists|o: u64, l: usize, x: Result<Vec<u8>, Error>|
                    #[trigger] call_ensures(Self::read_at, (self, o, l), x) && stops_reading(
                        o,
                        l,
                        x,
                    ))),
                interrupted ==> exists|o: u64, l: usize, x: Result<Vec<u8>, Error>| #[trigger]
                    call_ensures(Self::read_at, (self, o, l), x) && stops_reading(o, l, x),
                !interrupted && failure is None ==> budget + buf@.len() >= MAX_READ_ATTEMPTS,
                buf@.len() > 0 ==> exists|o: u64, l: usize, x: Result<Vec<u8>, Error>| #[trigger]
                    call_ensures(Self::read_at, (self, o, l), x) && (x matches Ok(v) && v@.len()
                        > 0),
                failure is None && !interrupted && buf@.len() == 0 ==> budget
                    == MAX_READ_ATTEMPTS,
                forall|contents: Seq<u8>| #[trigger]
                    parts(contents) ==> {
                        &&& contents.len() <= usize::MAX
                        &&& forall|o: u64, l: usize, x: Result<Vec<u8>, Error>| #[trigger]
                            call_ensures(Self::read_at, (self, o, l), x) ==> (x matches Ok(v)
                                ==> brings_part(contents, o, l, v@))
                    },
                forall|contents: Seq<u8>| #[trigger]
                    whole(contents) ==> {
                        &&& holds_range(contents, offset, len)
                        &&& forall|o: u64, l: usize, x: Result<Vec<u8>, Error>| #[trigger]
                            call_ensures(Self::read_at, (self, o, l), x) ==> (x matches Ok(v)
                                && brings_some(contents, o, l, v@))
                    },
                forall|contents: Seq<u8>| #[trigger]
                    parts(contents) ==> (buf@.len() > 0 ==> offset + buf@.len() <= contents.len()
                        && buf@ == contents.subrange(offset as int, offset + buf@.len())),
                forall|contents: Seq<u8>| #[trigger]
                    whole(contents) ==> failure is None && budget >= len - buf@.len(),
            decreases
                    if failure is None {
                        budget + 1
                    } else {
                        0
                    },
        {
            budget = budget - 1;
            let missing: usize = len - buf.len();
            let ghost before = buf@;
            let ghost at_before = at;
            let got = self.read_at(at, missing);
            proof {
                assert(call_ensures(Self::read_at, (self, at_before, missing), got));
            }
            match got {
                Ok(part) => {
                    match next_read(at, missing, part.len()) {
                        Some((taken, next)) => {
                            append_range(&mut buf, part.as_slice(), 0, taken);
                            at = next;
                        },
                        None => {
                            failure = Some(Error::io("failed to fill whole buffer"));
                        },
                    }
                    proof {
                        assert forall|contents: Seq<u8>| #[trigger] parts(contents) implies (
                        buf@.len() > 0 ==> offset + buf@.len() <= contents.len() && buf@
                            == contents.subrange(offset as int, offset + buf@.len())) by {
                            assert(brings_part(contents, at_before, missing, part@));
                            if failure is None {
                                assert(part@.subrange(0, part@.len() as int) =~= part@);
                                assert(buf@ =~= contents.subrange(
                                    offset as int,
                                    offset + before.len() + part@.len(),
                                ));
                            }
                        }
                        assert forall|contents: Seq<u8>| #[trigger] whole(contents) implies failure
                            is None && budget >= len - buf@.len() by {
                            assert(brings_some(contents, at_before, missing, part@));
                        }
                    }
                },
                Err(e) => {
                    if !retry(&e) {
                        failure = Some(e);
                    } else {
                        proof {
                            assert(stops_reading(at_before, missing, got));
                            interrupted = true;
                        }
                    }
                },
            }
        }
        let r = match failure {
            Some(e) => Err(e),
            None => if buf.len() < len {
                Err(Error::io("failed to fill whole buffer"))
            } else {
                Ok(buf)
            },
        };
        proof {
            assert forall|contents: Seq<u8>|
                #[trigger] holds_range(contents, offset, len) && (forall|
                    o: u64,
                    l: usize,
                    x: Result<Vec<u8>, Error>,
                | #[trigger]
                    call_ensures(Self::read_at, (self, o, l), x) ==> (x matches Ok(v)
                        ==> brings_part(contents, o, l, v@))) implies (r matches Ok(v) ==> v@
                == contents.subrange(offset as int, offset + len)) by {
                assert(parts(contents));
                if r is Ok {
                    assert(r->Ok_0@ =~= contents.subrange(offset as int, offset + len));
                }
            }
            assert forall|contents: Seq<u8>|
                #[trigger] holds_range(contents, offset, len) && (forall|
                    o: u64,
                    l: usize,
                    x: Result<Vec<u8>, Error>,
                | #[trigger]
                    call_ensures(Self::read_at, (self, o, l), x) ==> (x matches Ok(v)
                        && brings_some(contents, o, l, v@))) implies r is Ok by {
                assert(whole(contents));
            }
            assert forall|contents: Seq<u8>|
                #[trigger] falls_short(contents, offset, len) && (forall|
                    o: u64,
                    l: usize,
                    x: Result<Vec<u8>, Error>,
                | #[trigger]
                    call_ensures(Self::read_at, (self, o, l), x) ==> (x matches Ok(v)
                        ==> brings_part(contents, o, l, v@))) implies r is Err by {
                assert(parts(contents));
            }
        }
        r
    }
}

/// Every read of `file` succeeds and brings bytes of `contents` from where it was asked
/// for them: no more than were asked for, and at least one while `contents` has bytes there.
pub open spec fn serves<F: File>(file: &F, contents: Seq<u8>) -> bool {
    &&& contents.len() <= usize::MAX
    &&& forall|offset: u64, len: usize, r: Result<Vec<u8>, Error>|
        #[trigger] call_ensures(F::read_at, (file, offset, len), r) ==> (r matches Ok(v)
            && brings_some(contents, offset, len, v@))
}

/// Every read of `file` that succeeds brings bytes of `contents` from where it was asked
/// for them, and no more than were asked for. Reads may fail, and may bring nothing.
pub open spec fn reads_parts<F: File>(file: &F, contents: Seq<u8>) -> bool {
    &&& contents.len() <= usize::MAX
    &&& forall|offset: u64, len: usize, r: Result<Vec<u8>, Error>|
        #[trigger] call_ensures(F::read_at, (file, offset, len), r) ==> (r matches Ok(v)
            ==> brings_part(contents, offset, len, v@))
}

/// A read of `file` has failed with `e`.
pub open spec fn read_refused<F: File>(file: &F, e: Error) -> bool {
    exists|o: u64, l: usize| #[trigger]
        call_ensures(F::read_at, (file, o, l), Err::<Vec<u8>, Error>(e))
}

/// A read of `file` was interrupted, brought nothing, or ended where no offset is.
pub open spec fn read_stopped<F: File>(file: &F) -> bool {
    exists|o: u64, l: usize, x: Result<Vec<u8>, Error>| #[trigger]
        call_ensures(F::read_at, (file, o, l), x) && stops_reading(o, l, x)
}

/// `file` serves `contents`, which have `len` bytes from `offset` on.
pub open spec fn can_serve<F: File>(file: &F, contents: Seq<u8>, offset: u64, len: usize) -> bool {
    serves(file, contents) && offset + len <= contents.len()
}

/// `file` serves `contents`, which do not have `len` bytes from `offset` on.
pub open spec fn cannot_serve<F: File>(file: &F, contents: Seq<u8>, offset: u64, len: usize) -> bool {
    serves(file, contents) && len > 0 && offset + len > contents.len()
}

/// The reads of `file` that succeed bring parts of `contents`, which have `len` bytes from
/// `offset` on.
pub open spec fn may_serve<F: File>(file: &F, contents: Seq<u8>, offset: u64, len: usize) -> bool {
    reads_parts(file, contents) && offset + len <= contents.len()
}

/// Reads exactly `len` bytes of `file` that start at `offset`, with `File::read_exact_at`.
///
/// Nothing is read where nothing is asked for. An error is that of a read that failed
/// and was not interrupted, or that of a file too short, after a read that brought nothing
/// or was interrupted. Where the reads of the file bring
/// parts of some contents, a success brings the bytes of the contents that were asked for,
/// however the reads were split and whatever reads failed in between. From a file that
/// serves some contents, the bytes asked for come back if the contents have them all, and
/// the reading fails with an I/O error if they do not.
pub fn read_fully<F: File>(file: &F, offset: u64, len: usize) -> (r: Result<Vec<u8>, Error>)
    ensures
        r matches Ok(v) ==> v@.len() == len,
        len == 0 ==> r is Ok,
        r matches Err(e) ==> (!interrupted_read(e) && read_refused(file, e)) || (short_read(e)
            && read_stopped(file)),
        forall|contents: Seq<u8>| #[trigger]
            may_serve(file, contents, offset, len) ==> (r matches Ok(v) ==> v@
                == contents.subrange(offset as int, offset + len)),
        forall|contents: Seq<u8>| #[trigger]
            can_serve(file, contents, offset, len) ==> (r matches Ok(v) && v@ == contents.subrange(
                offset as int,
                offset + len,
            )),
        forall|contents: Seq<u8>| #[trigger]
            cannot_serve(file, contents, offset, len) ==> (r matches Err(e) && short_read(e)),
{
    let r = file.read_exact_at(offset, len);
    proof {
        assert forall|contents: Seq<u8>| #[trigger]
            may_serve(file, contents, offset, len) implies (r matches Ok(v) ==> v@
            == contents.subrange(offset as int, offset + len)) by {
            assert(holds_range(contents, offset, len));
        }
        assert forall|contents: Seq<u8>| #[trigger]
            can_serve(file, contents, offset, len) implies (r matches Ok(v) && v@
            == contents.subrange(offset as int, offset + len)) by {
            assert(holds_range(contents, offset, len));
        }
        assert forall|contents: Seq<u8>| #[trigger]
            cannot_serve(file, contents, offset, len) implies (r matches Err(e) && short_read(
            e,
        )) by {
            assert(falls_short(contents, offset, len));
        }
    }
    r
}

/// The most reads that `read_exact_at` makes before it gives up.
pub const MAX_READ_ATTEMPTS: u64 = 0xffff_ffff_ffff_ffff;

/// What follows a read at `offset` that asked for `missing` bytes and brought `got`: how
/// many of them to take and where to read next, or `None` where the reading ends because
/// nothing came or the offsets are exhausted. Bytes beyond those asked for are left.
pub open spec fn spec_next_read(offset: u64, missing: usize, got: usize) -> Option<(usize, u64)> {
    let taken = if got > missing {
        missing
    } else {
        got
    };
    if got == 0 || offset + taken > u64::MAX {
        None
    } else {
        Some((taken, (offset + taken) as u64))
    }
}

/// What follows a read at `offset` that asked for `missing` bytes and brought `got`.
pub fn next_read(offset: u64, missing: usize, got: usize) -> (r: Option<(usize, u64)>)
    ensures
        r == spec_next_read(offset, missing, got),
{
    let taken: usize = if got > missing {
        missing
    } else {
        got
    };
    if got == 0 {
        return None;
    }
    if taken as u64 > u64::MAX - offset {
        return None;
    }
    Some((taken, offset + taken as u64))
}

/// Whether a failed read is tried again: only an interrupted one is.
pub fn retry(e: &Error) -> (b: bool)
    ensures
        b == (*e matches Error::IO { interrupted, message } && interrupted),
{
    match e {
        Error::IO { interrupted, message } => *interrupted,
        _ => false,
    }
}

/// A namespace of files, named by their paths. Whoever implements it decides what the
/// operations do; the library relies on nothing but the types.
pub trait Storage: Send + Sync {
    /// The files of the storage.
    type F: File;

    /// Creates the named file if it does not exist and empties it if it does.
    fn create(&self, name: &str) -> Result<Self::F, Error>;

    /// Opens the named file for writing and reading.
    fn open(&self, name: &str) -> Result<Self::F, Error>;

    /// Deletes the named file.
    fn remove(&self, name: &str) -> Result<(), Error>;

    /// Removes the directory at this path, with all that it holds if `recursively`.
    fn remove_dir(&self, dir: &str, recursively: bool) -> Result<(), Error>;

    /// Whether the named file exists.
    fn has_file(&self, name: &str) -> bool;

    /// Gives the file or directory `from` the name `to`, in place of what has that name.
    fn rename(&self, from: &str, to: &str) -> Result<(), Error>;

    /// Creates a directory and every directory above it that is missing.
    fn mkdir_all(&self, dir: &str) -> Result<(), Error>;

    /// The full path of every file in the directory.
    fn list(&self, dir: &str) -> Result<Vec<String>, Error>;
}

/// A call of `create` on `env` for the name `name` has made a file.
pub open spec fn created<S: Storage>(env: &S, name: Seq<char>) -> bool {
    exists|n: &str, f: S::F|
        n@ == name && #[trigger] call_ensures(S::create, (env, n), Ok::<S::F, Error>(f))
}

/// A call of `create` on `env` for the name `name` has failed with `e`.
pub open spec fn create_failed<S: Storage>(env: &S, name: Seq<char>, e: Error) -> bool {
    exists|n: &str| n@ == name && #[trigger] call_ensures(S::create, (env, n), Err::<S::F, Error>(e))
}

/// A call of `remove` on `env` for the name `name` has succeeded.
pub open spec fn removed<S: Storage>(env: &S, name: Seq<char>) -> bool {
    exists|n: &str, r: Result<(), Error>|
        n@ == name && r is Ok && #[trigger] call_ensures(S::remove, (env, n), r)
}

/// A call of `remove` on `env` for the name `name` has failed with `e`.
pub open spec fn remove_failed<S: Storage>(env: &S, name: Seq<char>, e: Error) -> bool {
    exists|n: &str, r: Result<(), Error>|
        n@ == name && r == Err::<(), Error>(e) && #[trigger] call_ensures(S::remove, (env, n), r)
}

/// A call of `rename` on `env` from the name `from` to the name `to` has succeeded.
pub open spec fn renamed<S: Storage>(env: &S, from: Seq<char>, to: Seq<char>) -> bool {
    exists|a: &str, b: &str, r: Result<(), Error>|
        a@ == from && b@ == to && r is Ok && #[trigger] call_ensures(S::rename, (env, a, b), r)
}

/// A call of `rename` on `env` from the name `from` to the name `to` has failed with `e`.
pub open spec fn rename_failed<S: Storage>(env: &S, from: Seq<char>, to: Seq<char>, e: Error) -> bool {
    exists|a: &str, b: &str, r: Result<(), Error>|
        a@ == from && b@ == to && r == Err::<(), Error>(e) && #[trigger] call_ensures(
            S::rename,
            (env, a, b),
            r,
        )
}

/// A write of the bytes `buf` to a file of the kind `F` has succeeded.
pub open spec fn write_done<F: File>(buf: Seq<u8>) -> bool {
    exists|m: &mut F, b: &[u8], r: Result<usize, Error>|
        b@ == buf && r is Ok && #[trigger] call_ensures(F::write, (m, b), r)
}

/// A write of the bytes `buf` to a file of the kind `F` has failed with `e`.
pub open spec fn write_failed<F: File>(buf: Seq<u8>, e: Error) -> bool {
    exists|m: &mut F, b: &[u8], r: Result<usize, Error>|
        b@ == buf && r == Err::<usize, Error>(e) && #[trigger] call_ensures(F::write, (m, b), r)
}

/// A flush of a file of the kind `F` has succeeded.
pub open spec fn flush_done<F: File>() -> bool {
    exists|m: &mut F, r: Result<(), Error>| r is Ok && #[trigger] call_ensures(F::flush, (m, ), r)
}

/// A flush of a file of the kind `F` has failed with `e`.
pub open spec fn flush_failed<F: File>(e: Error) -> bool {
    exists|m: &mut F, r: Result<(), Error>|
        r == Err::<(), Error>(e) && #[trigger] call_ensures(F::flush, (m, ), r)
}

/// A file of the kind `F` has been closed.
pub open spec fn close_done<F: File>() -> bool {
    exists|m: &mut F, r: Result<(), Error>| r is Ok && #[trigger] call_ensures(F::close, (m, ), r)
}

/// The closing of a file of the kind `F` has failed with `e`.
pub open spec fn close_failed<F: File>(e: Error) -> bool {
    exists|m: &mut F, r: Result<(), Error>|
        r == Err::<(), Error>(e) && #[trigger] call_ensures(F::close, (m, ), r)
}

/// The closing of a file of the kind `F` has failed.
pub open spec fn close_refused<F: File>() -> bool {
    exists|m: &mut F, r: Result<(), Error>| r is Err && #[trigger] call_ensures(F::close, (m, ), r)
}

/// What writing the text `text` to the file `name` of `env` comes to, told from what its
/// steps came to.
///
/// It succeeds where the file was created, the bytes of the text were written to it, it
/// was flushed if `should_sync`, and it was closed, or removed after it could not be
/// closed. It fails with the error of the first of these steps that failed; the closing
/// aside, in place of which the removal counts.
pub open spec fn string_written<S: Storage>(
    env: &S,
    text: Seq<char>,
    name: Seq<char>,
    should_sync: bool,
    r: Result<(), Error>,
) -> bool {
    match r {
        Ok(_) => {
            &&& created(env, name)
            &&& write_done::<S::F>(encode_utf8(text))
            &&& should_sync ==> flush_done::<S::F>()
            &&& close_done::<S::F>() || (close_refused::<S::F>() && removed(env, name))
        },
        Err(e) => {
            ||| create_failed(env, name, e)
            ||| created(env, name) && write_failed::<S::F>(encode_utf8(text), e)
            ||| created(env, name) && write_done::<S::F>(encode_utf8(text)) && should_sync
                && flush_failed::<S::F>(e)
            ||| created(env, name) && write_done::<S::F>(encode_utf8(text)) && (should_sync
                ==> flush_done::<S::F>()) && close_refused::<S::F>() && remove_failed(env, name, e)
        },
    }
}

/// Writes `data` to the file `file_name` of `env`, which is created or emptied for it, and
/// hands what was written on to the medium if `should_sync`.
///
/// Fails with the error of the file where it cannot be created, written or, if asked for,
/// flushed. Where the file cannot be closed it is removed, and only a failure to remove it
/// is an error.
pub fn do_write_string_to_file<S: Storage>(
    env: &S,
    data: String,
    file_name: &str,
    should_sync: bool,
) -> (r: Result<(), Error>)
    ensures
        string_written(env, data@, file_name@, should_sync, r),
{
    let mut file = match env.create(file_name) {
        Ok(f) => f,
        Err(e) => {
            return Err(e);
        },
    };
    let text = data.as_str();
    match file.write(text.as_bytes()) {
        Ok(_) => {},
        Err(e) => {
            return Err(e);
        },
    }
    if should_sync {
        match file.flush() {
            Ok(_) => {},
            Err(e) => {
                return Err(e);
            },
        }
    }
    match file.close() {
        Ok(_) => {},
        Err(_) => match env.remove(file_name) {
            Ok(_) => {},
            Err(e) => {
                return Err(e);
            },
        },
    }
    Ok(())
}

/// A file held in memory: its bytes, and the position from which `read` and `read_all`
/// read. It has one user, so that locking it does nothing.
pub struct MemFile {
    pub data: Vec<u8>,
    pub pos: u64,
}

impl MemFile {
    /// A file without bytes.
    pub fn new() -> (f: Self)
        ensures
            f.data@ == Seq::<u8>::empty(),
            f.pos == 0,
    {
        MemFile { data: Vec::new(), pos: 0 }
    }

    /// A file with the bytes `data`, at its start.
    pub fn from_bytes(data: Vec<u8>) -> (f: Self)
        ensures
            f.data == data,
            f.pos == 0,
    {
        MemFile { data, pos: 0 }
    }
}

/// What reading up to `len` bytes at `offset` from a file with the bytes `data` brings.
pub open spec fn spec_read(data: Seq<u8>, offset: u64, len: usize) -> Seq<u8> {
    if offset >= data.len() {
        Seq::empty()
    } else if offset + len >= data.len() {
        data.subrange(offset as int, data.len() as int)
    } else {
        data.subrange(offset as int, offset + len)
    }
}

impl File for MemFile {
    fn write(&mut self, buf: &[u8]) -> (r: Result<usize, Error>)
        ensures
            r == Ok::<usize, Error>(buf@.len() as usize),
            final(self).data@ == old(self).data@ + buf@,
            final(self).pos == old(self).pos,
    {
        append_range(&mut self.data, buf, 0, buf.len());
        assert(buf@.subrange(0, buf@.len() as int) =~= buf@);
        Ok(buf.len())
    }

    fn flush(&mut self) -> (r: Result<(), Error>)
        ensures
            r is Ok,
            *final(self) == *old(self),
    {
        Ok(())
    }

    fn close(&mut self) -> (r: Result<(), Error>)
        ensures
            r is Ok,
            *final(self) == *old(self),
    {
        Ok(())
    }

    fn len(&self) -> (r: Result<u64, Error>)
        ensures
            r == Ok::<u64, Error>(self.data@.len() as u64),
    {
        Ok(self.data.len() as u64)
    }

    fn seek(&mut self, pos: SeekFrom) -> (r: Result<u64, Error>)
        ensures
            final(self).data == old(self).data,
            match spec_seek(old(self).data@.len(), old(self).pos, pos) {
                Some(at) => r == Ok::<u64, Error>(at) && final(self).pos == at,
                None => (r matches Err(e) && bad_seek(e)) && final(self).pos == old(self).pos,
            },
    {
        let size: usize = self.data.len();
        let target = match pos {
            SeekFrom::Start(n) => Some(n),
            SeekFrom::End(d) => moved(size as u64, d),
            SeekFrom::Current(d) => moved(self.pos, d),
        };
        match target {
            Some(at) => {
                self.pos = at;
                Ok(at)
            },
            None => Err(
                Error::invalid_argument("invalid seek to a negative or overflowing position"),
            ),
        }
    }

    fn read(&mut self, len: usize) -> (r: Result<Vec<u8>, Error>)
        ensures
            final(self).data == old(self).data,
            r matches Ok(v) && v@ == spec_read(old(self).data@, old(self).pos, len)
                && final(self).pos == old(self).pos + v@.len(),
    {
        let size: usize = self.data.len();
        let mut out: Vec<u8> = Vec::new();
        if self.pos >= size as u64 {
            return Ok(out);
        }
        let start: usize = self.pos as usize;
        let end: usize = if len >= size - start {
            size
        } else {
            start + len
        };
        append_range(&mut out, self.data.as_slice(), start, end);
        self.pos = end as u64;
        Ok(out)
    }

    fn read_all(&mut self, buf: &mut Vec<u8>) -> (r: Result<usize, Error>)
        ensures
            final(self).data == old(self).data,
            old(self).pos >= old(self).data@.len() ==> r == Ok::<usize, Error>(0) && final(buf)@
                == old(buf)@ && final(self).pos == old(self).pos,
            old(self).pos < old(self).data@.len() ==> r == Ok::<usize, Error>(
                (old(self).data@.len() - old(self).pos) as usize,
            ) && final(buf)@ == old(buf)@ + old(self).data@.subrange(
                old(self).pos as int,
                old(self).data@.len() as int,
            ) && final(self).pos == old(self).data@.len(),
    {
        let size: usize = self.data.len();
        if self.pos >= size as u64 {
            return Ok(0);
        }
        let start: usize = self.pos as usize;
        append_range(buf, self.data.as_slice(), start, size);
        self.pos = size as u64;
        Ok(size - start)
    }

    fn lock(&self) -> (r: Result<(), Error>)
        ensures
            r is Ok,
    {
        Ok(())
    }

    fn unlock(&self) -> (r: Result<(), Error>)
        ensures
            r is Ok,
    {
        Ok(())
    }

    fn read_at(&self, offset: u64, len: usize) -> (r: Result<Vec<u8>, Error>)
        ensures
            r matches Ok(v) && v@ == spec_read(self.data@, offset, len),
    {
        let size: usize = self.data.len();
        let mut out: Vec<u8> = Vec::new();
        if offset >= size as u64 {
            return Ok(out);
        }
        let start: usize = offset as usize;
        let end: usize = if len >= size - start {
            size
        } else {
            start + len
        };
        append_range(&mut out, self.data.as_slice(), start, end);
        Ok(out)
    }
}

/// What an exact read brings of contents in which one byte was changed differs from what
/// it brings of the contents as they were in that byte and in no other: a change in the
/// file reaches whoever reads it as it is, however the reads were split.
pub proof fn lemma_read_keeps_change(
    contents: Seq<u8>,
    changed: Seq<u8>,
    offset: u64,
    len: usize,
    p: int,
)
    requires
        changed.len() == contents.len(),
        offset <= p < offset + len <= contents.len(),
        changed[p] != contents[p],
        forall|i: int| 0 <= i < contents.len() && i != p ==> changed[i] == contents[i],
    ensures
        changed.subrange(offset as int, offset + len) == contents.subrange(
            offset as int,
            offset + len,
        ).update(p - offset, changed[p]),
        changed.subrange(offset as int, offset + len)[p - offset] != contents.subrange(
            offset as int,
            offset + len,
        )[p - offset],
{
    assert(changed.subrange(offset as int, offset + len) =~= contents.subrange(
        offset as int,
        offset + len,
    ).update(p - offset, changed[p]));
}

/// A file held in memory serves its bytes.
pub proof fn lemma_mem_file_serves(file: &MemFile)
    ensures
        serves(file, file.data@),
{
    assert(file.data.len() == file.data@.len());
}

} // verus!
