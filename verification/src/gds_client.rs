//! The GPU worker's side of GPUDirect Storage: registered buffers and the cache of open files.
use crate::paths::{normal, normalized};
use crate::recency::{after_put, lookup, without};
use crate::text;
use crate::text::{decimal, signed_decimal};
use lru::LruCache;
use std::collections::HashMap;
use std::num::NonZeroUsize;
use vstd::prelude::*;
use vstd::string::*;

verus! {

/// What the cache of open files holds: path and handle, the one used least recently first.
pub uninterp spec fn open_files(c: LruCache<String, u64>) -> Seq<(Seq<char>, u64)>;

/// The number of files that the cache was made for.
pub uninterp spec fn file_limit(c: LruCache<String, u64>) -> nat;

/// A file that left the cache.
pub open spec fn file_of(p: (String, u64)) -> (Seq<char>, u64) {
    (p.0@, p.1)
}

/// `LruCache::new`: an empty cache for `limit` files. The table for them is allocated at once;
/// up to the bound it fits the address space.
#[verifier::external_body]
fn files_new(limit: usize) -> (r: LruCache<String, u64>)
    requires
        0 < limit <= usize::MAX / 128,
    ensures
        open_files(r).len() == 0,
        file_limit(r) == limit,
{
    LruCache::new(NonZeroUsize::new(limit).unwrap())
}

/// `LruCache::get`: the handle of a file, which becomes the one used last.
#[verifier::external_body]
fn files_get(c: &mut LruCache<String, u64>, path: &String) -> (r: Option<u64>)
    ensures
        file_limit(*final(c)) == file_limit(*old(c)),
        r == lookup(open_files(*old(c)), path@),
        match r {
            Some(handle) => open_files(*final(c)) == without(open_files(*old(c)), path@).push(
                (path@, handle),
            ),
            None => open_files(*final(c)) == open_files(*old(c)),
        },
{
    c.get(path).copied()
}

/// `LruCache::push`: puts a file in as the one used last, and returns what had to go: the entry
/// under the same path, or where a new path finds the cache full, the file used least recently.
#[verifier::external_body]
fn files_push(c: &mut LruCache<String, u64>, path: String, handle: u64) -> (r: Option<(String, u64)>)
    ensures
        file_limit(*final(c)) == file_limit(*old(c)),
        open_files(*final(c)) == after_put(
            open_files(*old(c)),
            path@,
            handle,
            file_limit(*old(c)),
        ),
        match lookup(open_files(*old(c)), path@) {
            Some(before) => r is Some && file_of(r->0) == (path@, before),
            None => if open_files(*old(c)).len() == file_limit(*old(c)) {
                r is Some && file_of(r->0) == open_files(*old(c))[0]
            } else {
                r is None
            },
        },
{
    c.push(path, handle)
}

/// What the cuFile library is called on a worker, in the order in which the names are tried.
pub fn worker_cufile_names() -> (r: Vec<&'static str>)
    ensures
        r@ == seq![
            "libcufile.so",
            "libcufile.so.0",
            "/usr/local/cuda/targets/x86_64-linux/lib/libcufile.so",
            "/usr/local/cuda/lib64/libcufile.so",
            "/usr/local/lib/python3.12/dist-packages/nvidia/cufile/lib/libcufile.so.0",
        ],
{
    vec![
        "libcufile.so",
        "libcufile.so.0",
        "/usr/local/cuda/targets/x86_64-linux/lib/libcufile.so",
        "/usr/local/cuda/lib64/libcufile.so",
        "/usr/local/lib/python3.12/dist-packages/nvidia/cufile/lib/libcufile.so.0",
    ]
}

/// What the CUDA runtime library is called on a worker, in the order in which the names are
/// tried.
pub fn worker_cudart_names() -> (r: Vec<&'static str>)
    ensures
        r@ == seq![
            "libcudart.so",
            "libcudart.so.12",
            "/usr/local/cuda/targets/x86_64-linux/lib/libcudart.so",
            "/usr/local/cuda/lib64/libcudart.so",
        ],
{
    vec![
        "libcudart.so",
        "libcudart.so.12",
        "/usr/local/cuda/targets/x86_64-linux/lib/libcudart.so",
        "/usr/local/cuda/lib64/libcudart.so",
    ]
}

/// How many files are kept open: at least one.
pub fn file_cache_capacity(requested: usize) -> (r: usize)
    ensures
        r == (if requested == 0 {
            1
        } else {
            requested
        }),
        r > 0,
{
    if requested == 0 {
        1
    } else {
        requested
    }
}

/// GPU memory that the driver knows.
#[derive(Clone, Copy, PartialEq, Eq, Structural, Debug)]
pub struct RegisteredBuffer {
    pub ptr: u64,
    pub len: usize,
}

/// The buffers and files of one worker.
pub struct Client {
    files: LruCache<String, u64>,
    buffers: HashMap<u64, RegisteredBuffer>,
    next_buffer_id: u64,
}

impl Client {
    /// The open files under the normal spelling of their paths, the one used least recently
    /// first.
    pub closed spec fn files(&self) -> Seq<(Seq<char>, u64)> {
        open_files(self.files)
    }

    /// How many files are kept open.
    pub closed spec fn limit(&self) -> nat {
        file_limit(self.files)
    }

    /// The registered buffers by number.
    pub closed spec fn buffers(&self) -> Map<u64, RegisteredBuffer> {
        self.buffers@
    }

    /// The number that the next buffer gets.
    pub closed spec fn next_id(&self) -> u64 {
        self.next_buffer_id
    }

    /// Numbers start at one, and none was given out that is not below the next. No more files
    /// are open than there is room for.
    pub open spec fn wf(&self) -> bool {
        &&& self.files().len() <= self.limit()
        &&& self.limit() > 0
        &&& self.next_id() >= 1
        &&& forall|id: u64| #[trigger]
            self.buffers().contains_key(id) ==> 1 <= id < self.next_id()
    }

    /// A client without buffers and open files.
    pub fn new(requested: usize) -> (r: Client)
        requires
            requested <= usize::MAX / 128,
        ensures
            r.wf(),
            r.files().len() == 0,
            r.limit() == (if requested == 0 {
                1
            } else {
                requested as nat
            }),
            r.buffers() == Map::<u64, RegisteredBuffer>::empty(),
            r.next_id() == 1,
    {
        Client {
            files: files_new(file_cache_capacity(requested)),
            buffers: HashMap::new(),
            next_buffer_id: 1,
        }
    }

    /// Judges the registration of a buffer with the driver and gives it a number.
    pub fn note_registered(&mut self, ptr: u64, len: usize, status: i32) -> (r: Result<u64, String>)
        requires
            old(self).wf(),
            old(self).next_id() < u64::MAX,
        ensures
            final(self).wf(),
            final(self).files() == old(self).files(),
            final(self).limit() == old(self).limit(),
            if status != 0 {
                &&& r is Err
                &&& r->Err_0@ == "cuFileBufRegister failed: "@ + signed_decimal(status as int)
                &&& final(self).buffers() == old(self).buffers()
                &&& final(self).next_id() == old(self).next_id()
            } else {
                &&& r == Ok::<u64, String>(old(self).next_id())
                &&& !old(self).buffers().contains_key(old(self).next_id())
                &&& final(self).buffers() == old(self).buffers().insert(
                    old(self).next_id(),
                    RegisteredBuffer { ptr, len },
                )
                &&& final(self).next_id() == old(self).next_id() + 1
            },
    {
        broadcast use vstd::std_specs::hash::group_hash_axioms;

        if status != 0 {
            let mut out = "cuFileBufRegister failed: ".to_owned();
            text::push_signed(&mut out, status as i64);
            return Err(out);
        }
        let id: u64 = self.next_buffer_id;
        self.next_buffer_id = id + 1;
        self.buffers.insert(id, RegisteredBuffer { ptr, len });
        proof {
            assert forall|i: u64| #[trigger] self.buffers().contains_key(i) implies 1 <= i
                < self.next_id() by {
                assert(i == id || old(self).buffers().contains_key(i));
            }
        }
        Ok(id)
    }

    /// Forgets a buffer; its memory, if it was known, has to be taken from the driver.
    pub fn unregister_buffer(&mut self, id: u64) -> (r: Option<u64>)
        requires
            old(self).wf(),
        ensures
            final(self).wf(),
            final(self).files() == old(self).files(),
            final(self).limit() == old(self).limit(),
            final(self).next_id() == old(self).next_id(),
            final(self).buffers() == old(self).buffers().remove(id),
            r == (if old(self).buffers().contains_key(id) {
                Some(old(self).buffers()[id].ptr)
            } else {
                None
            }),
    {
        broadcast use vstd::std_specs::hash::group_hash_axioms;

        let removed = self.buffers.remove(&id);
        proof {
            assert forall|i: u64| #[trigger] self.buffers().contains_key(i) implies 1 <= i
                < self.next_id() by {
                assert(old(self).buffers().contains_key(i));
            }
        }
        match removed {
            Some(buffer) => Some(buffer.ptr),
            None => None,
        }
    }

    /// Finds the memory that a read goes to: `len` bytes from `buffer_offset` on must lie inside
    /// the buffer.
    pub fn read_target(&self, buffer_id: u64, buffer_offset: u64, len: usize) -> (r: Result<
        u64,
        String,
    >)
        ensures
            if !self.buffers().contains_key(buffer_id) {
                r is Err && r->Err_0@ == "unknown GDS buffer "@ + decimal(buffer_id as nat)
            } else if buffer_offset + len > usize::MAX {
                r is Err && r->Err_0@ == "GDS buffer range overflows usize"@
            } else if buffer_offset + len > self.buffers()[buffer_id].len {
                r is Err && r->Err_0@ == "GDS read exceeds registered buffer"@
            } else {
                r == Ok::<u64, String>(self.buffers()[buffer_id].ptr)
            },
    {
        broadcast use vstd::std_specs::hash::group_hash_axioms;

        let buffer = match self.buffers.get(&buffer_id) {
            None => {
                let mut out = "unknown GDS buffer ".to_owned();
                text::push_decimal(&mut out, buffer_id);
                return Err(out);
            },
            Some(b) => *b,
        };
        if buffer_offset > usize::MAX as u64 {
            return Err("GDS buffer range overflows usize".to_owned());
        }
        let offset: usize = buffer_offset as usize;
        match offset.checked_add(len) {
            None => Err("GDS buffer range overflows usize".to_owned()),
            Some(end) => if end > buffer.len {
                Err("GDS read exceeds registered buffer".to_owned())
            } else {
                Ok(buffer.ptr)
            },
        }
    }

    /// The handle of a file that is open, however its path is spelled; it counts as used. A file
    /// that is not open has to be opened and noted.
    pub fn file_handle(&mut self, path: &str) -> (r: Option<u64>)
        requires
            old(self).wf(),
        ensures
            final(self).wf(),
            final(self).limit() == old(self).limit(),
            final(self).buffers() == old(self).buffers(),
            final(self).next_id() == old(self).next_id(),
            r == lookup(old(self).files(), normal(path@)),
            match r {
                Some(handle) => final(self).files() == without(
                    old(self).files(),
                    normal(path@),
                ).push((normal(path@), handle)),
                None => final(self).files() == old(self).files(),
            },
    {
        let key = normalized(path);
        let r = files_get(&mut self.files, &key);
        proof {
            assert(self.buffers() == old(self).buffers());
            if r is Some {
                lemma_without_shrinks(old(self).files(), key@);
            }
        }
        r
    }

    /// Notes a file that was opened. Where that is one too many, the handle that has to be
    /// given back is returned.
    pub fn note_opened(&mut self, path: &str, handle: u64) -> (r: Option<u64>)
        requires
            old(self).wf(),
            lookup(old(self).files(), normal(path@)) is None,
        ensures
            final(self).wf(),
            final(self).limit() == old(self).limit(),
            final(self).buffers() == old(self).buffers(),
            final(self).next_id() == old(self).next_id(),
            lookup(final(self).files(), normal(path@)) == Some(handle),
            if old(self).files().len() == old(self).limit() {
                &&& r == Some(old(self).files()[0].1)
                &&& final(self).files() == old(self).files().skip(1).push((normal(path@), handle))
            } else {
                &&& r is None
                &&& final(self).files() == old(self).files().push((normal(path@), handle))
            },
    {
        let evicted = files_push(&mut self.files, normalized(path), handle);
        proof {
            assert(self.buffers() == old(self).buffers());
        }
        match evicted {
            Some((_, handle)) => Some(handle),
            None => None,
        }
    }

    /// Hands out everything that has to be given back to the driver when the client ends.
    pub fn into_parts(self) -> (r: (HashMap<u64, RegisteredBuffer>, LruCache<String, u64>))
        ensures
            r.0@ == self.buffers(),
            open_files(r.1) == self.files(),
    {
        (self.buffers, self.files)
    }
}

proof fn lemma_without_shrinks(s: Seq<(Seq<char>, u64)>, k: Seq<char>)
    ensures
        without(s, k).len() <= s.len(),
        lookup(s, k) is Some ==> without(s, k).len() < s.len(),
    decreases s.len(),
{
    if s.len() > 0 {
        lemma_without_shrinks(s.drop_last(), k);
    }
}

/// Refuses a buffer that holds nothing.
pub fn check_buffer(ptr: u64, len: usize) -> (r: Result<(), String>)
    ensures
        ptr == 0 || len == 0 ==> r is Err && r->Err_0@ == "GDS buffer must be non-empty"@,
        ptr != 0 && len != 0 ==> r is Ok,
{
    if ptr == 0 || len == 0 {
        Err("GDS buffer must be non-empty".to_owned())
    } else {
        Ok(())
    }
}

/// What the status of selecting a GPU means; zero is success.
pub fn device_selected(device: i32, status: i32) -> (r: Result<(), String>)
    ensures
        status == 0 ==> r is Ok,
        status != 0 ==> r is Err && r->Err_0@ == "cudaSetDevice("@ + signed_decimal(device as int)
            + ") failed: "@ + signed_decimal(status as int),
{
    if status == 0 {
        return Ok(());
    }
    let mut out = "cudaSetDevice(".to_owned();
    text::push_signed(&mut out, device as i64);
    out.append(") failed: ");
    text::push_signed(&mut out, status as i64);
    Err(out)
}

/// What the status of opening the driver means; zero is success.
pub fn driver_opened(status: i32) -> (r: Result<(), String>)
    ensures
        status == 0 ==> r is Ok,
        status != 0 ==> r is Err && r->Err_0@ == "cuFileDriverOpen failed: "@ + signed_decimal(
            status as int,
        ),
{
    if status == 0 {
        return Ok(());
    }
    let mut out = "cuFileDriverOpen failed: ".to_owned();
    text::push_signed(&mut out, status as i64);
    Err(out)
}

/// What the status of registering an open file means; zero is success.
pub fn file_registered(path: &str, status: i32) -> (r: Result<(), String>)
    ensures
        status == 0 ==> r is Ok,
        status != 0 ==> r is Err && r->Err_0@ == "cuFileHandleRegister "@ + path@ + " failed: "@
            + signed_decimal(status as int),
{
    if status == 0 {
        return Ok(());
    }
    let mut out = "cuFileHandleRegister ".to_owned();
    out.append(path);
    out.append(" failed: ");
    text::push_signed(&mut out, status as i64);
    Err(out)
}

/// The offsets of a read as the driver takes them.
pub fn read_offsets(file_offset: u64, buffer_offset: u64) -> (r: Result<(i64, i64), String>)
    ensures
        if file_offset > i64::MAX {
            r is Err && r->Err_0@ == "file offset too large"@
        } else if buffer_offset > i64::MAX {
            r is Err && r->Err_0@ == "buffer offset too large"@
        } else {
            r == Ok::<(i64, i64), String>((file_offset as i64, buffer_offset as i64))
        },
{
    if file_offset > i64::MAX as u64 {
        return Err("file offset too large".to_owned());
    }
    if buffer_offset > i64::MAX as u64 {
        return Err("buffer offset too large".to_owned());
    }
    Ok((file_offset as i64, buffer_offset as i64))
}

/// What the result of a read means: a number of bytes, or an error code below zero.
pub fn read_result(n: isize) -> (r: Result<usize, String>)
    ensures
        n >= 0 ==> r == Ok::<usize, String>(n as usize),
        n < 0 ==> r is Err && r->Err_0@ == "cuFileRead failed: "@ + signed_decimal(n as int),
{
    if n < 0 {
        let mut out = "cuFileRead failed: ".to_owned();
        text::push_signed(&mut out, n as i64);
        return Err(out);
    }
    Ok(n as usize)
}

/// The number that a call of the C interface returns: what it gives, where that fits, and -1
/// for every failure.
pub fn number_or_failure(result: Option<u64>) -> (r: i64)
    ensures
        r == (match result {
            Some(n) => if n <= i64::MAX {
                n as int
            } else {
                -1
            },
            None => -1,
        }),
{
    match result {
        Some(n) => if n <= i64::MAX as u64 {
            n as i64
        } else {
            -1
        },
        None => -1,
    }
}

} // verus!
