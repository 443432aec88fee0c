//! File syscalls. The kernel core does not hold the file system: a file
//! syscall checks its arguments against the current task, reads what it
//! needs from the task's memory, and says what the file system is to do.
//! What the file system answers comes back through the `complete_*`
//! functions, which store it in the task.
use vstd::prelude::*;
use crate::abi::{stat_bytes, Stat, STAT_SIZE};
use crate::manager::{fd_open, installed, KernelView, TaskManager};
use crate::mm::{areas_write, bytes_at, bytes_mapped, str_at};
use crate::task::{lowest_free, FileHandle, TaskView};

verus! {

/// What a file syscall asks of the file system.
pub enum FsRequest {
    /// Write `data` to `file`; the syscall returns the number of bytes written.
    Write { file: FileHandle, data: Vec<u8> },
    /// Read up to `len` bytes from `file`; [`complete_read`] stores them at `buf`.
    Read { file: FileHandle, buf: usize, len: usize },
    /// Open the file called `path`; [`complete_open`] gives it a descriptor.
    Open { path: Vec<u8>, flags: u32 },
    /// Report on `file`; [`complete_fstat`] stores the report at `st`.
    Stat { file: FileHandle, st: usize },
    /// Give the file called `old_name` the further name `new_name`; the syscall returns 0.
    Link { old_name: Vec<u8>, new_name: Vec<u8> },
    /// Take the name `name` from its file; the syscall returns 0.
    Unlink { name: Vec<u8> },
}

/// The mathematical content of a request.
pub enum FsRequestView {
    Write { file: FileHandle, data: Seq<u8> },
    Read { file: FileHandle, buf: usize, len: usize },
    Open { path: Seq<u8>, flags: u32 },
    Stat { file: FileHandle, st: usize },
    Link { old_name: Seq<u8>, new_name: Seq<u8> },
    Unlink { name: Seq<u8> },
}

impl View for FsRequest {
    type V = FsRequestView;

    open spec fn view(&self) -> FsRequestView {
        match *self {
            FsRequest::Write { file, data } => FsRequestView::Write { file, data: data@ },
            FsRequest::Read { file, buf, len } => FsRequestView::Read { file, buf, len },
            FsRequest::Open { path, flags } => FsRequestView::Open { path: path@, flags },
            FsRequest::Stat { file, st } => FsRequestView::Stat { file, st },
            FsRequest::Link { old_name, new_name } => FsRequestView::Link {
                old_name: old_name@,
                new_name: new_name@,
            },
            FsRequest::Unlink { name } => FsRequestView::Unlink { name: name@ },
        }
    }
}

/// The content of what a file syscall hands back: a request, or nothing
/// when the syscall fails with -1.
pub open spec fn asked(r: Option<FsRequest>) -> Option<FsRequestView> {
    match r {
        Some(request) => Some(request@),
        None => None,
    }
}

/// Open flag: write only.
pub const O_WRONLY: u32 = 1;

/// Open flag: read and write.
pub const O_RDWR: u32 = 2;

/// Open flag: create the file.
pub const O_CREATE: u32 = 512;

/// Open flag: empty the file.
pub const O_TRUNC: u32 = 1024;

/// `flags` holds known open flags only.
pub open spec fn flags_known(flags: u32) -> bool {
    flags & !0x603u32 == 0
}

/// The handle in descriptor `fd` of the current task.
pub open spec fn file_at(k: KernelView, fd: usize) -> FileHandle {
    k.cur().fd_table[fd as int].unwrap()
}

/// What `write(fd, buf, len)` asks: to write the `len` bytes at `buf` to
/// the file in `fd`, when `fd` is open for writing and the bytes are mapped.
pub open spec fn write_request(k: KernelView, fd: usize, buf: usize, len: usize) -> Option<FsRequestView> {
    if fd_open(k.cur().fd_table, fd as int) && file_at(k, fd).writable && bytes_mapped(
        k.cur().memory,
        buf as int,
        len as int,
    ) {
        Some(FsRequestView::Write { file: file_at(k, fd), data: bytes_at(k.cur().memory, buf as int, len as int) })
    } else {
        None
    }
}

/// `write`: see [`write_request`]. `None` stands for the result -1.
pub fn sys_write(k: &TaskManager, fd: usize, buf: usize, len: usize) -> (r: Option<FsRequest>)
    requires
        k.wf(),
        k@.current is Some,
    ensures
        asked(r) == write_request(k@, fd, buf, len),
{
    let file = match k.current_file(fd) {
        Some(file) => file,
        None => { return None; },
    };
    if !file.writable {
        return None;
    }
    match k.read_user(buf, len) {
        Some(data) => Some(FsRequest::Write { file, data }),
        None => None,
    }
}

/// What `read(fd, buf, len)` asks: to read up to `len` bytes from the
/// file in `fd`, when `fd` is open for reading and the buffer is mapped.
pub open spec fn read_request(k: KernelView, fd: usize, buf: usize, len: usize) -> Option<FsRequestView> {
    if fd_open(k.cur().fd_table, fd as int) && file_at(k, fd).readable && bytes_mapped(
        k.cur().memory,
        buf as int,
        len as int,
    ) {
        Some(FsRequestView::Read { file: file_at(k, fd), buf, len })
    } else {
        None
    }
}

/// `read`: see [`read_request`]. `None` stands for the result -1.
pub fn sys_read(k: &TaskManager, fd: usize, buf: usize, len: usize) -> (r: Option<FsRequest>)
    requires
        k.wf(),
        k@.current is Some,
    ensures
        asked(r) == read_request(k@, fd, buf, len),
{
    let file = match k.current_file(fd) {
        Some(file) => file,
        None => { return None; },
    };
    if !file.readable {
        return None;
    }
    if !k.current_task().memory_set().range_mapped(buf, len) {
        return None;
    }
    Some(FsRequest::Read { file, buf, len })
}

/// Number of bytes that a read into a buffer of `len` bytes takes of `got` bytes.
pub open spec fn taken(len: usize, got: int) -> int {
    if got < len {
        got
    } else {
        len as int
    }
}

/// Ends a `read`: stores at `buf` the bytes that the file system read, as
/// far as the buffer of `len` bytes takes them, and returns their number.
/// Returns -1, and changes nothing, when they do not fit mapped memory.
pub fn complete_read(k: &mut TaskManager, buf: usize, len: usize, data: &[u8]) -> (r: isize)
    requires
        old(k).wf(),
        old(k)@.current is Some,
    ensures
        final(k).wf(),
        bytes_mapped(old(k)@.cur().memory, buf as int, taken(len, data@.len() as int)) ==> r == taken(
            len,
            data@.len() as int,
        ) as isize && final(k)@ == old(k)@.with_cur(
            TaskView {
                memory: areas_write(
                    old(k)@.cur().memory,
                    buf as int,
                    data@.subrange(0, taken(len, data@.len() as int)),
                ),
                ..old(k)@.cur()
            },
        ),
        !bytes_mapped(old(k)@.cur().memory, buf as int, taken(len, data@.len() as int)) ==> r == -1 && final(k)@
            == old(k)@,
{
    let n: usize = if data.len() < len {
        data.len()
    } else {
        len
    };
    let part = &data[0..n];
    if k.write_user(buf, part) {
        #[verifier::truncate]
        let r = n as isize;
        r
    } else {
        -1
    }
}

/// What `open(path, flags)` asks: to open the file whose name is the
/// string at `path`, when the string can be read and the flags are known.
pub open spec fn open_request(k: KernelView, path: usize, flags: u32) -> Option<FsRequestView> {
    if flags_known(flags) && str_at(k.cur().memory, path as int) is Some {
        Some(FsRequestView::Open { path: str_at(k.cur().memory, path as int).unwrap(), flags })
    } else {
        None
    }
}

/// `open`: see [`open_request`]. `None` stands for the result -1.
pub fn sys_open(k: &TaskManager, path: usize, flags: u32) -> (r: Option<FsRequest>)
    requires
        k.wf(),
        k@.current is Some,
    ensures
        asked(r) == open_request(k@, path, flags),
{
    if flags & !0x603u32 != 0 {
        return None;
    }
    match k.read_user_str(path) {
        Some(path) => Some(FsRequest::Open { path, flags }),
        None => None,
    }
}

/// Ends an `open`: puts the file that the file system opened into the
/// lowest free descriptor of the current task and returns the descriptor.
/// Returns -1, and changes nothing, when the file system opened none.
pub fn complete_open(k: &mut TaskManager, file: Option<FileHandle>) -> (r: isize)
    requires
        old(k).wf(),
        old(k)@.current is Some,
    ensures
        final(k).wf(),
        file is None ==> r == -1 && final(k)@ == old(k)@,
        file matches Some(f) ==> r == lowest_free(old(k)@.cur().fd_table) as isize && final(k)@ == old(
            k,
        )@.with_cur(TaskView { fd_table: installed(old(k)@.cur().fd_table, f), ..old(k)@.cur() }),
{
    match file {
        Some(f) => {
            let fd = k.install_file(f);
            #[verifier::truncate]
            let r = fd as isize;
            r
        },
        None => -1,
    }
}

/// `close`: empties descriptor `fd` of the current task. Returns 0; -1,
/// and no change, when the descriptor is not open.
pub fn sys_close(k: &mut TaskManager, fd: usize) -> (r: isize)
    requires
        old(k).wf(),
        old(k)@.current is Some,
    ensures
        final(k).wf(),
        r == 0 || r == -1,
        r == 0 <==> fd_open(old(k)@.cur().fd_table, fd as int),
        r == 0 ==> final(k)@ == old(k)@.with_cur(
            TaskView { fd_table: old(k)@.cur().fd_table.update(fd as int, None), ..old(k)@.cur() },
        ),
        r == -1 ==> final(k)@ == old(k)@,
{
    if k.close_file(fd) {
        0
    } else {
        -1
    }
}

/// What `fstat(fd, st)` asks: a report on the file in `fd`, when `fd` is
/// open and the record at `st` is mapped.
pub open spec fn fstat_request(k: KernelView, fd: usize, st: usize) -> Option<FsRequestView> {
    if fd_open(k.cur().fd_table, fd as int) && bytes_mapped(k.cur().memory, st as int, STAT_SIZE as int) {
        Some(FsRequestView::Stat { file: file_at(k, fd), st })
    } else {
        None
    }
}

/// `fstat`: see [`fstat_request`]. `None` stands for the result -1.
pub fn sys_fstat(k: &TaskManager, fd: usize, st: usize) -> (r: Option<FsRequest>)
    requires
        k.wf(),
        k@.current is Some,
    ensures
        asked(r) == fstat_request(k@, fd, st),
{
    let file = match k.current_file(fd) {
        Some(file) => file,
        None => { return None; },
    };
    if !k.current_task().memory_set().range_mapped(st, STAT_SIZE) {
        return None;
    }
    Some(FsRequest::Stat { file, st })
}

/// Ends an `fstat`: stores the file system's report at `st` in the
/// current task's memory. Returns 0; -1, and no change, when the record
/// at `st` is not mapped.
pub fn complete_fstat(k: &mut TaskManager, st: usize, stat: &Stat) -> (r: isize)
    requires
        old(k).wf(),
        old(k)@.current is Some,
    ensures
        final(k).wf(),
        r == 0 || r == -1,
        r == 0 <==> bytes_mapped(old(k)@.cur().memory, st as int, STAT_SIZE as int),
        r == 0 ==> final(k)@ == old(k)@.with_cur(
            TaskView { memory: areas_write(old(k)@.cur().memory, st as int, stat_bytes(*stat)), ..old(k)@.cur() },
        ),
        r == -1 ==> final(k)@ == old(k)@,
{
    let bytes = stat.to_bytes();
    if k.write_user(st, bytes.as_slice()) {
        0
    } else {
        -1
    }
}

/// What `linkat(old_name, new_name)` asks: a further name for a file,
/// when both strings can be read and they differ.
pub open spec fn link_request(k: KernelView, old_name: usize, new_name: usize) -> Option<FsRequestView> {
    let a = str_at(k.cur().memory, old_name as int);
    let b = str_at(k.cur().memory, new_name as int);
    if a is Some && b is Some && a.unwrap() != b.unwrap() {
        Some(FsRequestView::Link { old_name: a.unwrap(), new_name: b.unwrap() })
    } else {
        None
    }
}

/// `linkat`: see [`link_request`]. `None` stands for the result -1.
pub fn sys_linkat(k: &TaskManager, old_name: usize, new_name: usize) -> (r: Option<FsRequest>)
    requires
        k.wf(),
        k@.current is Some,
    ensures
        asked(r) == link_request(k@, old_name, new_name),
{
    let a = match k.read_user_str(old_name) {
        Some(a) => a,
        None => { return None; },
    };
    let b = match k.read_user_str(new_name) {
        Some(b) => b,
        None => { return None; },
    };
    if crate::loader::bytes_eq(a.as_slice(), b.as_slice()) {
        return None;
    }
    Some(FsRequest::Link { old_name: a, new_name: b })
}

/// What `unlinkat(name)` asks: to take a name from its file, when the
/// string can be read.
pub open spec fn unlink_request(k: KernelView, name: usize) -> Option<FsRequestView> {
    match str_at(k.cur().memory, name as int) {
        Some(n) => Some(FsRequestView::Unlink { name: n }),
        None => None,
    }
}

/// `unlinkat`: see [`unlink_request`]. `None` stands for the result -1.
pub fn sys_unlinkat(k: &TaskManager, name: usize) -> (r: Option<FsRequest>)
    requires
        k.wf(),
        k@.current is Some,
    ensures
        asked(r) == unlink_request(k@, name),
{
    match k.read_user_str(name) {
        Some(name) => Some(FsRequest::Unlink { name }),
        None => None,
    }
}

} // verus!
