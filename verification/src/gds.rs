//! GPUDirect Storage: when the driver is usable, what its status codes mean, and who owns a GPU
//! buffer.
use crate::error::KVError;
use crate::text;
use crate::text::{decimal, signed_decimal};
use vstd::prelude::*;
use vstd::string::*;

verus! {

/// Bytes of an inter-process memory handle.
pub const CU_IPC_HANDLE_MAX_SIZE: usize = 64;

/// What the cuFile library is called, in the order in which the names are tried.
pub fn cufile_names() -> (r: Vec<&'static str>)
    ensures
        r@ == seq![
            "libcufile.so",
            "libcufile.so.0",
            "libcufile.so.1",
            "/usr/local/cuda/targets/x86_64-linux/lib/libcufile.so",
            "/usr/local/cuda/lib64/libcufile.so",
            "/usr/local/lib/python3.12/dist-packages/nvidia/cufile/lib/libcufile.so.0",
        ],
{
    vec![
        "libcufile.so",
        "libcufile.so.0",
        "libcufile.so.1",
        "/usr/local/cuda/targets/x86_64-linux/lib/libcufile.so",
        "/usr/local/cuda/lib64/libcufile.so",
        "/usr/local/lib/python3.12/dist-packages/nvidia/cufile/lib/libcufile.so.0",
    ]
}

/// What the CUDA runtime library is called, in the order in which the names are tried.
pub fn cudart_names() -> (r: Vec<&'static str>)
    ensures
        r@ == seq![
            "libcudart.so",
            "libcudart.so.12",
            "libcudart.so.11.0",
            "/usr/local/cuda/lib64/libcudart.so",
        ],
{
    vec![
        "libcudart.so",
        "libcudart.so.12",
        "libcudart.so.11.0",
        "/usr/local/cuda/lib64/libcudart.so",
    ]
}

/// What the CUDA driver library is called, in the order in which the names are tried.
pub fn cuda_names() -> (r: Vec<&'static str>)
    ensures
        r@ == seq!["libcuda.so.1", "libcuda.so", "/usr/lib/x86_64-linux-gnu/libcuda.so.1"],
{
    vec!["libcuda.so.1", "libcuda.so", "/usr/lib/x86_64-linux-gnu/libcuda.so.1"]
}

/// An error that the text tells.
pub open spec fn internal(e: KVError, text: Seq<char>) -> bool {
    e is Internal && e.detail() == text
}

/// What a failed cuFile call is reported as.
pub open spec fn cufile_text(op: Seq<char>, code: i32) -> Seq<char> {
    "cuFile "@ + op + " failed: status="@ + signed_decimal(code as int)
}

/// What a failed CUDA call is reported as.
pub open spec fn cuda_text(op: Seq<char>, code: i32) -> Seq<char> {
    "CUDA "@ + op + " failed: code="@ + signed_decimal(code as int)
}

/// The error of a cuFile call.
pub fn cufile_err(op: &str, code: i32) -> (r: KVError)
    ensures
        internal(r, cufile_text(op@, code)),
{
    let mut out = "cuFile ".to_owned();
    out.append(op);
    out.append(" failed: status=");
    text::push_signed(&mut out, code as i64);
    KVError::Internal(out)
}

/// The error of a CUDA call.
pub fn cuda_err(op: &str, code: i32) -> (r: KVError)
    ensures
        internal(r, cuda_text(op@, code)),
{
    let mut out = "CUDA ".to_owned();
    out.append(op);
    out.append(" failed: code=");
    text::push_signed(&mut out, code as i64);
    KVError::Internal(out)
}

/// What the status of a cuFile call means; zero is success.
pub fn map_result(op: &str, status: i32) -> (r: Result<(), KVError>)
    ensures
        status == 0 ==> r is Ok,
        status != 0 ==> r is Err && internal(r->Err_0, cufile_text(op@, status)),
{
    if status == 0 {
        Ok(())
    } else {
        Err(cufile_err(op, status))
    }
}

/// What the code of a CUDA call means; zero is success.
pub fn cuda_result(op: &str, code: i32) -> (r: Result<(), KVError>)
    ensures
        code == 0 ==> r is Ok,
        code != 0 ==> r is Err && internal(r->Err_0, cuda_text(op@, code)),
{
    if code == 0 {
        Ok(())
    } else {
        Err(cuda_err(op, code))
    }
}

/// How far the driver has come.
pub struct GdsDriver {
    probed: bool,
    loaded: bool,
    open: bool,
}

/// What is to be done next to make the driver ready.
#[derive(Clone, Copy, PartialEq, Eq, Structural, Debug)]
pub enum InitStep {
    /// Look for the libraries and their functions.
    Probe,
    /// Initialise CUDA and open the cuFile driver.
    Open,
    /// Nothing: the driver is ready, or there is none.
    Finished(bool),
}

impl GdsDriver {
    /// The libraries were looked for.
    pub closed spec fn is_probed(&self) -> bool {
        self.probed
    }

    /// All libraries and their functions were found.
    pub closed spec fn is_loaded(&self) -> bool {
        self.loaded
    }

    /// CUDA is initialised and the cuFile driver is open.
    pub closed spec fn is_open(&self) -> bool {
        self.open
    }

    pub open spec fn wf(&self) -> bool {
        &&& self.is_loaded() ==> self.is_probed()
        &&& self.is_open() ==> self.is_loaded()
    }

    pub fn new() -> (r: GdsDriver)
        ensures
            r.wf(),
            !r.is_probed(),
    {
        GdsDriver { probed: false, loaded: false, open: false }
    }

    /// What is to be done next. The libraries are looked for once only.
    pub fn init(&self) -> (r: InitStep)
        ensures
            r == (if !self.is_probed() {
                InitStep::Probe
            } else if !self.is_loaded() {
                InitStep::Finished(false)
            } else if !self.is_open() {
                InitStep::Open
            } else {
                InitStep::Finished(true)
            }),
    {
        if !self.probed {
            InitStep::Probe
        } else if !self.loaded {
            InitStep::Finished(false)
        } else if !self.open {
            InitStep::Open
        } else {
            InitStep::Finished(true)
        }
    }

    /// Notes whether the libraries and their functions were found.
    pub fn note_probe(&mut self, found: bool)
        requires
            old(self).wf(),
            !old(self).is_probed(),
        ensures
            final(self).wf(),
            final(self).is_probed(),
            final(self).is_loaded() == found,
            !final(self).is_open(),
    {
        self.probed = true;
        self.loaded = found;
    }

    /// Judges the codes of the two calls that open the driver. The second call is made only
    /// after the first has succeeded.
    pub fn note_open(&mut self, cu_init: i32, driver_open: Option<i32>) -> (r: Result<(), KVError>)
        requires
            old(self).wf(),
            old(self).is_loaded(),
            !old(self).is_open(),
            (driver_open is Some) == (cu_init == 0),
        ensures
            final(self).wf(),
            final(self).is_probed() == old(self).is_probed(),
            final(self).is_loaded() == old(self).is_loaded(),
            final(self).is_open() == r is Ok,
            match driver_open {
                None => r is Err && internal(r->Err_0, cuda_text("cuInit"@, cu_init)),
                Some(code) => if code == 0 {
                    r is Ok
                } else {
                    r is Err && internal(r->Err_0, cufile_text("cuFileDriverOpen"@, code))
                },
            },
    {
        match driver_open {
            None => Err(cuda_err("cuInit", cu_init)),
            Some(code) => {
                let r = map_result("cuFileDriverOpen", code);
                if code == 0 {
                    self.open = true;
                }
                r
            },
        }
    }

    /// Whether the driver has to be closed when it is given up.
    pub fn must_close(&self) -> (r: bool)
        ensures
            r == self.is_open(),
    {
        self.open
    }
}

/// Whether reads and writes can go through the driver: its libraries were found and it is open.
pub fn is_available(driver: &GdsDriver) -> (r: bool)
    requires
        driver.wf(),
    ensures
        r == driver.is_open(),
        r == (driver.is_loaded() && driver.is_open()),
{
    driver.open
}

/// Refuses work while the driver was not found.
pub fn require_driver(found: bool, complaint: &str) -> (r: Result<(), KVError>)
    ensures
        found ==> r is Ok,
        !found ==> r is Err && internal(r->Err_0, complaint@),
{
    if found {
        Ok(())
    } else {
        Err(KVError::Internal(complaint.to_owned()))
    }
}

/// A handle by which another process shares GPU memory.
pub struct CUipcMemHandle {
    pub reserved: [u8; 64],
}

impl CUipcMemHandle {
    /// Reads a handle; it has exactly 64 bytes.
    pub fn from_bytes(handle_bytes: &[u8]) -> (r: Result<CUipcMemHandle, KVError>)
        ensures
            if handle_bytes@.len() == CU_IPC_HANDLE_MAX_SIZE {
                r is Ok && r->Ok_0.reserved@ == handle_bytes@
            } else {
                r is Err && r->Err_0 is InvalidArgument && r->Err_0.detail()
                    == "IPC handle must be 64 bytes, got "@ + decimal(handle_bytes@.len())
            },
    {
        let n: usize = handle_bytes.len();
        if n != CU_IPC_HANDLE_MAX_SIZE {
            let mut out = "IPC handle must be 64 bytes, got ".to_owned();
            text::push_decimal(&mut out, n as u64);
            return Err(KVError::InvalidArgument(out));
        }
        let mut reserved: [u8; 64] = [0u8; 64];
        let mut i: usize = 0;
        while i < 64
            invariant
                i <= 64,
                handle_bytes@.len() == 64,
                forall|k: int| 0 <= k < i ==> reserved@[k] == handle_bytes@[k],
            decreases 64 - i,
        {
            reserved[i] = handle_bytes[i];
            i = i + 1;
        }
        proof {
            assert(reserved@ =~= handle_bytes@);
        }
        Ok(CUipcMemHandle { reserved })
    }
}

/// Where the memory of a buffer comes from.
#[derive(Clone, Copy, PartialEq, Eq, Structural, Debug)]
pub enum Ownership {
    /// Allocated here.
    Owned,
    /// Lent by the caller.
    Borrowed,
    /// Mapped in from another process.
    IpcImported,
}

/// GPU memory that files are read into and written from.
pub struct GpuBuffer {
    pub address: u64,
    pub len: usize,
    /// The driver knows the memory.
    pub registered: bool,
    pub ownership: Ownership,
}

/// What giving up the memory takes.
#[derive(Clone, Copy, PartialEq, Eq, Structural, Debug)]
pub enum Release {
    Nothing,
    Free,
    CloseIpc,
}

/// What giving up a buffer takes.
#[derive(Clone, Copy, PartialEq, Eq, Structural, Debug)]
pub struct DropPlan {
    pub deregister: bool,
    pub release: Release,
}

/// What giving up a buffer takes: the driver forgets what it knows, and memory that was
/// allocated or mapped here goes back to where it came from.
pub open spec fn drop_plan_of(b: GpuBuffer) -> DropPlan {
    DropPlan {
        deregister: b.registered,
        release: if b.address == 0 {
            Release::Nothing
        } else {
            match b.ownership {
                Ownership::Owned => Release::Free,
                Ownership::Borrowed => Release::Nothing,
                Ownership::IpcImported => Release::CloseIpc,
            }
        },
    }
}

impl GpuBuffer {
    /// A buffer that the driver does not know yet.
    pub fn new(address: u64, len: usize, ownership: Ownership) -> (r: GpuBuffer)
        ensures
            r == (GpuBuffer { address, len, registered: false, ownership }),
    {
        GpuBuffer { address, len, registered: false, ownership }
    }

    /// Judges the status of the registration with the driver.
    pub fn note_registration(&mut self, status: i32) -> (r: Result<(), KVError>)
        ensures
            status == 0 ==> r is Ok && *final(self) == (GpuBuffer { registered: true, ..*old(self) }),
            status != 0 ==> r is Err && internal(
                r->Err_0,
                cufile_text("cuFileBufRegister"@, status),
            ) && *final(self) == *old(self),
    {
        if status != 0 {
            return Err(cufile_err("cuFileBufRegister", status));
        }
        self.registered = true;
        Ok(())
    }

    /// Notes that the mapping of imported memory was closed, so that it is not closed again.
    pub fn note_closed(&mut self)
        ensures
            *final(self) == (GpuBuffer { ownership: Ownership::Borrowed, ..*old(self) }),
    {
        self.ownership = Ownership::Borrowed;
    }

    pub fn as_ptr(&self) -> (r: u64)
        ensures
            r == self.address,
    {
        self.address
    }

    pub fn len(&self) -> (r: usize)
        ensures
            r == self.len,
    {
        self.len
    }

    pub fn is_empty(&self) -> (r: bool)
        ensures
            r == (self.len == 0),
    {
        self.len == 0
    }

    /// How many bytes a copy to or from a host buffer moves: as many as both hold.
    pub fn copy_len(&self, host_len: usize) -> (r: usize)
        ensures
            r == (if host_len < self.len {
                host_len
            } else {
                self.len
            }),
    {
        if host_len < self.len {
            host_len
        } else {
            self.len
        }
    }

    /// What giving up the buffer takes.
    pub fn drop_plan(&self) -> (r: DropPlan)
        ensures
            r == drop_plan_of(*self),
    {
        let release = if self.address == 0 {
            Release::Nothing
        } else {
            match self.ownership {
                Ownership::Owned => Release::Free,
                Ownership::Borrowed => Release::Nothing,
                Ownership::IpcImported => Release::CloseIpc,
            }
        };
        DropPlan { deregister: self.registered, release }
    }
}

/// Imported memory whose registration failed and whose mapping was closed takes nothing more;
/// owned memory whose registration failed still goes back.
pub proof fn failed_registration_leaks_nothing(b: GpuBuffer)
    requires
        !b.registered,
        b.address != 0,
    ensures
        b.ownership is IpcImported ==> drop_plan_of(
            GpuBuffer { ownership: Ownership::Borrowed, ..b },
        ) == (DropPlan { deregister: false, release: Release::Nothing }),
        b.ownership is Owned ==> drop_plan_of(b) == (DropPlan {
            deregister: false,
            release: Release::Free,
        }),
{
}

/// The two directions between a file and GPU memory.
#[derive(Clone, Copy, PartialEq, Eq, Structural, Debug)]
pub enum Transfer {
    Read,
    Write,
}

/// The name of a transfer in complaints about its size.
pub open spec fn transfer_name(t: Transfer) -> Seq<char> {
    match t {
        Transfer::Read => "GpuFileHandle::pread size "@,
        Transfer::Write => "GpuFileHandle::pwrite size "@,
    }
}

/// The driver's name for a transfer.
pub open spec fn transfer_op(t: Transfer) -> Seq<char> {
    match t {
        Transfer::Read => "cuFileRead"@,
        Transfer::Write => "cuFileWrite"@,
    }
}

/// Checks that a transfer stays inside the buffer.
pub fn check_transfer(transfer: Transfer, size: usize, buf_len: usize) -> (r: Result<(), KVError>)
    ensures
        size <= buf_len ==> r is Ok,
        size > buf_len ==> r is Err && internal(
            r->Err_0,
            transfer_name(transfer) + decimal(size as nat) + " > buf "@ + decimal(buf_len as nat),
        ),
{
    if size <= buf_len {
        return Ok(());
    }
    let mut out = (match transfer {
        Transfer::Read => "GpuFileHandle::pread size ",
        Transfer::Write => "GpuFileHandle::pwrite size ",
    }).to_owned();
    text::push_decimal(&mut out, size as u64);
    out.append(" > buf ");
    text::push_decimal(&mut out, buf_len as u64);
    Err(KVError::Internal(out))
}

/// What the result of a transfer means: a number of bytes, or an error code below zero.
pub fn transfer_result(transfer: Transfer, n: isize) -> (r: Result<usize, KVError>)
    ensures
        n >= 0 ==> r == Ok::<usize, KVError>(n as usize),
        n < 0 ==> r is Err && internal(r->Err_0, cufile_text(transfer_op(transfer), n as i32)),
{
    if n < 0 {
        let op = match transfer {
            Transfer::Read => "cuFileRead",
            Transfer::Write => "cuFileWrite",
        };
        return Err(
            cufile_err(
                op,
                #[verifier::truncate]
                (n as i32),
            ),
        );
    }
    Ok(n as usize)
}

} // verus!
