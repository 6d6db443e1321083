//! Bookkeeping of device and pinned host memory. Addresses are plain numbers
//! here, zero meaning that nothing is allocated; the calls into the device
//! runtime are made by the caller, who reports their return codes back.
use vstd::prelude::*;

verus! {

/// Why a memory operation failed, with the runtime's return code.
#[derive(Debug, Clone, Copy, PartialEq, Eq, Structural)]
pub enum MemoryError {
    AllocationFailed { bytes: usize, rc: i32 },
    CopyFailed { rc: i32 },
}

/// What has to be done so that a buffer is large enough.
#[derive(Debug, Clone, Copy, PartialEq, Eq, Structural)]
pub enum EnsureAction {
    /// The buffer is large enough.
    Ready,
    /// Free the old allocation, if there is one, then allocate `bytes` and
    /// report the result with `allocated`.
    Allocate { free: Option<usize>, bytes: usize },
}

/// A lazily grown device memory buffer.
#[derive(Debug)]
pub struct DeviceBuffer {
    pub ptr: usize,
    pub capacity: usize,
}

impl DeviceBuffer {
    /// A buffer without memory has no capacity.
    pub open spec fn wf(&self) -> bool {
        self.ptr == 0 ==> self.capacity == 0
    }

    /// A buffer without memory.
    pub fn new() -> (r: DeviceBuffer)
        ensures
            r.wf(),
            r.ptr == 0,
            r.capacity == 0,
    {
        DeviceBuffer { ptr: 0, capacity: 0 }
    }

    /// Makes sure that the buffer holds at least `needed` bytes. It is
    /// reallocated, and the old content given up, only if its capacity is
    /// exceeded.
    pub fn ensure(&mut self, needed: usize) -> (r: EnsureAction)
        requires
            old(self).wf(),
        ensures
            final(self).wf(),
            needed <= old(self).capacity ==> r == EnsureAction::Ready && *final(self) == *old(self),
            needed > old(self).capacity ==> {
                &&& r == (EnsureAction::Allocate {
                    free: if old(self).ptr == 0 {
                        None
                    } else {
                        Some(old(self).ptr)
                    },
                    bytes: needed,
                })
                &&& final(self).ptr == 0
                &&& final(self).capacity == 0
            },
    {
        if needed <= self.capacity {
            return EnsureAction::Ready;
        }
        let free: Option<usize> = if self.ptr == 0 {
            None
        } else {
            Some(self.ptr)
        };
        self.ptr = 0;
        self.capacity = 0;
        EnsureAction::Allocate { free, bytes: needed }
    }

    /// Takes over the allocation that `ensure` asked for.
    pub fn allocated(&mut self, needed: usize, rc: i32, ptr: usize) -> (r: Result<(), MemoryError>)
        requires
            old(self).wf(),
        ensures
            final(self).wf(),
            r is Ok <==> rc == 0 && ptr != 0,
            r is Ok ==> final(self).ptr == ptr && final(self).capacity == needed,
            r matches Err(e) ==> *final(self) == *old(self) && e == (
            MemoryError::AllocationFailed { bytes: needed, rc }),
    {
        if rc != 0 || ptr == 0 {
            return Err(MemoryError::AllocationFailed { bytes: needed, rc });
        }
        self.ptr = ptr;
        self.capacity = needed;
        Ok(())
    }

    /// The device address, zero if nothing has been allocated yet.
    pub fn as_ptr(&self) -> (r: usize)
        ensures
            r == self.ptr,
    {
        self.ptr
    }

    /// The device address for writing.
    pub fn as_mut_ptr(&mut self) -> (r: usize)
        ensures
            r == old(self).ptr,
            *final(self) == *old(self),
    {
        self.ptr
    }

    pub fn capacity(&self) -> (r: usize)
        ensures
            r == self.capacity,
    {
        self.capacity
    }
}

/// The result of a copy from its return code.
pub fn copy_result(rc: i32) -> (r: Result<(), MemoryError>)
    ensures
        r == if rc == 0 {
            Ok::<(), MemoryError>(())
        } else {
            Err(MemoryError::CopyFailed { rc })
        },
{
    if rc != 0 {
        Err(MemoryError::CopyFailed { rc })
    } else {
        Ok(())
    }
}

/// A page-locked host buffer for large transfers from the device.
#[derive(Debug)]
pub struct PinnedHostBuffer {
    pub ptr: usize,
    pub len: usize,
}

impl PinnedHostBuffer {
    /// A buffer with bytes has memory.
    pub open spec fn wf(&self) -> bool {
        self.len != 0 ==> self.ptr != 0
    }

    /// The empty buffer, which needs no memory, or nothing if `len` bytes have
    /// to be allocated first and handed to `allocated`.
    pub fn begin_alloc(len: usize) -> (r: Option<PinnedHostBuffer>)
        ensures
            r is Some <==> len == 0,
            r matches Some(b) ==> b.wf() && b.len == 0,
    {
        if len == 0 {
            Some(PinnedHostBuffer { ptr: 0, len })
        } else {
            None
        }
    }

    /// Takes over an allocation of `len` bytes.
    pub fn allocated(len: usize, rc: i32, ptr: usize) -> (r: Result<PinnedHostBuffer, MemoryError>)
        ensures
            r is Ok <==> rc == 0 && ptr != 0,
            r matches Ok(b) ==> b.wf() && b.ptr == ptr && b.len == len,
            r matches Err(e) ==> e == (MemoryError::AllocationFailed { bytes: len, rc }),
    {
        if rc != 0 || ptr == 0 {
            return Err(MemoryError::AllocationFailed { bytes: len, rc });
        }
        Ok(PinnedHostBuffer { ptr, len })
    }

    pub fn len(&self) -> (r: usize)
        ensures
            r == self.len,
    {
        self.len
    }

    pub fn is_empty(&self) -> (r: bool)
        ensures
            r == (self.len == 0),
    {
        self.len == 0
    }

    /// The memory to free when the buffer goes: none for the empty buffer.
    pub fn owned_memory(&self) -> (r: Option<usize>)
        ensures
            r == if self.len != 0 {
                Some(self.ptr)
            } else {
                None
            },
    {
        if self.len != 0 {
            Some(self.ptr)
        } else {
            None
        }
    }
}

} // verus!
