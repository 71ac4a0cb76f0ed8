use vstd::prelude::*;

verus! {

/// The error numbers that the System V semaphore operations report.
#[allow(non_camel_case_types)]
#[derive(Debug, Clone, Copy, PartialEq, Eq, Structural)]
pub enum Errno {
    /// Operation would block (`EAGAIN`).
    EAGAIN,
    /// Bad address (`EFAULT`).
    EFAULT,
    /// Object already exists (`EEXIST`).
    EEXIST,
    /// Invalid argument (`EINVAL`).
    EINVAL,
    /// No such object (`ENOENT`).
    ENOENT,
    /// No identifier left (`ENOSPC`).
    ENOSPC,
    /// Argument list too long (`E2BIG`).
    E2BIG,
    /// Value too large (`EFBIG`).
    EFBIG,
    /// Result out of range (`ERANGE`).
    ERANGE,
}

impl Errno {
    /// The Linux number of this error.
    pub open spec fn spec_code(self) -> i32 {
        match self {
            Errno::EAGAIN => 11,
            Errno::EFAULT => 14,
            Errno::EEXIST => 17,
            Errno::EINVAL => 22,
            Errno::ENOENT => 2,
            Errno::ENOSPC => 28,
            Errno::E2BIG => 7,
            Errno::EFBIG => 27,
            Errno::ERANGE => 34,
        }
    }

    /// The Linux number of this error, as a system call reports it negated.
    pub fn code(&self) -> (r: i32)
        ensures
            r == self.spec_code(),
    {
        match self {
            Errno::EAGAIN => 11,
            Errno::EFAULT => 14,
            Errno::EEXIST => 17,
            Errno::EINVAL => 22,
            Errno::ENOENT => 2,
            Errno::ENOSPC => 28,
            Errno::E2BIG => 7,
            Errno::EFBIG => 27,
            Errno::ERANGE => 34,
        }
    }
}

} // verus!
