//! Unix error numbers returned by kernel services.

use vstd::prelude::*;

verus! {

/// Type representing an error number.
pub type Errno = i32;

/// No such file or directory.
pub const ENOENT: Errno = 2;

/// Out of memory.
pub const ENOMEM: Errno = 12;

/// Permission denied.
pub const EACCES: Errno = 13;

/// Bad address.
pub const EFAULT: Errno = 14;

/// Not a directory.
pub const ENOTDIR: Errno = 20;

/// Invalid argument.
pub const EINVAL: Errno = 22;

/// Inappropriate ioctl for device.
pub const ENOTTY: Errno = 25;

/// Broken pipe.
pub const EPIPE: Errno = 32;

/// File name too long.
pub const ENAMETOOLONG: Errno = 36;

} // verus!
