//! The decision logic of system calls: each function takes the plain values
//! that the handler has already fetched from the calling process and decides
//! the call's outcome.

use vstd::prelude::*;

verus! {

use crate::errno;
use crate::errno::Errno;

/// The maximum length in bytes of a path.
pub const PATH_MAX: usize = 4096;

/// Copies bytes from `src` into `dst`, stopping at the end of the shorter
/// of the two. Returns the number of bytes copied.
pub fn slice_copy(src: &[u8], dst: &mut Vec<u8>) -> (r: usize)
    ensures
        r == if src@.len() < old(dst)@.len() {
            src@.len()
        } else {
            old(dst)@.len()
        },
        final(dst)@.len() == old(dst)@.len(),
        final(dst)@.subrange(0, r as int) == src@.subrange(0, r as int),
        final(dst)@.subrange(r as int, final(dst)@.len() as int) == old(dst)@.subrange(
            r as int,
            old(dst)@.len() as int,
        ),
{
    let n = if src.len() < dst.len() {
        src.len()
    } else {
        dst.len()
    };
    let mut i: usize = 0;
    while i < n
        invariant
            n <= src@.len(),
            n <= dst@.len(),
            dst@.len() == old(dst)@.len(),
            i <= n,
            forall|j: int| 0 <= j < i as int ==> dst@[j] == src@[j],
            forall|j: int| i as int <= j < dst@.len() ==> dst@[j] == old(dst)@[j],
        decreases n - i,
    {
        let b = src[i];
        dst.set(i, b);
        i = i + 1;
    }
    proof {
        assert(dst@.subrange(0, n as int) =~= src@.subrange(0, n as int));
        assert(dst@.subrange(n as int, dst@.len() as int) =~= old(dst)@.subrange(
            n as int,
            old(dst)@.len() as int,
        ));
    }
    n
}

/// Decides the outcome of the `chdir` system call. `path_len` is the length
/// of the path string, if it was readable from the process's memory;
/// `is_directory` tells whether the resolved file is a directory. Fails
/// with `EFAULT` when the path is unreadable, `ENAMETOOLONG` when the path
/// is too long, and `ENOTDIR` when the target is no directory; otherwise
/// the working directory may change and zero is returned.
pub fn chdir(path_len: Option<usize>, is_directory: bool) -> (r: Result<i32, Errno>)
    ensures
        match r {
            Ok(v) => v == 0 && (path_len matches Some(l) && l <= PATH_MAX && is_directory),
            Err(e) => {
                ||| (e == errno::EFAULT && path_len is None)
                ||| (e == errno::ENAMETOOLONG && (path_len matches Some(l) && l > PATH_MAX))
                ||| (e == errno::ENOTDIR && (path_len matches Some(l) && l <= PATH_MAX
                    && !is_directory))
            },
        },
{
    match path_len {
        Option::None => Err(errno::EFAULT),
        Option::Some(len) => {
            if len > PATH_MAX {
                return Err(errno::ENAMETOOLONG);
            }
            if !is_directory {
                return Err(errno::ENOTDIR);
            }
            Ok(0)
        },
    }
}

/// Decides the outcome of the `readlink` system call and performs its copy
/// step. `path_readable` tells whether the pathname string could be read
/// from the process's memory; `link_target` holds the resolved file's
/// target when the file is a symbolic link. Fails with `EFAULT` when the
/// pathname is unreadable and `EINVAL` when the file is no symbolic link;
/// otherwise the target is copied into the user buffer, truncated to the
/// buffer's size, and the number of bytes placed there is returned.
pub fn readlink(
    path_readable: bool,
    link_target: Option<&Vec<u8>>,
    buf: &mut Vec<u8>,
    bufsiz: usize,
) -> (r: Result<i32, Errno>)
    requires
        old(buf)@.len() == bufsiz,
        bufsiz <= i32::MAX,
    ensures
        final(buf)@.len() == bufsiz,
        match r {
            Ok(n) => {
                let target = link_target.unwrap()@;
                let m = if target.len() < bufsiz {
                    target.len() as int
                } else {
                    bufsiz as int
                };
                &&& path_readable
                &&& link_target is Some
                &&& n == m
                &&& final(buf)@.subrange(0, m) == target.subrange(0, m)
            },
            Err(e) => {
                &&& final(buf)@ == old(buf)@
                &&& {
                    ||| (e == errno::EFAULT && !path_readable)
                    ||| (e == errno::EINVAL && path_readable && link_target is None)
                }
            },
        },
{
    if !path_readable {
        return Err(errno::EFAULT);
    }
    match link_target {
        Option::None => Err(errno::EINVAL),
        Option::Some(target) => {
            let n = slice_copy(target.as_slice(), buf);
            Ok(n as i32)
        },
    }
}

/// Decides the outcome of the `statfs64` system call's own checks: the
/// pathname string and the user statistics buffer must both be accessible
/// in the process's memory; every other failure comes from the filesystem
/// resolution and is propagated by the handler. On success the handler
/// writes the mounted filesystem's statistics to the buffer and zero is
/// returned.
pub fn statfs64(path_readable: bool, buf_writable: bool) -> (r: Result<i32, Errno>)
    ensures
        match r {
            Ok(v) => v == 0 && path_readable && buf_writable,
            Err(e) => e == errno::EFAULT && (!path_readable || !buf_writable),
        },
{
    if !path_readable {
        return Err(errno::EFAULT);
    }
    if !buf_writable {
        return Err(errno::EFAULT);
    }
    Ok(0)
}

/// Decides the outcome of the `unlink` system call's own check: the
/// pathname string must be readable from the process's memory; resolution
/// and removal failures come from the filesystem and are propagated by the
/// handler. On success the link is removed and zero is returned.
pub fn unlink(path_readable: bool) -> (r: Result<i32, Errno>)
    ensures
        match r {
            Ok(v) => v == 0 && path_readable,
            Err(e) => e == errno::EFAULT && !path_readable,
        },
{
    if !path_readable {
        return Err(errno::EFAULT);
    }
    Ok(0)
}

/// Decides the outcome of the `pipe` system call's own check: the file
/// descriptor pair must be writable in the process's memory; the handler
/// then creates the two ends, places their descriptors there, and zero is
/// returned.
pub fn pipe(pipefd_writable: bool) -> (r: Result<i32, Errno>)
    ensures
        match r {
            Ok(v) => v == 0 && pipefd_writable,
            Err(e) => e == errno::EFAULT && !pipefd_writable,
        },
{
    if !pipefd_writable {
        return Err(errno::EFAULT);
    }
    Ok(0)
}

} // verus!
