//! The procfs: a virtual filesystem which provides information about
//! processes. Each registered process owns a directory under the
//! filesystem's root, next to a handful of static entries.

use vstd::prelude::*;

verus! {

use crate::errno;
use crate::errno::Errno;
use crate::hashmap::HashMap;
use crate::device::Mode;

/// Type representing a process identifier.
pub type Pid = u16;

/// Type representing an inode number.
pub type INode = u64;

/// The type of a directory entry.
#[derive(Copy, Clone, Debug, Eq, PartialEq, Structural)]
pub enum FileType {
    /// A regular file.
    Regular,
    /// A directory.
    Directory,
    /// A symbolic link.
    Link,
}

/// An entry of a directory.
#[derive(Copy, Clone, Debug, Eq, PartialEq, Structural)]
pub struct DirEntry {
    /// The entry's inode.
    pub inode: INode,
    /// The type of the entry's target.
    pub entry_type: FileType,
}

/// The number of static entries at the root of the filesystem: `meminfo`,
/// `mounts`, `self`, `sys`, `uptime` and `version`.
pub const STATIC_ENTRIES_COUNT: u64 = 6;

/// The six static entries of the filesystem's root, in creation order:
/// `meminfo` (regular), `mounts` (link), `self` (link), `sys` (directory),
/// `uptime` (regular) and `version` (regular), their nodes taking the
/// first inode numbers after the root's.
pub open spec fn spec_static_root_entries() -> Seq<(Seq<u8>, DirEntry)> {
    seq![
        (
            seq![109u8, 101u8, 109u8, 105u8, 110u8, 102u8, 111u8],
            DirEntry { inode: 1, entry_type: FileType::Regular },
        ),
        (
            seq![109u8, 111u8, 117u8, 110u8, 116u8, 115u8],
            DirEntry { inode: 2, entry_type: FileType::Link },
        ),
        (
            seq![115u8, 101u8, 108u8, 102u8],
            DirEntry { inode: 3, entry_type: FileType::Link },
        ),
        (
            seq![115u8, 121u8, 115u8],
            DirEntry { inode: 4, entry_type: FileType::Directory },
        ),
        (
            seq![117u8, 112u8, 116u8, 105u8, 109u8, 101u8],
            DirEntry { inode: 5, entry_type: FileType::Regular },
        ),
        (
            seq![118u8, 101u8, 114u8, 115u8, 105u8, 111u8, 110u8],
            DirEntry { inode: 6, entry_type: FileType::Regular },
        ),
    ]
}

/// Copies a byte string into a vector.
fn vec_from(bytes: &[u8]) -> (r: Vec<u8>)
    ensures
        r@ == bytes@,
{
    let n = bytes.len();
    let mut r: Vec<u8> = Vec::new();
    let mut i: usize = 0;
    while i < n
        invariant
            n == bytes@.len(),
            i <= n,
            r@ == bytes@.subrange(0, i as int),
        decreases n - i,
    {
        let b = bytes[i];
        r.push(b);
        proof {
            assert(bytes@.subrange(0, i as int + 1) =~= bytes@.subrange(0, i as int).push(b));
        }
        i = i + 1;
    }
    proof {
        assert(bytes@.subrange(0, n as int) =~= bytes@);
    }
    r
}

/// Builds the root's static entries.
fn static_root_entries() -> (r: Vec<(Vec<u8>, DirEntry)>)
    ensures
        r@.len() == spec_static_root_entries().len(),
        forall|i: int|
            0 <= i < r@.len() ==> (#[trigger] r@[i]).0@ == spec_static_root_entries()[i].0
                && r@[i].1 == spec_static_root_entries()[i].1,
{
    let mut r: Vec<(Vec<u8>, DirEntry)> = Vec::new();
    let meminfo: [u8; 7] = [109, 101, 109, 105, 110, 102, 111];
    r.push((vec_from(meminfo.as_slice()), DirEntry { inode: 1, entry_type: FileType::Regular }));
    let mounts: [u8; 6] = [109, 111, 117, 110, 116, 115];
    r.push((vec_from(mounts.as_slice()), DirEntry { inode: 2, entry_type: FileType::Link }));
    let self_name: [u8; 4] = [115, 101, 108, 102];
    r.push((vec_from(self_name.as_slice()), DirEntry { inode: 3, entry_type: FileType::Link }));
    let sys: [u8; 3] = [115, 121, 115];
    r.push((vec_from(sys.as_slice()), DirEntry { inode: 4, entry_type: FileType::Directory }));
    let uptime: [u8; 6] = [117, 112, 116, 105, 109, 101];
    r.push((vec_from(uptime.as_slice()), DirEntry { inode: 5, entry_type: FileType::Regular }));
    let version: [u8; 7] = [118, 101, 114, 115, 105, 111, 110];
    r.push((vec_from(version.as_slice()), DirEntry { inode: 6, entry_type: FileType::Regular }));
    proof {
        assert(meminfo@ =~= spec_static_root_entries()[0].0);
        assert(mounts@ =~= spec_static_root_entries()[1].0);
        assert(self_name@ =~= spec_static_root_entries()[2].0);
        assert(sys@ =~= spec_static_root_entries()[3].0);
        assert(uptime@ =~= spec_static_root_entries()[4].0);
        assert(version@ =~= spec_static_root_entries()[5].0);
    }
    r
}

/// The procfs. Process directories are tracked by the processes' pids;
/// inode numbers are handed out sequentially and never reused.
pub struct ProcFS {
    /// Whether the filesystem is read-only.
    readonly: bool,
    /// The next inode number to hand out.
    next_inode: INode,
    /// The static entries at the root of the filesystem.
    static_entries: Vec<(Vec<u8>, DirEntry)>,
    /// The registered processes, each with its directory's inode.
    procs: HashMap<Pid, INode>,
    /// The process entries at the root of the filesystem, keyed by pid.
    proc_entries: HashMap<Pid, DirEntry>,
}

impl ProcFS {
    /// The registered processes, as seen by contracts.
    pub closed spec fn spec_procs(self) -> Map<Pid, INode> {
        self.procs@
    }

    /// The root's process entries, as seen by contracts.
    pub closed spec fn spec_proc_entries(self) -> Map<Pid, DirEntry> {
        self.proc_entries@
    }

    /// Whether the filesystem is read-only, as seen by contracts.
    pub closed spec fn spec_readonly(self) -> bool {
        self.readonly
    }

    /// The next inode to be handed out, as seen by contracts.
    pub closed spec fn spec_next_inode(self) -> INode {
        self.next_inode
    }

    /// The static entries of the root, as seen by contracts.
    pub closed spec fn spec_static_entries(self) -> Seq<(Seq<u8>, DirEntry)> {
        self.static_entries@.map_values(|e: (Vec<u8>, DirEntry)| (e.0@, e.1))
    }

    /// The process registry and the root's process entries track each
    /// other exactly, and every tracked inode was handed out already.
    pub closed spec fn wf(self) -> bool {
        &&& self.procs.wf()
        &&& self.proc_entries.wf()
        &&& self.spec_static_entries() == spec_static_root_entries()
        &&& self.next_inode >= STATIC_ENTRIES_COUNT + 1
        &&& forall|pid: Pid| #[trigger] self.procs@.contains_key(pid)
            <==> #[trigger] self.proc_entries@.contains_key(pid)
        &&& forall|pid: Pid| #[trigger] self.procs@.contains_key(pid)
            ==> self.proc_entries@[pid] == (DirEntry {
                inode: self.procs@[pid],
                entry_type: FileType::Directory,
            }) && self.procs@[pid] < self.next_inode
    }

    /// Creates a new instance, with the static root entries in place and
    /// no process registered. `readonly` tells whether the filesystem is
    /// read-only.
    pub fn new(readonly: bool) -> (r: Result<ProcFS, Errno>)
        ensures
            r matches Ok(fs) && fs.wf() && fs.spec_readonly() == readonly && fs.spec_procs()
                == Map::<Pid, INode>::empty() && fs.spec_proc_entries() == Map::<
                Pid,
                DirEntry,
            >::empty() && fs.spec_static_entries() == spec_static_root_entries(),
    {
        let fs = ProcFS {
            readonly,
            // The root directory and the six static entries consume the
            // first inode numbers.
            next_inode: STATIC_ENTRIES_COUNT + 1,
            static_entries: static_root_entries(),
            procs: HashMap::new(),
            proc_entries: HashMap::new(),
        };
        proof {
            assert(fs.spec_static_entries() =~= spec_static_root_entries());
        }
        Ok(fs)
    }

    /// Returns the static entries at the root of the filesystem, each a
    /// name with its directory entry.
    pub fn get_static_entries(&self) -> (r: &Vec<(Vec<u8>, DirEntry)>)
        requires
            self.wf(),
        ensures
            r@.map_values(|e: (Vec<u8>, DirEntry)| (e.0@, e.1)) == spec_static_root_entries(),
    {
        &self.static_entries
    }

    /// Adds a process with the given pid to the filesystem: its directory
    /// gets a fresh inode, registered under the pid and linked from the
    /// root.
    pub fn add_process(&mut self, pid: Pid) -> (r: Result<(), Errno>)
        requires
            old(self).wf(),
            old(self).spec_next_inode() < u64::MAX,
            old(self).spec_procs().dom().len() < usize::MAX,
        ensures
            r is Ok,
            final(self).wf(),
            final(self).spec_readonly() == old(self).spec_readonly(),
            final(self).spec_procs() == old(self).spec_procs().insert(
                pid,
                old(self).spec_next_inode(),
            ),
            final(self).spec_proc_entries() == old(self).spec_proc_entries().insert(
                pid,
                DirEntry { inode: old(self).spec_next_inode(), entry_type: FileType::Directory },
            ),
            final(self).spec_next_inode() == old(self).spec_next_inode() + 1,
    {
        let inode = self.next_inode;
        self.next_inode = self.next_inode + 1;
        let _ = self.procs.insert(pid, inode);
        proof {
            assert(self.proc_entries@.dom() =~= old(self).spec_procs().dom());
        }
        let _ = self.proc_entries.insert(
            pid,
            DirEntry { inode, entry_type: FileType::Directory },
        );
        Ok(())
    }

    /// Removes the process with the given pid from the filesystem,
    /// dropping its registration and its root entry. If the process is not
    /// registered, the function does nothing.
    pub fn remove_process(&mut self, pid: Pid) -> (r: Result<(), Errno>)
        requires
            old(self).wf(),
        ensures
            r is Ok,
            final(self).wf(),
            final(self).spec_readonly() == old(self).spec_readonly(),
            final(self).spec_procs() == old(self).spec_procs().remove(pid),
            final(self).spec_proc_entries() == old(self).spec_proc_entries().remove(pid),
            final(self).spec_next_inode() == old(self).spec_next_inode(),
    {
        let _ = self.procs.remove(&pid);
        let _ = self.proc_entries.remove(&pid);
        Ok(())
    }

    /// Returns the inode of the directory of the process with the given
    /// pid, if the process is registered.
    pub fn get_process(&self, pid: Pid) -> (r: Option<INode>)
        requires
            self.wf(),
        ensures
            match r {
                Option::Some(inode) => self.spec_procs().contains_key(pid) && inode
                    == self.spec_procs()[pid],
                Option::None => !self.spec_procs().contains_key(pid),
            },
    {
        match self.procs.get(&pid) {
            Option::Some(inode) => Option::Some(*inode),
            Option::None => Option::None,
        }
    }

    /// Returns the name of the filesystem.
    pub fn get_name(&self) -> (r: Vec<u8>)
        ensures
            r@ == spec_procfs_name(),
    {
        procfs_name()
    }

    /// Tells whether the filesystem is read-only.
    pub fn is_readonly(&self) -> (r: bool)
        ensures
            r == self.spec_readonly(),
    {
        self.readonly
    }

    /// Tells whether the filesystem's nodes are to be cached: the contents
    /// are generated on the fly, so they are not.
    pub fn must_cache(&self) -> (r: bool)
        ensures
            !r,
    {
        false
    }
}

/// The name of the filesystem, `procfs`, as bytes.
pub open spec fn spec_procfs_name() -> Seq<u8> {
    seq![112u8, 114u8, 111u8, 99u8, 102u8, 115u8]
}

/// Builds the name of the filesystem, `procfs`, as bytes.
fn procfs_name() -> (r: Vec<u8>)
    ensures
        r@ == spec_procfs_name(),
{
    let mut r: Vec<u8> = Vec::new();
    r.push(112);
    r.push(114);
    r.push(111);
    r.push(99);
    r.push(102);
    r.push(115);
    proof {
        assert(r@ =~= spec_procfs_name());
    }
    r
}

/// The procfs filesystem type.
pub struct ProcFsType {}

impl ProcFsType {
    /// Returns the name of the filesystem type.
    pub fn get_name(&self) -> (r: Vec<u8>)
        ensures
            r@ == spec_procfs_name(),
    {
        procfs_name()
    }

    /// Tells whether the filesystem type is present on the given device:
    /// the procfs lives on no device, so detection always says no.
    pub fn detect(&self) -> (r: bool)
        ensures
            !r,
    {
        false
    }
}

/// The `meminfo` node, exposing the memory usage of the system.
pub struct MemInfo {}

impl MemInfo {
    /// Returns the node's file mode: readable by everyone, writable by
    /// nobody.
    pub fn get_mode(&self) -> (r: Mode)
        ensures
            r == 0o444,
    {
        0o444
    }

    /// Copies a window of the node's generated content into the buffer:
    /// at most the buffer's size, starting at `offset`. Returns the number
    /// of bytes copied and whether the end of the content was reached.
    pub fn read(&self, content: &Vec<u8>, offset: u64, buff: &mut Vec<u8>) -> (r: Result<
        (u64, bool),
        Errno,
    >)
        requires
            offset <= content@.len(),
            content@.len() <= usize::MAX,
        ensures
            final(buff)@.len() == old(buff)@.len(),
            match r {
                Ok(out) => {
                    let n = if content@.len() - offset < old(buff)@.len() {
                        content@.len() - offset
                    } else {
                        old(buff)@.len() as int
                    };
                    &&& old(buff)@.len() == 0 ==> out == (0u64, false) && final(buff)@ == old(
                        buff,
                    )@
                    &&& old(buff)@.len() > 0 ==> out.0 == n && final(buff)@.subrange(0, n)
                        == content@.subrange(offset as int, offset + n) && out.1 == (offset + n
                        >= content@.len())
                },
                Err(_) => false,
            },
    {
        if buff.len() == 0 {
            return Ok((0, false));
        }
        let rest = content.len() - (offset as usize);
        let n = if rest < buff.len() {
            rest
        } else {
            buff.len()
        };
        let mut i: usize = 0;
        while i < n
            invariant
                offset + n <= content@.len(),
                content@.len() <= usize::MAX,
                n <= buff@.len(),
                buff@.len() == old(buff)@.len(),
                i <= n,
                forall|j: int|
                    0 <= j < i as int ==> buff@[j] == content@[offset + j],
            decreases n - i,
        {
            proof {
                assert(offset as usize as int == offset as int);
            }
            let b = content[(offset as usize) + i];
            buff.set(i, b);
            i = i + 1;
        }
        let eof = offset as usize + n >= content.len();
        proof {
            assert(final(buff)@.subrange(0, n as int) =~= content@.subrange(
                offset as int,
                offset + n,
            ));
        }
        Ok((n as u64, eof))
    }

    /// Writing to the node is refused.
    pub fn write(&self) -> (r: Result<u64, Errno>)
        ensures
            r matches Err(e) && e == errno::EINVAL,
    {
        Err(errno::EINVAL)
    }
}

} // verus!
