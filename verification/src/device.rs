//! Devices and the device registry. A device file is an interface with a
//! device of the system, which can be internal or external, or even
//! virtual such as a TTY.

use vstd::prelude::*;

verus! {

use crate::errno::Errno;

/// Type representing a file's mode.
pub type Mode = u32;

/// Enumeration representing the type of a device.
#[derive(Copy, Clone, Debug, Eq, PartialEq, Structural)]
pub enum DeviceType {
    /// A block device.
    Block,
    /// A char device.
    Char,
}

/// Trait providing an interface for device I/O, implemented by drivers.
pub trait DeviceHandle {
    /// Reads data from the device at `offset` and writes it to the buffer
    /// `buff`, returning the number of bytes read.
    fn read(&mut self, offset: usize, buff: &mut Vec<u8>) -> Result<usize, Errno>;

    /// Writes data to the device at `offset`, reading it from the buffer
    /// `buff`, returning the number of bytes written.
    fn write(&mut self, offset: usize, buff: &Vec<u8>) -> Result<usize, Errno>;
}

/// The device number made of a major and a minor number, with the bit
/// layout used by Unix systems.
pub open spec fn spec_makedev(major: u32, minor: u32) -> u64 {
    ((minor as u64) & 0xff) | (((major as u64) & 0xfff) << 8) | (((minor as u64) & 0xffffff00)
        << 12) | (((major as u64) & 0xfffff000) << 32)
}

/// Builds a device number out of a major and a minor number.
pub fn makedev(major: u32, minor: u32) -> (r: u64)
    ensures
        r == spec_makedev(major, minor),
{
    ((minor as u64) & 0xff) | (((major as u64) & 0xfff) << 8) | (((minor as u64) & 0xffffff00)
        << 12) | (((major as u64) & 0xfffff000) << 32)
}

/// A device, either a block device or a char device. Each device has a
/// major and a minor number, and an object handling its I/O.
pub struct Device<H: DeviceHandle> {
    /// The major number.
    major: u32,
    /// The minor number.
    minor: u32,
    /// The path to the device file.
    path: Vec<u8>,
    /// The file's mode.
    mode: Mode,
    /// The type of the device.
    type_: DeviceType,
    /// The object handling the device I/O.
    handle: H,
}

impl<H: DeviceHandle> Device<H> {
    /// Creates a new instance. `major` and `minor` are the major and minor
    /// numbers of the device, `type_` is the type of the device and
    /// `handle` is the handle for I/O operations.
    pub fn new(major: u32, minor: u32, path: Vec<u8>, mode: Mode, type_: DeviceType, handle: H)
        -> (r: Result<Device<H>, Errno>)
        ensures
            r matches Ok(d) && d.spec_major() == major && d.spec_minor() == minor
                && d.spec_path() == path@ && d.spec_mode() == mode && d.spec_type() == type_,
    {
        Ok(Device { major, minor, path, mode, type_, handle })
    }

    /// The major number, as seen by contracts.
    pub closed spec fn spec_major(self) -> u32 {
        self.major
    }

    /// The minor number, as seen by contracts.
    pub closed spec fn spec_minor(self) -> u32 {
        self.minor
    }

    /// The path, as seen by contracts.
    pub closed spec fn spec_path(self) -> Seq<u8> {
        self.path@
    }

    /// The mode, as seen by contracts.
    pub closed spec fn spec_mode(self) -> Mode {
        self.mode
    }

    /// The device type, as seen by contracts.
    pub closed spec fn spec_type(self) -> DeviceType {
        self.type_
    }

    /// Returns the major number.
    pub fn get_major(&self) -> (r: u32)
        ensures
            r == self.spec_major(),
    {
        self.major
    }

    /// Returns the minor number.
    pub fn get_minor(&self) -> (r: u32)
        ensures
            r == self.spec_minor(),
    {
        self.minor
    }

    /// Returns the path to the device file.
    pub fn get_path(&self) -> (r: &Vec<u8>)
        ensures
            r@ == self.spec_path(),
    {
        &self.path
    }

    /// Returns the device file's mode.
    pub fn get_mode(&self) -> (r: Mode)
        ensures
            r == self.spec_mode(),
    {
        self.mode
    }

    /// Returns the type of the device.
    pub fn get_type(&self) -> (r: DeviceType)
        ensures
            r == self.spec_type(),
    {
        self.type_
    }

    /// Returns the device number.
    pub fn get_device_number(&self) -> (r: u64)
        ensures
            r == spec_makedev(self.spec_major(), self.spec_minor()),
    {
        makedev(self.major, self.minor)
    }

    /// Returns the handle of the device for I/O operations.
    pub fn get_handle(&mut self) -> &mut H {
        &mut self.handle
    }
}

/// The registry is sorted by device number.
pub open spec fn devices_sorted<H: DeviceHandle>(s: Seq<Device<H>>) -> bool {
    forall|i: int, j: int|
        0 <= i < j < s.len() ==> spec_makedev(
            (#[trigger] s[i]).spec_major(),
            s[i].spec_minor(),
        ) <= spec_makedev((#[trigger] s[j]).spec_major(), s[j].spec_minor())
}

/// Registers the given device: inserts it into the registry of its kind,
/// keeping the registry sorted by device number.
pub fn register_device<H: DeviceHandle>(container: &mut Vec<Device<H>>, device: Device<H>)
    -> (r: Result<(), ()>)
    requires
        devices_sorted(old(container)@),
        old(container)@.len() < usize::MAX,
    ensures
        r is Ok,
        devices_sorted(final(container)@),
        final(container)@.len() == old(container)@.len() + 1,
        exists|i: int|
            0 <= i <= old(container)@.len() && final(container)@ == #[trigger] old(
                container,
            )@.insert(i, device),
{
    let device_number = device.get_device_number();
    let mut index: usize = 0;
    let mut stop = false;
    let n = container.len();
    while index < n && !stop
        invariant
            n == container@.len(),
            index <= n,
            *container == *old(container),
            devices_sorted(container@),
            device_number == spec_makedev(device.spec_major(), device.spec_minor()),
            forall|j: int|
                0 <= j < index as int ==> spec_makedev(
                    (#[trigger] container@[j]).spec_major(),
                    container@[j].spec_minor(),
                ) < spec_makedev(device.spec_major(), device.spec_minor()),
            stop ==> index < n && spec_makedev(
                container@[index as int].spec_major(),
                container@[index as int].spec_minor(),
            ) >= spec_makedev(device.spec_major(), device.spec_minor()),
        decreases n - index + (if stop { 0int } else { 1int }),
    {
        let dn = container[index].get_device_number();
        if device_number <= dn {
            stop = true;
        } else {
            index = index + 1;
        }
    }
    container.insert(index, device);
    proof {
        let s = container@;
        let d0 = old(container)@;
        assert forall|i: int, j: int| 0 <= i < j < s.len() implies spec_makedev(
            (#[trigger] s[i]).spec_major(),
            s[i].spec_minor(),
        ) <= spec_makedev((#[trigger] s[j]).spec_major(), s[j].spec_minor()) by {
            if j == index as int {
                assert(i < index as int);
                assert(s[i] == d0[i]);
            } else if i == index as int {
                assert(s[j] == d0[j - 1]);
                assert(j - 1 >= index as int);
            } else if i < index as int && j > index as int {
                assert(s[i] == d0[i]);
                assert(s[j] == d0[j - 1]);
            } else if j < index as int {
                assert(s[i] == d0[i]);
                assert(s[j] == d0[j]);
            } else {
                assert(s[i] == d0[i - 1]);
                assert(s[j] == d0[j - 1]);
            }
        }
        assert(container@ == old(container)@.insert(index as int, device));
    }
    Ok(())
}

} // verus!
