//! Tests of the kernel services around the allocator: pipes, sockets,
//! devices, partitions, routing, the procfs and the syscall decisions.

use maestro::byteorder::{read_u16_le, read_u32_le};
use maestro::device::{makedev, register_device, Device, DeviceHandle, DeviceType};
use maestro::errno;
use maestro::mbr::MBRTable;
use maestro::net::{addr_eq, get_iface_for, Address, BindAddress, BuffList, Route};
use maestro::pipe::{PipeBuffer, FIONREAD, PIPE_BUF, POLLIN, POLLOUT, POLLPRI};
use maestro::procfs::{FileType, MemInfo, ProcFS, ProcFsType};
use maestro::rsdt::{AcpiTableHeader, Rsdt};
use maestro::socket::Socket;
use maestro::syscall;

#[test]
fn socket_keeps_its_parameters() {
    let s = Socket::new(2, 1, 6);
    assert_eq!(s.get_domain(), 2);
    assert_eq!(s.get_type(), 1);
    assert_eq!(s.get_protocol(), 6);
    let d = Socket::failable_default().unwrap();
    assert_eq!(d.get_domain(), 0);
    assert_eq!(d.get_type(), 0);
    assert_eq!(d.get_protocol(), 0);
}

#[test]
fn pipe_write_then_read_is_fifo() {
    let mut p = PipeBuffer::try_default().unwrap();
    p.increment_open(true, true);
    assert_eq!(p.get_data_len(), 0);
    assert_eq!(p.get_available_len(), PIPE_BUF);
    let written = p.write(&vec![1, 2, 3, 4, 5]).unwrap();
    assert_eq!(written, 5);
    assert_eq!(p.get_data_len(), 5);
    assert_eq!(p.get_size(), 5);
    let mut buf = vec![0u8; 3];
    let (n, eof) = p.read(&mut buf);
    assert_eq!(n, 3);
    assert!(!eof);
    assert_eq!(buf, vec![1, 2, 3]);
    let mut rest = vec![0u8; 8];
    let (n2, eof2) = p.read(&mut rest);
    assert_eq!(n2, 2);
    assert!(!eof2);
    assert_eq!(&rest[..2], &[4, 5]);
}

#[test]
fn pipe_without_reader_breaks() {
    let mut p = PipeBuffer::try_default().unwrap();
    p.increment_open(false, true);
    assert_eq!(p.write(&vec![1]), Err(errno::EPIPE));
    p.increment_open(true, false);
    assert_eq!(p.write(&vec![1]).unwrap(), 1);
    p.decrement_open(false, true);
    let mut buf = vec![0u8; 4];
    let (n, eof) = p.read(&mut buf);
    assert_eq!(n, 1);
    assert!(eof);
}

#[test]
fn pipe_poll_and_ioctl() {
    let mut p = PipeBuffer::try_default().unwrap();
    assert_eq!(p.poll(POLLIN | POLLOUT | POLLPRI).unwrap(), POLLOUT | POLLPRI);
    p.increment_open(true, true);
    p.write(&vec![9]).unwrap();
    assert_eq!(p.poll(POLLIN | POLLOUT).unwrap(), POLLIN | POLLOUT);
    assert_eq!(p.poll(0).unwrap(), 0);
    assert_eq!(p.ioctl(FIONREAD).unwrap(), PIPE_BUF - 1);
    assert_eq!(p.ioctl(0x1234), Err(errno::ENOTTY));
}

struct NullHandle;

impl DeviceHandle for NullHandle {
    fn read(&mut self, _offset: usize, _buff: &mut Vec<u8>) -> Result<usize, i32> {
        Ok(0)
    }

    fn write(&mut self, _offset: usize, buff: &Vec<u8>) -> Result<usize, i32> {
        Ok(buff.len())
    }
}

#[test]
fn device_numbers_and_registry_order() {
    assert_eq!(makedev(8, 1), 0x801);
    assert_eq!(makedev(0, 0), 0);
    let d1 = Device::new(8, 1, b"/dev/sda1".to_vec(), 0o600, DeviceType::Block, NullHandle)
        .unwrap();
    let d2 = Device::new(1, 3, b"/dev/null".to_vec(), 0o666, DeviceType::Char, NullHandle)
        .unwrap();
    let d3 = Device::new(8, 0, b"/dev/sda".to_vec(), 0o600, DeviceType::Block, NullHandle)
        .unwrap();
    assert_eq!(d1.get_major(), 8);
    assert_eq!(d1.get_minor(), 1);
    assert_eq!(d1.get_mode(), 0o600);
    assert_eq!(d1.get_type(), DeviceType::Block);
    assert_eq!(d1.get_device_number(), 0x801);
    assert_eq!(d1.get_path().as_slice(), b"/dev/sda1");
    let mut registry = Vec::new();
    register_device(&mut registry, d1).unwrap();
    register_device(&mut registry, d2).unwrap();
    register_device(&mut registry, d3).unwrap();
    let numbers: Vec<u64> = registry.iter().map(|d| makedev(d.get_major(), d.get_minor()))
        .collect();
    assert_eq!(numbers, vec![makedev(1, 3), makedev(8, 0), makedev(8, 1)]);
    let mut first = registry.remove(0);
    assert_eq!(first.get_handle().write(0, &vec![1, 2]).unwrap(), 2);
}

#[test]
fn mbr_parses_active_partitions() {
    let mut sector = vec![0u8; 512];
    sector[510] = 0xaa;
    sector[511] = 0x55;
    // First entry: active, starting at sector 100, 50 sectors long.
    sector[446] = 0x80;
    sector[446 + 8] = 100;
    sector[446 + 12] = 50;
    // Third entry: inactive.
    sector[446 + 32] = 0x00;
    sector[446 + 32 + 8] = 7;
    let table = MBRTable::read(&sector).expect("valid signature");
    assert_eq!(table.signature, 0x55aa);
    let parts = table.get_partitions();
    assert_eq!(parts.len(), 1);
    assert_eq!(parts[0].start, 100);
    assert_eq!(parts[0].size, 50);
}

#[test]
fn mbr_rejects_bad_signature() {
    let sector = vec![0u8; 512];
    assert!(MBRTable::read(&sector).is_none());
}

#[test]
fn bind_address_prefix_matching() {
    // A /24 network keeps the first three bytes of an IPv4 address.
    let bind = BindAddress { addr: Address::IPv4([10, 20, 30, 40]), subnet_mask: 24 };
    assert!(bind.is_matching(&Address::IPv4([10, 20, 30, 41])));
    assert!(!bind.is_matching(&Address::IPv4([99, 20, 30, 40])));
    assert!(!bind.is_matching(&Address::IPv4([10, 20, 31, 40])));
    assert!(!bind.is_matching(&Address::IPv6([0; 16])));
    // A prefix may end inside a byte: /20 keeps two bytes plus the top
    // four bits of the third.
    let mid = BindAddress { addr: Address::IPv4([10, 20, 0x3f, 1]), subnet_mask: 20 };
    assert!(mid.is_matching(&Address::IPv4([10, 20, 0x30, 200])));
    assert!(!mid.is_matching(&Address::IPv4([10, 20, 0x40, 1])));
    // A zero mask keeps no bit, so everything matches; a full mask keeps
    // them all.
    let all = BindAddress { addr: Address::IPv4([1, 2, 3, 4]), subnet_mask: 0 };
    assert!(all.is_matching(&Address::IPv4([9, 9, 9, 9])));
    let exact = BindAddress { addr: Address::IPv4([1, 2, 3, 4]), subnet_mask: 32 };
    assert!(exact.is_matching(&Address::IPv4([1, 2, 3, 4])));
    assert!(!exact.is_matching(&Address::IPv4([1, 2, 3, 5])));
    let v6 = BindAddress { addr: Address::IPv6([7; 16]), subnet_mask: 128 };
    assert!(v6.is_matching(&Address::IPv6([7; 16])));
    assert!(!v6.is_matching(&Address::IPv6([8; 16])));
}

#[test]
fn route_selection_prefers_gateway_then_lowest_metric() {
    let target = Address::IPv4([10, 0, 0, 7]);
    let routes = vec![
        Route::new(None, b"eth0".to_vec(), Address::IPv4([10, 0, 0, 1]), 5),
        Route::new(None, b"eth1".to_vec(), Address::IPv4([10, 0, 0, 7]), 9),
        Route::new(None, b"eth2".to_vec(), Address::IPv4([10, 0, 0, 2]), 2),
    ];
    assert!(routes[1].is_matching(&target));
    // A gateway match beats everything, even a worse metric.
    let best = get_iface_for(&routes, &target).expect("default routes always match");
    assert_eq!(best, 1);
    assert_eq!(routes[best].get_iface().as_slice(), b"eth1");
    // Among equally matching routes, the lowest metric has priority.
    let no_gw = Address::IPv4([192, 168, 9, 9]);
    let best2 = get_iface_for(&routes, &no_gw).expect("default routes always match");
    assert_eq!(best2, 2);
    assert!(addr_eq(&target, &Address::IPv4([10, 0, 0, 7])));
    assert!(!addr_eq(&target, &no_gw));
}

#[test]
fn buff_list_collects_in_order() {
    let mut list = BuffList::from(vec![3, 4, 5]);
    assert_eq!(list.len(), 3);
    list.push_front(vec![1, 2]);
    assert_eq!(list.len(), 5);
    assert_eq!(list.collect(), vec![1, 2, 3, 4, 5]);
}

#[test]
fn chdir_decisions() {
    assert_eq!(syscall::chdir(None, true), Err(errno::EFAULT));
    assert_eq!(syscall::chdir(Some(5000), true), Err(errno::ENAMETOOLONG));
    assert_eq!(syscall::chdir(Some(10), false), Err(errno::ENOTDIR));
    assert_eq!(syscall::chdir(Some(10), true), Ok(0));
}

#[test]
fn readlink_truncates_to_the_buffer() {
    let target = b"/etc/passwd".to_vec();
    let mut buf = vec![0u8; 4];
    let r = syscall::readlink(true, Some(&target), &mut buf, 4).unwrap();
    assert_eq!(r, 4);
    assert_eq!(buf, b"/etc".to_vec());
    let mut big = vec![0u8; 32];
    let r2 = syscall::readlink(true, Some(&target), &mut big, 32).unwrap();
    assert_eq!(r2, 11);
    assert_eq!(&big[..11], b"/etc/passwd");
}

#[test]
fn readlink_error_decisions() {
    let target = b"/tmp/x".to_vec();
    let mut buf = vec![0u8; 8];
    assert_eq!(syscall::readlink(false, Some(&target), &mut buf, 8), Err(errno::EFAULT));
    assert_eq!(syscall::readlink(true, None, &mut buf, 8), Err(errno::EINVAL));
}

#[test]
fn pointer_check_decisions() {
    assert_eq!(syscall::statfs64(true, true), Ok(0));
    assert_eq!(syscall::statfs64(false, true), Err(errno::EFAULT));
    assert_eq!(syscall::statfs64(true, false), Err(errno::EFAULT));
    assert_eq!(syscall::unlink(true), Ok(0));
    assert_eq!(syscall::unlink(false), Err(errno::EFAULT));
    assert_eq!(syscall::pipe(true), Ok(0));
    assert_eq!(syscall::pipe(false), Err(errno::EFAULT));
}

#[test]
fn procfs_tracks_processes() {
    let mut fs = ProcFS::new(true).unwrap();
    assert!(fs.is_readonly());
    assert!(!fs.must_cache());
    assert_eq!(fs.get_name(), b"procfs".to_vec());
    assert_eq!(fs.get_process(42), None);
    fs.add_process(42).unwrap();
    fs.add_process(43).unwrap();
    let i42 = fs.get_process(42).unwrap();
    let i43 = fs.get_process(43).unwrap();
    assert_ne!(i42, i43);
    fs.remove_process(42).unwrap();
    assert_eq!(fs.get_process(42), None);
    assert_eq!(fs.get_process(43), Some(i43));
    // Removing an unknown process does nothing.
    fs.remove_process(7).unwrap();
    assert_eq!(fs.get_process(43), Some(i43));
}

#[test]
fn procfs_static_root_entries() {
    let fs = ProcFS::new(false).unwrap();
    let entries = fs.get_static_entries();
    let expected: [(&[u8], u64, FileType); 6] = [
        (b"meminfo", 1, FileType::Regular),
        (b"mounts", 2, FileType::Link),
        (b"self", 3, FileType::Link),
        (b"sys", 4, FileType::Directory),
        (b"uptime", 5, FileType::Regular),
        (b"version", 6, FileType::Regular),
    ];
    assert_eq!(entries.len(), 6);
    for (entry, (name, inode, kind)) in entries.iter().zip(expected.iter()) {
        assert_eq!(entry.0.as_slice(), *name);
        assert_eq!(entry.1.inode, *inode);
        assert_eq!(entry.1.entry_type, *kind);
    }
}

#[test]
fn procfs_type_and_meminfo() {
    let t = ProcFsType {};
    assert_eq!(t.get_name(), b"procfs".to_vec());
    assert!(!t.detect());
    let node = MemInfo {};
    assert_eq!(node.get_mode(), 0o444);
    assert_eq!(node.write(), Err(errno::EINVAL));
    let content = b"MemTotal: 1024 kB\n".to_vec();
    let mut buf = vec![0u8; 8];
    let (n, eof) = node.read(&content, 0, &mut buf).unwrap();
    assert_eq!(n, 8);
    assert!(!eof);
    assert_eq!(&buf[..], b"MemTotal");
    let (n2, eof2) = node.read(&content, 10, &mut buf).unwrap();
    assert_eq!(n2, 8);
    assert!(eof2);
    let mut empty = Vec::new();
    assert_eq!(node.read(&content, 0, &mut empty).unwrap(), (0, false));
}

#[test]
fn rsdt_counts_entries() {
    let rsdt = Rsdt { header: AcpiTableHeader { length: 36 + 4 * 5 } };
    assert_eq!(rsdt.entries_count(), 5);
    assert_eq!(Rsdt::get_expected_signature(), *b"RSDT");
}

#[test]
fn little_endian_readers() {
    let bytes = [0x78u8, 0x56, 0x34, 0x12];
    assert_eq!(read_u16_le(&bytes, 0), 0x5678);
    assert_eq!(read_u16_le(&bytes, 2), 0x1234);
    assert_eq!(read_u32_le(&bytes, 0), 0x12345678);
}
