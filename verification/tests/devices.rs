use kheap::address::{PhysMemoryRegion, PA, VA};
use kheap::error::KernelError;
use kheap::fat32::{Cluster, Fat32FileNode, FileAttr, InodeId};
use kheap::flush::{cache_line_stride, flush_lines};
use kheap::iov::{IoVec, VectoredStep, VectoredTransfer};
use kheap::kimage::{get_kimage_start, set_kimage_start, translate_kernel_va, KernelImage};
use kheap::probe::{
    check_interrupt_parent, first_interrupt, mmio_region, DeviceMatchType, FdtReg,
    InterruptParent, ProbeError,
};
use kheap::psci::{boot_secondary_psci, PSCIEntry, PSCIMethod, PsciCall, CPU_ON_ID};
use kheap::ramdisk::{RamdiskBlkDev, BLOCK_SIZE};
use kheap::uart::{received_byte, transmitter_can_accept, Bcm2835AuxRegBank};

#[test]
fn kernel_image_translation() {
    let mut image = KernelImage::new(VA::from_value(0xffff_8000_0000_0000));
    assert!(!image.is_set());
    assert!(!image.can_translate(VA::from_value(0xffff_8000_0000_1000)));
    set_kimage_start(&mut image, PA::from_value(0x4008_0000));
    assert!(image.is_set());
    assert_eq!(image.image_base(), VA::from_value(0xffff_8000_0000_0000));
    assert_eq!(get_kimage_start(&image), PA::from_value(0x4008_0000));
    let va = VA::from_value(0xffff_8000_0000_1234);
    assert!(image.can_translate(va));
    assert_eq!(translate_kernel_va(&image, va), PA::from_value(0x4008_1234));
    assert_eq!(
        translate_kernel_va(&image, VA::from_value(0xffff_8000_0000_0000)),
        PA::from_value(0x4008_0000)
    );
    // Below the link address nothing is mapped.
    assert!(!image.can_translate(VA::from_value(0xffff_7fff_ffff_ffff)));
    // Nor where the result would not fit in an address.
    let mut high = KernelImage::new(VA::from_value(0x1000));
    set_kimage_start(&mut high, PA::from_value(usize::MAX - 0xfff));
    assert!(high.can_translate(VA::from_value(0x1fff)));
    assert!(!high.can_translate(VA::from_value(0x2000)));
}

#[test]
fn psci_cpu_on() {
    let call = boot_secondary_psci(
        PSCIEntry { method: PSCIMethod::Hvc, cpu_on_id: None },
        2,
        PA::from_value(0x4008_0000),
        PA::from_value(0x4100_0000),
    );
    assert_eq!(
        call,
        PsciCall {
            method: PSCIMethod::Hvc,
            id: 0xc400_0003,
            arg1: 2,
            arg2: 0x4008_0000,
            arg3: 0x4100_0000
        }
    );
    assert_eq!(CPU_ON_ID, 0xc400_0003);
    let call = boot_secondary_psci(
        PSCIEntry { method: PSCIMethod::Smc, cpu_on_id: Some(0x8400_0003) },
        1,
        PA::from_value(8),
        PA::from_value(16),
    );
    assert_eq!(
        call,
        PsciCall { method: PSCIMethod::Smc, id: 0x8400_0003, arg1: 1, arg2: 8, arg3: 16 }
    );
}

#[test]
fn uart_line_feed_becomes_two_bytes() {
    let mut bank = Bcm2835AuxRegBank::new();
    assert_eq!(bank.ier(), 0);
    bank.init();
    assert_eq!(bank.ier(), 1);
    bank.put_char('a');
    bank.put_char('\n');
    assert_eq!(bank.take_sent(), vec![b'a', b'\r', b'\n']);
    assert_eq!(bank.take_sent(), Vec::<u8>::new());
    bank.send_byte(b'\n');
    assert_eq!(bank.take_sent(), vec![b'\n']);
}

#[test]
fn uart_sends_utf8() {
    let mut bank = Bcm2835AuxRegBank::new();
    for c in ['\0', 'A', '\u{7f}', '\u{80}', 'é', '\u{7ff}', '\u{800}', '€', '\u{ffff}', '\u{10000}', '🦀', '\u{10ffff}'] {
        bank.put_char(c);
        let mut buf = [0u8; 4];
        assert_eq!(bank.take_sent(), c.encode_utf8(&mut buf).as_bytes().to_vec(), "{:?}", c);
    }
    bank.write_str("héllo\nwörld\n");
    assert_eq!(bank.take_sent(), "héllo\r\nwörld\r\n".as_bytes().to_vec());
    bank.write_str("");
    assert_eq!(bank.take_sent(), Vec::<u8>::new());
    assert_eq!(bank.ier(), 0);
}

#[test]
fn uart_status_bits() {
    assert!(transmitter_can_accept(0x20));
    assert!(transmitter_can_accept(0x61));
    assert!(!transmitter_can_accept(0x40));
    assert!(!transmitter_can_accept(0));
    assert_eq!(received_byte(0x1234_5678), 0x78);
    assert_eq!(received_byte(0xff), 0xff);
}

#[test]
fn ramdisk_reads_and_writes_blocks() {
    let region = PhysMemoryRegion::new(PA::from_value(0x5000_0000), 4 * BLOCK_SIZE);
    let base = VA::from_value(0xffff_a000_0000_0000);
    let mut disk = RamdiskBlkDev::new(region, base, Ok(())).unwrap();
    assert_eq!(disk.base(), base);
    assert_eq!(disk.num_blocks(), 4);
    assert_eq!(disk.block_size(), 4096);
    assert!(disk.sync().is_ok());
    let block: Vec<u8> = (0..BLOCK_SIZE).map(|i| (i % 251) as u8).collect();
    assert_eq!(disk.write(2, &block), Ok(()));
    let mut two = vec![0xffu8; 2 * BLOCK_SIZE];
    assert_eq!(disk.read(1, &mut two), Ok(()));
    assert!(two[..BLOCK_SIZE].iter().all(|b| *b == 0));
    assert_eq!(&two[BLOCK_SIZE..], &block[..]);
    // Transfers that pass the end are refused and change nothing.
    let mut out = vec![7u8; 2 * BLOCK_SIZE];
    assert_eq!(disk.read(3, &mut out), Err(KernelError::OutOfBounds));
    assert!(out.iter().all(|b| *b == 7));
    assert_eq!(disk.read(u64::MAX, &mut out), Err(KernelError::OutOfBounds));
    assert_eq!(disk.write(4, &block), Err(KernelError::OutOfBounds));
    assert_eq!(disk.write(3, &two), Err(KernelError::OutOfBounds));
    let mut none = Vec::new();
    assert_eq!(disk.read(4, &mut none), Ok(()));
    assert_eq!(disk.read(5, &mut none), Err(KernelError::OutOfBounds));
    let mut last = vec![1u8; BLOCK_SIZE];
    assert_eq!(disk.read(3, &mut last), Ok(()));
    assert!(last.iter().all(|b| *b == 0));
    assert_eq!(disk.read(2, &mut last), Ok(()));
    assert_eq!(last, block);
}

#[test]
fn ramdisk_is_validated() {
    let base = VA::from_value(0xffff_a000_0000_0000);
    let odd = PhysMemoryRegion::new(PA::from_value(0x5000_0000), BLOCK_SIZE + 512);
    assert_eq!(RamdiskBlkDev::new(odd, base, Ok(())).unwrap_err(), KernelError::InvalidValue);
    // A mapping that failed wins over the size.
    assert_eq!(
        RamdiskBlkDev::new(odd, base, Err(KernelError::NoMemory)).unwrap_err(),
        KernelError::NoMemory
    );
    let empty = PhysMemoryRegion::new(PA::from_value(0x5000_0000), 0);
    assert_eq!(RamdiskBlkDev::new(empty, base, Ok(())).unwrap().num_blocks(), 0);
}

#[test]
fn vectored_transfer_stops_at_short_buffer() {
    let iovecs = [
        IoVec { iov_base: 0x1000, iov_len: 16 },
        IoVec { iov_base: 0x2000, iov_len: 32 },
        IoVec { iov_base: 0x3000, iov_len: 8 },
    ];
    let mut t = VectoredTransfer::new();
    assert_eq!(t.next(&iovecs), VectoredStep::Transfer(iovecs[0]));
    t.completed(&iovecs, 16);
    assert_eq!(t.next(&iovecs), VectoredStep::Transfer(iovecs[1]));
    t.completed(&iovecs, 20);
    assert_eq!(t.next(&iovecs), VectoredStep::Done(36));
    let mut t = VectoredTransfer::new();
    for v in iovecs.iter() {
        assert_eq!(t.next(&iovecs), VectoredStep::Transfer(*v));
        t.completed(&iovecs, v.iov_len);
    }
    assert_eq!(t.next(&iovecs), VectoredStep::Done(56));
    assert_eq!(VectoredTransfer::new().next(&[]), VectoredStep::Done(0));
    let mut t = VectoredTransfer::new();
    t.completed(&iovecs, 0);
    assert_eq!(t.next(&iovecs), VectoredStep::Done(0));
}

#[test]
fn probe_reads_the_node() {
    let with_size = vec![
        FdtReg { address: 0x3f21_5040, size: Some(0x40) },
        FdtReg { address: 0x3f00_0000, size: None },
    ];
    assert_eq!(
        mmio_region(Some(&with_size)),
        Ok(PhysMemoryRegion::new(PA::from_value(0x3f21_5040), 0x40))
    );
    assert_eq!(mmio_region(None), Err(ProbeError::NoReg));
    assert_eq!(mmio_region(Some(&Vec::new())), Err(ProbeError::NoReg));
    let no_size = vec![FdtReg { address: 0x3f21_5040, size: None }];
    assert_eq!(mmio_region(Some(&no_size)), Err(ProbeError::NoRegSize));
    assert_eq!(first_interrupt(None), Err(ProbeError::NoInterrupts));
    assert_eq!(first_interrupt(Some(&Vec::new())), Err(ProbeError::NoInterrupts));
    let ints = vec![vec![0, 29, 4], vec![0, 30, 4]];
    assert_eq!(first_interrupt(Some(&ints)), Ok(vec![0, 29, 4]));
    assert_eq!(check_interrupt_parent(InterruptParent::Controller), Ok(()));
    assert_eq!(check_interrupt_parent(InterruptParent::Missing), Err(ProbeError::NoParentInterrupt));
    assert_eq!(check_interrupt_parent(InterruptParent::NoDriver), Err(ProbeError::NoParentInterrupt));
    assert_eq!(
        check_interrupt_parent(InterruptParent::NotController),
        Err(ProbeError::NotInterruptController)
    );
    assert_eq!(
        DeviceMatchType::FdtCompatible("brcm,bcm2835-aux-uart"),
        DeviceMatchType::FdtCompatible("brcm,bcm2835-aux-uart")
    );
    assert!(DeviceMatchType::FdtCompatible("a") < DeviceMatchType::FdtCompatible("b"));
}

#[test]
fn cache_lines() {
    // Bits 16 to 19 hold log2 of the line size in words.
    assert_eq!(cache_line_stride(0x8444_c004), 64);
    assert_eq!(cache_line_stride(0), 4);
    assert_eq!(cache_line_stride(0xf_0000), 0x2_0000);
    assert_eq!(flush_lines(0x1000, 200, 64), vec![0x1000, 0x1040, 0x1080, 0x10c0]);
    assert_eq!(flush_lines(0x1000, 64, 64), vec![0x1000]);
    assert_eq!(flush_lines(0x1000, 0, 64), Vec::<usize>::new());
    assert_eq!(flush_lines(usize::MAX - 10, 10, 64), vec![usize::MAX - 10]);
}

#[test]
fn fat32_node_identity() {
    let attr = FileAttr { size: 100 };
    let node = Fat32FileNode::new(7, Cluster(2), attr).unwrap();
    assert_eq!(node.id(), InodeId::from_fsid_and_inodeid(7, 2));
    assert_eq!(node.getattr(), Ok(attr));
    assert_eq!(Cluster(9).value(), 9);
}
