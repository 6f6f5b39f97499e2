use std::collections::HashMap;

use mikan_kernel::pci::{
    make_address, ConfigAddress, PciConfig, PciDevice, ScanPciDevices, ScanStep, MAX_DEVICES,
};

fn absent() -> PciConfig {
    PciConfig::read(&[0xffff_ffff; 10])
}

fn header(vendor: u16, class: u8, sub: u8, header_type: u8, bar2: u32) -> PciConfig {
    let rows = [
        vendor as u32 | 0x1234 << 16,
        0,
        (sub as u32) << 16 | (class as u32) << 24,
        (header_type as u32) << 16,
        0,
        0,
        bar2,
        0,
        0,
        0,
    ];
    PciConfig::read(&rows)
}

/// Drives the scan over a configuration space given as a map; every address
/// not in the map answers as absent. Returns the records, or `None` when the
/// table would overflow.
fn run_scan(space: &HashMap<(u8, u8, u8), PciConfig>) -> Option<Vec<(u8, u8, u8)>> {
    let mut scan = ScanPciDevices::new();
    let mut step = scan.scan_devices();
    let mut reads = 0;
    while let ScanStep::Read { bus, device, function } = step {
        reads += 1;
        assert!(reads < 100_000);
        if scan.record_would_overflow() {
            return None;
        }
        let cfg = space.get(&(bus, device, function)).copied().unwrap_or_else(absent);
        step = scan.resume(cfg);
    }
    let found: Vec<PciDevice> = scan.result[..scan.num_devices].to_vec();
    Some(found.iter().map(|d| (d.bus, d.device, d.function)).collect())
}

#[test]
fn make_address_places_each_field() {
    let a = make_address(ConfigAddress { reg: 0x10, bus: 1, device: 2, function: 3 });
    assert_eq!(a, 0x8001_1310);
    let a = make_address(ConfigAddress { reg: 0xff, bus: 0xff, device: 31, function: 7 });
    assert_eq!(a, 0x80ff_ffff);
    let a = make_address(ConfigAddress { reg: 0, bus: 0, device: 0, function: 0 });
    assert_eq!(a, 0x8000_0000);
}

#[test]
fn make_address_fields_decode_back() {
    let a = make_address(ConfigAddress { reg: 0x3c, bus: 0x5a, device: 17, function: 5 });
    assert_eq!(a & 0xff, 0x3c);
    assert_eq!((a >> 8) & 0x7, 5);
    assert_eq!((a >> 11) & 0x1f, 17);
    assert_eq!((a >> 16) & 0xff, 0x5a);
    assert_eq!((a >> 24) & 0x7f, 0);
    assert_eq!(a >> 31, 1);
}

#[test]
fn header_addresses_step_by_four() {
    let addrs = PciConfig::header_addresses(2, 3, 1);
    let base = 0x8000_0000u32 | 2 << 16 | 3 << 11 | 1 << 8;
    let expected: Vec<u32> = (0..10).map(|i| base | (4 * i)).collect();
    assert_eq!(addrs, expected);
}

#[test]
fn read_decodes_little_endian_fields() {
    let rows = [
        0x1237_8086, 0x0290_0007, 0x0604_00a1, 0x0081_4010, 1, 2, 0x0003_0200, 4, 5, 6,
    ];
    let c = PciConfig::read(&rows);
    assert_eq!(c.vender_id, 0x8086);
    assert_eq!(c.device_id, 0x1237);
    assert_eq!(c.command, 0x0007);
    assert_eq!(c.status, 0x0290);
    assert_eq!(c.revision_id, 0xa1);
    assert_eq!(c.interface, 0x00);
    assert_eq!(c.sub_class, 0x04);
    assert_eq!(c.base_class, 0x06);
    assert_eq!(c.cacheline_size, 0x10);
    assert_eq!(c.latency_timer, 0x40);
    assert_eq!(c.header_type, 0x81);
    assert_eq!(c.bist, 0x00);
    assert_eq!(c.bar, [1, 2, 0x0003_0200, 4, 5, 6]);
}

#[test]
fn read_roundtrip_rebuilds_rows() {
    let rows = [
        0xdead_beef, 0x0123_4567, 0x89ab_cdef, 0xfedc_ba98, 7, 8, 9, 10, 11, 12,
    ];
    let c = PciConfig::read(&rows);
    let rebuilt = [
        c.vender_id as u32 | (c.device_id as u32) << 16,
        c.command as u32 | (c.status as u32) << 16,
        c.revision_id as u32 | (c.interface as u32) << 8 | (c.sub_class as u32) << 16
            | (c.base_class as u32) << 24,
        c.cacheline_size as u32 | (c.latency_timer as u32) << 8 | (c.header_type as u32) << 16
            | (c.bist as u32) << 24,
        c.bar[0], c.bar[1], c.bar[2], c.bar[3], c.bar[4], c.bar[5],
    ];
    assert_eq!(rebuilt, rows);
}

#[test]
fn new_scanner_is_empty() {
    let scan = ScanPciDevices::new();
    assert_eq!(scan.num_devices, 0);
    assert_eq!(scan.result.len(), MAX_DEVICES);
    assert!(scan.result.iter().all(|d| d.bus == 0 && d.config.vender_id == 0));
}

#[test]
fn scan_starts_at_host_bridge() {
    let mut scan = ScanPciDevices::new();
    assert_eq!(scan.scan_devices(), ScanStep::Read { bus: 0, device: 0, function: 0 });
}

#[test]
fn scan_single_function_host_walks_bus_zero_and_bridges() {
    let mut space = HashMap::new();
    // Host bridge, single function.
    space.insert((0, 0, 0), header(0x8086, 0x06, 0x00, 0x00, 0));
    // A multi-function device at 0:2 with functions 0 and 1.
    space.insert((0, 2, 0), header(0x1af4, 0x02, 0x00, 0x80, 0));
    space.insert((0, 2, 1), header(0x1af4, 0x02, 0x00, 0x00, 0));
    // A PCI-to-PCI bridge at 0:3 leading to bus 1.
    space.insert((0, 3, 0), header(0x8086, 0x06, 0x04, 0x01, 0x0000_0100));
    space.insert((1, 0, 0), header(0x10ec, 0x01, 0x06, 0x00, 0));
    let found = run_scan(&space).unwrap();
    assert_eq!(found, vec![(0, 0, 0), (0, 2, 0), (0, 2, 1), (0, 3, 0), (1, 0, 0)]);
}

#[test]
fn scan_empty_bus_records_nothing() {
    let mut space = HashMap::new();
    space.insert((0, 0, 0), absent());
    assert_eq!(run_scan(&space).unwrap(), vec![]);
}

#[test]
fn scan_multi_function_host_scans_buses_of_functions_one_to_seven() {
    let mut space = HashMap::new();
    // Host bridge with several functions; function 2 stands for bus 2.
    space.insert((0, 0, 0), header(0x8086, 0x06, 0x00, 0x80, 0));
    space.insert((0, 0, 2), header(0x8086, 0x06, 0x00, 0x00, 0));
    space.insert((2, 5, 0), header(0x1b36, 0x03, 0x00, 0x00, 0));
    // Bus 0 itself is not scanned in this case.
    space.insert((0, 1, 0), header(0x1b36, 0x03, 0x00, 0x00, 0));
    let found = run_scan(&space).unwrap();
    assert_eq!(found, vec![(2, 5, 0)]);
}

#[test]
fn scan_skips_absent_functions_of_multi_function_device() {
    let mut space = HashMap::new();
    space.insert((0, 0, 0), header(0x8086, 0x06, 0x00, 0x00, 0));
    space.insert((0, 4, 0), header(0x1234, 0x0c, 0x03, 0x80, 0));
    space.insert((0, 4, 3), header(0x1234, 0x0c, 0x03, 0x00, 0));
    space.insert((0, 4, 7), header(0x1234, 0x0c, 0x03, 0x00, 0));
    let found = run_scan(&space).unwrap();
    assert_eq!(found, vec![(0, 0, 0), (0, 4, 0), (0, 4, 3), (0, 4, 7)]);
}

#[test]
fn scan_overflow_is_reported_before_the_thirty_third_record() {
    let mut space = HashMap::new();
    space.insert((0, 0, 0), header(0x8086, 0x06, 0x00, 0x00, 0));
    for d in 1..6u8 {
        for f in 0..8u8 {
            space.insert((0, d, f), header(0x1234, 0x02, 0x00, 0x80, 0));
        }
    }
    assert_eq!(run_scan(&space), None);
}

#[test]
fn scan_records_exactly_thirty_two() {
    let mut space = HashMap::new();
    space.insert((0, 0, 0), header(0x8086, 0x06, 0x00, 0x00, 0));
    for d in 1..32u8 {
        space.insert((0, d, 0), header(0x1234, 0x02, 0x00, 0x00, 0));
    }
    let found = run_scan(&space).unwrap();
    assert_eq!(found.len(), 32);
    assert_eq!(found[31], (0, 31, 0));
}
