//! PCI configuration space: register addresses, header decoding and the
//! bus scan.
use vstd::prelude::*;
use crate::bits::{bits32, with_bits32, mask32, get_bits32, set_bits32, get_bit8};

verus! {

/// The location of one 32-bit register in PCI configuration space.
pub struct ConfigAddress {
    pub reg: u8,
    pub bus: u8,
    pub device: u8,
    pub function: u8,
}

/// The value written to the address port to select `reg` of
/// `bus:device.function`: register in bits 0-7, function in 8-10, device in
/// 11-15, bus in 16-23, bits 24-30 clear and the enable bit 31 set.
pub open spec fn spec_config_address(reg: u8, bus: u8, device: u8, function: u8) -> u32 {
    (reg as u32) | ((function as u32) << 8u32) | ((device as u32) << 11u32)
        | ((bus as u32) << 16u32) | 0x8000_0000u32
}

/// Encodes a configuration-space location as the value of the address port.
pub fn make_address(config: ConfigAddress) -> (r: u32)
    requires
        config.device < 32,
        config.function < 8,
    ensures
        r == spec_config_address(config.reg, config.bus, config.device, config.function),
{
    let mut res: u32 = 0;
    let reg = config.reg as u32;
    let function = config.function as u32;
    let device = config.device as u32;
    let bus = config.bus as u32;
    assert(reg & mask32(8) == reg) by (bit_vector)
        requires reg < 256u32;
    set_bits32(&mut res, 0, 8, reg);
    assert(function & mask32(3) == function) by (bit_vector)
        requires function < 8u32;
    set_bits32(&mut res, 8, 11, function);
    assert(device & mask32(5) == device) by (bit_vector)
        requires device < 32u32;
    set_bits32(&mut res, 11, 16, device);
    assert(bus & mask32(8) == bus) by (bit_vector)
        requires bus < 256u32;
    set_bits32(&mut res, 16, 24, bus);
    assert(0u32 & mask32(7) == 0u32) by (bit_vector);
    set_bits32(&mut res, 24, 31, 0);
    assert(1u32 & mask32(1) == 1u32) by (bit_vector);
    set_bits32(&mut res, 31, 32, 1);
    assert(res == reg | (function << 8u32) | (device << 11u32) | (bus << 16u32) | 0x8000_0000u32)
        by (bit_vector)
        requires
            reg < 256u32, function < 8u32, device < 32u32, bus < 256u32,
            res == with_bits32(with_bits32(with_bits32(with_bits32(with_bits32(with_bits32(
                0u32, 0, 8, reg), 8, 11, function), 11, 16, device), 16, 24, bus), 24, 31, 0),
                31, 32, 1);
    res
}

} // verus!

verus! {

/// Decoding a register address gives back the location it was made from:
/// each field sits in its own bits, bits 24-30 are clear and bit 31 is set.
pub proof fn lemma_config_address_fields(reg: u8, bus: u8, device: u8, function: u8)
    requires
        device < 32,
        function < 8,
    ensures
        bits32(spec_config_address(reg, bus, device, function), 0, 8) == reg as u32,
        bits32(spec_config_address(reg, bus, device, function), 8, 11) == function as u32,
        bits32(spec_config_address(reg, bus, device, function), 11, 16) == device as u32,
        bits32(spec_config_address(reg, bus, device, function), 16, 24) == bus as u32,
        bits32(spec_config_address(reg, bus, device, function), 24, 31) == 0,
        bits32(spec_config_address(reg, bus, device, function), 31, 32) == 1,
{
    let r = reg as u32;
    let f = function as u32;
    let d = device as u32;
    let b = bus as u32;
    let a = spec_config_address(reg, bus, device, function);
    assert(a == r | (f << 8u32) | (d << 11u32) | (b << 16u32) | 0x8000_0000u32);
    assert({
        &&& bits32(a, 0, 8) == r
        &&& bits32(a, 8, 11) == f
        &&& bits32(a, 11, 16) == d
        &&& bits32(a, 16, 24) == b
        &&& bits32(a, 24, 31) == 0
        &&& bits32(a, 31, 32) == 1
    }) by (bit_vector)
        requires
            r < 256u32, f < 8u32, d < 32u32, b < 256u32,
            a == r | (f << 8u32) | (d << 11u32) | (b << 16u32) | 0x8000_0000u32;
}

/// Two different register locations never share an address.
pub proof fn lemma_config_address_injective(
    reg1: u8, bus1: u8, device1: u8, function1: u8,
    reg2: u8, bus2: u8, device2: u8, function2: u8,
)
    requires
        device1 < 32, function1 < 8, device2 < 32, function2 < 8,
        spec_config_address(reg1, bus1, device1, function1)
            == spec_config_address(reg2, bus2, device2, function2),
    ensures
        reg1 == reg2, bus1 == bus2, device1 == device2, function1 == function2,
{
    lemma_config_address_fields(reg1, bus1, device1, function1);
    lemma_config_address_fields(reg2, bus2, device2, function2);
}

} // verus!

verus! {

/// The first ten 32-bit registers of a function's configuration header.
#[derive(Default, Clone, Copy, Debug)]
pub struct PciConfig {
    pub vender_id: u16,
    pub device_id: u16,
    pub command: u16,
    pub status: u16,
    pub revision_id: u8,
    pub interface: u8,
    pub sub_class: u8,
    pub base_class: u8,
    pub cacheline_size: u8,
    pub latency_timer: u8,
    pub header_type: u8,
    pub bist: u8,
    pub bar: [u32; 6],
}

/// The number of 32-bit registers that make up a `PciConfig`.
pub const HEADER_ROWS: usize = 10;

/// `cfg` holds the fields that the ten header registers `rows` encode, each
/// field taken from its bytes in little-endian order.
pub open spec fn decodes_to(rows: Seq<u32>, cfg: PciConfig) -> bool {
    &&& rows.len() == 10
    &&& cfg.vender_id == bits32(rows[0], 0, 16) as u16
    &&& cfg.device_id == bits32(rows[0], 16, 32) as u16
    &&& cfg.command == bits32(rows[1], 0, 16) as u16
    &&& cfg.status == bits32(rows[1], 16, 32) as u16
    &&& cfg.revision_id == bits32(rows[2], 0, 8) as u8
    &&& cfg.interface == bits32(rows[2], 8, 16) as u8
    &&& cfg.sub_class == bits32(rows[2], 16, 24) as u8
    &&& cfg.base_class == bits32(rows[2], 24, 32) as u8
    &&& cfg.cacheline_size == bits32(rows[3], 0, 8) as u8
    &&& cfg.latency_timer == bits32(rows[3], 8, 16) as u8
    &&& cfg.header_type == bits32(rows[3], 16, 24) as u8
    &&& cfg.bist == bits32(rows[3], 24, 32) as u8
    &&& cfg.bar@ == rows.subrange(4, 10)
}

/// Register `i` of the header that `cfg` describes.
pub open spec fn header_row(cfg: PciConfig, i: int) -> u32 {
    if i == 0 {
        (cfg.vender_id as u32) | ((cfg.device_id as u32) << 16u32)
    } else if i == 1 {
        (cfg.command as u32) | ((cfg.status as u32) << 16u32)
    } else if i == 2 {
        (cfg.revision_id as u32) | ((cfg.interface as u32) << 8u32)
            | ((cfg.sub_class as u32) << 16u32) | ((cfg.base_class as u32) << 24u32)
    } else if i == 3 {
        (cfg.cacheline_size as u32) | ((cfg.latency_timer as u32) << 8u32)
            | ((cfg.header_type as u32) << 16u32) | ((cfg.bist as u32) << 24u32)
    } else {
        cfg.bar@[i - 4]
    }
}

/// The value the address port takes to read header register `i` of
/// `bus:device.function`.
pub open spec fn header_address(bus: u8, device: u8, function: u8, i: int) -> u32 {
    spec_config_address((4 * i) as u8, bus, device, function)
}

impl PciConfig {
    /// The addresses of the ten header registers of `bus:device.function`,
    /// in the order in which `read` takes their values.
    pub fn header_addresses(bus: u8, device: u8, function: u8) -> (r: Vec<u32>)
        requires
            device < 32,
            function < 8,
        ensures
            r@.len() == HEADER_ROWS,
            forall|i: int| 0 <= i < 10 ==> r@[i] == #[trigger] header_address(bus, device, function, i),
    {
        let mut r: Vec<u32> = Vec::new();
        let mut i: u8 = 0;
        while i < 10
            invariant
                i <= 10,
                device < 32,
                function < 8,
                r@.len() == i,
                forall|k: int| 0 <= k < i ==> r@[k] == #[trigger] header_address(bus, device, function, k),
            decreases 10 - i,
        {
            r.push(make_address(ConfigAddress { bus, device, function, reg: 4 * i }));
            i = i + 1;
        }
        r
    }

    /// Decodes the header of a device from the values of its ten header
    /// registers, read at `header_addresses`.
    pub fn read(rows: &[u32; 10]) -> (r: PciConfig)
        ensures
            decodes_to(rows@, r),
    {
        let row = rows[0];
        let vender_id = get_bits32(row, 0, 16) as u16;
        let device_id = get_bits32(row, 16, 32) as u16;
        let row = rows[1];
        let command = get_bits32(row, 0, 16) as u16;
        let status = get_bits32(row, 16, 32) as u16;
        let row = rows[2];
        let revision_id = get_bits32(row, 0, 8) as u8;
        let interface = get_bits32(row, 8, 16) as u8;
        let sub_class = get_bits32(row, 16, 24) as u8;
        let base_class = get_bits32(row, 24, 32) as u8;
        let row = rows[3];
        let cacheline_size = get_bits32(row, 0, 8) as u8;
        let latency_timer = get_bits32(row, 8, 16) as u8;
        let header_type = get_bits32(row, 16, 24) as u8;
        let bist = get_bits32(row, 24, 32) as u8;
        let bar: [u32; 6] = [rows[4], rows[5], rows[6], rows[7], rows[8], rows[9]];
        assert(bar@ == rows@.subrange(4, 10));
        PciConfig {
            vender_id, device_id, command, status, revision_id, interface, sub_class,
            base_class, cacheline_size, latency_timer, header_type, bist, bar,
        }
    }

    /// Whether the header says the device has more than one function.
    pub open spec fn spec_is_multi_function(self) -> bool {
        self.header_type & 0x80u8 != 0
    }

    /// Whether the header belongs to a PCI-to-PCI bridge.
    pub open spec fn spec_is_bridge(self) -> bool {
        self.base_class == 0x06 && self.sub_class == 0x04
    }

    /// The bus behind a bridge: bits 8-15 of its third base-address register.
    pub open spec fn spec_secondary_bus(self) -> u8 {
        ((self.bar@[2] >> 8u32) & 0xffu32) as u8
    }
}

/// Decoding is lossless: the header registers can be rebuilt from the
/// decoded fields.
pub proof fn lemma_read_roundtrip(rows: Seq<u32>, cfg: PciConfig)
    requires
        decodes_to(rows, cfg),
    ensures
        forall|i: int| 0 <= i < 10 ==> #[trigger] header_row(cfg, i) == rows[i],
{
    assert forall|i: int| 0 <= i < 4 implies #[trigger] header_row(cfg, i) == rows[i] by {
        let x = rows[i];
        if i == 0 {
            let a = bits32(x, 0, 16) as u16;
            let b = bits32(x, 16, 32) as u16;
            assert((a as u32) | ((b as u32) << 16u32) == x) by (bit_vector)
                requires a == bits32(x, 0, 16) as u16, b == bits32(x, 16, 32) as u16;
        } else if i == 1 {
            let a = bits32(x, 0, 16) as u16;
            let b = bits32(x, 16, 32) as u16;
            assert((a as u32) | ((b as u32) << 16u32) == x) by (bit_vector)
                requires a == bits32(x, 0, 16) as u16, b == bits32(x, 16, 32) as u16;
        } else {
            let a = bits32(x, 0, 8) as u8;
            let b = bits32(x, 8, 16) as u8;
            let c = bits32(x, 16, 24) as u8;
            let d = bits32(x, 24, 32) as u8;
            assert((a as u32) | ((b as u32) << 8u32) | ((c as u32) << 16u32)
                | ((d as u32) << 24u32) == x) by (bit_vector)
                requires
                    a == bits32(x, 0, 8) as u8, b == bits32(x, 8, 16) as u8,
                    c == bits32(x, 16, 24) as u8, d == bits32(x, 24, 32) as u8;
        }
    }
    assert forall|i: int| 4 <= i < 10 implies #[trigger] header_row(cfg, i) == rows[i] by {
        assert(cfg.bar@[i - 4] == rows.subrange(4, 10)[i - 4]);
    }
}

} // verus!

verus! {

/// A function found by the scan, with its header.
#[derive(Default, Clone, Copy, Debug)]
pub struct PciDevice {
    pub bus: u8,
    pub device: u8,
    pub function: u8,
    pub config: PciConfig,
}

/// Every field of the record is zero, as in the unused slots of the table.
pub open spec fn is_zero_device(d: PciDevice) -> bool {
    let c = d.config;
    &&& d.bus == 0 && d.device == 0 && d.function == 0
    &&& c.vender_id == 0 && c.device_id == 0 && c.command == 0 && c.status == 0
    &&& c.revision_id == 0 && c.interface == 0 && c.sub_class == 0 && c.base_class == 0
    &&& c.cacheline_size == 0 && c.latency_timer == 0 && c.header_type == 0 && c.bist == 0
    &&& c.bar@ == Seq::new(6, |i: int| 0u32)
}

/// The table `base` with its first slots holding `found`.
pub open spec fn table_of(base: Seq<PciDevice>, found: Seq<PciDevice>) -> Seq<PciDevice> {
    Seq::new(base.len(), |i: int| if i < found.len() { found[i] } else { base[i] })
}

/// Writing records into a table twice, the second time a longer list, is
/// writing the longer list once: over any number of steps, the slots past
/// the records keep what they held before the scan.
pub proof fn lemma_table_of_compose(base: Seq<PciDevice>, f1: Seq<PciDevice>, f2: Seq<PciDevice>)
    requires
        f1.len() <= f2.len(),
    ensures
        table_of(table_of(base, f1), f2) == table_of(base, f2),
{
    assert(table_of(table_of(base, f1), f2) =~= table_of(base, f2));
}

/// How many functions the scan can record.
pub const MAX_DEVICES: usize = 32;

/// What the scan needs from its driver next.
#[derive(Clone, Copy, Debug, PartialEq, Eq, Structural)]
pub enum ScanStep {
    /// Read the header of `bus:device.function` and hand it to
    /// `ScanPciDevices::resume`.
    Read { bus: u8, device: u8, function: u8 },
    /// The scan has finished.
    Done,
}

/// The header read that the scan is waiting for, and what it is for.
#[derive(Clone, Copy, Debug, PartialEq, Eq, Structural)]
pub enum Pending {
    /// No read is outstanding.
    Idle,
    /// Header of `0:0.0`, to learn whether the host bridge has several
    /// functions.
    RootHeader,
    /// Header of `0:0.function`: a present host-bridge function stands for
    /// the bus of the same number.
    RootFunction { function: u8 },
    /// Header of `bus:device.0`, to learn whether the device is present.
    BusDevice { bus: u8, device: u8 },
    /// Header of a present function, to be recorded.
    Function { bus: u8, device: u8, function: u8 },
    /// Header of `bus:device.0` again, to learn whether the device has
    /// several functions.
    DeviceHeader { bus: u8, device: u8 },
    /// Header of `bus:device.function`, to learn whether that function is
    /// present.
    DeviceFunction { bus: u8, device: u8, function: u8 },
}

/// Where the scan goes on once the bus scan or the function scan that it
/// started has finished.
#[derive(Clone, Copy, Debug, PartialEq, Eq, Structural)]
pub enum Frame {
    /// Go on with the host-bridge function after `function`.
    RootLoop { function: u8 },
    /// Go on with the device after `device` on `bus`.
    BusLoop { bus: u8, device: u8 },
    /// Function 0 of `bus:device` is done: look at its header type.
    DeviceFirst { bus: u8, device: u8 },
    /// Go on with the function after `function` of `bus:device`.
    DeviceLoop { bus: u8, device: u8, function: u8 },
}

/// A depth-first scan of the PCI buses, run as a state machine: each step
/// names the header it needs read, and the driver hands the header back.
pub struct ScanPciDevices {
    pub num_devices: usize,
    pub result: [PciDevice; 32],
    pub pending: Pending,
    pub stack: Vec<Frame>,
}

pub open spec fn valid_pending(p: Pending) -> bool {
    match p {
        Pending::Idle => true,
        Pending::RootHeader => true,
        Pending::RootFunction { function } => 1 <= function < 8,
        Pending::BusDevice { bus, device } => device < 32,
        Pending::Function { bus, device, function } => device < 32 && function < 8,
        Pending::DeviceHeader { bus, device } => device < 32,
        Pending::DeviceFunction { bus, device, function } => device < 32 && 1 <= function < 8,
    }
}

pub open spec fn valid_frame(f: Frame) -> bool {
    match f {
        Frame::RootLoop { function } => 1 <= function < 8,
        Frame::BusLoop { bus, device } => device < 32,
        Frame::DeviceFirst { bus, device } => device < 32,
        Frame::DeviceLoop { bus, device, function } => device < 32 && 1 <= function < 8,
    }
}

pub open spec fn valid_frames(s: Seq<Frame>) -> bool {
    forall|i: int| 0 <= i < s.len() ==> valid_frame(#[trigger] s[i])
}

/// The read that a pending state asks for.
pub open spec fn step_of(p: Pending) -> ScanStep {
    match p {
        Pending::Idle => ScanStep::Done,
        Pending::RootHeader => ScanStep::Read { bus: 0, device: 0, function: 0 },
        Pending::RootFunction { function } => ScanStep::Read { bus: 0, device: 0, function },
        Pending::BusDevice { bus, device } => ScanStep::Read { bus, device, function: 0 },
        Pending::Function { bus, device, function } => ScanStep::Read { bus, device, function },
        Pending::DeviceHeader { bus, device } => ScanStep::Read { bus, device, function: 0 },
        Pending::DeviceFunction { bus, device, function } => ScanStep::Read { bus, device, function },
    }
}

/// Whether a header says that no function answers at its address.
pub open spec fn is_absent(cfg: PciConfig) -> bool {
    cfg.vender_id == 0xffff
}

/// Returning from a finished bus or function scan: the pending read and the
/// frames left once the innermost frame that still has work has issued it,
/// or `Idle` with no frames when none has.
pub open spec fn spec_ret(stack: Seq<Frame>) -> (Pending, Seq<Frame>)
    decreases stack.len(),
{
    if stack.len() == 0 {
        (Pending::Idle, stack)
    } else {
        let rest = stack.drop_last();
        match stack.last() {
            Frame::RootLoop { function } => if function + 1 < 8 {
                (Pending::RootFunction { function: (function + 1) as u8 }, rest)
            } else {
                spec_ret(rest)
            },
            Frame::BusLoop { bus, device } => if device + 1 < 32 {
                (Pending::BusDevice { bus, device: (device + 1) as u8 }, rest)
            } else {
                spec_ret(rest)
            },
            Frame::DeviceFirst { bus, device } => (Pending::DeviceHeader { bus, device }, rest),
            Frame::DeviceLoop { bus, device, function } => if function + 1 < 8 {
                (Pending::DeviceFunction { bus, device, function: (function + 1) as u8 }, rest)
            } else {
                spec_ret(rest)
            },
        }
    }
}

/// The pending read and the frames after the header `cfg` answers the read
/// `p` with frames `stack`.
pub open spec fn spec_answer(p: Pending, stack: Seq<Frame>, cfg: PciConfig) -> (Pending, Seq<Frame>) {
    match p {
        Pending::Idle => (p, stack),
        Pending::RootHeader => if !cfg.spec_is_multi_function() {
            (Pending::BusDevice { bus: 0, device: 0 }, stack)
        } else {
            (Pending::RootFunction { function: 1 }, stack)
        },
        Pending::RootFunction { function } => if is_absent(cfg) {
            if function + 1 < 8 {
                (Pending::RootFunction { function: (function + 1) as u8 }, stack)
            } else {
                spec_ret(stack)
            }
        } else {
            (Pending::BusDevice { bus: function, device: 0 }, stack.push(Frame::RootLoop { function }))
        },
        Pending::BusDevice { bus, device } => if is_absent(cfg) {
            if device + 1 < 32 {
                (Pending::BusDevice { bus, device: (device + 1) as u8 }, stack)
            } else {
                spec_ret(stack)
            }
        } else {
            (
                Pending::Function { bus, device, function: 0 },
                stack.push(Frame::BusLoop { bus, device }).push(Frame::DeviceFirst { bus, device }),
            )
        },
        Pending::Function { bus, device, function } => if cfg.spec_is_bridge() {
            (Pending::BusDevice { bus: cfg.spec_secondary_bus(), device: 0 }, stack)
        } else {
            spec_ret(stack)
        },
        Pending::DeviceHeader { bus, device } => if !cfg.spec_is_multi_function() {
            spec_ret(stack)
        } else {
            (Pending::DeviceFunction { bus, device, function: 1 }, stack)
        },
        Pending::DeviceFunction { bus, device, function } => if is_absent(cfg) {
            if function + 1 < 8 {
                (Pending::DeviceFunction { bus, device, function: (function + 1) as u8 }, stack)
            } else {
                spec_ret(stack)
            }
        } else {
            (Pending::Function { bus, device, function }, stack.push(Frame::DeviceLoop { bus, device, function }))
        },
    }
}

/// The devices recorded after the header `cfg` answers the read `p`.
pub open spec fn spec_record(p: Pending, found: Seq<PciDevice>, cfg: PciConfig) -> Seq<PciDevice> {
    match p {
        Pending::Function { bus, device, function } => found.push(PciDevice { bus, device, function, config: cfg }),
        _ => found,
    }
}

/// Returning into valid frames gives a valid read and leaves valid frames;
/// nothing is left to do only when no frame is left.
pub proof fn lemma_ret_valid(stack: Seq<Frame>)
    requires
        valid_frames(stack),
    ensures
        valid_pending(spec_ret(stack).0),
        valid_frames(spec_ret(stack).1),
        spec_ret(stack).0 is Idle ==> spec_ret(stack).1.len() == 0,
    decreases stack.len(),
{
    if stack.len() > 0 {
        let rest = stack.drop_last();
        assert(valid_frame(stack[stack.len() - 1]));
        assert forall|i: int| 0 <= i < rest.len() implies valid_frame(#[trigger] rest[i]) by {
            assert(rest[i] == stack[i]);
        }
        lemma_ret_valid(rest);
    }
}

impl ScanPciDevices {
    /// The read the scan waits for.
    pub open spec fn pending(&self) -> Pending {
        self.pending
    }

    /// Where the scan goes on after the running bus and function scans, the
    /// innermost last.
    pub open spec fn frames(&self) -> Seq<Frame> {
        self.stack@
    }

    /// The functions recorded so far, in the order the scan met them.
    pub open spec fn found(&self) -> Seq<PciDevice> {
        self.result@.take(self.num_devices as int)
    }

    pub open spec fn wf(&self) -> bool {
        &&& self.num_devices <= MAX_DEVICES
        &&& valid_pending(self.pending())
        &&& valid_frames(self.frames())
        &&& self.pending() is Idle ==> self.frames().len() == 0
    }

    /// The next read the scan asks for.
    pub open spec fn next_step(&self) -> ScanStep {
        step_of(self.pending())
    }

    /// An empty result table and no scan under way.
    pub fn new() -> (r: Self)
        ensures
            r.wf(),
            r.num_devices == 0,
            r.found() == Seq::<PciDevice>::empty(),
            forall|i: int| 0 <= i < 32 ==> is_zero_device(#[trigger] r.result@[i]),
            r.pending() == Pending::Idle,
            r.frames() == Seq::<Frame>::empty(),
    {
        let config = PciConfig {
            vender_id: 0, device_id: 0, command: 0, status: 0, revision_id: 0, interface: 0,
            sub_class: 0, base_class: 0, cacheline_size: 0, latency_timer: 0, header_type: 0,
            bist: 0, bar: [0; 6],
        };
        let empty = PciDevice { bus: 0, device: 0, function: 0, config };
        assert(config.bar@ =~= Seq::new(6, |i: int| 0u32));
        ScanPciDevices {
            num_devices: 0,
            result: [empty; 32],
            pending: Pending::Idle,
            stack: Vec::new(),
        }
    }

    fn step(&self) -> (r: ScanStep)
        ensures
            r == step_of(self.pending),
    {
        match self.pending {
            Pending::Idle => ScanStep::Done,
            Pending::RootHeader => ScanStep::Read { bus: 0, device: 0, function: 0 },
            Pending::RootFunction { function } => ScanStep::Read { bus: 0, device: 0, function },
            Pending::BusDevice { bus, device } => ScanStep::Read { bus, device, function: 0 },
            Pending::Function { bus, device, function } => ScanStep::Read { bus, device, function },
            Pending::DeviceHeader { bus, device } => ScanStep::Read { bus, device, function: 0 },
            Pending::DeviceFunction { bus, device, function } => ScanStep::Read { bus, device, function },
        }
    }

    /// Starts the scan at the host bridge `0:0.0`; the functions it finds are
    /// recorded after those already in the table.
    pub fn scan_devices(&mut self) -> (r: ScanStep)
        requires
            old(self).wf(),
        ensures
            final(self).wf(),
            final(self).num_devices == old(self).num_devices,
            final(self).result == old(self).result,
            final(self).pending() == Pending::RootHeader,
            final(self).frames() == Seq::<Frame>::empty(),
            r == (ScanStep::Read { bus: 0, device: 0, function: 0 }),
    {
        self.stack = Vec::new();
        self.pending = Pending::RootHeader;
        self.step()
    }

    /// Starts the scan of `bus` at device 0.
    fn scan_bus(&mut self, bus: u8)
        requires
            old(self).wf(),
        ensures
            final(self).wf(),
            final(self).num_devices == old(self).num_devices,
            final(self).result == old(self).result,
            final(self).stack@ == old(self).stack@,
            final(self).pending == (Pending::BusDevice { bus, device: 0 }),
    {
        self.pending = Pending::BusDevice { bus, device: 0 };
    }

    /// Starts the scan of a present device at its function 0, to go on at
    /// the device's header type once that function is recorded.
    fn scan_device(&mut self, bus: u8, device: u8)
        requires
            old(self).wf(),
            !(old(self).pending is Idle),
            device < 32,
        ensures
            final(self).wf(),
            final(self).num_devices == old(self).num_devices,
            final(self).result == old(self).result,
            final(self).stack@ == old(self).stack@.push(Frame::DeviceFirst { bus, device }),
            final(self).pending == (Pending::Function { bus, device, function: 0 }),
    {
        self.stack.push(Frame::DeviceFirst { bus, device });
        self.scan_function(bus, device, 0);
    }

    /// Asks for the header of a present function, to record it.
    fn scan_function(&mut self, bus: u8, device: u8, function: u8)
        requires
            old(self).wf(),
            device < 32,
            function < 8,
        ensures
            final(self).wf(),
            final(self).num_devices == old(self).num_devices,
            final(self).result == old(self).result,
            final(self).stack@ == old(self).stack@,
            final(self).pending == (Pending::Function { bus, device, function }),
    {
        self.pending = Pending::Function { bus, device, function };
    }

    /// Returns from a finished bus or function scan to the innermost frame
    /// that still has work.
    fn ret(&mut self)
        requires
            old(self).wf(),
        ensures
            final(self).wf(),
            final(self).num_devices == old(self).num_devices,
            final(self).result == old(self).result,
            (final(self).pending, final(self).stack@) == spec_ret(old(self).stack@),
    {
        proof { lemma_ret_valid(self.stack@); }
        while self.stack.len() > 0
            invariant
                self.wf(),
                self.num_devices == old(self).num_devices,
                self.result == old(self).result,
                spec_ret(self.stack@) == spec_ret(old(self).stack@),
            decreases self.stack.len(),
        {
            let ghost before = self.stack@;
            let frame = self.stack.pop().unwrap();
            proof {
                assert(valid_frame(before[before.len() - 1]));
                assert forall|i: int| 0 <= i < self.stack@.len() implies valid_frame(#[trigger] self.stack@[i]) by {
                    assert(self.stack@[i] == before[i]);
                }
            }
            match frame {
                Frame::RootLoop { function } => {
                    if function + 1 < 8 {
                        self.pending = Pending::RootFunction { function: function + 1 };
                        return;
                    }
                },
                Frame::BusLoop { bus, device } => {
                    if device + 1 < 32 {
                        self.pending = Pending::BusDevice { bus, device: device + 1 };
                        return;
                    }
                },
                Frame::DeviceFirst { bus, device } => {
                    self.pending = Pending::DeviceHeader { bus, device };
                    return;
                },
                Frame::DeviceLoop { bus, device, function } => {
                    if function + 1 < 8 {
                        self.pending = Pending::DeviceFunction { bus, device, function: function + 1 };
                        return;
                    }
                },
            }
        }
        self.pending = Pending::Idle;
    }

    /// Whether answering the read the scan waits for would record one more
    /// function than the table holds.
    pub fn record_would_overflow(&self) -> (r: bool)
        ensures
            r == (self.pending() is Function && self.num_devices >= MAX_DEVICES),
    {
        match self.pending {
            Pending::Function { .. } => self.num_devices >= MAX_DEVICES,
            _ => false,
        }
    }

    /// Hands the scan the header it asked for; it records the function when
    /// the read was for that, and says what it needs next.
    pub fn resume(&mut self, cfg: PciConfig) -> (r: ScanStep)
        requires
            old(self).wf(),
            !(old(self).pending() is Idle),
            !(old(self).pending() is Function && old(self).num_devices >= MAX_DEVICES),
        ensures
            final(self).wf(),
            (final(self).pending(), final(self).frames())
                == spec_answer(old(self).pending(), old(self).frames(), cfg),
            final(self).found() == spec_record(old(self).pending(), old(self).found(), cfg),
            r == final(self).next_step(),
            r matches ScanStep::Read { bus, device, function } ==> device < 32 && function < 8,
            forall|i: int|
                final(self).num_devices <= i < 32 ==> #[trigger] final(self).result@[i] == old(self).result@[i],
            final(self).result@ == table_of(old(self).result@, final(self).found()),
    {
        let ghost old_found = self.found();
        proof {
            lemma_ret_valid(self.stack@);
            assert(1u8 << 7u8 == 0x80u8) by (bit_vector);
        }
        match self.pending {
            Pending::Idle => {},
            Pending::RootHeader => {
                if !get_bit8(cfg.header_type, 7) {
                    self.scan_bus(0);
                } else {
                    self.pending = Pending::RootFunction { function: 1 };
                }
            },
            Pending::RootFunction { function } => {
                if cfg.vender_id == 0xffff {
                    if function + 1 < 8 {
                        self.pending = Pending::RootFunction { function: function + 1 };
                    } else {
                        self.ret();
                    }
                } else {
                    self.stack.push(Frame::RootLoop { function });
                    self.scan_bus(function);
                }
            },
            Pending::BusDevice { bus, device } => {
                if cfg.vender_id == 0xffff {
                    if device + 1 < 32 {
                        self.pending = Pending::BusDevice { bus, device: device + 1 };
                    } else {
                        self.ret();
                    }
                } else {
                    self.stack.push(Frame::BusLoop { bus, device });
                    self.scan_device(bus, device);
                }
            },
            Pending::Function { bus, device, function } => {
                let found = PciDevice { bus, device, function, config: cfg };
                self.result[self.num_devices] = found;
                self.num_devices = self.num_devices + 1;
                proof {
                    assert(self.found() =~= old_found.push(found));
                }
                if cfg.base_class == 0x06 && cfg.sub_class == 0x04 {
                    let bus_numbers = cfg.bar[2];
                    let secondary_bus = (bus_numbers >> 8) & 0xff;
                    assert(bus_numbers == cfg.bar@[2]);
                    self.scan_bus(secondary_bus as u8);
                } else {
                    self.ret();
                }
            },
            Pending::DeviceHeader { bus, device } => {
                if !get_bit8(cfg.header_type, 7) {
                    self.ret();
                } else {
                    self.pending = Pending::DeviceFunction { bus, device, function: 1 };
                }
            },
            Pending::DeviceFunction { bus, device, function } => {
                if cfg.vender_id == 0xffff {
                    if function + 1 < 8 {
                        self.pending = Pending::DeviceFunction { bus, device, function: function + 1 };
                    } else {
                        self.ret();
                    }
                } else {
                    self.stack.push(Frame::DeviceLoop { bus, device, function });
                    self.scan_function(bus, device, function);
                }
            },
        }
        self.step()
    }
}

} // verus!

verus! {

/// A device is multi-function exactly when bit 7 of its header type is set,
/// whatever its other bits: answering the header read of a device (or of the
/// host bridge) with such a header goes on to its function 1; with bit 7
/// clear the device is done (the host bridge's bus 0 is scanned).
pub proof fn lemma_multi_function_is_bit_7(stack: Seq<Frame>, cfg: PciConfig, bus: u8, device: u8)
    ensures
        cfg.header_type & 0x80u8 != 0 ==> spec_answer(Pending::DeviceHeader { bus, device }, stack, cfg)
            == (Pending::DeviceFunction { bus, device, function: 1 }, stack),
        cfg.header_type & 0x80u8 == 0 ==> spec_answer(Pending::DeviceHeader { bus, device }, stack, cfg)
            == spec_ret(stack),
        cfg.header_type & 0x80u8 != 0 ==> spec_answer(Pending::RootHeader, stack, cfg)
            == (Pending::RootFunction { function: 1 }, stack),
        cfg.header_type & 0x80u8 == 0 ==> spec_answer(Pending::RootHeader, stack, cfg)
            == (Pending::BusDevice { bus: 0, device: 0 }, stack),
{
}

/// Every header type with bit 7 set, such as 0x81 or 0xff, marks a
/// multi-function device; every one with bit 7 clear, such as 0x00 or 0x7f,
/// a single-function one.
pub proof fn lemma_header_types_multi_function(cfg: PciConfig)
    ensures
        cfg.header_type >= 0x80 ==> cfg.spec_is_multi_function(),
        cfg.header_type < 0x80 ==> !cfg.spec_is_multi_function(),
{
    let h = cfg.header_type;
    assert(h >= 0x80u8 ==> h & 0x80u8 != 0) by (bit_vector);
    assert(h < 0x80u8 ==> h & 0x80u8 == 0) by (bit_vector);
}

} // verus!
