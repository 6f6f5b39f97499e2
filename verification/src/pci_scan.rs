//! The bus scan as a recursive function of the configuration space, and the
//! proof that the step-by-step scan of `pci` computes it.
use vstd::prelude::*;
use crate::pci::{
    PciConfig, PciDevice, Pending, ScanPciDevices, table_of, Frame, ScanStep, spec_answer, spec_record, spec_ret, step_of,
    is_absent, MAX_DEVICES, valid_pending, valid_frame, valid_frames, lemma_ret_valid,
};

verus! {

/// The header that every `bus:device.function` answers with.
pub type ConfigSpace = spec_fn(u8, u8, u8) -> PciConfig;

/// The record of `bus:device.function`.
pub open spec fn dev(cs: ConfigSpace, bus: u8, device: u8, function: u8) -> PciDevice {
    PciDevice { bus, device, function, config: cs(bus, device, function) }
}

/// The room left in a table with room for `budget` after recording `r`.
pub open spec fn left(budget: nat, r: Seq<PciDevice>) -> nat {
    if r.len() <= budget {
        (budget - r.len()) as nat
    } else {
        0
    }
}

/// Scanning a present function with room for `budget` records: the records
/// it adds, or `None` when the table runs full. A function records itself
/// and, when it is a bridge, scans the bus behind it.
pub open spec fn s_function(cs: ConfigSpace, bus: u8, device: u8, function: u8, budget: nat) -> Option<
    Seq<PciDevice>,
>
    decreases budget, 1int, 0int,
{
    if budget == 0 {
        None
    } else if cs(bus, device, function).spec_is_bridge() {
        match s_bus_from(cs, cs(bus, device, function).spec_secondary_bus(), 0, (budget - 1) as nat) {
            None => None,
            Some(r) => Some(seq![dev(cs, bus, device, function)] + r),
        }
    } else {
        Some(seq![dev(cs, bus, device, function)])
    }
}

/// Scanning functions `function..8` of a multi-function device.
pub open spec fn s_device_from(cs: ConfigSpace, bus: u8, device: u8, function: int, budget: nat) -> Option<
    Seq<PciDevice>,
>
    decreases budget, 2int, 8 - function,
{
    if function >= 8 || function < 0 {
        Some(Seq::empty())
    } else if is_absent(cs(bus, device, function as u8)) {
        s_device_from(cs, bus, device, function + 1, budget)
    } else {
        match s_function(cs, bus, device, function as u8, budget) {
            None => None,
            Some(r1) => match s_device_from(cs, bus, device, function + 1, left(budget, r1)) {
                None => None,
                Some(r2) => Some(r1 + r2),
            },
        }
    }
}

/// What a device scans after its function 0: its other functions when its
/// header says it has several.
pub open spec fn s_device_tail(cs: ConfigSpace, bus: u8, device: u8, budget: nat) -> Option<Seq<PciDevice>>
    decreases budget, 3int, 0int,
{
    if !cs(bus, device, 0).spec_is_multi_function() {
        Some(Seq::empty())
    } else {
        s_device_from(cs, bus, device, 1, budget)
    }
}

/// Scanning a present device: function 0, then the rest.
pub open spec fn s_device(cs: ConfigSpace, bus: u8, device: u8, budget: nat) -> Option<Seq<PciDevice>>
    decreases budget, 4int, 0int,
{
    match s_function(cs, bus, device, 0, budget) {
        None => None,
        Some(r1) => match s_device_tail(cs, bus, device, left(budget, r1)) {
            None => None,
            Some(r2) => Some(r1 + r2),
        },
    }
}

/// Scanning devices `device..32` of `bus`.
pub open spec fn s_bus_from(cs: ConfigSpace, bus: u8, device: int, budget: nat) -> Option<Seq<PciDevice>>
    decreases budget, 5int, 32 - device,
{
    if device >= 32 || device < 0 {
        Some(Seq::empty())
    } else if is_absent(cs(bus, device as u8, 0)) {
        s_bus_from(cs, bus, device + 1, budget)
    } else {
        match s_device(cs, bus, device as u8, budget) {
            None => None,
            Some(r1) => match s_bus_from(cs, bus, device + 1, left(budget, r1)) {
                None => None,
                Some(r2) => Some(r1 + r2),
            },
        }
    }
}

/// Scanning the buses of host-bridge functions `function..8`.
pub open spec fn s_root_from(cs: ConfigSpace, function: int, budget: nat) -> Option<Seq<PciDevice>>
    decreases budget, 6int, 8 - function,
{
    if function >= 8 || function < 0 {
        Some(Seq::empty())
    } else if is_absent(cs(0, 0, function as u8)) {
        s_root_from(cs, function + 1, budget)
    } else {
        match s_bus_from(cs, function as u8, 0, budget) {
            None => None,
            Some(r1) => match s_root_from(cs, function + 1, left(budget, r1)) {
                None => None,
                Some(r2) => Some(r1 + r2),
            },
        }
    }
}

/// The whole scan: bus 0 when the host bridge has one function, else the
/// bus of each present host-bridge function from 1 on.
pub open spec fn s_scan_devices(cs: ConfigSpace, budget: nat) -> Option<Seq<PciDevice>>
    decreases budget, 7int, 0int,
{
    if !cs(0, 0, 0).spec_is_multi_function() {
        s_bus_from(cs, 0, 0, budget)
    } else {
        s_root_from(cs, 1, budget)
    }
}

} // verus!

verus! {

/// The result fits in `budget`.
pub open spec fn fits(r: Option<Seq<PciDevice>>, budget: nat) -> bool {
    r matches Some(s) ==> s.len() <= budget
}

proof fn lemma_function_fits(cs: ConfigSpace, bus: u8, device: u8, function: u8, budget: nat)
    ensures
        fits(s_function(cs, bus, device, function, budget), budget),
    decreases budget, 1int, 0int,
{
    if budget > 0 && cs(bus, device, function).spec_is_bridge() {
        lemma_bus_from_fits(cs, cs(bus, device, function).spec_secondary_bus(), 0, (budget - 1) as nat);
    }
}

proof fn lemma_device_from_fits(cs: ConfigSpace, bus: u8, device: u8, function: int, budget: nat)
    ensures
        fits(s_device_from(cs, bus, device, function, budget), budget),
    decreases budget, 2int, 8 - function,
{
    if function >= 8 || function < 0 {
    } else if is_absent(cs(bus, device, function as u8)) {
        lemma_device_from_fits(cs, bus, device, function + 1, budget);
    } else {
        lemma_function_fits(cs, bus, device, function as u8, budget);
        if let Some(r1) = s_function(cs, bus, device, function as u8, budget) {
            lemma_device_from_fits(cs, bus, device, function + 1, left(budget, r1));
        }
    }
}

proof fn lemma_device_tail_fits(cs: ConfigSpace, bus: u8, device: u8, budget: nat)
    ensures
        fits(s_device_tail(cs, bus, device, budget), budget),
    decreases budget, 3int, 0int,
{
    if cs(bus, device, 0).spec_is_multi_function() {
        lemma_device_from_fits(cs, bus, device, 1, budget);
    }
}

proof fn lemma_device_fits(cs: ConfigSpace, bus: u8, device: u8, budget: nat)
    ensures
        fits(s_device(cs, bus, device, budget), budget),
    decreases budget, 4int, 0int,
{
    lemma_function_fits(cs, bus, device, 0, budget);
    if let Some(r1) = s_function(cs, bus, device, 0, budget) {
        lemma_device_tail_fits(cs, bus, device, left(budget, r1));
    }
}

proof fn lemma_bus_from_fits(cs: ConfigSpace, bus: u8, device: int, budget: nat)
    ensures
        fits(s_bus_from(cs, bus, device, budget), budget),
    decreases budget, 5int, 32 - device,
{
    if device >= 32 || device < 0 {
    } else if is_absent(cs(bus, device as u8, 0)) {
        lemma_bus_from_fits(cs, bus, device + 1, budget);
    } else {
        lemma_device_fits(cs, bus, device as u8, budget);
        if let Some(r1) = s_device(cs, bus, device as u8, budget) {
            lemma_bus_from_fits(cs, bus, device + 1, left(budget, r1));
        }
    }
}

proof fn lemma_root_from_fits(cs: ConfigSpace, function: int, budget: nat)
    ensures
        fits(s_root_from(cs, function, budget), budget),
    decreases budget, 6int, 8 - function,
{
    if function >= 8 || function < 0 {
    } else if is_absent(cs(0, 0, function as u8)) {
        lemma_root_from_fits(cs, function + 1, budget);
    } else {
        lemma_bus_from_fits(cs, function as u8, 0, budget);
        if let Some(r1) = s_bus_from(cs, function as u8, 0, budget) {
            lemma_root_from_fits(cs, function + 1, left(budget, r1));
        }
    }
}

proof fn lemma_scan_devices_fits(cs: ConfigSpace, budget: nat)
    ensures
        fits(s_scan_devices(cs, budget), budget),
    decreases budget, 7int, 0int,
{
    if !cs(0, 0, 0).spec_is_multi_function() {
        lemma_bus_from_fits(cs, 0, 0, budget);
    } else {
        lemma_root_from_fits(cs, 1, budget);
    }
}

} // verus!

verus! {

/// `r1` followed by what `k` adds with the room that `r1` leaves.
pub open spec fn then(
    r: Option<Seq<PciDevice>>,
    budget: nat,
    k: spec_fn(nat) -> Option<Seq<PciDevice>>,
) -> Option<Seq<PciDevice>> {
    match r {
        None => None,
        Some(r1) => match k(left(budget, r1)) {
            None => None,
            Some(r2) => Some(r1 + r2),
        },
    }
}

/// What the work left in a frame adds.
pub open spec fn s_frame(cs: ConfigSpace, f: Frame, budget: nat) -> Option<Seq<PciDevice>> {
    match f {
        Frame::RootLoop { function } => s_root_from(cs, function + 1, budget),
        Frame::BusLoop { bus, device } => s_bus_from(cs, bus, device + 1, budget),
        Frame::DeviceFirst { bus, device } => s_device_tail(cs, bus, device, budget),
        Frame::DeviceLoop { bus, device, function } => s_device_from(cs, bus, device, function + 1, budget),
    }
}

/// What the frames of `stack` add, innermost first.
pub open spec fn s_cont(cs: ConfigSpace, stack: Seq<Frame>, budget: nat) -> Option<Seq<PciDevice>>
    decreases stack.len(),
{
    if stack.len() == 0 {
        Some(Seq::empty())
    } else {
        match s_frame(cs, stack.last(), budget) {
            None => None,
            Some(r1) => match s_cont(cs, stack.drop_last(), left(budget, r1)) {
                None => None,
                Some(r2) => Some(r1 + r2),
            },
        }
    }
}

/// What the scan routine waiting for the read `p` adds, up to its return.
pub open spec fn s_pending(cs: ConfigSpace, p: Pending, budget: nat) -> Option<Seq<PciDevice>> {
    match p {
        Pending::Idle => Some(Seq::empty()),
        Pending::RootHeader => s_scan_devices(cs, budget),
        Pending::RootFunction { function } => s_root_from(cs, function as int, budget),
        Pending::BusDevice { bus, device } => s_bus_from(cs, bus, device as int, budget),
        Pending::Function { bus, device, function } => s_function(cs, bus, device, function, budget),
        Pending::DeviceHeader { bus, device } => s_device_tail(cs, bus, device, budget),
        Pending::DeviceFunction { bus, device, function } => s_device_from(cs, bus, device, function as int, budget),
    }
}

/// What a scan in state `(p, stack)` still adds, with room for `budget`.
pub open spec fn s_rest(cs: ConfigSpace, p: Pending, stack: Seq<Frame>, budget: nat) -> Option<Seq<PciDevice>> {
    match s_pending(cs, p, budget) {
        None => None,
        Some(r1) => match s_cont(cs, stack, left(budget, r1)) {
            None => None,
            Some(r2) => Some(r1 + r2),
        },
    }
}

proof fn lemma_frame_fits(cs: ConfigSpace, f: Frame, budget: nat)
    ensures
        fits(s_frame(cs, f, budget), budget),
{
    match f {
        Frame::RootLoop { function } => lemma_root_from_fits(cs, function + 1, budget),
        Frame::BusLoop { bus, device } => lemma_bus_from_fits(cs, bus, device + 1, budget),
        Frame::DeviceFirst { bus, device } => lemma_device_tail_fits(cs, bus, device, budget),
        Frame::DeviceLoop { bus, device, function } => lemma_device_from_fits(cs, bus, device, function + 1, budget),
    }
}

proof fn lemma_cont_fits(cs: ConfigSpace, stack: Seq<Frame>, budget: nat)
    ensures
        fits(s_cont(cs, stack, budget), budget),
    decreases stack.len(),
{
    if stack.len() > 0 {
        lemma_frame_fits(cs, stack.last(), budget);
        if let Some(r1) = s_frame(cs, stack.last(), budget) {
            lemma_cont_fits(cs, stack.drop_last(), left(budget, r1));
        }
    }
}

/// Returning into `stack` adds what the state that `spec_ret` reaches adds.
pub proof fn lemma_ret_meaning(cs: ConfigSpace, stack: Seq<Frame>, budget: nat)
    ensures
        s_cont(cs, stack, budget) == s_rest(cs, spec_ret(stack).0, spec_ret(stack).1, budget),
    decreases stack.len(),
{
    let e = Seq::<PciDevice>::empty();
    if stack.len() == 0 {
        assert(e + e =~= e);
    } else {
        let rest = stack.drop_last();
        lemma_ret_meaning(cs, rest, budget);
        let done = match stack.last() {
            Frame::RootLoop { function } => function + 1 >= 8,
            Frame::BusLoop { bus, device } => device + 1 >= 32,
            Frame::DeviceFirst { bus, device } => false,
            Frame::DeviceLoop { bus, device, function } => function + 1 >= 8,
        };
        if done {
            assert(s_frame(cs, stack.last(), budget) == Some(e));
            assert(left(budget, e) == budget);
            match s_cont(cs, rest, budget) {
                None => {},
                Some(r2) => {
                    assert(e + r2 =~= r2);
                },
            }
        } else {
            lemma_frame_fits(cs, stack.last(), budget);
        }
    }
}

} // verus!

verus! {

proof fn lemma_then_assoc(
    x: Option<Seq<PciDevice>>,
    budget: nat,
    k1: spec_fn(nat) -> Option<Seq<PciDevice>>,
    k2: spec_fn(nat) -> Option<Seq<PciDevice>>,
)
    requires
        fits(x, budget),
        forall|b: nat| fits(#[trigger] k1(b), b),
    ensures
        then(then(x, budget, k1), budget, k2) == then(x, budget, |b: nat| then(k1(b), b, k2)),
{
    match x {
        None => {},
        Some(r1) => {
            let b1 = left(budget, r1);
            assert(fits(k1(b1), b1));
            match k1(b1) {
                None => {},
                Some(r2) => {
                    assert(left(budget, r1 + r2) == left(b1, r2));
                    match k2(left(b1, r2)) {
                        None => {},
                        Some(r3) => {
                            assert((r1 + r2) + r3 =~= r1 + (r2 + r3));
                        },
                    }
                },
            }
        },
    }
}

proof fn lemma_then_empty(budget: nat, k: spec_fn(nat) -> Option<Seq<PciDevice>>)
    ensures
        then(Some(Seq::empty()), budget, k) == k(budget),
{
    let e = Seq::<PciDevice>::empty();
    assert(left(budget, e) == budget);
    if let Some(r) = k(budget) {
        assert(e + r =~= r);
    }
}

/// The header that answers the read `p` asks for.
pub open spec fn answer(cs: ConfigSpace, p: Pending) -> PciConfig {
    match step_of(p) {
        ScanStep::Read { bus, device, function } => cs(bus, device, function),
        ScanStep::Done => cs(0, 0, 0),
    }
}

/// The room left in the result table after `found`.
pub open spec fn budget_of(found: Seq<PciDevice>) -> nat {
    if found.len() <= MAX_DEVICES {
        (MAX_DEVICES - found.len()) as nat
    } else {
        0
    }
}

/// `x` put in front of the records of `r`.
pub open spec fn prepend(x: Seq<PciDevice>, r: Option<Seq<PciDevice>>) -> Option<Seq<PciDevice>> {
    match r {
        None => None,
        Some(s) => Some(x + s),
    }
}

} // verus!

verus! {

proof fn lemma_rest_then(cs: ConfigSpace, p: Pending, stack: Seq<Frame>, budget: nat)
    ensures
        s_rest(cs, p, stack, budget) == then(s_pending(cs, p, budget), budget, |b: nat| s_cont(cs, stack, b)),
{
}

proof fn lemma_cont_push(cs: ConfigSpace, stack: Seq<Frame>, f: Frame, budget: nat)
    ensures
        s_cont(cs, stack.push(f), budget) == then(s_frame(cs, f, budget), budget, |b: nat| s_cont(cs, stack, b)),
{
    assert(stack.push(f).drop_last() =~= stack);
}

/// The step from state `(p, stack)` with records `found`, answered with the
/// header the configuration space holds at the address it reads, keeps what
/// the scan adds: the record the step makes, followed by what the next
/// state adds. A record asked for when the table is full means the scan
/// overflows.
pub open spec fn answer_keeps_meaning(cs: ConfigSpace, p: Pending, stack: Seq<Frame>, found: Seq<PciDevice>) -> bool {
    if p is Function && found.len() == MAX_DEVICES {
        s_rest(cs, p, stack, budget_of(found)) is None
    } else {
        let c = answer(cs, p);
        let (p2, st2) = spec_answer(p, stack, c);
        let f2 = spec_record(p, found, c);
        s_rest(cs, p, stack, budget_of(found)) == prepend(
            f2.skip(found.len() as int),
            s_rest(cs, p2, st2, budget_of(f2)),
        )
    }
}

proof fn lemma_prepend_empty(r: Option<Seq<PciDevice>>)
    ensures
        prepend(Seq::empty(), r) == r,
{
    if let Some(x) = r {
        assert(Seq::<PciDevice>::empty() + x =~= x);
    }
}

proof fn lemma_answer_simple(cs: ConfigSpace, p: Pending, stack: Seq<Frame>, found: Seq<PciDevice>)
    requires
        found.len() <= MAX_DEVICES,
        p is RootHeader || p is DeviceHeader,
    ensures
        answer_keeps_meaning(cs, p, stack, found),
{
    let bud = budget_of(found);
    let c = answer(cs, p);
    let kc = |b: nat| s_cont(cs, stack, b);
    let (p2, st2) = spec_answer(p, stack, c);
    assert(found.skip(found.len() as int) =~= Seq::<PciDevice>::empty());
    lemma_rest_then(cs, p, stack, bud);
    lemma_rest_then(cs, p2, st2, bud);
    lemma_prepend_empty(s_rest(cs, p2, st2, bud));
    if p is DeviceHeader && !c.spec_is_multi_function() {
        lemma_then_empty(bud, kc);
        lemma_ret_meaning(cs, stack, bud);
    }
}

proof fn lemma_answer_root_function(cs: ConfigSpace, function: u8, stack: Seq<Frame>, found: Seq<PciDevice>)
    requires
        found.len() <= MAX_DEVICES,
        function < 8,
    ensures
        answer_keeps_meaning(cs, Pending::RootFunction { function }, stack, found),
{
    let p = Pending::RootFunction { function };
    let bud = budget_of(found);
    let c = answer(cs, p);
    let kc = |b: nat| s_cont(cs, stack, b);
    let (p2, st2) = spec_answer(p, stack, c);
    assert(found.skip(found.len() as int) =~= Seq::<PciDevice>::empty());
    lemma_rest_then(cs, p, stack, bud);
    lemma_rest_then(cs, p2, st2, bud);
    lemma_prepend_empty(s_rest(cs, p2, st2, bud));
    if is_absent(c) {
        assert(c == cs(0, 0, function));
        if function + 1 >= 8 {
            assert(s_root_from(cs, function + 1, bud) == Some(Seq::<PciDevice>::empty()));
            lemma_then_empty(bud, kc);
            lemma_ret_meaning(cs, stack, bud);
        } else {
            assert(s_pending(cs, p, bud) == s_pending(cs, p2, bud));
        }
    } else {
        let k1 = |b: nat| s_root_from(cs, function + 1, b);
        assert(s_pending(cs, p, bud) == then(s_bus_from(cs, function, 0, bud), bud, k1));
        lemma_bus_from_fits(cs, function, 0, bud);
        assert forall|b: nat| fits(#[trigger] k1(b), b) by {
            lemma_root_from_fits(cs, function + 1, b);
        }
        lemma_then_assoc(s_bus_from(cs, function, 0, bud), bud, k1, kc);
        assert forall|b: nat| #[trigger] s_cont(cs, st2, b) == then(k1(b), b, kc) by {
            lemma_cont_push(cs, stack, Frame::RootLoop { function }, b);
        }
    }
}

proof fn lemma_answer_device_function(
    cs: ConfigSpace,
    bus: u8,
    device: u8,
    function: u8,
    stack: Seq<Frame>,
    found: Seq<PciDevice>,
)
    requires
        found.len() <= MAX_DEVICES,
        function < 8,
    ensures
        answer_keeps_meaning(cs, Pending::DeviceFunction { bus, device, function }, stack, found),
{
    let p = Pending::DeviceFunction { bus, device, function };
    let bud = budget_of(found);
    let c = answer(cs, p);
    let kc = |b: nat| s_cont(cs, stack, b);
    let (p2, st2) = spec_answer(p, stack, c);
    assert(found.skip(found.len() as int) =~= Seq::<PciDevice>::empty());
    lemma_rest_then(cs, p, stack, bud);
    lemma_rest_then(cs, p2, st2, bud);
    lemma_prepend_empty(s_rest(cs, p2, st2, bud));
    if is_absent(c) {
        if function + 1 >= 8 {
            assert(s_device_from(cs, bus, device, function + 1, bud) == Some(Seq::<PciDevice>::empty()));
            lemma_then_empty(bud, kc);
            lemma_ret_meaning(cs, stack, bud);
        }
    } else {
        let k1 = |b: nat| s_device_from(cs, bus, device, function + 1, b);
        lemma_function_fits(cs, bus, device, function, bud);
        assert forall|b: nat| fits(#[trigger] k1(b), b) by {
            lemma_device_from_fits(cs, bus, device, function + 1, b);
        }
        lemma_then_assoc(s_function(cs, bus, device, function, bud), bud, k1, kc);
        assert forall|b: nat| #[trigger] s_cont(cs, st2, b) == then(k1(b), b, kc) by {
            lemma_cont_push(cs, stack, Frame::DeviceLoop { bus, device, function }, b);
        }
    }
}

proof fn lemma_answer_bus_device(cs: ConfigSpace, bus: u8, device: u8, stack: Seq<Frame>, found: Seq<PciDevice>)
    requires
        found.len() <= MAX_DEVICES,
        device < 32,
    ensures
        answer_keeps_meaning(cs, Pending::BusDevice { bus, device }, stack, found),
{
    let p = Pending::BusDevice { bus, device };
    let bud = budget_of(found);
    let c = answer(cs, p);
    let kc = |b: nat| s_cont(cs, stack, b);
    let (p2, st2) = spec_answer(p, stack, c);
    assert(found.skip(found.len() as int) =~= Seq::<PciDevice>::empty());
    lemma_rest_then(cs, p, stack, bud);
    lemma_rest_then(cs, p2, st2, bud);
    lemma_prepend_empty(s_rest(cs, p2, st2, bud));
    if is_absent(c) {
        if device + 1 >= 32 {
            assert(s_bus_from(cs, bus, device + 1, bud) == Some(Seq::<PciDevice>::empty()));
            lemma_then_empty(bud, kc);
            lemma_ret_meaning(cs, stack, bud);
        }
    } else {
        let kt = |b: nat| s_device_tail(cs, bus, device, b);
        let kn = |b: nat| s_bus_from(cs, bus, device + 1, b);
        let k2 = |b: nat| then(kt(b), b, kn);
        let fnr = s_function(cs, bus, device, 0, bud);
        lemma_function_fits(cs, bus, device, 0, bud);
        lemma_device_fits(cs, bus, device, bud);
        assert forall|b: nat| fits(#[trigger] kt(b), b) by {
            lemma_device_tail_fits(cs, bus, device, b);
        }
        assert forall|b: nat| fits(#[trigger] kn(b), b) by {
            lemma_bus_from_fits(cs, bus, device + 1, b);
        }
        assert forall|b: nat| fits(#[trigger] k2(b), b) by {
            if let Some(r1) = kt(b) {
                assert(fits(kn(left(b, r1)), left(b, r1)));
            }
        }
        assert(s_device(cs, bus, device, bud) == then(fnr, bud, kt));
        lemma_then_assoc(fnr, bud, kt, kn);
        lemma_then_assoc(then(fnr, bud, kt), bud, kn, kc);
        lemma_then_assoc(fnr, bud, k2, kc);
        let mid = stack.push(Frame::BusLoop { bus, device });
        assert(st2 == mid.push(Frame::DeviceFirst { bus, device }));
        assert forall|b2: nat| #[trigger] s_cont(cs, mid, b2) == then(kn(b2), b2, kc) by {
            lemma_cont_push(cs, stack, Frame::BusLoop { bus, device }, b2);
        }
        assert forall|b: nat| #[trigger] s_cont(cs, st2, b) == then(k2(b), b, kc) by {
            lemma_cont_push(cs, mid, Frame::DeviceFirst { bus, device }, b);
            lemma_then_assoc(kt(b), b, kn, kc);
        }
    }
}

proof fn lemma_answer_function(
    cs: ConfigSpace,
    bus: u8,
    device: u8,
    function: u8,
    stack: Seq<Frame>,
    found: Seq<PciDevice>,
)
    requires
        found.len() <= MAX_DEVICES,
    ensures
        answer_keeps_meaning(cs, Pending::Function { bus, device, function }, stack, found),
{
    let p = Pending::Function { bus, device, function };
    let bud = budget_of(found);
    let c = answer(cs, p);
    lemma_rest_then(cs, p, stack, bud);
    if found.len() < MAX_DEVICES {
        let (p2, st2) = spec_answer(p, stack, c);
        let f2 = spec_record(p, found, c);
        let d = PciDevice { bus, device, function, config: c };
        assert(f2.skip(found.len() as int) =~= seq![d]);
        assert(budget_of(f2) == bud - 1);
        lemma_rest_then(cs, p2, st2, (bud - 1) as nat);
        if c.spec_is_bridge() {
            let sub = s_bus_from(cs, c.spec_secondary_bus(), 0, (bud - 1) as nat);
            lemma_bus_from_fits(cs, c.spec_secondary_bus(), 0, (bud - 1) as nat);
            if let Some(r) = sub {
                assert(left(bud, seq![d] + r) == left((bud - 1) as nat, r));
                if let Some(r2) = s_cont(cs, stack, left((bud - 1) as nat, r)) {
                    assert((seq![d] + r) + r2 =~= seq![d] + (r + r2));
                }
            }
        } else {
            lemma_ret_meaning(cs, stack, (bud - 1) as nat);
            assert(left(bud, seq![d]) == bud - 1);
        }
    }
}

/// Each step keeps what the scan adds (see `answer_keeps_meaning`).
pub proof fn lemma_answer_meaning(cs: ConfigSpace, p: Pending, stack: Seq<Frame>, found: Seq<PciDevice>)
    requires
        found.len() <= MAX_DEVICES,
        !(p is Idle),
        valid_pending(p),
    ensures
        answer_keeps_meaning(cs, p, stack, found),
{
    match p {
        Pending::Idle => {},
        Pending::RootHeader => lemma_answer_simple(cs, p, stack, found),
        Pending::DeviceHeader { .. } => lemma_answer_simple(cs, p, stack, found),
        Pending::RootFunction { function } => lemma_answer_root_function(cs, function, stack, found),
        Pending::BusDevice { bus, device } => lemma_answer_bus_device(cs, bus, device, stack, found),
        Pending::Function { bus, device, function } => lemma_answer_function(cs, bus, device, function, stack, found),
        Pending::DeviceFunction { bus, device, function } =>
            lemma_answer_device_function(cs, bus, device, function, stack, found),
    }
}

} // verus!

verus! {

/// The state of a scan: the read it waits for, its frames and its records.
pub type ScanState = (Pending, Seq<Frame>, Seq<PciDevice>);

pub open spec fn scan_state_wf(s: ScanState) -> bool {
    &&& valid_pending(s.0)
    &&& valid_frames(s.1)
    &&& s.2.len() <= MAX_DEVICES
    &&& s.0 is Idle ==> s.1.len() == 0
}

/// The scan asks to record a function when its table is full.
pub open spec fn overflows(s: ScanState) -> bool {
    s.0 is Function && s.2.len() >= MAX_DEVICES
}

/// One step, with the read answered from the configuration space.
pub open spec fn spec_step(cs: ConfigSpace, s: ScanState) -> ScanState {
    let c = answer(cs, s.0);
    let (p2, st2) = spec_answer(s.0, s.1, c);
    (p2, st2, spec_record(s.0, s.2, c))
}

/// At most `n` steps, stopping when the scan is done or overflows.
pub open spec fn run(cs: ConfigSpace, s: ScanState, n: nat) -> ScanState
    decreases n,
{
    if n == 0 || s.0 is Idle || overflows(s) {
        s
    } else {
        run(cs, spec_step(cs, s), (n - 1) as nat)
    }
}

proof fn lemma_step_wf(cs: ConfigSpace, s: ScanState)
    requires
        scan_state_wf(s),
        !(s.0 is Idle),
        !overflows(s),
    ensures
        scan_state_wf(spec_step(cs, s)),
        spec_step(cs, s).2.take(s.2.len() as int) == s.2,
        spec_step(cs, s).2.len() >= s.2.len(),
{
    let c = answer(cs, s.0);
    lemma_ret_valid(s.1);
    let t = spec_step(cs, s);
    assert(t.2.take(s.2.len() as int) =~= s.2);
    assert forall|i: int| 0 <= i < t.1.len() implies valid_frame(#[trigger] t.1[i]) by {
        if i < s.1.len() {
            if !(t.1 == spec_ret(s.1).1) {
                assert(t.1[i] == s.1[i]);
            }
        }
    }
}

proof fn lemma_prepend_assoc(x: Seq<PciDevice>, y: Seq<PciDevice>, r: Option<Seq<PciDevice>>)
    ensures
        prepend(x, prepend(y, r)) == prepend(x + y, r),
{
    if let Some(z) = r {
        assert(x + (y + z) =~= (x + y) + z);
    }
}

/// Whatever number of steps the scan takes from a valid state, the records
/// it adds on the way followed by what the state reached still adds are what
/// the starting state adds; the records made so far are kept.
pub proof fn lemma_run_meaning(cs: ConfigSpace, s: ScanState, n: nat)
    requires
        scan_state_wf(s),
    ensures
        scan_state_wf(run(cs, s, n)),
        run(cs, s, n).2.len() >= s.2.len(),
        run(cs, s, n).2.take(s.2.len() as int) == s.2,
        s_rest(cs, s.0, s.1, budget_of(s.2)) == prepend(
            run(cs, s, n).2.skip(s.2.len() as int),
            s_rest(cs, run(cs, s, n).0, run(cs, s, n).1, budget_of(run(cs, s, n).2)),
        ),
    decreases n,
{
    let e = Seq::<PciDevice>::empty();
    if n == 0 || s.0 is Idle || overflows(s) {
        assert(s.2.skip(s.2.len() as int) =~= e);
        assert(s.2.take(s.2.len() as int) =~= s.2);
        lemma_prepend_empty(s_rest(cs, s.0, s.1, budget_of(s.2)));
    } else {
        let t = spec_step(cs, s);
        lemma_step_wf(cs, s);
        lemma_answer_meaning(cs, s.0, s.1, s.2);
        lemma_run_meaning(cs, t, (n - 1) as nat);
        let u = run(cs, t, (n - 1) as nat);
        assert(u == run(cs, s, n));
        assert(u.2.take(s.2.len() as int) =~= s.2) by {
            assert forall|i: int| 0 <= i < s.2.len() implies u.2[i] == s.2[i] by {
                assert(u.2.take(t.2.len() as int)[i] == t.2[i]);
                assert(t.2.take(s.2.len() as int)[i] == s.2[i]);
            }
        }
        assert(t.2.skip(s.2.len() as int) + u.2.skip(t.2.len() as int) =~= u.2.skip(s.2.len() as int)) by {
            assert forall|i: int| 0 <= i < t.2.len() implies u.2[i] == t.2[i] by {
                assert(u.2.take(t.2.len() as int)[i] == t.2[i]);
            }
        }
        lemma_prepend_assoc(
            t.2.skip(s.2.len() as int),
            u.2.skip(t.2.len() as int),
            s_rest(cs, u.0, u.1, budget_of(u.2)),
        );
    }
}

/// The step-by-step scan computes the recursive scan: started on records
/// `found` and driven by the headers of the configuration space, when it is
/// done its records are `found` followed by what `s_scan_devices` adds, and
/// when it asks to record a function with a full table, `s_scan_devices`
/// overflows too.
pub proof fn lemma_scan_devices_correct(cs: ConfigSpace, found: Seq<PciDevice>, n: nat)
    requires
        found.len() <= MAX_DEVICES,
    ensures
        ({
            let s = run(cs, (Pending::RootHeader, Seq::empty(), found), n);
            &&& s.2.take(found.len() as int) == found
            &&& s.0 is Idle ==> s_scan_devices(cs, budget_of(found)) == Some(s.2.skip(found.len() as int))
            &&& overflows(s) ==> s_scan_devices(cs, budget_of(found)) is None
        }),
{
    let s0: ScanState = (Pending::RootHeader, Seq::empty(), found);
    let e = Seq::<PciDevice>::empty();
    lemma_run_meaning(cs, s0, n);
    let s = run(cs, s0, n);
    let ef = Seq::<Frame>::empty();
    assert(s_cont(cs, ef, 0) == Some(e));
    if let Some(r) = s_scan_devices(cs, budget_of(found)) {
        assert(s_cont(cs, ef, left(budget_of(found), r)) == Some(e));
        assert(r + e =~= r);
    }
    assert(s_rest(cs, s0.0, s0.1, budget_of(found)) == s_scan_devices(cs, budget_of(found)));
    if s.0 is Idle {
        assert(s.1 =~= ef);
        assert(s_rest(cs, s.0, s.1, budget_of(s.2)) == Some(e + e));
        assert(e + e =~= e);
        assert(s.2.skip(found.len() as int) + e =~= s.2.skip(found.len() as int));
    }
    if overflows(s) {
        lemma_answer_meaning(cs, s.0, s.1, s.2);
    }
}

} // verus!

verus! {

/// A well-formed scanner is in a well-formed scan state.
pub proof fn lemma_scanner_state_wf(m: ScanPciDevices)
    requires
        m.wf(),
    ensures
        scan_state_wf((m.pending(), m.frames(), m.found())),
{
}

} // verus!

verus! {

/// `d` is a present function at a valid location, recorded with the header
/// the configuration space holds there.
pub open spec fn present_record(cs: ConfigSpace, d: PciDevice) -> bool {
    &&& d.device < 32
    &&& d.function < 8
    &&& d.config == cs(d.bus, d.device, d.function)
    &&& !is_absent(d.config)
}

pub open spec fn all_present(cs: ConfigSpace, r: Seq<PciDevice>) -> bool {
    forall|i: int| 0 <= i < r.len() ==> #[trigger] present_record(cs, r[i])
}

/// Every record of `r`, when there is one, is a present function.
pub open spec fn records_present(cs: ConfigSpace, r: Option<Seq<PciDevice>>) -> bool {
    r matches Some(s) ==> all_present(cs, s)
}

proof fn lemma_all_present_concat(cs: ConfigSpace, a: Seq<PciDevice>, b: Seq<PciDevice>)
    requires
        all_present(cs, a),
        all_present(cs, b),
    ensures
        all_present(cs, a + b),
{
    assert forall|i: int| 0 <= i < (a + b).len() implies #[trigger] present_record(cs, (a + b)[i]) by {
        if i < a.len() {
            assert((a + b)[i] == a[i]);
        } else {
            assert((a + b)[i] == b[i - a.len()]);
        }
    }
}

proof fn lemma_function_present(cs: ConfigSpace, bus: u8, device: u8, function: u8, budget: nat)
    requires
        device < 32,
        function < 8,
        !is_absent(cs(bus, device, function)),
    ensures
        records_present(cs, s_function(cs, bus, device, function, budget)),
    decreases budget, 1int, 0int,
{
    let one = seq![dev(cs, bus, device, function)];
    assert(present_record(cs, one[0]));
    if budget > 0 && cs(bus, device, function).spec_is_bridge() {
        let sec = cs(bus, device, function).spec_secondary_bus();
        lemma_bus_from_present(cs, sec, 0, (budget - 1) as nat);
        if let Some(r) = s_bus_from(cs, sec, 0, (budget - 1) as nat) {
            lemma_all_present_concat(cs, one, r);
        }
    }
}

proof fn lemma_device_from_present(cs: ConfigSpace, bus: u8, device: u8, function: int, budget: nat)
    requires
        device < 32,
    ensures
        records_present(cs, s_device_from(cs, bus, device, function, budget)),
    decreases budget, 2int, 8 - function,
{
    if function >= 8 || function < 0 {
    } else if is_absent(cs(bus, device, function as u8)) {
        lemma_device_from_present(cs, bus, device, function + 1, budget);
    } else {
        lemma_function_present(cs, bus, device, function as u8, budget);
        if let Some(r1) = s_function(cs, bus, device, function as u8, budget) {
            lemma_device_from_present(cs, bus, device, function + 1, left(budget, r1));
            if let Some(r2) = s_device_from(cs, bus, device, function + 1, left(budget, r1)) {
                lemma_all_present_concat(cs, r1, r2);
            }
        }
    }
}

proof fn lemma_device_tail_present(cs: ConfigSpace, bus: u8, device: u8, budget: nat)
    requires
        device < 32,
    ensures
        records_present(cs, s_device_tail(cs, bus, device, budget)),
    decreases budget, 3int, 0int,
{
    if cs(bus, device, 0).spec_is_multi_function() {
        lemma_device_from_present(cs, bus, device, 1, budget);
    }
}

proof fn lemma_device_present(cs: ConfigSpace, bus: u8, device: u8, budget: nat)
    requires
        device < 32,
        !is_absent(cs(bus, device, 0)),
    ensures
        records_present(cs, s_device(cs, bus, device, budget)),
    decreases budget, 4int, 0int,
{
    lemma_function_present(cs, bus, device, 0, budget);
    if let Some(r1) = s_function(cs, bus, device, 0, budget) {
        lemma_device_tail_present(cs, bus, device, left(budget, r1));
        if let Some(r2) = s_device_tail(cs, bus, device, left(budget, r1)) {
            lemma_all_present_concat(cs, r1, r2);
        }
    }
}

proof fn lemma_bus_from_present(cs: ConfigSpace, bus: u8, device: int, budget: nat)
    ensures
        records_present(cs, s_bus_from(cs, bus, device, budget)),
    decreases budget, 5int, 32 - device,
{
    if device >= 32 || device < 0 {
    } else if is_absent(cs(bus, device as u8, 0)) {
        lemma_bus_from_present(cs, bus, device + 1, budget);
    } else {
        lemma_device_present(cs, bus, device as u8, budget);
        if let Some(r1) = s_device(cs, bus, device as u8, budget) {
            lemma_bus_from_present(cs, bus, device + 1, left(budget, r1));
            if let Some(r2) = s_bus_from(cs, bus, device + 1, left(budget, r1)) {
                lemma_all_present_concat(cs, r1, r2);
            }
        }
    }
}

proof fn lemma_root_from_present(cs: ConfigSpace, function: int, budget: nat)
    ensures
        records_present(cs, s_root_from(cs, function, budget)),
    decreases budget, 6int, 8 - function,
{
    if function >= 8 || function < 0 {
    } else if is_absent(cs(0, 0, function as u8)) {
        lemma_root_from_present(cs, function + 1, budget);
    } else {
        lemma_bus_from_present(cs, function as u8, 0, budget);
        if let Some(r1) = s_bus_from(cs, function as u8, 0, budget) {
            lemma_root_from_present(cs, function + 1, left(budget, r1));
            if let Some(r2) = s_root_from(cs, function + 1, left(budget, r1)) {
                lemma_all_present_concat(cs, r1, r2);
            }
        }
    }
}

/// Every function the recursive scan records is present, at a device below
/// 32 and a function below 8, with the header found at its address.
pub proof fn lemma_scan_devices_present(cs: ConfigSpace, budget: nat)
    ensures
        records_present(cs, s_scan_devices(cs, budget)),
{
    if !cs(0, 0, 0).spec_is_multi_function() {
        lemma_bus_from_present(cs, 0, 0, budget);
    } else {
        lemma_root_from_present(cs, 1, budget);
    }
}

/// The records a finished step-by-step scan adds, after those it started
/// with, are present functions with valid locations and their headers.
pub proof fn lemma_scan_records_present(cs: ConfigSpace, found: Seq<PciDevice>, n: nat)
    requires
        found.len() <= MAX_DEVICES,
    ensures
        ({
            let s = run(cs, (Pending::RootHeader, Seq::empty(), found), n);
            s.0 is Idle ==> forall|k: int|
                found.len() <= k < s.2.len() ==> #[trigger] present_record(cs, s.2[k])
        }),
{
    let s = run(cs, (Pending::RootHeader, Seq::empty(), found), n);
    lemma_scan_devices_correct(cs, found, n);
    lemma_scan_devices_present(cs, budget_of(found));
    if s.0 is Idle {
        let added = s.2.skip(found.len() as int);
        assert forall|k: int| found.len() <= k < s.2.len() implies #[trigger] present_record(cs, s.2[k]) by {
            assert(added[k - found.len()] == s.2[k]);
        }
    }
}

} // verus!

verus! {

/// `k1` steps that produce `r1`, followed, when `r1` is no overflow, by the
/// steps `k2` takes with the room that `r1` leaves.
pub open spec fn kthen(k1: nat, r1: Option<Seq<PciDevice>>, budget: nat, k2: spec_fn(nat) -> nat) -> nat {
    match r1 {
        None => k1,
        Some(r) => k1 + k2(left(budget, r)),
    }
}

/// The number of reads scanning a present function takes, up to its return
/// or the overflow.
pub open spec fn k_function(cs: ConfigSpace, bus: u8, device: u8, function: u8, budget: nat) -> nat
    decreases budget, 1int, 0int,
{
    if budget == 0 {
        0
    } else if cs(bus, device, function).spec_is_bridge() {
        1 + k_bus_from(cs, cs(bus, device, function).spec_secondary_bus(), 0, (budget - 1) as nat)
    } else {
        1
    }
}

pub open spec fn k_device_from(cs: ConfigSpace, bus: u8, device: u8, function: int, budget: nat) -> nat
    decreases budget, 2int, 8 - function,
{
    if function >= 8 || function < 0 {
        0
    } else if is_absent(cs(bus, device, function as u8)) {
        1 + k_device_from(cs, bus, device, function + 1, budget)
    } else {
        1 + match s_function(cs, bus, device, function as u8, budget) {
            None => k_function(cs, bus, device, function as u8, budget),
            Some(r1) => k_function(cs, bus, device, function as u8, budget)
                + k_device_from(cs, bus, device, function + 1, left(budget, r1)),
        }
    }
}

pub open spec fn k_device_tail(cs: ConfigSpace, bus: u8, device: u8, budget: nat) -> nat
    decreases budget, 3int, 0int,
{
    if !cs(bus, device, 0).spec_is_multi_function() {
        1
    } else {
        1 + k_device_from(cs, bus, device, 1, budget)
    }
}

pub open spec fn k_device(cs: ConfigSpace, bus: u8, device: u8, budget: nat) -> nat
    decreases budget, 4int, 0int,
{
    match s_function(cs, bus, device, 0, budget) {
        None => k_function(cs, bus, device, 0, budget),
        Some(r1) => k_function(cs, bus, device, 0, budget) + k_device_tail(cs, bus, device, left(budget, r1)),
    }
}

pub open spec fn k_bus_from(cs: ConfigSpace, bus: u8, device: int, budget: nat) -> nat
    decreases budget, 5int, 32 - device,
{
    if device >= 32 || device < 0 {
        0
    } else if is_absent(cs(bus, device as u8, 0)) {
        1 + k_bus_from(cs, bus, device + 1, budget)
    } else {
        1 + match s_device(cs, bus, device as u8, budget) {
            None => k_device(cs, bus, device as u8, budget),
            Some(r1) => k_device(cs, bus, device as u8, budget) + k_bus_from(cs, bus, device + 1, left(budget, r1)),
        }
    }
}

pub open spec fn k_root_from(cs: ConfigSpace, function: int, budget: nat) -> nat
    decreases budget, 6int, 8 - function,
{
    if function >= 8 || function < 0 {
        0
    } else if is_absent(cs(0, 0, function as u8)) {
        1 + k_root_from(cs, function + 1, budget)
    } else {
        1 + match s_bus_from(cs, function as u8, 0, budget) {
            None => k_bus_from(cs, function as u8, 0, budget),
            Some(r1) => k_bus_from(cs, function as u8, 0, budget) + k_root_from(cs, function + 1, left(budget, r1)),
        }
    }
}

pub open spec fn k_scan_devices(cs: ConfigSpace, budget: nat) -> nat {
    if !cs(0, 0, 0).spec_is_multi_function() {
        1 + k_bus_from(cs, 0, 0, budget)
    } else {
        1 + k_root_from(cs, 1, budget)
    }
}

pub open spec fn k_frame(cs: ConfigSpace, f: Frame, budget: nat) -> nat {
    match f {
        Frame::RootLoop { function } => k_root_from(cs, function + 1, budget),
        Frame::BusLoop { bus, device } => k_bus_from(cs, bus, device + 1, budget),
        Frame::DeviceFirst { bus, device } => k_device_tail(cs, bus, device, budget),
        Frame::DeviceLoop { bus, device, function } => k_device_from(cs, bus, device, function + 1, budget),
    }
}

pub open spec fn k_cont(cs: ConfigSpace, stack: Seq<Frame>, budget: nat) -> nat
    decreases stack.len(),
{
    if stack.len() == 0 {
        0
    } else {
        match s_frame(cs, stack.last(), budget) {
            None => k_frame(cs, stack.last(), budget),
            Some(r1) => k_frame(cs, stack.last(), budget) + k_cont(cs, stack.drop_last(), left(budget, r1)),
        }
    }
}

pub open spec fn k_pending(cs: ConfigSpace, p: Pending, budget: nat) -> nat {
    match p {
        Pending::Idle => 0,
        Pending::RootHeader => k_scan_devices(cs, budget),
        Pending::RootFunction { function } => k_root_from(cs, function as int, budget),
        Pending::BusDevice { bus, device } => k_bus_from(cs, bus, device as int, budget),
        Pending::Function { bus, device, function } => k_function(cs, bus, device, function, budget),
        Pending::DeviceHeader { bus, device } => k_device_tail(cs, bus, device, budget),
        Pending::DeviceFunction { bus, device, function } => k_device_from(cs, bus, device, function as int, budget),
    }
}

/// The number of steps a scan in state `(p, stack)` with room for `budget`
/// still takes before it is done or overflows.
pub open spec fn k_rest(cs: ConfigSpace, p: Pending, stack: Seq<Frame>, budget: nat) -> nat {
    kthen(k_pending(cs, p, budget), s_pending(cs, p, budget), budget, |b: nat| k_cont(cs, stack, b))
}

} // verus!

verus! {

proof fn lemma_kthen_assoc(
    k1: nat,
    x: Option<Seq<PciDevice>>,
    budget: nat,
    k2: spec_fn(nat) -> nat,
    r2: spec_fn(nat) -> Option<Seq<PciDevice>>,
    k3: spec_fn(nat) -> nat,
)
    requires
        fits(x, budget),
        forall|b: nat| fits(#[trigger] r2(b), b),
    ensures
        kthen(kthen(k1, x, budget, k2), then(x, budget, r2), budget, k3)
            == kthen(k1, x, budget, |b: nat| kthen(k2(b), r2(b), b, k3)),
{
    if let Some(r1) = x {
        let b1 = left(budget, r1);
        assert(fits(r2(b1), b1));
        if let Some(s2) = r2(b1) {
            assert(left(budget, r1 + s2) == left(b1, s2));
        }
    }
}

proof fn lemma_kthen_succ(k: nat, x: Option<Seq<PciDevice>>, budget: nat, k2: spec_fn(nat) -> nat)
    ensures
        kthen(1 + k, x, budget, k2) == 1 + kthen(k, x, budget, k2),
{
}

proof fn lemma_cont_push_count(cs: ConfigSpace, stack: Seq<Frame>, f: Frame, budget: nat)
    ensures
        k_cont(cs, stack.push(f), budget) == kthen(
            k_frame(cs, f, budget),
            s_frame(cs, f, budget),
            budget,
            |b: nat| k_cont(cs, stack, b),
        ),
{
    assert(stack.push(f).drop_last() =~= stack);
}

/// Returning into `stack` takes no step of its own.
proof fn lemma_ret_count(cs: ConfigSpace, stack: Seq<Frame>, budget: nat)
    ensures
        k_cont(cs, stack, budget) == k_rest(cs, spec_ret(stack).0, spec_ret(stack).1, budget),
    decreases stack.len(),
{
    let e = Seq::<PciDevice>::empty();
    if stack.len() > 0 {
        let rest = stack.drop_last();
        lemma_ret_count(cs, rest, budget);
        let done = match stack.last() {
            Frame::RootLoop { function } => function + 1 >= 8,
            Frame::BusLoop { bus, device } => device + 1 >= 32,
            Frame::DeviceFirst { bus, device } => false,
            Frame::DeviceLoop { bus, device, function } => function + 1 >= 8,
        };
        if done {
            assert(s_frame(cs, stack.last(), budget) == Some(e));
            assert(k_frame(cs, stack.last(), budget) == 0);
            assert(left(budget, e) == budget);
        }
    }
}

/// The step from state `(p, stack)` with records `found`, answered from the
/// configuration space, leaves one step fewer to take.
pub open spec fn step_counts_down(cs: ConfigSpace, p: Pending, stack: Seq<Frame>, found: Seq<PciDevice>) -> bool {
    let c = answer(cs, p);
    let (p2, st2) = spec_answer(p, stack, c);
    let f2 = spec_record(p, found, c);
    k_rest(cs, p, stack, budget_of(found)) == 1 + k_rest(cs, p2, st2, budget_of(f2))
}

proof fn lemma_count_simple(cs: ConfigSpace, p: Pending, stack: Seq<Frame>, found: Seq<PciDevice>)
    requires
        found.len() <= MAX_DEVICES,
        p is RootHeader || p is DeviceHeader,
    ensures
        step_counts_down(cs, p, stack, found),
{
    let bud = budget_of(found);
    let c = answer(cs, p);
    let kc = |b: nat| k_cont(cs, stack, b);
    let (p2, st2) = spec_answer(p, stack, c);
    if p is RootHeader {
        let x = if !c.spec_is_multi_function() { k_bus_from(cs, 0, 0, bud) } else { k_root_from(cs, 1, bud) };
        lemma_kthen_succ(x, s_pending(cs, p, bud), bud, kc);
    } else if !c.spec_is_multi_function() {
        lemma_ret_count(cs, stack, bud);
        assert(left(bud, Seq::<PciDevice>::empty()) == bud);
    } else {
        match p {
            Pending::DeviceHeader { bus, device } => {
                lemma_kthen_succ(k_device_from(cs, bus, device, 1, bud), s_pending(cs, p, bud), bud, kc);
            },
            _ => {},
        }
    }
}

proof fn lemma_count_root_function(cs: ConfigSpace, function: u8, stack: Seq<Frame>, found: Seq<PciDevice>)
    requires
        found.len() <= MAX_DEVICES,
        function < 8,
    ensures
        step_counts_down(cs, Pending::RootFunction { function }, stack, found),
{
    let p = Pending::RootFunction { function };
    let bud = budget_of(found);
    let c = answer(cs, p);
    let kc = |b: nat| k_cont(cs, stack, b);
    let sc = |b: nat| s_cont(cs, stack, b);
    let (p2, st2) = spec_answer(p, stack, c);
    let e = Seq::<PciDevice>::empty();
    if is_absent(c) {
        assert(c == cs(0, 0, function));
        if function + 1 >= 8 {
            assert(s_root_from(cs, function + 1, bud) == Some(e));
            assert(k_root_from(cs, function + 1, bud) == 0);
            lemma_ret_count(cs, stack, bud);
            assert(left(bud, e) == bud);
        } else {
            lemma_kthen_succ(k_root_from(cs, function + 1, bud), s_pending(cs, p, bud), bud, kc);
        }
    } else {
        let kb = k_bus_from(cs, function, 0, bud);
        let sb = s_bus_from(cs, function, 0, bud);
        let kr = |b: nat| k_root_from(cs, function + 1, b);
        let sr = |b: nat| s_root_from(cs, function + 1, b);
        lemma_bus_from_fits(cs, function, 0, bud);
        assert forall|b: nat| fits(#[trigger] sr(b), b) by {
            lemma_root_from_fits(cs, function + 1, b);
        }
        assert(k_pending(cs, p, bud) == 1 + kthen(kb, sb, bud, kr));
        assert(s_pending(cs, p, bud) == then(sb, bud, sr));
        lemma_kthen_succ(kthen(kb, sb, bud, kr), then(sb, bud, sr), bud, kc);
        lemma_kthen_assoc(kb, sb, bud, kr, sr, kc);
        assert forall|b: nat| #[trigger] k_cont(cs, st2, b) == kthen(kr(b), sr(b), b, kc) by {
            lemma_cont_push_count(cs, stack, Frame::RootLoop { function }, b);
        }
    }
}

proof fn lemma_count_device_function(
    cs: ConfigSpace,
    bus: u8,
    device: u8,
    function: u8,
    stack: Seq<Frame>,
    found: Seq<PciDevice>,
)
    requires
        found.len() <= MAX_DEVICES,
        function < 8,
    ensures
        step_counts_down(cs, Pending::DeviceFunction { bus, device, function }, stack, found),
{
    let p = Pending::DeviceFunction { bus, device, function };
    let bud = budget_of(found);
    let c = answer(cs, p);
    let kc = |b: nat| k_cont(cs, stack, b);
    let (p2, st2) = spec_answer(p, stack, c);
    let e = Seq::<PciDevice>::empty();
    if is_absent(c) {
        if function + 1 >= 8 {
            assert(s_device_from(cs, bus, device, function + 1, bud) == Some(e));
            assert(k_device_from(cs, bus, device, function + 1, bud) == 0);
            lemma_ret_count(cs, stack, bud);
            assert(left(bud, e) == bud);
        } else {
            lemma_kthen_succ(k_device_from(cs, bus, device, function + 1, bud), s_pending(cs, p, bud), bud, kc);
        }
    } else {
        let kf = k_function(cs, bus, device, function, bud);
        let sf = s_function(cs, bus, device, function, bud);
        let kr = |b: nat| k_device_from(cs, bus, device, function + 1, b);
        let sr = |b: nat| s_device_from(cs, bus, device, function + 1, b);
        lemma_function_fits(cs, bus, device, function, bud);
        assert forall|b: nat| fits(#[trigger] sr(b), b) by {
            lemma_device_from_fits(cs, bus, device, function + 1, b);
        }
        assert(k_pending(cs, p, bud) == 1 + kthen(kf, sf, bud, kr));
        assert(s_pending(cs, p, bud) == then(sf, bud, sr));
        lemma_kthen_succ(kthen(kf, sf, bud, kr), then(sf, bud, sr), bud, kc);
        lemma_kthen_assoc(kf, sf, bud, kr, sr, kc);
        assert forall|b: nat| #[trigger] k_cont(cs, st2, b) == kthen(kr(b), sr(b), b, kc) by {
            lemma_cont_push_count(cs, stack, Frame::DeviceLoop { bus, device, function }, b);
        }
    }
}

proof fn lemma_count_bus_device(cs: ConfigSpace, bus: u8, device: u8, stack: Seq<Frame>, found: Seq<PciDevice>)
    requires
        found.len() <= MAX_DEVICES,
        device < 32,
    ensures
        step_counts_down(cs, Pending::BusDevice { bus, device }, stack, found),
{
    let p = Pending::BusDevice { bus, device };
    let bud = budget_of(found);
    let c = answer(cs, p);
    let kc = |b: nat| k_cont(cs, stack, b);
    let sc = |b: nat| s_cont(cs, stack, b);
    let (p2, st2) = spec_answer(p, stack, c);
    let e = Seq::<PciDevice>::empty();
    if is_absent(c) {
        if device + 1 >= 32 {
            assert(s_bus_from(cs, bus, device + 1, bud) == Some(e));
            assert(k_bus_from(cs, bus, device + 1, bud) == 0);
            lemma_ret_count(cs, stack, bud);
            assert(left(bud, e) == bud);
        } else {
            lemma_kthen_succ(k_bus_from(cs, bus, device + 1, bud), s_pending(cs, p, bud), bud, kc);
        }
    } else {
        let kf = k_function(cs, bus, device, 0, bud);
        let sf = s_function(cs, bus, device, 0, bud);
        let kt = |b: nat| k_device_tail(cs, bus, device, b);
        let st = |b: nat| s_device_tail(cs, bus, device, b);
        let kn = |b: nat| k_bus_from(cs, bus, device + 1, b);
        let sn = |b: nat| s_bus_from(cs, bus, device + 1, b);
        let k2 = |b: nat| kthen(kt(b), st(b), b, kn);
        let s2 = |b: nat| then(st(b), b, sn);
        lemma_function_fits(cs, bus, device, 0, bud);
        lemma_device_fits(cs, bus, device, bud);
        assert forall|b: nat| fits(#[trigger] st(b), b) by {
            lemma_device_tail_fits(cs, bus, device, b);
        }
        assert forall|b: nat| fits(#[trigger] sn(b), b) by {
            lemma_bus_from_fits(cs, bus, device + 1, b);
        }
        assert forall|b: nat| fits(#[trigger] s2(b), b) by {
            if let Some(r1) = st(b) {
                assert(fits(sn(left(b, r1)), left(b, r1)));
            }
        }
        let kd = kthen(kf, sf, bud, kt);
        let sd = then(sf, bud, st);
        assert(k_device(cs, bus, device, bud) == kd);
        assert(s_device(cs, bus, device, bud) == sd);
        assert(k_pending(cs, p, bud) == 1 + kthen(kd, sd, bud, kn));
        assert(s_pending(cs, p, bud) == then(sd, bud, sn));
        lemma_kthen_succ(kthen(kd, sd, bud, kn), then(sd, bud, sn), bud, kc);
        lemma_kthen_assoc(kf, sf, bud, kt, st, kn);
        lemma_then_assoc(sf, bud, st, sn);
        lemma_kthen_assoc(kd, sd, bud, kn, sn, kc);
        lemma_kthen_assoc(kf, sf, bud, k2, s2, kc);
        let mid = stack.push(Frame::BusLoop { bus, device });
        assert(st2 == mid.push(Frame::DeviceFirst { bus, device }));
        assert forall|b2: nat| #[trigger] k_cont(cs, mid, b2) == kthen(kn(b2), sn(b2), b2, kc) by {
            lemma_cont_push_count(cs, stack, Frame::BusLoop { bus, device }, b2);
        }
        assert forall|b: nat| #[trigger] k_cont(cs, st2, b) == kthen(k2(b), s2(b), b, kc) by {
            lemma_cont_push_count(cs, mid, Frame::DeviceFirst { bus, device }, b);
            lemma_device_tail_fits(cs, bus, device, b);
            lemma_kthen_assoc(kt(b), st(b), b, kn, sn, kc);
        }
    }
}

proof fn lemma_count_function(
    cs: ConfigSpace,
    bus: u8,
    device: u8,
    function: u8,
    stack: Seq<Frame>,
    found: Seq<PciDevice>,
)
    requires
        found.len() < MAX_DEVICES,
    ensures
        step_counts_down(cs, Pending::Function { bus, device, function }, stack, found),
{
    let p = Pending::Function { bus, device, function };
    let bud = budget_of(found);
    let c = answer(cs, p);
    let (p2, st2) = spec_answer(p, stack, c);
    let f2 = spec_record(p, found, c);
    let d = PciDevice { bus, device, function, config: c };
    assert(budget_of(f2) == bud - 1);
    if c.spec_is_bridge() {
        let sec = c.spec_secondary_bus();
        lemma_bus_from_fits(cs, sec, 0, (bud - 1) as nat);
        if let Some(r) = s_bus_from(cs, sec, 0, (bud - 1) as nat) {
            assert(left(bud, seq![d] + r) == left((bud - 1) as nat, r));
        }
    } else {
        lemma_ret_count(cs, stack, (bud - 1) as nat);
        assert(left(bud, seq![d]) == bud - 1);
    }
}

/// A scan that is neither done nor overflowing has a step left, and each
/// step, answered from the configuration space, uses up exactly one.
pub proof fn lemma_step_counts_down(cs: ConfigSpace, p: Pending, stack: Seq<Frame>, found: Seq<PciDevice>)
    requires
        found.len() <= MAX_DEVICES,
        !(p is Idle),
        valid_pending(p),
        !(p is Function && found.len() == MAX_DEVICES),
    ensures
        step_counts_down(cs, p, stack, found),
{
    match p {
        Pending::Idle => {},
        Pending::RootHeader => lemma_count_simple(cs, p, stack, found),
        Pending::DeviceHeader { .. } => lemma_count_simple(cs, p, stack, found),
        Pending::RootFunction { function } => lemma_count_root_function(cs, function, stack, found),
        Pending::BusDevice { bus, device } => lemma_count_bus_device(cs, bus, device, stack, found),
        Pending::Function { bus, device, function } => lemma_count_function(cs, bus, device, function, stack, found),
        Pending::DeviceFunction { bus, device, function } =>
            lemma_count_device_function(cs, bus, device, function, stack, found),
    }
}

} // verus!

verus! {

/// From any valid state the scan is done or overflows after exactly the
/// number of steps `k_rest` counts.
pub proof fn lemma_run_terminates(cs: ConfigSpace, s: ScanState)
    requires
        scan_state_wf(s),
    ensures
        ({
            let t = run(cs, s, k_rest(cs, s.0, s.1, budget_of(s.2)));
            t.0 is Idle || overflows(t)
        }),
    decreases k_rest(cs, s.0, s.1, budget_of(s.2)),
{
    let n = k_rest(cs, s.0, s.1, budget_of(s.2));
    if s.0 is Idle || overflows(s) {
        if n > 0 {
            assert(run(cs, s, n) == s);
        }
    } else {
        let t = spec_step(cs, s);
        lemma_step_counts_down(cs, s.0, s.1, s.2);
        lemma_step_wf(cs, s);
        lemma_run_terminates(cs, t);
        assert(run(cs, s, n) == run(cs, t, (n - 1) as nat));
    }
}

/// Started on records `found` and driven by any configuration space, even
/// one whose bridges lead back to buses under scan, the step-by-step scan is
/// done or asks to record a function with a full table within a number of
/// steps fixed by the configuration space and `found`.
pub proof fn lemma_scan_devices_terminates(cs: ConfigSpace, found: Seq<PciDevice>)
    requires
        found.len() <= MAX_DEVICES,
    ensures
        exists|n: nat|
            #![trigger run(cs, (Pending::RootHeader, Seq::<Frame>::empty(), found), n)]
            run(cs, (Pending::RootHeader, Seq::<Frame>::empty(), found), n).0 is Idle
                || overflows(run(cs, (Pending::RootHeader, Seq::<Frame>::empty(), found), n)),
{
    let s: ScanState = (Pending::RootHeader, Seq::<Frame>::empty(), found);
    lemma_run_terminates(cs, s);
    let n = k_rest(cs, s.0, s.1, budget_of(s.2));
    assert(run(cs, s, n).0 is Idle || overflows(run(cs, s, n)));
}

} // verus!

verus! {

/// Over a whole scan started on the first records of the table `base`, the
/// table that the records written one after the other leave (see
/// `ScanPciDevices::resume`, whose steps compose by `lemma_table_of_compose`)
/// keeps every earlier record and every slot past the last record, and when
/// the scan is done each new slot holds a present function.
pub proof fn lemma_scan_table(cs: ConfigSpace, base: Seq<PciDevice>, found: Seq<PciDevice>, n: nat)
    requires
        base.len() == MAX_DEVICES,
        found.len() <= MAX_DEVICES,
        found == base.take(found.len() as int),
    ensures
        ({
            let s = run(cs, (Pending::RootHeader, Seq::empty(), found), n);
            let t = table_of(base, s.2);
            &&& s.2.len() <= MAX_DEVICES
            &&& t.len() == MAX_DEVICES
            &&& forall|i: int| 0 <= i < found.len() ==> #[trigger] t[i] == base[i]
            &&& forall|i: int| s.2.len() <= i < MAX_DEVICES ==> #[trigger] t[i] == base[i]
            &&& s.0 is Idle ==> forall|k: int|
                found.len() <= k < s.2.len() ==> #[trigger] present_record(cs, t[k])
        }),
{
    let s0: ScanState = (Pending::RootHeader, Seq::empty(), found);
    lemma_run_meaning(cs, s0, n);
    lemma_scan_records_present(cs, found, n);
    let s = run(cs, s0, n);
    let t = table_of(base, s.2);
    assert forall|i: int| 0 <= i < found.len() implies #[trigger] t[i] == base[i] by {
        assert(s.2.take(found.len() as int)[i] == found[i]);
        assert(base.take(found.len() as int)[i] == base[i]);
    }
}

} // verus!

verus! {

/// In the recursive scan too, a header type with bit 7 set makes the device
/// (or the host bridge) scan its functions 1 to 7, and one with bit 7 clear
/// stops after function 0 (or scans bus 0 alone).
pub proof fn lemma_scan_multi_function_bit(cs: ConfigSpace, bus: u8, device: u8, budget: nat)
    ensures
        cs(bus, device, 0).header_type >= 0x80 ==> s_device_tail(cs, bus, device, budget)
            == s_device_from(cs, bus, device, 1, budget),
        cs(bus, device, 0).header_type < 0x80 ==> s_device_tail(cs, bus, device, budget)
            == Some(Seq::<PciDevice>::empty()),
        cs(0, 0, 0).header_type >= 0x80 ==> s_scan_devices(cs, budget) == s_root_from(cs, 1, budget),
        cs(0, 0, 0).header_type < 0x80 ==> s_scan_devices(cs, budget) == s_bus_from(cs, 0, 0, budget),
{
    crate::pci::lemma_header_types_multi_function(cs(bus, device, 0));
    crate::pci::lemma_header_types_multi_function(cs(0, 0, 0));
}

} // verus!
