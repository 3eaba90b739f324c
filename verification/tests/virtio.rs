use molt::dma::{
    teardown, Arena, DeviceId, DmaError, DmaPerm, Identity, Iova, MapError, Mapper, Mapping, Region,
    Shelf, Translation, UnmapError,
};
use molt::net::link::{Link, LinkError, FRAME};
use molt::virtio::block::{self, Block, Run};
use molt::virtio::command::{self, encode_map, parse_fault, EVENT_BYTES};
use molt::virtio::config::{self, Common};
use molt::virtio::domain::Domains;
use molt::virtio::engine::{Engine, Reaped, CONTROL_BYTES, DATA_BYTES, REQUESTS};
use molt::virtio::error::{BlockError, VirtioError};
use molt::virtio::net::{
    self, require_features, Receive, Transmit, BUFFER, HEADER, NETWORK_SIZE, REQUIRED_FEATURES,
    VIRTIO_NET_F_MAC,
};
use molt::virtio::iommu::{Iommu, Pending};
use molt::virtio::nic::{self, Net};
use molt::virtio::notify::Notify;
use molt::virtio::queue::{self, device_bytes, driver_bytes, Queue, Used};
use molt::virtio::request::{Completion, Requests};
use molt::virtio::sector::{
    read_op, take_in, write_op, BlockDone, BlockOp, Chunk, RequestId, Transfer, BLOCK,
};
use molt::virtio::transport::{Capability, Transport};
use molt::window::{Buffer, Window};

fn buffer(len: usize) -> Buffer {
    Buffer::new(vec![0u8; len])
}

fn mapping(len: usize, physical: u64, perm: DmaPerm, device: u32) -> Mapping<Buffer> {
    let region = Region { window: buffer(len), physical };
    Identity.map(DeviceId::new(device), region, perm).ok().unwrap()
}

fn word(bytes: &[u8], at: usize) -> u16 {
    u16::from_le_bytes(bytes[at..at + 2].try_into().unwrap())
}

// Requests in flight.

#[test]
fn a_live_request_completes_and_frees_its_slot() {
    let mut requests = Requests::<4>::new();
    requests.issue(1);

    let outcome = requests.complete(1);

    assert_eq!(outcome, Completion::Delivered);
    assert_eq!(requests.complete(1), Completion::Stale, "a freed slot stayed live");
}

#[test]
fn a_cancelled_requests_completion_is_stale() {
    let mut requests = Requests::<4>::new();
    let token = requests.issue(2);

    assert!(requests.cancel(token), "cancel disowned a live request");
    assert_eq!(requests.complete(2), Completion::Stale);
}

#[test]
fn a_reused_head_rejects_the_old_token() {
    let mut requests = Requests::<4>::new();
    let stale = requests.issue(3);
    requests.complete(3);

    requests.issue(3);

    assert!(!requests.cancel(stale), "the old token cancelled a fresh request");
    assert_eq!(requests.complete(3), Completion::Delivered, "the fresh request was lost");
}

// Notifications.

#[test]
fn a_token_stays_dead_however_often_its_head_is_reissued() {
    let mut requests = Requests::<4>::new();
    let old = requests.issue(2);
    let other = requests.issue(1);
    assert_eq!(requests.complete(2), Completion::Delivered);

    for _ in 0..1000 {
        requests.issue(2);
        assert!(!requests.cancel(old), "a dead token cancelled something");
        assert_eq!(requests.complete(2), Completion::Delivered);
        assert_eq!(requests.complete(2), Completion::Stale);
    }
    assert!(requests.cancel(other), "another head was touched");
    assert_eq!(requests.complete(1), Completion::Stale);
}

#[test]
fn kick_lands_queues_scaled_offset() {
    let mut notify = Notify::new(buffer(32), 4);

    notify.signal(1, 3).expect("a write inside the notify window");

    assert_eq!(
        &notify.window.contents()[12..14],
        &1u16.to_le_bytes(),
        "kick missed offset 3 * 4"
    );
}

#[test]
fn kick_outside_the_window_is_refused() {
    let mut notify = Notify::new(buffer(12), 4);

    assert!(notify.signal(1, 3).is_err());
    assert_eq!(notify.window.contents(), &[0u8; 12]);
}

// The transport.

/// A configuration space made of ordinary memory, with just enough of a header
/// and vendor-capability list for a probe to walk.
struct Config {
    bytes: [u8; 256],
    last: Option<usize>,
}

impl Config {
    fn present() -> Self {
        let mut bytes = [0u8; 256];
        bytes[0x00..0x02].copy_from_slice(&0x1af4u16.to_le_bytes());
        bytes[0x02..0x04].copy_from_slice(&0x1042u16.to_le_bytes());
        Self { bytes, last: None }
    }

    /// Adds a `virtio_pci_cap` of `config_type` at `offset`, chaining it onto
    /// the capability list.
    fn cap(&mut self, offset: usize, config_type: u8, bar: u8, at: u32, length: u32) -> &mut Self {
        match self.last {
            Some(previous) => self.bytes[previous + 1] = offset as u8,
            None => {
                self.bytes[0x06] |= 1 << 4;
                self.bytes[0x34] = offset as u8;
            }
        }
        self.bytes[offset] = 0x09;
        self.bytes[offset + 1] = 0;
        self.bytes[offset + 3] = config_type;
        self.bytes[offset + 4] = bar;
        self.bytes[offset + 8..offset + 12].copy_from_slice(&at.to_le_bytes());
        self.bytes[offset + 12..offset + 16].copy_from_slice(&length.to_le_bytes());
        self.last = Some(offset);
        self
    }

    fn multiplier(&mut self, offset: usize, multiplier: u32) -> &mut Self {
        self.bytes[offset + 16..offset + 20].copy_from_slice(&multiplier.to_le_bytes());
        self
    }

    /// The capability list, walked as the bus crate walks it.
    fn capabilities(&self) -> Vec<Capability> {
        let mut list = Vec::new();
        let mut at = self.bytes[0x34] as usize;
        while at != 0 {
            list.push(Capability { id: self.bytes[at], offset: at as u16 });
            at = self.bytes[at + 1] as usize;
        }
        list
    }

    fn probe(&self) -> Result<Transport, VirtioError> {
        Transport::probe(&mut Buffer::new(self.bytes.to_vec()), &self.capabilities())
    }
}

#[test]
fn probe_records_each_structure_by_bar_and_offset() {
    let mut config = Config::present();
    // The notify cap carries a trailing multiplier, so the device cap sits
    // past its twenty bytes rather than over them.
    config
        .cap(0x40, 1, 4, 0x0000, 0x1000)
        .cap(0x50, 2, 4, 0x3000, 0x0100)
        .multiplier(0x50, 4)
        .cap(0x70, 4, 4, 0x2000, 0x0100);

    let transport = config.probe().expect("all three structures");

    assert_eq!((transport.common().bar(), transport.common().offset()), (4, 0x0000));
    assert_eq!((transport.notify().bar(), transport.notify().offset()), (4, 0x3000));
    assert_eq!(transport.notify_multiplier(), 4);
    assert_eq!((transport.device().offset(), transport.device().length()), (0x2000, 0x0100));
}

#[test]
fn the_first_capability_of_each_kind_wins() {
    let mut config = Config::present();
    config
        .cap(0x40, 1, 4, 0x0000, 0x1000)
        .cap(0x50, 2, 4, 0x3000, 0x0100)
        .multiplier(0x50, 4)
        .cap(0x70, 4, 4, 0x2000, 0x0100)
        .cap(0x80, 2, 5, 0x5000, 0x0100)
        .multiplier(0x80, 8)
        .cap(0xa0, 1, 5, 0x6000, 0x0100);

    let transport = config.probe().expect("all three structures");

    assert_eq!((transport.notify().bar(), transport.notify().offset()), (4, 0x3000));
    assert_eq!(transport.notify_multiplier(), 4, "the stride goes with its structure");
    assert_eq!((transport.common().bar(), transport.common().offset()), (4, 0x0000));
}

#[test]
fn probe_refuses_a_device_missing_a_structure() {
    let mut config = Config::present();
    config.cap(0x40, 1, 4, 0x0000, 0x1000).cap(0x50, 2, 4, 0x3000, 0x0100);

    assert_eq!(config.probe().err(), Some(VirtioError::Missing));
}

// The common configuration registers.

#[test]
fn reset_settles_accepted() {
    let mut common = Common::new(Buffer::new(vec![0xffu8; 64]));

    common.reset().expect("a device that clears its status");

    assert_eq!(common.status(), Ok(0), "reset left status bits set");
}

#[test]
fn status_bits_accumulate() {
    let mut common = Common::new(buffer(64));

    common.add_status(config::ACKNOWLEDGE).expect("a legal write");
    common.add_status(config::DRIVER).expect("a legal write");

    assert_eq!(common.window.contents()[config::DEVICE_STATUS as usize], 0b11);
}

#[test]
fn queue_writes_all_three_rings() {
    let mut common = Common::new(buffer(64));

    common.select_queue(0).expect("a legal write");
    common.set_queue_rings(0x1000, 0x2000, 0x3000).expect("a legal write");

    let registers = common.window.contents();
    assert_eq!(&registers[0x20..0x28], &0x1000u64.to_le_bytes());
    assert_eq!(&registers[0x28..0x30], &0x2000u64.to_le_bytes());
    assert_eq!(&registers[0x30..0x38], &0x3000u64.to_le_bytes());
}

#[test]
fn registers_past_a_short_window_are_refused() {
    let mut common = Common::new(buffer(0x14));

    assert!(matches!(common.status(), Err(VirtioError::Mmio(_))));
    assert!(matches!(common.reset(), Err(VirtioError::Mmio(_))));
}

// The split virtqueue.

fn small_queue() -> Queue<Buffer> {
    Queue::new(
        4,
        mapping(64, 0x1000, DmaPerm::Read, 0),
        mapping(16, 0x2000, DmaPerm::Read, 0),
        mapping(64, 0x3000, DmaPerm::ReadWrite, 0),
    )
    .ok()
    .unwrap()
}

#[test]
fn used_perm() {
    let result = Queue::new(
        4,
        mapping(64, 0x1000, DmaPerm::Read, 0),
        mapping(16, 0x2000, DmaPerm::Read, 0),
        mapping(64, 0x3000, DmaPerm::Write, 0),
    );

    assert!(matches!(result, Err(VirtioError::Dma(DmaError::Permission))));
}

#[test]
fn push_chain_segments_and_publish_head() -> Result<(), VirtioError> {
    let mut queue = small_queue();
    let header = mapping(16, 0xaa00, DmaPerm::Read, 0);
    let data = mapping(512, 0xbb00, DmaPerm::Write, 0);

    let head = queue.push(&[header.readable(0, 16)?, data.writable(0, 512)?])?;

    let d = queue.descriptors.window.contents();
    let a = queue.driver.window.contents();
    assert_eq!(head, 0);
    assert_eq!(&d[12..14], &1u16.to_le_bytes(), "head lacked the NEXT flag");
    assert_eq!(&d[16 + 12..16 + 14], &2u16.to_le_bytes(), "tail was not device-writable");
    assert_eq!(&a[2..4], &1u16.to_le_bytes(), "available index did not advance");
    Ok(())
}

#[test]
fn full_queue_refuses_next_chain() -> Result<(), VirtioError> {
    let mut queue = small_queue();
    let buffers = mapping(32, 0xaa00, DmaPerm::Read, 0);
    for offset in [0, 8, 16, 24] {
        queue.push(&[buffers.readable(offset, 8)?])?;
    }

    assert_eq!(queue.push(&[buffers.readable(0, 8)?]).err(), Some(VirtioError::Full));
    Ok(())
}

#[test]
fn pop_free_descriptors() -> Result<(), VirtioError> {
    let mut queue = small_queue();
    let header = mapping(16, 0xaa00, DmaPerm::Read, 0);
    let data = mapping(512, 0xbb00, DmaPerm::Write, 0);
    let head = queue.push(&[header.readable(0, 16)?, data.writable(0, 512)?])?;

    queue.device.window.write_u32(4, head as u32)?;
    queue.device.window.write_u32(8, 512)?;
    queue.device.window.write_u16(2, 1)?;

    assert_eq!(queue.pop(), Ok(Some(Used { head: 0, len: 512 })));
    assert_eq!(queue.available(), 4, "the completed chain was not reclaimed");
    Ok(())
}

#[test]
fn cyclic_used() -> Result<(), VirtioError> {
    let mut queue = small_queue();
    let buffers = mapping(16, 0xaa00, DmaPerm::Read, 0);
    let head = queue.push(&[buffers.readable(0, 8)?, buffers.readable(8, 8)?])?;
    // Make the second descriptor point back to the head.
    queue.descriptors.window.write_u16(16 + 12, 1)?;
    queue.descriptors.window.write_u16(16 + 14, head)?;
    queue.device.window.write_u32(4, head as u32)?;
    queue.device.window.write_u16(2, 1)?;

    assert_eq!(queue.pop(), Err(VirtioError::Device));
    assert_eq!(queue.available(), 2, "a malformed chain freed live descriptors");
    Ok(())
}

#[test]
fn region_sizes_match_helpers() {
    assert_eq!(driver_bytes(4), 14);
    assert_eq!(device_bytes(4), 38);
}

#[test]
fn a_slice_outside_its_mapping_is_refused() {
    let data = mapping(16, 0xaa00, DmaPerm::Read, 0);

    assert_eq!(data.readable(8, 9).err(), Some(DmaError::Range));
    assert_eq!(data.writable(0, 8).err(), Some(DmaError::Permission));
    assert_eq!(data.readable(8, 8).unwrap().iova, Iova::new(0xaa08));
}

#[test]
fn a_returned_chain_can_be_pushed_again() -> Result<(), VirtioError> {
    let mut queue = small_queue();
    let buffers = mapping(32, 0xaa00, DmaPerm::Read, 0);

    for round in 0..6u16 {
        let head = queue.push(&[buffers.readable(0, 8)?, buffers.readable(8, 8)?])?;
        let slot = 4 + 8 * u64::from(round % 4);
        queue.device.window.write_u32(slot, head as u32)?;
        queue.device.window.write_u32(slot + 4, 0)?;
        queue.device.window.write_u16(2, round + 1)?;
        assert_eq!(queue.pop()?.map(Used::head), Some(head));
        assert_eq!(queue.available(), 4);
    }
    Ok(())
}

// The block engine.

fn engine() -> Engine<Buffer> {
    let size = queue::MAX_SIZE;
    let queue = Queue::new(
        size,
        mapping(size as usize * 16, 0x1000, DmaPerm::Read, 1),
        mapping(72, 0x2000, DmaPerm::Read, 1),
        mapping(264, 0x3000, DmaPerm::ReadWrite, 1),
    )
    .ok()
    .unwrap();
    let mut flights = Vec::new();
    let mut ready = Vec::new();
    for _ in 0..REQUESTS {
        flights.push(None);
        ready.push(None);
    }
    Engine {
        notify: Notify::new(buffer(2), 0),
        queue,
        requests: Requests::new(),
        control: mapping(CONTROL_BYTES as usize, 0x4000, DmaPerm::ReadWrite, 1),
        data: mapping(BLOCK * REQUESTS, 0x8000, DmaPerm::ReadWrite, 1),
        flights,
        ready,
        notify_off: 0,
        capacity: 1024,
        depth: REQUESTS,
    }
}

fn read(sector: u64) -> BlockOp {
    BlockOp::Read { sector, bytes: BLOCK, buffer: vec![0; BLOCK] }
}

fn reaped(engine: &mut Engine<Buffer>) -> (RequestId, BlockDone) {
    match engine.reap() {
        Reaped::Done(id, done) => (id, done),
        _ => panic!("a published used entry must not wait"),
    }
}

#[test]
fn two_requests_publish_before_completion() -> Result<(), VirtioError> {
    let mut engine = engine();

    engine.start(RequestId::new(4), read(0)).ok().unwrap();
    engine.start(RequestId::new(5), read(8)).ok().unwrap();

    assert_eq!(word(engine.queue.driver.window.contents(), 2), 2);
    assert_eq!(engine.queue.available(), queue::MAX_SIZE - 6);
    Ok(())
}

#[test]
fn out_of_order_reads_keep_their_buffers() -> Result<(), VirtioError> {
    let mut engine = engine();
    engine.start(RequestId::new(4), read(0)).ok().unwrap();
    engine.start(RequestId::new(5), read(8)).ok().unwrap();
    let first = word(engine.queue.driver.window.contents(), 4);
    let second = word(engine.queue.driver.window.contents(), 6);
    engine.control.window.write_u8(16, 0)?;
    engine.control.window.write_u8(32 + 16, 0)?;
    engine.data.window.write_u8(0, 4)?;
    engine.data.window.write_u8(BLOCK as u64, 5)?;
    let device = &mut engine.queue.device.window;
    device.store(4, &(second as u32).to_le_bytes())?;
    device.store(12, &(first as u32).to_le_bytes())?;
    device.store(2, &2u16.to_le_bytes())?;

    let (later, later_done) = reaped(&mut engine);
    let (earlier, earlier_done) = reaped(&mut engine);

    assert_eq!(later, RequestId::new(5));
    assert_eq!(earlier, RequestId::new(4));
    assert_eq!(later_done.result, Ok(()));
    assert_eq!(earlier_done.result, Ok(()));
    assert_eq!(later_done.buffer.unwrap()[0], 5);
    assert_eq!(earlier_done.buffer.unwrap()[0], 4);
    Ok(())
}

#[test]
fn device_status_reaches_block_error() -> Result<(), VirtioError> {
    let mut engine = engine();
    engine.start(RequestId::new(1), read(0)).ok().unwrap();
    let head = word(engine.queue.driver.window.contents(), 4);
    engine.control.window.write_u8(16, 1)?;
    let device = &mut engine.queue.device.window;
    device.store(4, &(head as u32).to_le_bytes())?;
    device.store(2, &1u16.to_le_bytes())?;

    assert_eq!(reaped(&mut engine).1.result, Err(BlockError::Device));
    Ok(())
}

#[test]
fn an_operation_past_the_disk_is_refused_without_the_device() {
    let mut engine = engine();

    engine.start(RequestId::new(9), read(1024)).ok().unwrap();

    let (id, done) = reaped(&mut engine);
    assert_eq!(id, RequestId::new(9));
    assert_eq!(done.result, Err(BlockError::Range));
    assert_eq!(word(engine.queue.driver.window.contents(), 2), 0, "the device was told");
}

#[test]
fn an_idle_engine_says_so_and_a_busy_one_waits() {
    let mut engine = engine();

    assert!(matches!(engine.reap(), Reaped::Idle));
    engine.start(RequestId::new(1), read(0)).ok().unwrap();
    assert!(matches!(engine.reap(), Reaped::Waiting));
}

#[test]
fn a_timed_out_request_is_delivered_once() -> Result<(), VirtioError> {
    let mut engine = engine();
    engine.start(RequestId::new(1), read(0)).ok().unwrap();
    let head = word(engine.queue.driver.window.contents(), 4);

    let done = match engine.timeout_one() {
        Reaped::Done(id, done) => {
            assert_eq!(id, RequestId::new(1));
            done
        }
        _ => panic!("a live request was not given up on"),
    };
    assert_eq!(done.result, Err(BlockError::Timeout));

    // The device answers after all; nobody waits for it.
    let device = &mut engine.queue.device.window;
    device.store(4, &(head as u32).to_le_bytes())?;
    device.store(2, &1u16.to_le_bytes())?;
    assert!(matches!(engine.reap(), Reaped::Idle));
    assert_eq!(engine.queue.available(), queue::MAX_SIZE);
    Ok(())
}

#[test]
fn deep_device_queue_capped_at_drivers_maximum() -> Result<(), VirtioError> {
    assert_eq!(block::clamp_queue(256)?, queue::MAX_SIZE);
    Ok(())
}

#[test]
fn device_without_queue_refused() {
    assert_eq!(block::clamp_queue(0), Err(VirtioError::Device));
}

// The network queues.

fn net_queue() -> Queue<Buffer> {
    Queue::new(
        8,
        mapping(128, 0x1000, DmaPerm::Read, 0),
        mapping(driver_bytes(8) as usize, 0x2000, DmaPerm::Read, 0),
        mapping(device_bytes(8) as usize, 0x3000, DmaPerm::ReadWrite, 0),
    )
    .ok()
    .unwrap()
}

#[test]
fn receive_reposts_completed_buffer() -> Result<(), VirtioError> {
    let buffers = mapping(BUFFER * 8, 0x4000, DmaPerm::Write, 0);
    let mut receive = Receive::new(net_queue(), buffers, 0)?;
    receive.buffers.window.store(10, &1u16.to_le_bytes())?;
    receive.buffers.window.store(HEADER as u64, b"ping")?;
    let device = &mut receive.queue.device.window;
    device.store(4, &0u32.to_le_bytes())?;
    device.store(8, &((HEADER + 4) as u32).to_le_bytes())?;
    device.store(2, &1u16.to_le_bytes())?;
    let mut frame = [0u8; 16];

    assert_eq!(receive.receive(&mut frame), Ok(Some(4)));
    assert_eq!(&frame[..4], b"ping");
    assert_eq!(
        &receive.queue.driver.window.contents()[2..4],
        &9u16.to_le_bytes(),
        "RX buffer was not republished"
    );
    assert_eq!(receive.queue.available(), 0, "RX queue lost a descriptor");
    Ok(())
}

/// A stream writes back to back, so a frame must not wait on the one before it:
/// staging the whole queue may not drop any of it.
#[test]
fn transmit_stages_whole_queue() -> Result<(), VirtioError> {
    let buffers = mapping(BUFFER * 8, 0x4000, DmaPerm::Read, 0);
    let mut transmit = Transmit::new(net_queue(), buffers, 0)?;

    for slot in 0..8u8 {
        transmit.stage(&[slot; 4])?;
    }
    assert_eq!(transmit.stage(b"molt"), Err(VirtioError::Full), "a ninth frame fit");
    let storage = transmit.buffers.window.contents();
    for slot in 0..8usize {
        let at = slot * BUFFER + HEADER;
        assert_eq!(&storage[at..at + 4], &[slot as u8; 4], "slot {slot} was not staged");
    }
    Ok(())
}

#[test]
fn modern_header_requires_merge_buffer_format() {
    assert_eq!(require_features(VIRTIO_NET_F_MAC), Err(VirtioError::Features));
    assert_eq!(require_features(REQUIRED_FEATURES), Ok(()));
}

#[test]
fn queue_depth() {
    assert_eq!(net::clamp_queue(256), Ok(NETWORK_SIZE));
}

// The translation device.

#[test]
fn map_encoding() {
    let mut request = mapping(40, 0x2000, DmaPerm::ReadWrite, 1);

    encode_map(&mut request, 7, Iova::new(0x1_0000_0000), 0x20_0000, 0x1000, DmaPerm::Write)
        .unwrap();

    let bytes = request.window.contents();
    assert_eq!(bytes[0], 3);
    assert_eq!(u32::from_le_bytes(bytes[4..8].try_into().unwrap()), 7);
    assert_eq!(u64::from_le_bytes(bytes[16..24].try_into().unwrap()), 0x1_0000_0fff);
    assert_eq!(u32::from_le_bytes(bytes[32..36].try_into().unwrap()), 2);
}

#[test]
fn aperture_bounds() {
    assert_eq!(command::aperture(0, u64::MAX, 0x1000), Ok((0x1_0000_0000, !0xfff)));
    assert_eq!(command::aperture(0x2000, 0x9fff, 0x1000), Ok((0x2000, 0xa000)));
}

#[test]
fn fault_parse() {
    let mut bytes = vec![0u8; EVENT_BYTES as usize];
    bytes[0] = 3;
    bytes[4..8].copy_from_slice(&5u32.to_le_bytes());
    bytes[8..12].copy_from_slice(&0x18u32.to_le_bytes());
    bytes[16..24].copy_from_slice(&0xfeed_0000u64.to_le_bytes());
    let region = Region { window: Buffer::new(bytes), physical: 0x2000 };
    let mut events = Identity.map(DeviceId::new(1), region, DmaPerm::ReadWrite).ok().unwrap();

    let fault = parse_fault(&mut events, 0).unwrap();

    assert_eq!(fault.reason(), 3);
    assert_eq!(fault.flags(), 5);
    assert_eq!(fault.endpoint(), DeviceId::new(0x18));
    assert_eq!(fault.address(), 0xfeed_0000);
}

#[test]
fn queue_bound() {
    assert_eq!(command::queue_size(256, 2), Ok(32));
    assert_eq!(command::queue_size(17, 2), Ok(16));
    assert!(command::queue_size(1, 2).is_err());
}

#[test]
fn domains_isolate_endpoints() -> Result<(), VirtioError> {
    let mut domains = Domains::<2>::new(7, 8);
    let first = DeviceId::new(0x18);
    let second = DeviceId::new(0x20);

    assert_eq!(domains.reserve(first)?, 7);
    assert_eq!(domains.reserve(second)?, 8);
    assert_eq!(domains.domain(first), Some(7));
    assert_eq!(domains.domain(second), Some(8));
    assert!(domains.reserve(DeviceId::new(0x28)).is_err());
    Ok(())
}

#[test]
fn domain_reuses_release() -> Result<(), VirtioError> {
    let mut domains = Domains::<2>::new(4, 5);
    let first = DeviceId::new(1);
    domains.reserve(first)?;
    domains.release(first)?;

    assert_eq!(domains.reserve(DeviceId::new(2))?, 4);
    Ok(())
}

// Whole drivers, over registers that are plain memory.

/// Registers that offer `features` in both halves, two queues, and room for
/// `size` descriptors in each.
fn registers(features: u32, size: u16) -> Buffer {
    let mut bytes = vec![0u8; 64];
    bytes[0x04..0x08].copy_from_slice(&features.to_le_bytes());
    bytes[0x12..0x14].copy_from_slice(&2u16.to_le_bytes());
    bytes[0x18..0x1a].copy_from_slice(&size.to_le_bytes());
    Buffer::new(bytes)
}

fn shelf(count: u64) -> Shelf<Buffer> {
    let region = |at: u64| Region { window: buffer(0x8000), physical: 0x10_0000 * (at + 1) };
    Shelf::new((0..count).map(region).collect())
}

fn started(features: u32, size: u16) -> Result<Block<Buffer, Shelf<Buffer>, Identity>, VirtioError> {
    let sectors = Buffer::new(1024u64.to_le_bytes().to_vec());
    Block::start(registers(features, size), buffer(2), sectors, 0, 7, DeviceId::new(3), shelf(5))
}

#[test]
fn block_device_is_brought_up_and_driven() {
    let mut block = started(0x201, 256).ok().expect("a device with everything it takes");
    assert_eq!((block.sectors(), block.depth()), (1024, REQUESTS));
    assert_eq!(block.common.status(), Ok(0xf), "the device was not told to go");

    let id = block.next_id();
    assert_eq!((id, block.direct), (RequestId::new(0), 1));
    let run = block.execute(id, Run::Held(read(8)));
    assert!(matches!(run, Run::Sent));
    let run = block.execute(id, run);
    assert!(matches!(run, Run::Sent), "an answer nobody gave");

    let head = word(block.engine.queue.driver.window.contents(), 4);
    block.engine.control.window.write_u8(16, 0).unwrap();
    block.engine.data.window.write_u8(0, 9).unwrap();
    let device = &mut block.engine.queue.device.window;
    device.store(4, &(head as u32).to_le_bytes()).unwrap();
    device.store(2, &1u16.to_le_bytes()).unwrap();
    let Run::Over(done) = block.execute(id, run) else { panic!("no answer came") };

    assert_eq!(done.result, Ok(()));
    assert_eq!(done.buffer.unwrap()[0], 9);
    assert!(block.reset().is_ok());
}

/// An arena that keeps what it was asked for.
struct Ledger {
    shelf: Shelf<Buffer>,
    asked: Vec<u64>,
}

impl Arena<Buffer> for Ledger {
    fn region(&mut self, bytes: u64) -> Result<Region<Buffer>, DmaError> {
        self.asked.push(bytes);
        self.shelf.region(bytes)
    }

    fn release(&mut self, region: Region<Buffer>) -> Result<(), DmaError> {
        self.shelf.release(region)
    }

    fn reset(&mut self) {
        self.shelf.reset()
    }
}

/// A mapper that keeps what it was asked for, and what it took down.
struct Clerk {
    asked: Vec<(DeviceId, DmaPerm)>,
    removed: usize,
    patience: usize,
}

impl Translation for Clerk {
    fn access_platform(&self) -> bool {
        true
    }
}

impl Mapper<Buffer> for Clerk {
    fn map(
        &mut self,
        device: DeviceId,
        region: Region<Buffer>,
        perm: DmaPerm,
    ) -> Result<Mapping<Buffer>, MapError<Buffer>> {
        self.asked.push((device, perm));
        if self.asked.len() > self.patience {
            return Err(MapError { error: DmaError::Backend, region });
        }
        Identity.map(device, region, perm)
    }

    fn unmap(&mut self, mapping: Mapping<Buffer>) -> Result<Region<Buffer>, UnmapError<Buffer>> {
        self.removed += 1;
        Identity.unmap(mapping)
    }
}

#[test]
fn a_block_device_asks_for_exactly_what_it_needs() {
    let endpoint = DeviceId::new(3);
    let start = |patience| {
        Block::start_mapped(
            registers(0x203, 32),
            buffer(2),
            Buffer::new(1024u64.to_le_bytes().to_vec()),
            0,
            7,
            endpoint,
            Ledger { shelf: shelf(5), asked: Vec::new() },
            Clerk { asked: Vec::new(), removed: 0, patience },
        )
    };

    let block = start(5).ok().expect("a device, memory and a mapper with all it takes");

    assert_eq!((block.capacity(), block.depth()), (1024, 8));
    assert_eq!(
        block.arena.asked,
        [512, driver_bytes(32), device_bytes(32), CONTROL_BYTES, DATA_BYTES]
    );
    let perms: Vec<DmaPerm> = block.mapper.asked.iter().map(|asked| asked.1).collect();
    assert_eq!(
        perms,
        [
            DmaPerm::Read,
            DmaPerm::Read,
            DmaPerm::ReadWrite,
            DmaPerm::ReadWrite,
            DmaPerm::ReadWrite
        ]
    );
    assert!(block.mapper.asked.iter().all(|asked| asked.0 == endpoint));
    assert_eq!(block.reset().ok().expect("every mapping taken down").removed, 5);
    assert_eq!(start(4).err(), Some(VirtioError::Dma(DmaError::Backend)));
}

#[test]
fn block_devices_that_will_not_do_refused() {
    assert_eq!(started(0x221, 256).err(), Some(VirtioError::ReadOnly));
    assert_eq!(started(0x001, 256).err(), Some(VirtioError::Features), "no flush");
    assert_eq!(started(0x201, 4).err(), Some(VirtioError::Device), "room for one request");
    assert_eq!(block::require_features(0x200, true), Err(VirtioError::Features));
    assert_eq!(block::require_features(0x2_0000_0200, true), Ok(()));
    assert_eq!((block::depth_of(8), block::depth_of(32)), (Ok(2), Ok(8)));

    let short = Block::start(
        registers(0x201, 256),
        buffer(2),
        buffer(8),
        0,
        7,
        DeviceId::new(3),
        shelf(4),
    );
    assert_eq!(short.err(), Some(VirtioError::Dma(DmaError::OutOfSpace)));
}

fn linked() -> Net<Buffer, Identity, Shelf<Buffer>> {
    let octets = Buffer::new(vec![2, 0, 0, 0, 0, 9]);
    let net = Net::start(
        registers(REQUIRED_FEATURES as u32 | 1, 8),
        buffer(2),
        octets,
        4,
        7,
        DeviceId::new(3),
        Identity,
        shelf(8),
    );
    net.ok().expect("a device with everything it takes")
}

#[test]
fn a_brought_up_device_carries_frames_both_ways() {
    let mut net = linked();
    let mut frame = [0xeeu8; 64];

    assert_eq!(Link::receive(&mut net, &mut frame), Ok(None), "nothing came yet");
    assert_eq!(frame, [0xee; 64]);

    let head = word(net.receive.queue.driver.window.contents(), 4);
    let slot = net.receive.heads[head as usize].expect("a buffer is under every head") as u64;
    let at = slot * BUFFER as u64;
    net.receive.buffers.window.store(at + 10, &1u16.to_le_bytes()).unwrap();
    net.receive.buffers.window.store(at + HEADER as u64, &[7, 8, 9]).unwrap();
    give_back(&mut net.receive.queue, 0, head, HEADER as u32 + 3);
    assert_eq!(Link::receive(&mut net, &mut frame), Ok(Some(3)));
    assert_eq!(frame[..4], [7, 8, 9, 0xee]);
    assert_eq!(net.receive.queue.available(), 0, "the buffer is on offer again");
    assert_eq!(word(net.receive.queue.driver.window.contents(), 2), 9);
    assert_eq!(Link::receive(&mut net, &mut frame), Ok(None), "it was taken once");

    assert_eq!(Link::transmit(&mut net, &[1, 2, 3]), Ok(()));
    assert_eq!(net.nic.notify.window.contents(), [1, 0], "the transmit queue is kicked");
    assert_eq!(word(net.transmit.queue.driver.window.contents(), 2), 1);
    let staged = net.transmit.heads.iter().flatten().next().copied();
    let start = staged.expect("a frame is staged") as usize * BUFFER as usize + HEADER as usize;
    assert_eq!(net.transmit.buffers.window.contents()[start..start + 3], [1, 2, 3]);
    assert_eq!(Link::transmit(&mut net, &[0; FRAME + 1]), Err(LinkError::Device), "too long");
    for _ in 1..8 {
        assert_eq!(Link::transmit(&mut net, &[4]), Ok(()));
    }
    assert_eq!(Link::transmit(&mut net, &[5]), Err(LinkError::Busy), "every slot is in flight");
    assert_eq!(net.mac().octets, [2, 0, 0, 0, 0, 9]);
    assert_eq!(net.nic.notify.multiplier, 4, "the stride of the doorbells is kept");
}

#[test]
fn rings_are_cleared_and_where_the_arena_put_them() {
    let dirty = |at: u64| Region { window: Buffer::new(vec![0xff; 0x8000]), physical: at << 20 };
    let arena = Shelf::new((1..6).map(dirty).collect());
    let sectors = Buffer::new(8u64.to_le_bytes().to_vec());
    let block =
        Block::start(registers(0x201, 32), buffer(2), sectors, 0, 7, DeviceId::new(3), arena);
    let block = block.ok().expect("a device with everything it takes");
    let queue = &block.engine.queue;

    for ring in [&queue.descriptors, &queue.driver, &queue.device] {
        assert!(ring.window.contents().iter().all(|byte| *byte == 0), "a stale ring");
    }
    let at = |mapping: &Mapping<Buffer>| (mapping.iova.get(), mapping.physical);
    assert_eq!(at(&queue.descriptors), (1 << 20, 1 << 20));
    assert_eq!(at(&queue.driver), (2 << 20, 2 << 20));
    assert_eq!(at(&queue.device), (3 << 20, 3 << 20));
    assert_eq!(at(&block.engine.control), (4 << 20, 4 << 20));
    assert_eq!(at(&block.engine.data), (5 << 20, 5 << 20));
}

#[test]
fn network_device_is_brought_up_and_reset() {
    let net = linked();

    assert_eq!(net.mac().octets, [2, 0, 0, 0, 0, 9]);
    assert_eq!(net.receive.queue.available(), 0, "a receive buffer is not on offer");
    let ring = net.receive.queue.driver.window.contents();
    assert_eq!(word(ring, 2), 8, "every buffer is published");
    for slot in 0..8 {
        let head = word(ring, 4 + 2 * slot);
        assert_eq!(net.receive.heads[head as usize], Some(slot as u16));
    }
    assert!(net.transmit.heads.iter().all(|head| head.is_none()));
    assert_eq!(net.transmit.queue.available(), 8);
    assert_eq!(net.reset(), Ok(()));
    assert_eq!(nic::require_queues(1), Err(VirtioError::Missing));
}

fn translating() -> Iommu<Buffer, Shelf<Buffer>> {
    let mut config = vec![0u8; 40];
    config[0..8].copy_from_slice(&0xffff_f000u64.to_le_bytes());
    config[16..24].copy_from_slice(&u64::MAX.to_le_bytes());
    config[28..32].copy_from_slice(&8u32.to_le_bytes());
    let iommu = Iommu::start(
        registers(0x77, 256),
        buffer(2),
        Buffer::new(config),
        0,
        7,
        DeviceId::new(3),
        shelf(8),
    );
    let iommu = iommu.ok().expect("a device with everything it takes");
    let ring = iommu.event_queue.driver.window.contents();
    assert_eq!(word(ring, 2), 32, "every event buffer is published");
    assert_eq!(iommu.event_slots[word(ring, 4) as usize], Some(0));
    assert!(iommu.event_slots.iter().all(|slot| slot.is_some()));
    iommu
}

/// The device returns `head`, its `turn`th answer on a queue of 32, having
/// written `len` bytes.
fn give_back(queue: &mut Queue<Buffer>, turn: u16, head: u16, len: u32) {
    let at = 4 + 8 * turn as u64;
    queue.device.window.store(at, &(head as u32).to_le_bytes()).unwrap();
    queue.device.window.store(at + 4, &len.to_le_bytes()).unwrap();
    queue.device.window.store(2, &(turn + 1).to_le_bytes()).unwrap();
}

/// The device answers `pending` with `status`.
fn settle(
    iommu: &mut Iommu<Buffer, Shelf<Buffer>>,
    pending: Pending,
    turn: u16,
    status: u8,
) -> Result<(), VirtioError> {
    assert_eq!(iommu.confirm(pending), None, "an answer nobody gave");
    iommu.request.window.write_u8(pending.status_at, status).unwrap();
    give_back(&mut iommu.request_queue, turn, pending.head, 4);
    iommu.confirm(pending).expect("the device answered")
}

#[test]
fn iommu_without_its_doorbells_is_refused() {
    let mut config = vec![0u8; 40];
    config[0..8].copy_from_slice(&0xffff_f000u64.to_le_bytes());
    config[16..24].copy_from_slice(&u64::MAX.to_le_bytes());
    config[28..32].copy_from_slice(&8u32.to_le_bytes());
    let start = |bells: usize| {
        let device = Buffer::new(config.clone());
        let common = registers(0x77, 256);
        Iommu::start(common, buffer(bells), device, 0, 7, DeviceId::new(3), shelf(8)).err()
    };

    assert_eq!(start(1), Some(VirtioError::Device));
    assert_eq!(start(2), None);
}

#[test]
fn iommu_is_brought_up_and_reset() {
    let iommu = translating();

    assert_eq!((iommu.page, iommu.domains.start, iommu.domains.end), (0x1000, 1, 8));
    assert_eq!((iommu.space.start, iommu.space.end), (0x1_0000_0000, !0xfff));
    assert_eq!((iommu.mapped(), iommu.last_fault()), (0, None));
    assert_eq!(iommu.reset(), Ok(()));
    assert_eq!(command::require_features(0x5), Err(VirtioError::Features));
    assert_eq!(command::first_domain(0, 0), Err(VirtioError::Device));
    assert_eq!(command::first_domain(4, 9), Ok(4));
}

#[test]
fn iommu_maps_for_attached_endpoints_only() {
    let mut iommu = translating();
    let device = DeviceId::new(0x18);
    let other = DeviceId::new(0x20);
    let region = Region { window: buffer(0x2000), physical: 0x40_0000 };
    assert_eq!(iommu.map(device, 0x40_0000, 0x2000, DmaPerm::Write), Err(DmaError::NotMapped));
    assert_eq!(iommu.detach(device), Err(VirtioError::Device), "nothing to detach");

    let pending = iommu.attach(device).unwrap();
    assert_eq!(iommu.request.window.contents()[0], command::ATTACH);
    assert_eq!(pending.status_at, 20);
    let answer = settle(&mut iommu, pending, 0, 0);
    assert_eq!(iommu.attached(device, answer), Ok(()));
    assert_eq!(iommu.domains.domain(device), Some(1));
    assert_eq!(iommu.attach(device), Err(VirtioError::Device), "attached twice");

    let pending = iommu.attach(other).unwrap();
    let answer = settle(&mut iommu, pending, 1, 5);
    assert_eq!(iommu.attached(other, answer), Err(VirtioError::Iommu(5)));
    assert_eq!(iommu.domains.domain(other), None, "a refused endpoint kept its domain");

    assert_eq!(iommu.map(device, 0x40_0800, 0x1000, DmaPerm::Read), Err(DmaError::Alignment));
    let (reservation, pending) = iommu.map(device, 0x40_0000, 0x2000, DmaPerm::Write).unwrap();
    assert_eq!(reservation.entry.iova, Iova::new(0x1_0000_0000));
    let bytes = iommu.request.window.contents();
    assert_eq!((bytes[0], &bytes[24..32]), (command::MAP, &0x40_0000u64.to_le_bytes()[..]));
    let answer = settle(&mut iommu, pending, 2, 0);
    let mapping = iommu.installed(reservation, region, answer).ok().unwrap();
    assert_eq!((mapping.iova, mapping.physical), (Iova::new(0x1_0000_0000), 0x40_0000));
    assert_eq!((iommu.mapped_for(device), iommu.mapped_for(other), iommu.mapped()), (1, 0, 1));
    assert_eq!(iommu.detach(device), Err(VirtioError::Device), "mapped and detached");

    let (slot, pending) = iommu.unmap(&mapping).unwrap();
    let answer = settle(&mut iommu, pending, 3, 2);
    let refused = iommu.removed(slot, mapping, answer).err().unwrap();
    assert_eq!((refused.error, iommu.mapped()), (DmaError::Backend, 1));
    let (slot, pending) = iommu.unmap(&refused.mapping).unwrap();
    assert_eq!(iommu.request.window.contents()[0], command::UNMAP);
    let answer = settle(&mut iommu, pending, 4, 0);
    let region = iommu.removed(slot, refused.mapping, answer).ok().unwrap();
    assert_eq!((region.physical, iommu.mapped()), (0x40_0000, 0));

    let (reservation, pending) = iommu.map(device, 0x40_0000, 0x2000, DmaPerm::Read).unwrap();
    assert_eq!(reservation.entry.iova, Iova::new(0x1_0000_0000), "the addresses did not come back");
    let answer = settle(&mut iommu, pending, 5, 1);
    let refused = iommu.installed(reservation, region, answer).err().unwrap();
    assert_eq!((refused.error, refused.region.physical), (DmaError::Backend, 0x40_0000));

    let pending = iommu.detach(device).unwrap();
    let answer = settle(&mut iommu, pending, 6, 0);
    assert_eq!(iommu.detached(device, answer), Ok(()));
    assert_eq!(iommu.domains.domain(device), None);
    let strange = Mapping { device, ..mapping_at(0x1_0000_0000) };
    assert_eq!(iommu.unmap(&strange), Err(DmaError::NotMapped));
}

fn mapping_at(iova: u64) -> Mapping<Buffer> {
    Mapping { iova: Iova::new(iova), ..mapping(0x1000, 0x40_0000, DmaPerm::Read, 1) }
}

#[test]
fn iommu_faults_are_kept_and_their_buffers_offered_again() {
    let mut iommu = translating();
    assert_eq!(iommu.poll_faults(), Ok(None));
    let head = word(iommu.event_queue.driver.window.contents(), 4);
    let slot = iommu.event_slots[head as usize].unwrap() as u64;
    let at = slot * EVENT_BYTES;
    iommu.events.window.write_u8(at, 2).unwrap();
    iommu.events.window.store(at + 8, &0x18u32.to_le_bytes()).unwrap();
    iommu.events.window.store(at + 16, &0xfeed_0000u64.to_le_bytes()).unwrap();
    give_back(&mut iommu.event_queue, 0, head, 24);

    let fault = iommu.poll_faults().unwrap().unwrap();

    assert_eq!((fault.reason(), fault.endpoint()), (2, DeviceId::new(0x18)));
    assert_eq!(iommu.last_fault(), Some(fault));
    assert_eq!(word(iommu.event_queue.driver.window.contents(), 2), 33, "its buffer is not on offer");
    assert_eq!(iommu.poll_faults(), Ok(None));
    let head = word(iommu.event_queue.driver.window.contents(), 6);
    give_back(&mut iommu.event_queue, 1, head, 8);
    assert_eq!(iommu.poll_faults(), Err(VirtioError::Device), "a short event passed");
}

#[test]
fn torn_down_memory_comes_back() {
    let mut arena = shelf(2);
    let first = arena.region(16).ok().unwrap();
    let second = arena.region(16).ok().unwrap();
    assert_eq!(arena.region(16).err(), Some(DmaError::OutOfSpace));
    let device = DeviceId::new(1);
    let mappings = vec![
        Identity.map(device, first, DmaPerm::Read).ok().unwrap(),
        Identity.map(device, second, DmaPerm::Write).ok().unwrap(),
    ];

    assert_eq!(teardown(mappings, &mut Identity, &mut arena), Ok(()));

    assert_eq!(arena.len(), 0, "memory was ready before the reset");
    arena.reset();
    assert_eq!(arena.len(), 2);
    assert_eq!(arena.region(16).ok().unwrap().physical, 0x10_0000, "the first came back first");
}

#[test]
fn long_transfers_move_chunk_by_chunk() {
    let from: Vec<u8> = (0..BLOCK + 512).map(|at| at as u8).collect();
    let mut into = vec![0u8; from.len()];
    let mut transfer = Transfer::new(1024, 40, from.len()).unwrap();
    let mut sectors = Vec::new();
    while let Some(chunk) = transfer.next() {
        let BlockOp::Write { sector, bytes, buffer } = write_op(chunk, &from) else {
            panic!("a write came out as something else")
        };
        assert!(matches!(
            read_op(chunk),
            BlockOp::Read { sector: at, bytes: count, .. } if at == sector && count == bytes
        ));
        sectors.push((sector, bytes));
        let done = BlockDone { result: Ok(()), buffer: Some(buffer) };
        assert_eq!(take_in(chunk, done, &mut into), Ok(()));
    }

    assert_eq!(sectors, [(40, BLOCK), (48, 512)]);
    assert_eq!(into, from);
    let chunk = Chunk { sector: 0, offset: 0, bytes: 512 };
    let lost = BlockDone { result: Ok(()), buffer: None };
    assert_eq!(take_in(chunk, lost, &mut into), Err(BlockError::Device));
    let failed = BlockDone { result: Err(BlockError::Timeout), buffer: Some(vec![0; 512]) };
    assert_eq!(take_in(chunk, failed, &mut into), Err(BlockError::Timeout));
    assert_eq!(into, from, "a failed read was taken in");
}
