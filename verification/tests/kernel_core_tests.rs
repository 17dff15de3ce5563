use kernel_core::BootInfoFrameAllocator;
use kernel_core::Color;
use kernel_core::ColorCode;
use kernel_core::EmptyFrameAllocator;
use kernel_core::EventCounter;
use kernel_core::Executor;
use kernel_core::Heap;
use kernel_core::MapError;
use kernel_core::MemoryRegion;
use kernel_core::PageMapper;
use kernel_core::PhysMemory;
use kernel_core::PollState;
use kernel_core::QemuExitCode;
use kernel_core::RegionKind;
use kernel_core::ScancodeQueue;
use kernel_core::Task;
use kernel_core::TaskContext;
use kernel_core::TaskFuture;
use kernel_core::TaskId;
use kernel_core::Testable;
use kernel_core::Writer;
use kernel_core::init_heap;
use kernel_core::test_runner;
use kernel_core::write_virt;
use kernel_core::read_virt;
use kernel_core::create_example_mapping;

fn usable(start: u64, end: u64) -> MemoryRegion {
    MemoryRegion { start, end, kind: RegionKind::Usable }
}

fn reserved(start: u64, end: u64) -> MemoryRegion {
    MemoryRegion { start, end, kind: RegionKind::Reserved }
}

// --- frame allocator ---

#[test]
fn three_frame_region_yields_three_then_absence() {
    let mut fa = BootInfoFrameAllocator::init(vec![usable(0x1000, 0x4000)]);
    let a = fa.allocate_frame();
    let b = fa.allocate_frame();
    let c = fa.allocate_frame();
    assert_eq!(a, Some(0x1000));
    assert_eq!(b, Some(0x2000));
    assert_eq!(c, Some(0x3000));
    assert_eq!(fa.allocate_frame(), None);
    assert_eq!(fa.allocate_frame(), None);
}

#[test]
fn frames_skip_non_usable_regions_and_stay_distinct() {
    let mut fa = BootInfoFrameAllocator::init(vec![
        usable(0x1000, 0x2000),
        reserved(0x2000, 0x5000),
        usable(0x5000, 0x7000),
    ]);
    let mut seen = Vec::new();
    while let Some(f) = fa.allocate_frame() {
        assert!(
            (0x1000 <= f && f < 0x2000) || (0x5000 <= f && f < 0x7000),
            "frame outside usable regions"
        );
        assert!(!seen.contains(&f), "frame handed out twice");
        seen.push(f);
    }
    assert_eq!(seen.len(), 3);
    assert_eq!(fa.allocate_frame(), None);
}

#[test]
fn empty_frame_allocator_reports_absence() {
    let mut fa = EmptyFrameAllocator;
    assert_eq!(fa.allocate_frame(), None);
    assert_eq!(fa.allocate_frame(), None);
}

// --- page mapper ---

#[test]
fn map_consumes_frames_for_intermediate_tables() {
    let mut fa = BootInfoFrameAllocator::init(vec![usable(0x1000, 0xb000)]);
    let mut mapper = PageMapper::init(0);
    let r = mapper.map(0x1000, 0x2000, 3, &mut fa);
    assert!(r.is_ok());
    assert_eq!(r.unwrap().page, 0x1000);
    // three missing intermediate tables, one frame each
    assert_eq!(fa.next, 3);
    // a second page in the same range needs no new tables
    let r2 = mapper.map(0x2000, 0x3000, 3, &mut fa);
    assert!(r2.is_ok());
    assert_eq!(fa.next, 3);
}

#[test]
fn map_already_mapped_reports_and_keeps_mapping() {
    let mut fa = BootInfoFrameAllocator::init(vec![usable(0x1000, 0xb000)]);
    let mut mapper = PageMapper::init(0);
    mapper.map(0x1000, 0x2000, 3, &mut fa).unwrap();
    let before = fa.next;
    let r = mapper.map(0x1000, 0x9000, 3, &mut fa);
    assert_eq!(r, Err(MapError::AlreadyMapped));
    // the existing mapping is unchanged and nothing was allocated
    assert_eq!(fa.next, before);
    assert_eq!(mapper.translate_addr(0x1000), Some(0x2000));
}

#[test]
fn map_without_frames_reports_exhaustion() {
    let mut fa = BootInfoFrameAllocator::init(vec![usable(0x1000, 0x2000)]);
    let mut mapper = PageMapper::init(0);
    // one frame cannot back three missing tables
    let r = mapper.map(0x1000, 0x2000, 3, &mut fa);
    assert_eq!(r, Err(MapError::FrameExhausted));
    assert_eq!(mapper.translate_addr(0x1000), None);
}

#[test]
fn translate_unmapped_is_absent() {
    let mapper = PageMapper::init(0);
    assert_eq!(mapper.translate_addr(0x1000), None);
}

#[test]
fn virtual_write_read_round_trip() {
    let mut fa = BootInfoFrameAllocator::init(vec![usable(0x10000, 0x20000)]);
    let mut mapper = PageMapper::init(0);
    mapper.map(0x7000, 0x2000, 3, &mut fa).unwrap();
    let mut mem = PhysMemory::new(0x4000);
    let va = 0x7000 + 0x42;
    assert!(write_virt(&mapper, &mut mem, va, 0xab));
    // the value reads back through the virtual address ...
    assert_eq!(read_virt(&mapper, &mem, va), Some(0xab));
    // ... and it travelled via the backing physical frame
    assert_eq!(mem.read_phys(0x2000 + 0x42), Some(0xab));
    // an unmapped address neither reads nor writes
    assert!(!write_virt(&mapper, &mut mem, 0x9000, 1));
    assert_eq!(read_virt(&mapper, &mem, 0x9000), None);
}

#[test]
fn example_mapping_points_at_display_frame() {
    let mut fa = BootInfoFrameAllocator::init(vec![usable(0x1000, 0xb000)]);
    let mut mapper = PageMapper::init(0);
    create_example_mapping(0x5000, &mut mapper, &mut fa);
    assert_eq!(mapper.translate_addr(0x5000), Some(0xb8000));
}

// --- heap ---

#[test]
fn heap_exhaustion_and_reuse_after_free() {
    let mut heap = Heap::new(0x1000, 1024);
    let first = heap.allocate(600, 1);
    assert_eq!(first, Some(0x1000));
    // the second 600-byte request exceeds what is left
    assert_eq!(heap.allocate(600, 1), None);
    heap.deallocate(0x1000, 600, 1);
    assert_eq!(heap.allocate(600, 1), Some(0x1000));
}

#[test]
fn heap_live_allocations_never_overlap() {
    let mut heap = Heap::new(0x1000, 4096);
    let a = heap.allocate(100, 8).unwrap();
    let b = heap.allocate(200, 16).unwrap();
    let c = heap.allocate(50, 1).unwrap();
    assert!(a + 100 <= b);
    assert!(b + 200 <= c);
    assert_eq!(a % 8, 0);
    assert_eq!(b % 16, 0);
}

#[test]
fn heap_full_reclaim_allows_full_size_allocation() {
    let mut heap = Heap::new(0x2000, 2048);
    let a = heap.allocate(300, 4).unwrap();
    let b = heap.allocate(700, 32).unwrap();
    // freeing in any order; once nothing is live the whole window fits
    heap.deallocate(a, 300, 4);
    assert_eq!(heap.allocate(2048, 1), None);
    heap.deallocate(b, 700, 32);
    assert_eq!(heap.allocate(2048, 1), Some(0x2000));
}

#[test]
fn init_heap_maps_window_and_serves_allocations() {
    // 2 heap pages + 3 intermediate tables = 5 frames; 8 are offered
    let mut fa = BootInfoFrameAllocator::init(vec![usable(0x1000, 0x9000)]);
    let mut mapper = PageMapper::init(0);
    let heap = init_heap(&mut mapper, &mut fa, 0x40000000, 0x2000);
    let mut heap = heap.expect("heap initialization failed");
    assert_eq!(fa.next, 5);
    assert!(mapper.translate_addr(0x40000000).is_some());
    assert!(mapper.translate_addr(0x40001000).is_some());
    assert_eq!(heap.allocate(64, 8), Some(0x40000000));
}

#[test]
fn init_heap_reports_collision_with_existing_mapping() {
    let mut fa = BootInfoFrameAllocator::init(vec![usable(0x1000, 0x20000)]);
    let mut mapper = PageMapper::init(0);
    // a page in the middle of the window is already taken
    mapper.map(0x40001000, 0x2000, 3, &mut fa).unwrap();
    let r = init_heap(&mut mapper, &mut fa, 0x40000000, 0x2000);
    assert!(matches!(r, Err(MapError::AlreadyMapped)));
    // the pre-existing mapping is untouched
    assert_eq!(mapper.translate_addr(0x40001000), Some(0x2000));
}

#[test]
fn init_heap_without_frames_reports_exhaustion() {
    let mut fa = BootInfoFrameAllocator::init(vec![usable(0x1000, 0x3000)]);
    let mut mapper = PageMapper::init(0);
    let r = init_heap(&mut mapper, &mut fa, 0x40000000, 0x4000);
    assert!(matches!(r, Err(MapError::FrameExhausted)));
}

// --- interrupt bridge ---

#[test]
fn ring_round_trips_bytes_in_order() {
    let mut q = ScancodeQueue::new(8);
    for b in [10u8, 20, 30] {
        assert!(q.push(b));
    }
    assert_eq!(q.pop(), Some(10));
    assert_eq!(q.pop(), Some(20));
    assert_eq!(q.pop(), Some(30));
    assert_eq!(q.pop(), None);
}

#[test]
fn ring_overflow_drops_only_the_newest() {
    let mut q = ScancodeQueue::new(4);
    assert!(q.push(1));
    assert!(q.push(2));
    assert!(q.push(3));
    assert!(q.push(4));
    // the ring is full: the incoming byte is dropped silently
    assert!(!q.push(5));
    assert!(!q.push(6));
    // the stored bytes are intact and in order
    assert_eq!(q.pop(), Some(1));
    assert_eq!(q.pop(), Some(2));
    assert_eq!(q.pop(), Some(3));
    assert_eq!(q.pop(), Some(4));
    assert_eq!(q.pop(), None);
    // the ring keeps working after the overflow
    assert!(q.push(7));
    assert_eq!(q.pop(), Some(7));
}

#[test]
fn ring_wraps_around_its_backing_buffer() {
    let mut q = ScancodeQueue::new(3);
    assert!(q.push(1));
    assert!(q.push(2));
    assert_eq!(q.pop(), Some(1));
    assert!(q.push(3));
    assert!(q.push(4));
    assert_eq!(q.pop(), Some(2));
    assert_eq!(q.pop(), Some(3));
    assert_eq!(q.pop(), Some(4));
    assert_eq!(q.pop(), None);
}

#[test]
fn pop_event_registers_waker_only_when_empty() {
    let mut q = ScancodeQueue::new(4);
    let cx = TaskContext { task_id: TaskId(7) };
    assert_eq!(q.pop_event(cx), None);
    assert_eq!(q.waker, Some(TaskId(7)));
    q.push(99);
    let cx2 = TaskContext { task_id: TaskId(8) };
    assert_eq!(q.pop_event(cx2), Some(99));
    // a successful pop leaves the registration alone
    assert_eq!(q.waker, Some(TaskId(7)));
}

// --- tasks and executor ---

enum TestTask {
    Immediate,
    PendingNoWake { polls: u32 },
}

impl TaskFuture for TestTask {
    fn poll(&mut self, _cx: TaskContext, _events: &mut ScancodeQueue) -> PollState {
        match self {
            TestTask::Immediate => PollState::Ready,
            TestTask::PendingNoWake { polls } => {
                *polls += 1;
                PollState::Pending
            }
        }
    }
}

#[test]
fn task_identifiers_are_monotonic_and_unique() {
    let mut counter: u64 = 0;
    let a = TaskId::new(&mut counter);
    let b = TaskId::new(&mut counter);
    let c = TaskId::new(&mut counter);
    assert_eq!(a, TaskId(0));
    assert_eq!(b, TaskId(1));
    assert_eq!(c, TaskId(2));
    assert_eq!(counter, 3);
}

#[test]
fn completed_task_leaves_the_table_and_is_never_polled_again() {
    let mut counter: u64 = 0;
    let mut events = ScancodeQueue::new(4);
    let mut exec: Executor<TestTask> = Executor::new();
    let id = TaskId::new(&mut counter);
    exec.spawn(Task::new(id, TestTask::Immediate));
    assert_eq!(exec.task_count(), 1);
    assert_eq!(exec.ready_count(), 1);
    exec.run_ready_tasks(&mut events);
    // done on its first poll: removed from the table
    assert_eq!(exec.task_count(), 0);
    assert!(exec.get_task(id).is_none());
    // later passes have nothing of it to poll
    exec.run_ready_tasks(&mut events);
    assert_eq!(exec.task_count(), 0);
}

#[test]
fn pending_task_without_wake_idles_and_is_not_repolled() {
    let mut counter: u64 = 0;
    let mut events = ScancodeQueue::new(4);
    let mut exec: Executor<TestTask> = Executor::new();
    let id = TaskId::new(&mut counter);
    exec.spawn(Task::new(id, TestTask::PendingNoWake { polls: 0 }));
    exec.run_ready_tasks(&mut events);
    // the executor is idle, not spinning: the ready queue is empty
    assert_eq!(exec.ready_count(), 0);
    assert_eq!(exec.task_count(), 1);
    // a second pass polls nothing: the task registered no wake handle
    exec.run_ready_tasks(&mut events);
    let task = exec.get_task(id).expect("task should still be owned");
    match &task.future {
        TestTask::PendingNoWake { polls } => assert_eq!(*polls, 1),
        _ => panic!("wrong task"),
    }
}

#[test]
fn interrupt_bytes_flow_to_the_consumer_task_in_order() {
    let mut counter: u64 = 0;
    let mut events = ScancodeQueue::new(8);
    let mut exec: Executor<EventCounter> = Executor::new();
    let id = TaskId::new(&mut counter);
    exec.spawn(Task::new(id, EventCounter { seen: Vec::new() }));
    // first poll: nothing queued, so the task suspends with its handle registered
    exec.run_ready_tasks(&mut events);
    assert_eq!(exec.ready_count(), 0);
    assert_eq!(events.waker, Some(id));
    // interrupts arrive; the first wakes the task, the rest find it queued
    exec.handle_interrupt_byte(&mut events, 5);
    exec.handle_interrupt_byte(&mut events, 6);
    exec.handle_interrupt_byte(&mut events, 7);
    assert_eq!(exec.ready_count(), 1);
    exec.run_ready_tasks(&mut events);
    let task = exec.get_task(id).expect("consumer runs forever");
    assert_eq!(task.future.seen, vec![5, 6, 7]);
}

#[test]
fn wake_of_full_ring_drops_byte_and_keeps_registration() {
    let mut counter: u64 = 0;
    let mut events = ScancodeQueue::new(2);
    let mut exec: Executor<EventCounter> = Executor::new();
    let id = TaskId::new(&mut counter);
    exec.spawn(Task::new(id, EventCounter { seen: Vec::new() }));
    exec.run_ready_tasks(&mut events);
    exec.handle_interrupt_byte(&mut events, 1);
    exec.handle_interrupt_byte(&mut events, 2);
    // the ring is full: this byte is dropped and nothing breaks
    exec.handle_interrupt_byte(&mut events, 3);
    exec.run_ready_tasks(&mut events);
    let task = exec.get_task(id).unwrap();
    assert_eq!(task.future.seen, vec![1, 2]);
}

// --- display writer ---

#[test]
fn writer_places_bytes_on_the_last_row() {
    let mut w = Writer::new(ColorCode::new(Color::Yellow, Color::Black));
    w.write_byte(b'H');
    w.write_byte(b'i');
    assert_eq!(w.char_at(24, 0).ascii_character, b'H');
    assert_eq!(w.char_at(24, 1).ascii_character, b'i');
    assert_eq!(w.column_position, 2);
}

#[test]
fn writer_newline_scrolls_the_text_up() {
    let mut w = Writer::new(ColorCode::new(Color::Yellow, Color::Black));
    let s = "Some test string that fits on a single line";
    w.write_string(s);
    w.write_byte(b'\n');
    for (i, byte) in s.bytes().enumerate() {
        assert_eq!(w.char_at(23, i).ascii_character, byte);
    }
    assert_eq!(w.char_at(24, 0).ascii_character, b' ');
    assert_eq!(w.column_position, 0);
}

#[test]
fn writer_wraps_a_full_line() {
    let mut w = Writer::new(ColorCode::new(Color::White, Color::Black));
    for _ in 0..80 {
        w.write_byte(b'x');
    }
    assert_eq!(w.column_position, 80);
    w.write_byte(b'y');
    // the full row scrolled up; the new byte starts the next line
    assert_eq!(w.char_at(23, 79).ascii_character, b'x');
    assert_eq!(w.char_at(24, 0).ascii_character, b'y');
    assert_eq!(w.column_position, 1);
}

#[test]
fn writer_replaces_unprintable_bytes() {
    let mut w = Writer::new(ColorCode::new(Color::White, Color::Black));
    w.write_string("a\u{7f}b");
    assert_eq!(w.char_at(24, 0).ascii_character, b'a');
    assert_eq!(w.char_at(24, 1).ascii_character, 0xfe);
    assert_eq!(w.char_at(24, 2).ascii_character, b'b');
}

#[test]
fn color_code_packs_background_high() {
    assert_eq!(ColorCode::new(Color::Yellow, Color::Black).0, 14);
    assert_eq!(ColorCode::new(Color::White, Color::Blue).0, 16 + 15);
}

#[test]
fn trivial_assertion() {
    assert_eq!(1, 1);
}

#[test]
fn test_println_simple() {
    let mut w = Writer::new(ColorCode::new(Color::Yellow, Color::Black));
    w.write_string("test_println_simple output");
    w.write_byte(b'\n');
}

#[test]
fn test_println_many() {
    let mut w = Writer::new(ColorCode::new(Color::Yellow, Color::Black));
    for _ in 0..200 {
        w.write_string("test_println_many output");
        w.write_byte(b'\n');
    }
    assert_eq!(w.column_position, 0);
}

#[test]
fn empty_memory_report_is_exhausted_immediately() {
    let mut fa = BootInfoFrameAllocator::init(Vec::new());
    assert_eq!(fa.allocate_frame(), None);
}

#[test]
fn heap_rejects_alignment_past_the_window() {
    let mut heap = Heap::new(0x1000, 1024);
    assert_eq!(heap.allocate(1, 1u64 << 63), None);
    // the failed request changed nothing
    assert_eq!(heap.allocate(8, 8), Some(0x1000));
}

// --- test shell ---

struct CountingTest {
    ran: std::cell::Cell<bool>,
}

impl Testable for CountingTest {
    fn run(&self) {
        self.ran.set(true);
    }
}

#[test]
fn test_runner_runs_every_test_and_reports_success() {
    let tests = vec![
        CountingTest { ran: std::cell::Cell::new(false) },
        CountingTest { ran: std::cell::Cell::new(false) },
    ];
    let code = test_runner(&tests);
    assert_eq!(code, QemuExitCode::Success);
    assert!(tests.iter().all(|t| t.ran.get()));
    assert_eq!(code.exit_code(), 0x10);
    assert_eq!(QemuExitCode::Failed.exit_code(), 0x11);
}
