//! Core of a freestanding kernel: physical frame allocation, virtual page
//! mapping, heap allocation, a cooperative task executor, and the wait-free
//! bridge that carries events from interrupt context into task context.
//!
//! Everything here is a model over plain values: the hardware-facing
//! primitives (port writes, control-register reads, the live page table)
//! live outside this crate and hand it plain integers and bytes.

use vstd::prelude::*;

mod allocator;
mod executor;
mod memory;
mod paging;
mod scancode;
mod task;
mod vga_buffer;

pub use allocator::Heap;
pub use allocator::init_heap;
pub use executor::Executor;
pub use memory::BootInfoFrameAllocator;
pub use memory::EmptyFrameAllocator;
pub use memory::MemoryRegion;
pub use memory::RegionKind;
pub use paging::MapEntry;
pub use paging::MapError;
pub use paging::MapperFlush;
pub use paging::PageMapper;
pub use paging::PhysMemory;
pub use paging::create_example_mapping;
pub use paging::read_virt;
pub use paging::write_virt;
pub use scancode::ScancodeQueue;
pub use task::EventCounter;
pub use task::PollState;
pub use task::Task;
pub use task::TaskContext;
pub use task::TaskFuture;
pub use task::TaskId;
pub use vga_buffer::Color;
pub use vga_buffer::ColorCode;
pub use vga_buffer::ScreenChar;
pub use vga_buffer::Writer;

verus! {

/// Exit status reported to the hosting hypervisor when a test run ends.
///
/// The code is written to a debug port by the boot shell; this crate only
/// decides which code to report.
#[derive(Debug, Clone, Copy, PartialEq, Eq, Structural)]
pub enum QemuExitCode {
    Success,
    Failed,
}

impl QemuExitCode {
    /// The raw value the debug-exit device expects for this status.
    pub fn exit_code(self) -> (r: u32)
        ensures
            self is Success ==> r == 0x10,
            self is Failed ==> r == 0x11,
    {
        match self {
            QemuExitCode::Success => 0x10,
            QemuExitCode::Failed => 0x11,
        }
    }
}

/// A unit of the kernel's self-test suite: anything that can be run once.
pub trait Testable {
    fn run(&self);
}

/// Runs every test in order and reports the status the boot shell should
/// hand to the hypervisor: reaching the end of the list means success.
pub fn test_runner<T: Testable>(tests: &[T]) -> (r: QemuExitCode)
    ensures
        r is Success,
{
    let mut i: usize = 0;
    while i < tests.len()
        decreases tests.len() - i,
    {
        tests[i].run();
        i = i + 1;
    }
    QemuExitCode::Success
}

} // verus!
