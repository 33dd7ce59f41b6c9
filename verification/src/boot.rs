//! The supervisor-mode boot sequence: memory, kernel heap, kernel
//! address space, root filesystem, NCE slots and the first process.
//! The machine-mode setup before it (CSR delegation, PMP) and the trap
//! vector are the hardware's.
use vstd::prelude::*;
use crate::drivers::virtio::blk::{self, BlkDev};
use crate::fs::{self, Vfs};
use crate::mem::kalloc::{KernelHeap, INITIAL_HEAP_PAGES};
use crate::mem::page::{MAX_FRAMES, run_free, is_first_fit};
use crate::mem::layout::PAGE_SIZE;
use crate::mem::layout::{spec_page_up, RAM_END, RAM_START};
use crate::mem::mmu::{enable, kernel_page_table, kernel_mapped, KernelLayout, Mem, ERR_MAPPED, ERR_NO_ROOT, ERR_OOM,
    lemma_keeps_links_trans, lemma_kernel_mapped_stable};
use crate::mem::page;
use crate::nce::{self, EMULATED_SLOTS};
use crate::net::Net;
use crate::sched::process::{self, ProcState, ProcTable};
use crate::sched::round_robin::pick_next;
use crate::syscall::Kernel;

verus! {

pub const ERR_NO_HEAP: &'static str = "kalloc: not enough physical memory for initial kernel heap";

pub const ERR_NO_INIT: &'static str = "failed to spawn init";

/// The frames above `heap_start`: what the page allocator starts with.
pub open spec fn heap_frames(heap_start: usize) -> int {
    MAX_FRAMES - (spec_page_up(heap_start as int) - RAM_START) / (PAGE_SIZE as int)
}

/// Boots the kernel: frames above `heap_start` become allocatable, the
/// kernel heap takes its first pages, the kernel address space is built
/// and enabled, the root filesystem is mounted from `disk` when it holds
/// one, the NCE slots are registered from `dtb`, and `init` is spawned
/// (pid 1) and chosen to run.
pub fn boot(
    heap_start: usize,
    layout: &KernelLayout,
    disk: Option<Vec<u8>>,
    dtb: &[u8],
    programs: Vec<(Vec<u8>, Vec<u8>)>,
) -> (r: Result<(Kernel, KernelHeap), &'static str>)
    requires
        RAM_START <= heap_start,
        spec_page_up(heap_start as int) <= RAM_END,
        layout.text_end <= RAM_END,
        layout.rodata_end <= RAM_END,
    ensures
        heap_frames(heap_start) < INITIAL_HEAP_PAGES ==> r == Err::<(Kernel, KernelHeap), &'static str>(ERR_NO_HEAP),
        heap_frames(heap_start) == INITIAL_HEAP_PAGES ==> r == Err::<(Kernel, KernelHeap), &'static str>(ERR_NO_ROOT),
        r is Err ==> r->Err_0 == ERR_NO_HEAP || r->Err_0 == ERR_NO_INIT || r->Err_0 == ERR_NO_ROOT || r->Err_0
            == ERR_OOM || r->Err_0 == ERR_MAPPED,
        r matches Ok((k, h)) ==> {
            &&& k.ready()
            &&& h.wf()
            &&& k.procs.cur().pid == 1
            &&& k.procs.cur().state == ProcState::Running
            &&& k.procs.next_pid == 2
            &&& k.vfs.programs@ == programs@
            &&& k.nces@.len() == EMULATED_SLOTS
            &&& k.ticks == 0
            &&& k.console_in@.len() == 0
            &&& k.console_out@.len() == 0
            &&& k.doorbells@.len() == 0
            &&& k.net_out@.len() == 0
            &&& kernel_mapped(k.mem, k.mem.kernel_root as int, *layout)
        },
{
    let mut mem = Mem::new();
    page::init(&mut mem.alloc, heap_start);
    let ghost mem0 = mem;
    proof {
        if heap_frames(heap_start) >= INITIAL_HEAP_PAGES {
            let first = mem0.alloc.first_frame as int;
            assert(run_free(mem0.alloc@, first, INITIAL_HEAP_PAGES as int));
        }
    }
    let heap = match KernelHeap::init(&mut mem.alloc) {
        Some(h) => h,
        None => {
            return Err(ERR_NO_HEAP);
        },
    };
    proof {
        if heap_frames(heap_start) < INITIAL_HEAP_PAGES {
            let f = choose|f: int| #[trigger] is_first_fit(mem0.alloc@, mem0.alloc.first_frame as int, INITIAL_HEAP_PAGES as int, f);
            assert(run_free(mem0.alloc@, f, INITIAL_HEAP_PAGES as int));
        }
    }
    let root = kernel_page_table(&mut mem, layout)?;
    let ghost built = mem;
    enable(&mut mem, &root);
    let dev: Option<BlkDev> = match disk {
        Some(d) => blk::init(d),
        None => None,
    };
    let fsroot = fs::mount_root(&dev);
    let mut nces: Vec<nce::Nce> = Vec::new();
    nce::init(&mut nces, dtb);
    let vfs = Vfs { root: fsroot, dev, programs };
    let mut procs = ProcTable::new();
    let ghost enabled = mem;
    match process::spawn(&mut procs, &mut mem, &vfs, "init") {
        Ok(_) => {},
        Err(_) => {
            return Err(ERR_NO_INIT);
        },
    }
    proof {
        lemma_keeps_links_trans(built, enabled, mem);
        lemma_kernel_mapped_stable(built, mem, root.pa as int, *layout);
    }
    let slot = match pick_next(&mut procs) {
        Some((s, _)) => s,
        None => {
            return Err(ERR_NO_INIT);
        },
    };
    procs.current = slot;
    Ok(
        (
            Kernel {
                procs,
                mem,
                vfs,
                nces,
                net: Net::new(),
                ticks: 0,
                console_in: Vec::new(),
                console_out: Vec::new(),
                doorbells: Vec::new(),
                net_out: Vec::new(),
            },
            heap,
        ),
    )
}

} // verus!
