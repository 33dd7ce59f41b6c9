use lib::mem::kalloc::{block_size, FreeList, KernelHeap, INITIAL_HEAP_PAGES};
use lib::mem::layout::{page_down, page_up, PAGE_SIZE, RAM_START};
use lib::mem::mmu::{kernel_page_table, KernelLayout, Mem, PageTable, PTE_R, PTE_U, PTE_W};
use lib::mem::page::{self, PageAllocator};
use lib::mem::uaccess::{check_range, copy_in, copy_in_cstr, copy_out, ERR_OUTSIDE, ERR_OVERFLOW, ERR_UNMAPPED};

const HEAP_START: usize = 0x8020_0000;

fn booted_allocator() -> PageAllocator {
    let mut a = PageAllocator::new();
    page::init(&mut a, HEAP_START);
    a
}

#[test]
fn page_layout_rounding() {
    assert_eq!(page_down(0x8000_1234), 0x8000_1000);
    assert_eq!(page_up(0x8000_1234), 0x8000_2000);
    assert_eq!(page_up(0x8000_1000), 0x8000_1000);
    assert_eq!(page_down(0x8000_1000), 0x8000_1000);
}

#[test]
fn page_allocator_first_fit_and_reuse() {
    let mut a = booted_allocator();
    let total = page::free_frames(&a);
    assert_eq!(total, 32768 - 512);
    let p1 = page::page_alloc(&mut a, 1).unwrap();
    assert_eq!(p1, HEAP_START);
    let p2 = page::page_alloc(&mut a, 2).unwrap();
    assert_eq!(p2, HEAP_START + PAGE_SIZE);
    assert_eq!(page::free_frames(&a), total - 3);
    page::page_free(&mut a, p1, 1);
    assert_eq!(page::free_frames(&a), total - 2);
    // The freed frame is the first fit again.
    assert_eq!(page::page_alloc(&mut a, 1), Some(HEAP_START));
    // Two frames do not fit in the single freed hole.
    page::page_free(&mut a, HEAP_START, 1);
    assert_eq!(page::page_alloc(&mut a, 2), Some(HEAP_START + 3 * PAGE_SIZE));
    assert_eq!(page::page_alloc(&mut a, 0), None);
    assert_eq!(page::page_alloc(&mut a, 40000), None);
}

#[test]
fn page_allocator_unbooted_has_nothing() {
    let mut a = PageAllocator::new();
    assert_eq!(page::free_frames(&a), 0);
    assert_eq!(page::page_alloc(&mut a, 1), None);
}

#[test]
fn free_list_insert_coalesces_neighbours() {
    let mut f = FreeList::new();
    f.insert(0x1000, 0x100);
    f.insert(0x1200, 0x100);
    assert_eq!(f.blocks, vec![(0x1000, 0x100), (0x1200, 0x100)]);
    // Fills the gap: all three merge into one block.
    f.insert(0x1100, 0x100);
    assert_eq!(f.blocks, vec![(0x1000, 0x300)]);
    f.insert(0x0f00, 0x100);
    assert_eq!(f.blocks, vec![(0x0f00, 0x400)]);
    f.insert(0x1300, 0x10);
    assert_eq!(f.blocks, vec![(0x0f00, 0x410)]);
    f.insert(0x2000, 0x10);
    assert_eq!(f.blocks, vec![(0x0f00, 0x410), (0x2000, 0x10)]);
}

#[test]
fn free_list_take_first_fit_aligned() {
    let mut f = FreeList::new();
    f.insert(0x1008, 0x20);
    f.insert(0x2000, 0x1000);
    // 0x1008 aligned to 0x10 is 0x1010; 0x20 bytes do not fit there.
    assert_eq!(f.take(0x20, 0x10), Some(0x2000));
    assert_eq!(f.blocks, vec![(0x1008, 0x20), (0x2020, 0xfe0)]);
    // 0x10 bytes fit in the first block after 8 bytes of padding.
    assert_eq!(f.take(0x10, 0x10), Some(0x1010));
    assert_eq!(f.blocks, vec![(0x1008, 0x8), (0x1020, 0x8), (0x2020, 0xfe0)]);
    assert_eq!(f.take(0x2000, 0x10), None);
    assert_eq!(f.blocks, vec![(0x1008, 0x8), (0x1020, 0x8), (0x2020, 0xfe0)]);
    // Returning the taken range restores the block.
    f.insert(0x1010, 0x10);
    assert_eq!(f.blocks, vec![(0x1008, 0x20), (0x2020, 0xfe0)]);
}

#[test]
fn heap_block_sizes() {
    assert_eq!(block_size(0), 16);
    assert_eq!(block_size(1), 16);
    assert_eq!(block_size(16), 16);
    assert_eq!(block_size(17), 32);
    assert_eq!(block_size(100), 112);
}

#[test]
fn heap_allocates_grows_and_frees() {
    let mut pages = booted_allocator();
    let mut heap = KernelHeap::init(&mut pages).unwrap();
    assert_eq!(heap.free.blocks, vec![(HEAP_START, INITIAL_HEAP_PAGES * PAGE_SIZE)]);
    let a = heap.allocate(&mut pages, 24, 8).unwrap();
    assert_eq!(a, HEAP_START);
    let b = heap.allocate(&mut pages, 1, 64).unwrap();
    assert_eq!(b, HEAP_START + 64);
    assert_eq!(heap.free.blocks[0], (HEAP_START + 32, 32));
    heap.dealloc(a, 24);
    assert_eq!(heap.free.blocks[0], (HEAP_START, 64));
    // A request larger than the heap grows it from the page allocator.
    let before = page::free_frames(&pages);
    let big = heap.allocate(&mut pages, 8 * 1024 * 1024, 16).unwrap();
    assert!(page::free_frames(&pages) < before);
    assert_eq!(big % 16, 0);
    assert!(heap.is_disjoint(big, 8 * 1024 * 1024));
}

#[test]
fn heap_without_pages_fails() {
    let mut pages = PageAllocator::new();
    assert!(KernelHeap::init(&mut pages).is_none());
}

fn user_space() -> (Mem, PageTable, usize) {
    let mut m = Mem::new();
    page::init(&mut m.alloc, HEAP_START);
    let root = PageTable::allocate(&mut m).unwrap();
    let frame = m.alloc_frame().unwrap();
    let va = 0x4000_0000;
    root.map(&mut m, va, frame, PTE_R | PTE_W | PTE_U).unwrap();
    (m, root, frame)
}

#[test]
fn mmu_map_translate_unmap() {
    let (mut m, root, frame) = user_space();
    assert_eq!(root.virt_to_phys(&m, 0x4000_0000), Some(frame));
    assert_eq!(root.virt_to_phys(&m, 0x4000_0123), Some(frame + 0x123));
    assert_eq!(root.virt_to_phys(&m, 0x4000_1000), None);
    assert_eq!(root.satp(), (8u64 << 60) | ((root.pa as u64) >> 12));
    assert!(root.map(&mut m, 0x4000_0000, frame, PTE_R).is_err());
    assert_eq!(root.unmap(&mut m, 0x4000_0000), Some(frame));
    assert_eq!(root.virt_to_phys(&m, 0x4000_0000), None);
    assert_eq!(root.unmap(&mut m, 0x4000_0000), None);
}

#[test]
fn uaccess_copy_out_then_in() {
    let (mut m, root, _) = user_space();
    copy_out(&mut m, &root, 0x4000_0ff0, b"hello").unwrap();
    let mut back = [0u8; 5];
    copy_in(&m, &root, 0x4000_0ff0, &mut back).unwrap();
    assert_eq!(&back, b"hello");
    copy_out(&mut m, &root, 0x4000_0100, b"/bin/sh\0junk").unwrap();
    let mut buf = [0u8; 64];
    assert_eq!(copy_in_cstr(&m, &root, 0x4000_0100, &mut buf).unwrap(), b"/bin/sh".to_vec());
}

#[test]
fn uaccess_errors() {
    let (mut m, root, _) = user_space();
    assert_eq!(check_range(0x4000_0000, 16), Ok(()));
    assert_eq!(check_range(0x1000, 16), Err(ERR_OUTSIDE));
    assert_eq!(check_range(0x7fff_fff0, 32), Err(ERR_OUTSIDE));
    assert_eq!(check_range(usize::MAX - 4, 16), Err(ERR_OVERFLOW));
    // The page after the mapped one is unmapped.
    assert_eq!(copy_out(&mut m, &root, 0x4000_0ffe, b"abcd"), Err(ERR_UNMAPPED));
    let mut buf = [0u8; 4];
    assert_eq!(copy_in(&m, &root, 0x4000_1000, &mut buf), Err(ERR_UNMAPPED));
    assert_eq!(copy_in(&m, &root, 0x10, &mut buf), Err(ERR_OUTSIDE));
}

#[test]
fn kernel_page_table_identity_maps_sections_and_devices() {
    let mut m = Mem::new();
    page::init(&mut m.alloc, 0x8100_0000);
    let layout = KernelLayout {
        text_start: 0x8000_0000,
        text_end: 0x8000_3000,
        rodata_start: 0x8000_3000,
        rodata_end: 0x8000_4800,
        data_start: 0x8000_5000,
    };
    let root = kernel_page_table(&mut m, &layout).unwrap();
    for va in [0x8000_0000usize, 0x8000_2ffc, 0x8000_4800, 0x8000_5008, 0x87ff_ffff, 0x1000_0005, 0x1000_1abc, 0x0200_bff8, 0x0c20_1004] {
        assert_eq!(root.virt_to_phys(&m, va), Some(va));
    }
    // Rodata's last page is mapped whole; nothing past RAM or in the user window is.
    assert_eq!(root.virt_to_phys(&m, 0x8000_4fff), Some(0x8000_4fff));
    assert_eq!(root.virt_to_phys(&m, 0x8800_0000), None);
    assert_eq!(root.virt_to_phys(&m, 0x4000_0000), None);
}
