use mind_core::paging::{TableMemory, PAGE, USER_EXIT, USER_IMAGE, USER_INFO, USER_MAILBOX, USER_SCREEN, USER_STACK};
use mind_core::task_space::{exit_stub, task_space, TaskFrames, STACK_SIZE, USER_SP};

struct Tables {
    next: u64,
}

impl TableMemory for Tables {
    fn allocate_table(&mut self) -> Option<u64> {
        let frame = self.next;
        self.next += PAGE;
        Some(frame)
    }
    fn write_entry(&mut self, _frame: u64, _index: usize, _value: u64) {}
    fn retire_table(&mut self, _frame: u64) {}
}

fn frames() -> TaskFrames {
    TaskFrames {
        image: 0x100_0000,
        stack: 0x200_0000,
        screen: 0x300_0000,
        screen_len: 3 * PAGE,
        abi: 0x400_0000,
        exit: 0x500_0000,
    }
}

#[test]
fn a_task_sees_its_pieces_at_their_user_addresses() {
    let mut tables = Tables { next: 0x1000_0000 };
    let segments = vec![(0usize, 0x1000usize, 5u32), (0x1000, 0x2000, 6)];
    let space = task_space(&mut tables, 0x0F00_0000, &segments, frames()).unwrap();
    assert_eq!(space.readable(USER_IMAGE + 0x10), Some(0x100_0010));
    assert_eq!(space.readable(USER_IMAGE + 0x2ff8), Some(0x100_2ff8));
    assert_eq!(space.readable(USER_IMAGE + 0x3000), None);
    assert_eq!(space.readable(USER_STACK + 0x20), Some(0x200_0020));
    assert_eq!(space.readable(USER_STACK - 1), None);
    assert_eq!(space.readable(USER_STACK + STACK_SIZE), None);
    assert_eq!(space.readable(USER_SCREEN + 2 * PAGE + 4), Some(0x300_2004));
    assert_eq!(space.readable(USER_INFO + 4), Some(0x400_0004));
    assert_eq!(space.readable(USER_MAILBOX + 8), Some(0x400_1008));
    assert_eq!(space.readable(USER_EXIT), Some(0x500_0000));
    assert_eq!(USER_SP, USER_STACK + STACK_SIZE - 8);
}

#[test]
fn overlapping_or_writable_code_segments_are_refused() {
    let mut tables = Tables { next: 0x1000_0000 };
    let overlapping = vec![(0usize, 0x2000usize, 5u32), (0x1000, 0x1000, 6)];
    assert_eq!(
        task_space(&mut tables, 0x0F00_0000, &overlapping, frames()).err(),
        Some("OVERLAPPING USER PAGES")
    );
    let wx = vec![(0usize, 0x1000usize, 7u32)];
    assert_eq!(task_space(&mut tables, 0x0F00_0000, &wx, frames()).err(), Some("INVALID USER MAPPING"));
}

#[test]
fn the_exit_stub_calls_exit_through_the_mailbox() {
    assert_eq!(
        exit_stub(),
        [0x48, 0xb8, 0x00, 0x10, 0x00, 0x04, 0x80, 0x00, 0x00, 0x00, 0x48, 0xc7, 0x00, 7, 0, 0, 0, 0xcd, 0x80, 0x0f, 0x0b]
    );
}
