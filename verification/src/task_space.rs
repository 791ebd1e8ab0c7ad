//! A new task's address space: its loaded segments, its stack, its screen,
//! its information page (read only), its system call mailbox and the exit
//! stub its first function returns into, each at its fixed user address.
use vstd::prelude::*;
use vstd::bytes::spec_u64_to_le_bytes;
use crate::bytes::write_u64;
use crate::paging::{
    frame_ok, in_pages, mapped_translation, translate, Space, TableMemory, PAGE, USER_EXIT, USER_IMAGE, USER_INFO,
    USER_MAILBOX, USER_SCREEN, USER_STACK,
};

verus! {

/// The bytes of a task's stack.
pub const STACK_SIZE: u64 = 0x10000;

/// The stack pointer a task starts with: the top word of its stack, which
/// holds the exit stub's address.
pub const USER_SP: u64 = USER_STACK + STACK_SIZE - 8;

/// The frames that back a new task.
#[derive(Clone, Copy, Debug, PartialEq, Eq, Structural)]
pub struct TaskFrames {
    /// The loaded image; a segment at offset `o` of the image lives at
    /// `image + o`.
    pub image: u64,
    pub stack: u64,
    pub screen: u64,
    /// The screen's bytes, whole pages.
    pub screen_len: u64,
    /// Two pages: the information page, then the mailbox.
    pub abi: u64,
    pub exit: u64,
}

/// Where an access to `b` lands through the first `n` segments (offset
/// from the image base, size, flags), a later segment over an earlier one.
pub open spec fn segment_translation(segments: Seq<(usize, usize, u32)>, image: u64, n: int, b: int) -> Option<u64>
    decreases n,
{
    if n <= 0 {
        None
    } else {
        let (offset, size, flags) = segments[n - 1];
        if in_pages(b, USER_IMAGE + offset, size as int) {
            Some(
                mapped_translation(
                    (USER_IMAGE + offset) as u64,
                    (image + offset) as u64,
                    flags & 2 != 0,
                    flags & 1 != 0,
                    b,
                ),
            )
        } else {
            segment_translation(segments, image, n - 1, b)
        }
    }
}

/// Where an access to `b` lands in a task's space: the stack and the screen
/// writable, the information page read only, the mailbox writable, the
/// exit stub executable, the segments as their flags say.
pub open spec fn task_translation(segments: Seq<(usize, usize, u32)>, f: TaskFrames, b: int) -> Option<u64> {
    if in_pages(b, USER_EXIT as int, PAGE as int) {
        Some(mapped_translation(USER_EXIT, f.exit, false, true, b))
    } else if in_pages(b, USER_MAILBOX as int, PAGE as int) {
        Some(mapped_translation(USER_MAILBOX, (f.abi + PAGE) as u64, true, false, b))
    } else if in_pages(b, USER_INFO as int, PAGE as int) {
        Some(mapped_translation(USER_INFO, f.abi, false, false, b))
    } else if in_pages(b, USER_SCREEN as int, f.screen_len as int) {
        Some(mapped_translation(USER_SCREEN, f.screen, true, false, b))
    } else if in_pages(b, USER_STACK as int, STACK_SIZE as int) {
        Some(mapped_translation(USER_STACK, f.stack, true, false, b))
    } else {
        segment_translation(segments, f.image, segments.len() as int, b)
    }
}

/// Segment flags that ask for a writable and executable page.
pub open spec fn write_and_execute(flags: u32) -> bool {
    flags & 2 != 0 && flags & 1 != 0
}

/// Builds a task's address space over `kernel_tables`: each segment, then
/// the stack, the screen, the information page, the mailbox and the exit
/// stub. The first mapping that is refused, or an address that overflows,
/// ends it with that error.
pub fn task_space<M: TableMemory>(
    memory: &mut M,
    kernel_tables: u64,
    segments: &Vec<(usize, usize, u32)>,
    f: TaskFrames,
) -> (r: Result<Space, &'static str>)
    requires
        frame_ok(kernel_tables),
    ensures
        r matches Ok(space) ==> {
            &&& space.wf()
            &&& space.kernel_tables() == kernel_tables
            &&& forall|b: int| #[trigger] translate(space@, b) == task_translation(segments@, f, b)
        },
        (exists|i: int| 0 <= i < segments@.len() && #[trigger] write_and_execute(segments@[i].2)) ==> r is Err,
        r matches Err(e) ==> e == "INVALID USER MAPPING" || e == "OVERLAPPING USER PAGES" || e == "PAGE TABLE LIMIT"
            || e == "OUT OF MEMORY" || e == "INVALID PAGE TABLE FRAME",
{
    let mut space = match Space::new(memory, kernel_tables) {
        Ok(space) => space,
        Err(e) => return Err(e),
    };
    let mut i: usize = 0;
    while i < segments.len()
        invariant
            space.wf(),
            space.kernel_tables() == kernel_tables,
            i <= segments@.len(),
            forall|b: int| #[trigger] translate(space@, b) == segment_translation(segments@, f.image, i as int, b),
            forall|k: int| 0 <= k < i ==> !#[trigger] write_and_execute(segments@[k].2),
        decreases segments@.len() - i,
    {
        let (offset, size, flags) = segments[i];
        let start = match USER_IMAGE.checked_add(offset as u64) {
            Some(v) => v,
            None => return Err("INVALID USER MAPPING"),
        };
        let physical = match f.image.checked_add(offset as u64) {
            Some(p) => p,
            None => return Err("INVALID USER MAPPING"),
        };
        let ghost before = space@;
        match space.map(memory, start, physical, size as u64, flags & 2 != 0, flags & 1 != 0) {
            Ok(()) => {},
            Err(e) => return Err(e),
        }
        assert(!write_and_execute(flags));
        assert forall|b: int| #[trigger] translate(space@, b) == segment_translation(segments@, f.image, i + 1, b) by {
            assert(translate(before, b) == segment_translation(segments@, f.image, i as int, b));
        }
        i += 1;
    }
    let ghost segs = space@;
    match space.map(memory, USER_STACK, f.stack, STACK_SIZE, true, false) {
        Ok(()) => {},
        Err(e) => return Err(e),
    }
    let ghost with_stack = space@;
    match space.map(memory, USER_SCREEN, f.screen, f.screen_len, true, false) {
        Ok(()) => {},
        Err(e) => return Err(e),
    }
    let ghost with_screen = space@;
    match space.map(memory, USER_INFO, f.abi, PAGE, false, false) {
        Ok(()) => {},
        Err(e) => return Err(e),
    }
    let ghost with_info = space@;
    let mailbox = match f.abi.checked_add(PAGE) {
        Some(m) => m,
        None => return Err("INVALID USER MAPPING"),
    };
    match space.map(memory, USER_MAILBOX, mailbox, PAGE, true, false) {
        Ok(()) => {},
        Err(e) => return Err(e),
    }
    let ghost with_mailbox = space@;
    match space.map(memory, USER_EXIT, f.exit, PAGE, false, true) {
        Ok(()) => {},
        Err(e) => return Err(e),
    }
    assert forall|b: int| #[trigger] translate(space@, b) == task_translation(segments@, f, b) by {
        assert(translate(segs, b) == segment_translation(segments@, f.image, segments@.len() as int, b));
        assert(translate(with_stack, b) == if in_pages(b, USER_STACK as int, STACK_SIZE as int) {
            Some(mapped_translation(USER_STACK, f.stack, true, false, b))
        } else {
            translate(segs, b)
        });
        assert(translate(with_screen, b) == if in_pages(b, USER_SCREEN as int, f.screen_len as int) {
            Some(mapped_translation(USER_SCREEN, f.screen, true, false, b))
        } else {
            translate(with_stack, b)
        });
        assert(translate(with_info, b) == if in_pages(b, USER_INFO as int, PAGE as int) {
            Some(mapped_translation(USER_INFO, f.abi, false, false, b))
        } else {
            translate(with_screen, b)
        });
        assert(translate(with_mailbox, b) == if in_pages(b, USER_MAILBOX as int, PAGE as int) {
            Some(mapped_translation(USER_MAILBOX, mailbox, true, false, b))
        } else {
            translate(with_info, b)
        });
    }
    Ok(space)
}

/// The exit stub: `mov rax, USER_MAILBOX; mov qword [rax], 7; int 0x80;
/// ud2`, the exit system call a task's first function returns into.
pub open spec fn exit_stub_spec() -> Seq<u8> {
    seq![0x48u8, 0xb8] + spec_u64_to_le_bytes(USER_MAILBOX) + seq![0x48u8, 0xc7, 0x00, 7, 0, 0, 0, 0xcd, 0x80, 0x0f, 0x0b]
}

pub fn exit_stub() -> (r: [u8; 21])
    ensures
        r@ == exit_stub_spec(),
{
    let mut code = [0x48u8, 0xb8, 0, 0, 0, 0, 0, 0, 0, 0, 0x48, 0xc7, 0x00, 7, 0, 0, 0, 0xcd, 0x80, 0x0f, 0x0b];
    write_u64(&mut code, 2, USER_MAILBOX);
    proof {
        vstd::bytes::lemma_auto_spec_u64_to_from_le_bytes();
        assert(spec_u64_to_le_bytes(USER_MAILBOX).len() == 8);
    }
    assert(code@ =~= exit_stub_spec());
    code
}

} // verus!
