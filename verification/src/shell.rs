//! The kernel shell's command language: a command word, then arguments.
//! `run <name> [&]` starts a program (in the background with `&`), `boot`
//! runs `app`, `fg`/`kill`/`logs <pid>` act on a task, and `help`, `list`,
//! `cpus`, `faults`, `ps`, `clear`, `stop`, `heap` take no arguments. Words
//! are compared without regard to ASCII case.
use vstd::prelude::*;

verus! {

/// Programs the shell can start, by index.
pub const PROGRAM_COUNT: usize = 7;

pub open spec fn program_name_spec(i: int) -> Seq<u8> {
    if i == 0 {
        seq![97u8, 112, 112]  // app
    } else if i == 1 {
        seq![97u8, 112, 112, 50]  // app2
    } else if i == 2 {
        seq![99u8, 108, 111, 99, 107]  // clock
    } else if i == 3 {
        seq![100u8, 122, 101, 110, 45, 99, 108, 111, 99, 107]  // dzen-clock
    } else if i == 4 {
        seq![112u8, 105, 110, 103]  // ping
    } else if i == 5 {
        seq![112u8, 111, 110, 103]  // pong
    } else {
        seq![114u8, 116, 99]  // rtc
    }
}

/// The name of program `i`, as the shell and `spawn` know it.
pub fn program_name(i: usize) -> (r: Vec<u8>)
    requires
        i < PROGRAM_COUNT,
    ensures
        r@ == program_name_spec(i as int),
{
    let r = if i == 0 {
        vec![97u8, 112, 112]
    } else if i == 1 {
        vec![97u8, 112, 112, 50]
    } else if i == 2 {
        vec![99u8, 108, 111, 99, 107]
    } else if i == 3 {
        vec![100u8, 122, 101, 110, 45, 99, 108, 111, 99, 107]
    } else if i == 4 {
        vec![112u8, 105, 110, 103]
    } else if i == 5 {
        vec![112u8, 111, 110, 103]
    } else {
        vec![114u8, 116, 99]
    };
    assert(r@ =~= program_name_spec(i as int));
    r
}

pub open spec fn is_space(b: u8) -> bool {
    b == 32 || b == 9 || b == 10 || b == 12 || b == 13
}

pub open spec fn lower(b: u8) -> u8 {
    if 65 <= b <= 90 {
        (b + 32) as u8
    } else {
        b
    }
}

/// Equal ignoring ASCII case.
pub open spec fn same_word(a: Seq<u8>, b: Seq<u8>) -> bool {
    a.len() == b.len() && forall|i: int| 0 <= i < a.len() ==> lower(a[i]) == lower(b[i])
}

pub open spec fn leading_spaces(s: Seq<u8>) -> nat
    decreases s.len(),
{
    if s.len() > 0 && is_space(s[0]) {
        1 + leading_spaces(s.drop_first())
    } else {
        0
    }
}

pub open spec fn trailing_spaces(s: Seq<u8>) -> nat
    decreases s.len(),
{
    if s.len() > 0 && is_space(s.last()) {
        1 + trailing_spaces(s.drop_last())
    } else {
        0
    }
}

/// `s` without its leading and trailing ASCII whitespace.
pub open spec fn trim_spec(s: Seq<u8>) -> Seq<u8> {
    let t = s.skip(leading_spaces(s) as int);
    t.take(t.len() - trailing_spaces(t))
}

/// The index of the first whitespace byte, or the length.
pub open spec fn word_end(s: Seq<u8>) -> nat
    decreases s.len(),
{
    if s.len() == 0 || is_space(s[0]) {
        0
    } else {
        1 + word_end(s.drop_first())
    }
}

proof fn lemma_leading_bound(s: Seq<u8>)
    ensures
        leading_spaces(s) <= s.len(),
    decreases s.len(),
{
    if s.len() > 0 && is_space(s[0]) {
        lemma_leading_bound(s.drop_first());
    }
}

proof fn lemma_trailing_bound(s: Seq<u8>)
    ensures
        trailing_spaces(s) <= s.len(),
    decreases s.len(),
{
    if s.len() > 0 && is_space(s.last()) {
        lemma_trailing_bound(s.drop_last());
    }
}

proof fn lemma_word_end_bound(s: Seq<u8>)
    ensures
        word_end(s) <= s.len(),
    decreases s.len(),
{
    if s.len() > 0 && !is_space(s[0]) {
        lemma_word_end_bound(s.drop_first());
    }
}

fn is_space_exec(b: u8) -> (r: bool)
    ensures
        r == is_space(b),
{
    b == 32 || b == 9 || b == 10 || b == 12 || b == 13
}

/// `s` without leading and trailing ASCII whitespace.
pub fn trim(s: &[u8]) -> (r: &[u8])
    ensures
        r@ == trim_spec(s@),
{
    let len = s.len();
    let mut start: usize = 0;
    assert(s@.skip(0) =~= s@);
    while start < len && is_space_exec(s[start])
        invariant
            start <= len,
            len == s@.len(),
            leading_spaces(s@) == start + leading_spaces(s@.skip(start as int)),
        decreases len - start,
    {
        assert(s@.skip(start as int).drop_first() =~= s@.skip(start + 1));
        start += 1;
    }
    assert(leading_spaces(s@.skip(start as int)) == 0);
    let ghost t = s@.skip(start as int);
    let mut end: usize = len;
    while end > start && is_space_exec(s[end - 1])
        invariant
            start <= end <= len,
            len == s@.len(),
            t == s@.skip(start as int),
            trailing_spaces(t) == (len - end) + trailing_spaces(s@.subrange(start as int, end as int)),
        decreases end - start,
    {
        assert(s@.subrange(start as int, end as int).drop_last() =~= s@.subrange(start as int, end - 1));
        end -= 1;
    }
    assert(trailing_spaces(s@.subrange(start as int, end as int)) == 0);
    let r = vstd::slice::slice_subrange(s, start, end);
    assert(r@ =~= trim_spec(s@));
    r
}

fn word_end_exec(s: &[u8]) -> (r: usize)
    ensures
        r == word_end(s@),
{
    let len = s.len();
    let mut i: usize = 0;
    assert(s@.skip(0) =~= s@);
    while i < len && !is_space_exec(s[i])
        invariant
            i <= len,
            len == s@.len(),
            word_end(s@) == i + word_end(s@.skip(i as int)),
        decreases len - i,
    {
        assert(s@.skip(i as int).drop_first() =~= s@.skip(i + 1));
        i += 1;
    }
    i
}

fn lower_exec(b: u8) -> (r: u8)
    ensures
        r == lower(b),
{
    if 65 <= b && b <= 90 {
        b + 32
    } else {
        b
    }
}

/// Compares two words without regard to ASCII case.
pub fn streq(a: &[u8], b: &[u8]) -> (r: bool)
    ensures
        r == same_word(a@, b@),
{
    if a.len() != b.len() {
        return false;
    }
    let mut i: usize = 0;
    while i < a.len()
        invariant
            a@.len() == b@.len(),
            i <= a@.len(),
            forall|k: int| 0 <= k < i ==> lower(a@[k]) == lower(b@[k]),
        decreases a@.len() - i,
    {
        if lower_exec(a[i]) != lower_exec(b[i]) {
            return false;
        }
        i += 1;
    }
    true
}

/// The decimal value of a string of digits.
pub open spec fn decimal_value(s: Seq<u8>) -> nat
    decreases s.len(),
{
    if s.len() == 0 {
        0
    } else {
        decimal_value(s.drop_last()) * 10 + (s.last() - 48) as nat
    }
}

pub open spec fn all_digits(s: Seq<u8>) -> bool {
    forall|i: int| 0 <= i < s.len() ==> 48 <= #[trigger] s[i] <= 57
}

/// A positive task id written in decimal.
pub open spec fn pid_spec(s: Seq<u8>) -> Option<u64> {
    if s.len() > 0 && all_digits(s) && decimal_value(s) <= u64::MAX && decimal_value(s) != 0 {
        Some(decimal_value(s) as u64)
    } else {
        None
    }
}

proof fn lemma_decimal_grows(s: Seq<u8>, i: int)
    requires
        0 <= i <= s.len(),
        all_digits(s),
    ensures
        decimal_value(s.take(i)) <= decimal_value(s),
    decreases s.len() - i,
{
    if i < s.len() {
        lemma_decimal_grows(s, i + 1);
        assert(s.take(i + 1).drop_last() =~= s.take(i));
    } else {
        assert(s.take(i) =~= s);
    }
}

/// The task id in `args`: one or more ASCII digits, not zero, that fit in 64 bits.
pub fn pid_arg(args: &[u8]) -> (r: Option<u64>)
    ensures
        r == pid_spec(args@),
{
    if args.len() == 0 {
        return None;
    }
    let mut pid: u64 = 0;
    let mut i: usize = 0;
    while i < args.len()
        invariant
            i <= args@.len(),
            all_digits(args@.take(i as int)),
            pid == decimal_value(args@.take(i as int)),
        decreases args@.len() - i,
    {
        let byte = args[i];
        assert(args@.take(i + 1).drop_last() =~= args@.take(i as int));
        if !(48 <= byte && byte <= 57) {
            assert(!all_digits(args@));
            return None;
        }
        let next = match pid.checked_mul(10) {
            Some(v) => match v.checked_add((byte - 48) as u64) {
                Some(w) => w,
                None => {
                    proof {
                        if all_digits(args@) {
                            lemma_decimal_grows(args@, i + 1);
                        }
                    }
                    return None;
                },
            },
            None => {
                proof {
                    if all_digits(args@) {
                        lemma_decimal_grows(args@, i + 1);
                    }
                }
                return None;
            },
        };
        pid = next;
        i += 1;
    }
    assert(args@.take(args@.len() as int) =~= args@);
    if pid != 0 {
        Some(pid)
    } else {
        None
    }
}

/// The index of the program called `name`, ignoring ASCII case.
pub open spec fn program_spec(name: Seq<u8>) -> Option<usize> {
    if exists|i: int| 0 <= i < PROGRAM_COUNT && same_word(name, program_name_spec(i)) {
        Some((choose|i: int| 0 <= i < PROGRAM_COUNT && same_word(name, program_name_spec(i))) as usize)
    } else {
        None
    }
}

proof fn lemma_program_names_distinct(i: int, j: int, name: Seq<u8>)
    requires
        0 <= i < PROGRAM_COUNT,
        0 <= j < PROGRAM_COUNT,
        same_word(name, program_name_spec(i)),
        same_word(name, program_name_spec(j)),
    ensures
        i == j,
{
    let a = program_name_spec(i);
    let b = program_name_spec(j);
    assert(name.len() == a.len() && name.len() == b.len());
    if i != j {
        assert(lower(name[0]) == lower(a[0]) && lower(name[0]) == lower(b[0]));
        if a.len() >= 4 {
            assert(lower(name[1]) == lower(a[1]) && lower(name[1]) == lower(b[1]));
            assert(lower(name[3]) == lower(a[3]) && lower(name[3]) == lower(b[3]));
        }
    }
}

pub fn program_index(name: &[u8]) -> (r: Option<usize>)
    ensures
        r == program_spec(name@),
        r matches Some(i) ==> i < PROGRAM_COUNT && same_word(name@, program_name_spec(i as int)),
{
    let mut i: usize = 0;
    while i < PROGRAM_COUNT
        invariant
            i <= PROGRAM_COUNT,
            forall|k: int| 0 <= k < i ==> !same_word(name@, program_name_spec(k)),
        decreases PROGRAM_COUNT - i,
    {
        let candidate = program_name(i);
        if streq(name, candidate.as_slice()) {
            proof {
                let c = choose|k: int| 0 <= k < PROGRAM_COUNT && same_word(name@, program_name_spec(k));
                lemma_program_names_distinct(c, i as int, name@);
            }
            return Some(i);
        }
        i += 1;
    }
    None
}

#[derive(Clone, Copy, Debug, PartialEq, Eq, Structural)]
pub enum Command {
    /// A blank line: nothing to do.
    Empty,
    /// Start program `program`, in the foreground unless `background`.
    Run { program: usize, background: bool },
    /// `run` without a name: show the usage and the programs.
    RunUsage,
    UnknownProgram,
    BootTakesNoArguments,
    Focus(u64),
    Kill(u64),
    Logs(u64),
    ExpectedPid,
    TakesNoArguments,
    Help,
    List,
    Cpus,
    Faults,
    Ps,
    Clear,
    Stop,
    Heap,
    Unknown,
}

pub open spec fn word_run() -> Seq<u8> {
    seq![114u8, 117, 110]
}

pub open spec fn word_boot() -> Seq<u8> {
    seq![98u8, 111, 111, 116]
}

pub open spec fn word_fg() -> Seq<u8> {
    seq![102u8, 103]
}

pub open spec fn word_kill() -> Seq<u8> {
    seq![107u8, 105, 108, 108]
}

pub open spec fn word_logs() -> Seq<u8> {
    seq![108u8, 111, 103, 115]
}

pub open spec fn word_help() -> Seq<u8> {
    seq![104u8, 101, 108, 112]
}

pub open spec fn word_list() -> Seq<u8> {
    seq![108u8, 105, 115, 116]
}

pub open spec fn word_cpus() -> Seq<u8> {
    seq![99u8, 112, 117, 115]
}

pub open spec fn word_faults() -> Seq<u8> {
    seq![102u8, 97, 117, 108, 116, 115]
}

pub open spec fn word_ps() -> Seq<u8> {
    seq![112u8, 115]
}

pub open spec fn word_clear() -> Seq<u8> {
    seq![99u8, 108, 101, 97, 114]
}

pub open spec fn word_stop() -> Seq<u8> {
    seq![115u8, 116, 111, 112]
}

pub open spec fn word_heap() -> Seq<u8> {
    seq![104u8, 101, 97, 112]
}

/// The program to run for `run`/`boot` with arguments `args`.
pub open spec fn run_spec(is_boot: bool, args: Seq<u8>) -> Command {
    if is_boot && args.len() > 0 {
        Command::BootTakesNoArguments
    } else {
        let background = !is_boot && args.len() > 0 && args.last() == 38;
        let name = if is_boot {
            program_name_spec(0)
        } else if background {
            trim_spec(args.drop_last())
        } else {
            args
        };
        if name.len() == 0 {
            Command::RunUsage
        } else {
            match program_spec(name) {
                Some(program) => Command::Run { program, background },
                None => Command::UnknownProgram,
            }
        }
    }
}

/// What the shell does with the line `input`.
pub open spec fn command_spec(input: Seq<u8>) -> Command {
    let line = trim_spec(input);
    let cmd = line.take(word_end(line) as int);
    let args = trim_spec(line.skip(word_end(line) as int));
    if cmd.len() == 0 {
        Command::Empty
    } else if same_word(cmd, word_run()) || same_word(cmd, word_boot()) {
        run_spec(same_word(cmd, word_boot()), args)
    } else if same_word(cmd, word_fg()) || same_word(cmd, word_kill()) || same_word(cmd, word_logs()) {
        match pid_spec(args) {
            None => Command::ExpectedPid,
            Some(pid) => if same_word(cmd, word_fg()) {
                Command::Focus(pid)
            } else if same_word(cmd, word_kill()) {
                Command::Kill(pid)
            } else {
                Command::Logs(pid)
            },
        }
    } else if args.len() > 0 {
        Command::TakesNoArguments
    } else if same_word(cmd, word_help()) {
        Command::Help
    } else if same_word(cmd, word_list()) {
        Command::List
    } else if same_word(cmd, word_cpus()) {
        Command::Cpus
    } else if same_word(cmd, word_faults()) {
        Command::Faults
    } else if same_word(cmd, word_ps()) {
        Command::Ps
    } else if same_word(cmd, word_clear()) {
        Command::Clear
    } else if same_word(cmd, word_stop()) {
        Command::Stop
    } else if same_word(cmd, word_heap()) {
        Command::Heap
    } else {
        Command::Unknown
    }
}

/// Bytes equal ignoring case are both spaces or neither, and a digit or
/// `&` is only ever matched by itself.
proof fn lemma_lower_same(x: u8, y: u8)
    requires
        lower(x) == lower(y),
    ensures
        is_space(x) == is_space(y),
        48 <= x <= 57 ==> x == y,
        48 <= y <= 57 ==> x == y,
        x == 38 <==> y == 38,
{
}

proof fn lemma_same_word_sub(a: Seq<u8>, b: Seq<u8>, i: int, j: int)
    requires
        same_word(a, b),
        0 <= i <= j <= a.len(),
    ensures
        same_word(a.subrange(i, j), b.subrange(i, j)),
{
    assert forall|k: int| 0 <= k < j - i implies lower(a.subrange(i, j)[k]) == lower(b.subrange(i, j)[k]) by {
        assert(lower(a[i + k]) == lower(b[i + k]));
    }
}

proof fn lemma_same_word_trans(a: Seq<u8>, b: Seq<u8>, c: Seq<u8>)
    requires
        same_word(a, b),
    ensures
        same_word(a, c) == same_word(b, c),
{
    if same_word(a, c) {
        assert forall|k: int| 0 <= k < b.len() implies lower(b[k]) == lower(c[k]) by {
            assert(lower(a[k]) == lower(b[k]));
        }
    }
    if same_word(b, c) {
        assert forall|k: int| 0 <= k < a.len() implies lower(a[k]) == lower(c[k]) by {
            assert(lower(a[k]) == lower(b[k]));
        }
    }
}

proof fn lemma_same_counts(a: Seq<u8>, b: Seq<u8>)
    requires
        same_word(a, b),
    ensures
        leading_spaces(a) == leading_spaces(b),
        trailing_spaces(a) == trailing_spaces(b),
        word_end(a) == word_end(b),
    decreases a.len(),
{
    if a.len() > 0 {
        lemma_lower_same(a[0], b[0]);
        lemma_lower_same(a.last(), b.last());
        lemma_same_word_sub(a, b, 1, a.len() as int);
        lemma_same_word_sub(a, b, 0, a.len() - 1);
        assert(a.drop_first() =~= a.subrange(1, a.len() as int));
        assert(b.drop_first() =~= b.subrange(1, b.len() as int));
        assert(a.drop_last() =~= a.subrange(0, a.len() - 1));
        assert(b.drop_last() =~= b.subrange(0, b.len() - 1));
        lemma_same_counts(a.drop_first(), b.drop_first());
        lemma_same_counts(a.drop_last(), b.drop_last());
    }
}

proof fn lemma_same_trim(a: Seq<u8>, b: Seq<u8>)
    requires
        same_word(a, b),
    ensures
        same_word(trim_spec(a), trim_spec(b)),
{
    lemma_same_counts(a, b);
    lemma_leading_bound(a);
    let l = leading_spaces(a) as int;
    let ta = a.skip(l);
    let tb = b.skip(l);
    lemma_same_word_sub(a, b, l, a.len() as int);
    assert(ta =~= a.subrange(l, a.len() as int));
    assert(tb =~= b.subrange(l, b.len() as int));
    lemma_same_counts(ta, tb);
    lemma_trailing_bound(ta);
    lemma_same_word_sub(ta, tb, 0, ta.len() - trailing_spaces(ta));
    assert(trim_spec(a) =~= ta.subrange(0, ta.len() - trailing_spaces(ta)));
    assert(trim_spec(b) =~= tb.subrange(0, tb.len() - trailing_spaces(tb)));
}

proof fn lemma_same_pid(a: Seq<u8>, b: Seq<u8>)
    requires
        same_word(a, b),
    ensures
        pid_spec(a) == pid_spec(b),
{
    if all_digits(a) {
        assert forall|k: int| 0 <= k < a.len() implies a[k] == b[k] by {
            lemma_lower_same(a[k], b[k]);
        }
        assert(a =~= b);
    } else if all_digits(b) {
        assert forall|k: int| 0 <= k < b.len() implies a[k] == b[k] by {
            lemma_lower_same(a[k], b[k]);
        }
        assert(a =~= b);
    }
}

proof fn lemma_same_program(a: Seq<u8>, b: Seq<u8>)
    requires
        same_word(a, b),
    ensures
        program_spec(a) == program_spec(b),
{
    assert forall|i: int| 0 <= i < PROGRAM_COUNT implies same_word(a, program_name_spec(i)) == same_word(
        b,
        program_name_spec(i),
    ) by {
        lemma_same_word_trans(a, b, program_name_spec(i));
    }
}

proof fn lemma_same_run(is_boot: bool, a: Seq<u8>, b: Seq<u8>)
    requires
        same_word(a, b),
    ensures
        run_spec(is_boot, a) == run_spec(is_boot, b),
{
    if a.len() > 0 {
        lemma_lower_same(a.last(), b.last());
        lemma_same_word_sub(a, b, 0, a.len() - 1);
        assert(a.drop_last() =~= a.subrange(0, a.len() - 1));
        assert(b.drop_last() =~= b.subrange(0, b.len() - 1));
        lemma_same_trim(a.drop_last(), b.drop_last());
        lemma_same_program(trim_spec(a.drop_last()), trim_spec(b.drop_last()));
    }
    lemma_same_program(a, b);
}

/// Commands are read without regard to ASCII case: two lines that differ
/// only in the case of their letters are the same command, with the same
/// program and the same task id.
pub proof fn law_commands_ignore_case(a: Seq<u8>, b: Seq<u8>)
    requires
        same_word(a, b),
    ensures
        command_spec(a) == command_spec(b),
{
    lemma_same_trim(a, b);
    let la = trim_spec(a);
    let lb = trim_spec(b);
    lemma_same_counts(la, lb);
    lemma_word_end_bound(la);
    let e = word_end(la) as int;
    lemma_same_word_sub(la, lb, 0, e);
    lemma_same_word_sub(la, lb, e, la.len() as int);
    let ca = la.take(e);
    let cb = lb.take(e);
    assert(ca =~= la.subrange(0, e));
    assert(cb =~= lb.subrange(0, e));
    assert(la.skip(e) =~= la.subrange(e, la.len() as int));
    assert(lb.skip(e) =~= lb.subrange(e, lb.len() as int));
    lemma_same_trim(la.skip(e), lb.skip(e));
    let aa = trim_spec(la.skip(e));
    let ab = trim_spec(lb.skip(e));
    lemma_same_word_trans(ca, cb, word_run());
    lemma_same_word_trans(ca, cb, word_boot());
    lemma_same_word_trans(ca, cb, word_fg());
    lemma_same_word_trans(ca, cb, word_kill());
    lemma_same_word_trans(ca, cb, word_logs());
    lemma_same_word_trans(ca, cb, word_help());
    lemma_same_word_trans(ca, cb, word_list());
    lemma_same_word_trans(ca, cb, word_cpus());
    lemma_same_word_trans(ca, cb, word_faults());
    lemma_same_word_trans(ca, cb, word_ps());
    lemma_same_word_trans(ca, cb, word_clear());
    lemma_same_word_trans(ca, cb, word_stop());
    lemma_same_word_trans(ca, cb, word_heap());
    lemma_same_pid(aa, ab);
    lemma_same_run(same_word(ca, word_boot()), aa, ab);
}

fn is_word(cmd: &[u8], word: Vec<u8>, Ghost(w): Ghost<Seq<u8>>) -> (r: bool)
    requires
        word@ == w,
    ensures
        r == same_word(cmd@, w),
{
    streq(cmd, word.as_slice())
}

/// Parses one shell line.
pub fn parse_command(input: &[u8]) -> (r: Command)
    ensures
        r == command_spec(input@),
{
    let line = trim(input);
    let split = word_end_exec(line);
    proof {
        lemma_word_end_bound(line@);
    }
    let cmd = vstd::slice::slice_subrange(line, 0, split);
    let rest = vstd::slice::slice_subrange(line, split, line.len());
    let args = trim(rest);
    assert(cmd@ =~= line@.take(split as int));
    assert(rest@ =~= line@.skip(split as int));
    if cmd.len() == 0 {
        return Command::Empty;
    }
    let is_run = is_word(cmd, vec![114u8, 117, 110], Ghost(word_run()));
    let is_boot = is_word(cmd, vec![98u8, 111, 111, 116], Ghost(word_boot()));
    if is_run || is_boot {
        if is_boot && args.len() > 0 {
            return Command::BootTakesNoArguments;
        }
        let background = !is_boot && args.len() > 0 && args[args.len() - 1] == 38;
        let app = program_name(0);
        let name: &[u8] = if is_boot {
            app.as_slice()
        } else if background {
            let without = vstd::slice::slice_subrange(args, 0, args.len() - 1);
            assert(without@ =~= args@.drop_last());
            trim(without)
        } else {
            args
        };
        if name.len() == 0 {
            return Command::RunUsage;
        }
        return match program_index(name) {
            Some(program) => Command::Run { program, background },
            None => Command::UnknownProgram,
        };
    }
    let is_fg = is_word(cmd, vec![102u8, 103], Ghost(word_fg()));
    let is_kill = is_word(cmd, vec![107u8, 105, 108, 108], Ghost(word_kill()));
    let is_logs = is_word(cmd, vec![108u8, 111, 103, 115], Ghost(word_logs()));
    if is_fg || is_kill || is_logs {
        return match pid_arg(args) {
            None => Command::ExpectedPid,
            Some(pid) => if is_fg {
                Command::Focus(pid)
            } else if is_kill {
                Command::Kill(pid)
            } else {
                Command::Logs(pid)
            },
        };
    }
    if args.len() > 0 {
        Command::TakesNoArguments
    } else if is_word(cmd, vec![104u8, 101, 108, 112], Ghost(word_help())) {
        Command::Help
    } else if is_word(cmd, vec![108u8, 105, 115, 116], Ghost(word_list())) {
        Command::List
    } else if is_word(cmd, vec![99u8, 112, 117, 115], Ghost(word_cpus())) {
        Command::Cpus
    } else if is_word(cmd, vec![102u8, 97, 117, 108, 116, 115], Ghost(word_faults())) {
        Command::Faults
    } else if is_word(cmd, vec![112u8, 115], Ghost(word_ps())) {
        Command::Ps
    } else if is_word(cmd, vec![99u8, 108, 101, 97, 114], Ghost(word_clear())) {
        Command::Clear
    } else if is_word(cmd, vec![115u8, 116, 111, 112], Ghost(word_stop())) {
        Command::Stop
    } else if is_word(cmd, vec![104u8, 101, 97, 112], Ghost(word_heap())) {
        Command::Heap
    } else {
        Command::Unknown
    }
}


/// The longest line the shell keeps.
pub const LINE_CAPACITY: usize = 128;

/// The line being typed at the shell prompt.
pub struct LineEditor {
    buffer: [u8; 128],
    len: usize,
}

/// What the shell does with one input byte.
#[derive(Debug, PartialEq, Eq)]
pub enum Edit {
    /// Erase the last character shown.
    Erase,
    /// Show this byte, now the line's last.
    Echo(u8),
    /// Run this line; the editor is empty again.
    Submit(Vec<u8>),
    /// Nothing happens.
    Ignore,
}

impl View for LineEditor {
    type V = Seq<u8>;

    closed spec fn view(&self) -> Seq<u8> {
        self.buffer@.subrange(0, self.len as int)
    }
}

/// The line after `byte`: a backspace (8) drops the last byte of a
/// non-empty line, a newline (10) hands the line over and starts anew, a
/// printable byte (32 to 126) is kept while the line has room, and anything
/// else is ignored.
pub open spec fn edited(line: Seq<u8>, byte: u8) -> Seq<u8> {
    if byte == 8 && line.len() != 0 {
        line.drop_last()
    } else if byte == 10 {
        Seq::empty()
    } else if 32 <= byte <= 126 && line.len() < LINE_CAPACITY {
        line.push(byte)
    } else {
        line
    }
}

/// What the shell does for `byte` typed after `line`.
pub open spec fn edit_outcome(line: Seq<u8>, byte: u8, r: Edit) -> bool {
    if byte == 8 && line.len() != 0 {
        r == Edit::Erase
    } else if byte == 10 {
        r matches Edit::Submit(l) && l@ == line
    } else if 32 <= byte <= 126 && line.len() < LINE_CAPACITY {
        r == Edit::Echo(byte)
    } else {
        r == Edit::Ignore
    }
}

impl LineEditor {
    pub closed spec fn wf(&self) -> bool {
        self.len <= LINE_CAPACITY
    }

    pub fn new() -> (r: Self)
        ensures
            r@ == Seq::<u8>::empty(),
            r.wf(),
    {
        let r = LineEditor { buffer: [0; 128], len: 0 };
        assert(r@ =~= Seq::<u8>::empty());
        r
    }

    /// Takes one byte of input.
    pub fn feed(&mut self, byte: u8) -> (r: Edit)
        requires
            old(self).wf(),
        ensures
            final(self).wf(),
            final(self)@ == edited(old(self)@, byte),
            final(self)@.len() <= LINE_CAPACITY,
            edit_outcome(old(self)@, byte, r),
    {
        let ghost before = self@;
        if byte == 8 && self.len != 0 {
            self.len = self.len - 1;
            assert(self@ =~= before.drop_last());
            Edit::Erase
        } else if byte == 10 {
            let mut line: Vec<u8> = Vec::new();
            let mut i: usize = 0;
            while i < self.len
                invariant
                    self.len <= LINE_CAPACITY,
                    i <= self.len,
                    before == self.buffer@.subrange(0, self.len as int),
                    line@ == self.buffer@.subrange(0, i as int),
                decreases self.len - i,
            {
                line.push(self.buffer[i]);
                assert(line@ =~= self.buffer@.subrange(0, i + 1));
                i += 1;
            }
            self.len = 0;
            assert(self@ =~= Seq::<u8>::empty());
            Edit::Submit(line)
        } else if byte >= 32 && byte <= 126 && self.len < LINE_CAPACITY {
            self.buffer[self.len] = byte;
            self.len = self.len + 1;
            assert(self@ =~= before.push(byte));
            Edit::Echo(byte)
        } else {
            Edit::Ignore
        }
    }
}

} // verus!
