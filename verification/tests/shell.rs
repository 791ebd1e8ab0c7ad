use mind_core::shell::{
    parse_command, pid_arg, program_index, program_name, streq, trim, Command, Edit, LineEditor,
    LINE_CAPACITY, PROGRAM_COUNT,
};

#[test]
fn run_starts_programs_in_either_place() {
    assert_eq!(
        parse_command(b"run app"),
        Command::Run { program: 0, background: false }
    );
    assert_eq!(
        parse_command(b"  RUN  Dzen-Clock &  "),
        Command::Run { program: 3, background: true }
    );
    assert_eq!(
        parse_command(b"run pong&"),
        Command::Run { program: 5, background: true }
    );
    assert_eq!(parse_command(b"run"), Command::RunUsage);
    assert_eq!(parse_command(b"run &"), Command::RunUsage);
    assert_eq!(parse_command(b"run nothing"), Command::UnknownProgram);
}

#[test]
fn boot_runs_app_and_takes_no_arguments() {
    assert_eq!(
        parse_command(b"boot"),
        Command::Run { program: 0, background: false }
    );
    assert_eq!(parse_command(b"boot now"), Command::BootTakesNoArguments);
}

#[test]
fn pid_commands_need_one_positive_pid() {
    assert_eq!(parse_command(b"fg 3"), Command::Focus(3));
    assert_eq!(parse_command(b"kill 12"), Command::Kill(12));
    assert_eq!(parse_command(b"LOGS 7"), Command::Logs(7));
    assert_eq!(parse_command(b"kill"), Command::ExpectedPid);
    assert_eq!(parse_command(b"kill 0"), Command::ExpectedPid);
    assert_eq!(parse_command(b"fg 1 2"), Command::ExpectedPid);
}

#[test]
fn plain_commands_take_no_arguments() {
    assert_eq!(parse_command(b""), Command::Empty);
    assert_eq!(parse_command(b"   "), Command::Empty);
    assert_eq!(parse_command(b"help"), Command::Help);
    assert_eq!(parse_command(b"List"), Command::List);
    assert_eq!(parse_command(b"cpus"), Command::Cpus);
    assert_eq!(parse_command(b"faults"), Command::Faults);
    assert_eq!(parse_command(b"ps"), Command::Ps);
    assert_eq!(parse_command(b"clear"), Command::Clear);
    assert_eq!(parse_command(b"stop"), Command::Stop);
    assert_eq!(parse_command(b"heap"), Command::Heap);
    assert_eq!(parse_command(b"ps now"), Command::TakesNoArguments);
    assert_eq!(parse_command(b"frobnicate"), Command::Unknown);
}

#[test]
fn pids_are_positive_decimal_numbers_that_fit() {
    assert_eq!(pid_arg(b"12"), Some(12));
    assert_eq!(pid_arg(b"18446744073709551615"), Some(u64::MAX));
    assert_eq!(pid_arg(b"18446744073709551616"), None);
    assert_eq!(pid_arg(b"0"), None);
    assert_eq!(pid_arg(b""), None);
    assert_eq!(pid_arg(b"1a"), None);
    assert_eq!(pid_arg(b" 1"), None);
}

#[test]
fn words_compare_without_case_and_trim_ascii_space() {
    assert!(streq(b"RuN", b"run"));
    assert!(!streq(b"run", b"runs"));
    assert_eq!(trim(b" \t ps \n"), b"ps");
    assert_eq!(trim(b"   "), b"");
    assert_eq!(program_index(b"DZEN-CLOCK"), Some(3));
    assert_eq!(program_index(b"rtc"), Some(6));
    assert_eq!(program_index(b"rt"), None);
    assert_eq!(PROGRAM_COUNT, 7);
    assert_eq!(program_name(4), b"ping".to_vec());
}

#[test]
fn line_editor_keeps_printable_bytes_and_hands_lines_over() {
    let mut line = LineEditor::new();
    assert_eq!(line.feed(8), Edit::Ignore);
    assert_eq!(line.feed(b'p'), Edit::Echo(b'p'));
    assert_eq!(line.feed(b's'), Edit::Echo(b's'));
    assert_eq!(line.feed(b'x'), Edit::Echo(b'x'));
    assert_eq!(line.feed(8), Edit::Erase);
    assert_eq!(line.feed(7), Edit::Ignore);
    assert_eq!(line.feed(b'\n'), Edit::Submit(b"ps".to_vec()));
    assert_eq!(line.feed(b'\n'), Edit::Submit(Vec::new()));
}

#[test]
fn line_editor_stops_at_its_capacity() {
    let mut line = LineEditor::new();
    for _ in 0..LINE_CAPACITY {
        assert_eq!(line.feed(b'a'), Edit::Echo(b'a'));
    }
    assert_eq!(line.feed(b'b'), Edit::Ignore);
    assert_eq!(line.feed(b'\n'), Edit::Submit(vec![b'a'; LINE_CAPACITY]));
}

#[test]
fn commands_read_the_same_in_any_case() {
    let pairs: [(&[u8], &[u8]); 5] = [
        (b"RUN APP2 &", b"run app2 &"),
        (b"KiLL 12", b"kill 12"),
        (b"  Ps  ", b"ps"),
        (b"BOOT", b"boot"),
        (b"RUN DZEN-CLOCK", b"run dzen-clock"),
    ];
    for (upper, lower) in pairs {
        assert_eq!(parse_command(upper), parse_command(lower));
    }
    assert_eq!(parse_command(b"RUN APP2 &"), Command::Run { program: 1, background: true });
    assert_eq!(parse_command(b"KiLL 12"), Command::Kill(12));
}
