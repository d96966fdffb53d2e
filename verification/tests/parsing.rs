use quantum_os::cli::{parse_shell_command, ShellCommand};
use quantum_os::instruction::{QasmExecutor, QuantumOp};
use quantum_os::text::{chars_of, parse_usize, push_decimal, split_whitespace_chars};

fn chars(s: &str) -> Vec<char> {
    s.chars().collect()
}

#[test]
fn parse_line_reads_each_gate() {
    assert_eq!(QasmExecutor::parse_line("h 0"), Some(QuantumOp::Hadamard(0)));
    assert_eq!(QasmExecutor::parse_line("  H   3  "), Some(QuantumOp::Hadamard(3)));
    assert_eq!(
        QasmExecutor::parse_line("cnot 0 1"),
        Some(QuantumOp::CNOT { control: 0, target: 1 })
    );
    assert_eq!(
        QasmExecutor::parse_line("CNOT 2 5 extra words"),
        Some(QuantumOp::CNOT { control: 2, target: 5 })
    );
    assert_eq!(QasmExecutor::parse_line("measure 1"), Some(QuantumOp::Measure(1)));
    assert_eq!(QasmExecutor::parse_line("MEASURE +7"), Some(QuantumOp::Measure(7)));
}

#[test]
fn parse_line_rejects_malformed_lines() {
    assert_eq!(QasmExecutor::parse_line(""), None);
    assert_eq!(QasmExecutor::parse_line("   \t "), None);
    assert_eq!(QasmExecutor::parse_line("h"), None);
    assert_eq!(QasmExecutor::parse_line("h -1"), None);
    assert_eq!(QasmExecutor::parse_line("h +"), None);
    assert_eq!(QasmExecutor::parse_line("cnot 0"), None);
    assert_eq!(QasmExecutor::parse_line("cnot 0 x"), None);
    assert_eq!(QasmExecutor::parse_line("Cnot 0 1"), None);
    assert_eq!(QasmExecutor::parse_line("x 0"), None);
    assert_eq!(QasmExecutor::parse_line("h 18446744073709551616"), None);
}

#[test]
fn parse_line_agrees_with_std_parsing() {
    for word in ["0", "+5", "007", "18446744073709551615", "18446744073709551616", "-3", "", "+", "1a"] {
        let expected = word.parse::<usize>().ok();
        assert_eq!(parse_usize(&chars(word)), expected, "word {:?}", word);
    }
}

#[test]
fn parse_line_splits_on_unicode_white_space() {
    assert_eq!(QasmExecutor::parse_line("h\u{3000}4"), Some(QuantumOp::Hadamard(4)));
    assert_eq!(
        QasmExecutor::parse_line("cnot\u{a0}1\u{2003}2\r"),
        Some(QuantumOp::CNOT { control: 1, target: 2 })
    );
    let line = " a\u{85}bc \u{2028}d\te ";
    let words = split_whitespace_chars(&chars_of(line));
    let expected: Vec<Vec<char>> = line.split_whitespace().map(|w| w.chars().collect()).collect();
    assert_eq!(words, expected);
}

#[test]
fn parse_program_keeps_parsed_lines_in_order() {
    let qasm = "\n        h 0\n        cnot 0 1\n        bogus\n        measure 0\r\n        measure 1\n    ";
    assert_eq!(
        QasmExecutor::parse_program(qasm),
        vec![
            QuantumOp::Hadamard(0),
            QuantumOp::CNOT { control: 0, target: 1 },
            QuantumOp::Measure(0),
            QuantumOp::Measure(1),
        ]
    );
    assert_eq!(QasmExecutor::parse_program(""), vec![]);
}

#[test]
fn decimal_output_matches_format() {
    for n in [0usize, 7, 10, 99, 1234567890, usize::MAX] {
        let mut s = String::from("pid=");
        push_decimal(&mut s, n);
        assert_eq!(s, format!("pid={}", n));
    }
}

#[test]
fn shell_commands_are_decoded() {
    assert_eq!(parse_shell_command(""), ShellCommand::Empty);
    assert_eq!(parse_shell_command("   "), ShellCommand::Empty);
    assert_eq!(parse_shell_command("exit"), ShellCommand::Exit);
    assert_eq!(parse_shell_command("quit now"), ShellCommand::Exit);
    assert_eq!(parse_shell_command("help"), ShellCommand::Help);
    assert_eq!(parse_shell_command("status"), ShellCommand::Status);
    assert_eq!(parse_shell_command("alloc 5 2"), ShellCommand::Alloc { pid: 5, count: 2 });
    assert_eq!(parse_shell_command("alloc x 2"), ShellCommand::Alloc { pid: 0, count: 2 });
    assert_eq!(parse_shell_command("alloc 5"), ShellCommand::AllocUsage);
    assert_eq!(parse_shell_command("run h 0"), ShellCommand::Run { qasm: "h 0".to_string() });
    assert_eq!(
        parse_shell_command("  run   cnot  0\t 1 "),
        ShellCommand::Run { qasm: "cnot 0 1".to_string() }
    );
    assert_eq!(parse_shell_command("run"), ShellCommand::RunUsage);
    assert_eq!(parse_shell_command("EXIT"), ShellCommand::Unknown);
    assert_eq!(parse_shell_command("frobnicate"), ShellCommand::Unknown);
}
