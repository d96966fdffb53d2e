//! The commands of the kernel's interactive shell.

use vstd::prelude::*;
use crate::text::{
    chars_of, split_whitespace_chars, split_ws, parse_usize, parse_usize_spec, char_vecs_view, word_is, push_char,
};

verus! {

/// One line typed at the shell, decoded.
#[derive(Debug, PartialEq, Eq)]
pub enum ShellCommand {
    /// A blank line.
    Empty,
    /// `exit` or `quit`.
    Exit,
    /// `help`.
    Help,
    /// `alloc <pid> <count>`; a number that does not parse counts as 0.
    Alloc { pid: usize, count: usize },
    /// `alloc` with fewer than two arguments.
    AllocUsage,
    /// `run <qasm...>`: the words after `run`, joined by single spaces.
    Run { qasm: String },
    /// `run` with nothing after it.
    RunUsage,
    /// `status`.
    Status,
    /// Anything else.
    Unknown,
}

/// The value of a word as a `usize`, or 0 where it does not parse.
pub open spec fn usize_or_zero(w: Seq<char>) -> usize {
    match parse_usize_spec(w) {
        Some(v) => v,
        None => 0,
    }
}

/// The words `ws` joined by single spaces.
pub open spec fn join_words(ws: Seq<Seq<char>>) -> Seq<char>
    decreases ws.len(),
{
    if ws.len() == 0 {
        Seq::empty()
    } else if ws.len() == 1 {
        ws[0]
    } else {
        join_words(ws.drop_last()) + seq![' '] + ws.last()
    }
}

/// Whether `cmd` is what the shell makes of the line `line`: its first word
/// picks the command, and the words after it are the arguments.
pub open spec fn is_command_for(line: Seq<char>, cmd: ShellCommand) -> bool {
    let t = split_ws(line);
    if t.len() == 0 {
        cmd is Empty
    } else if t[0] == seq!['e', 'x', 'i', 't'] || t[0] == seq!['q', 'u', 'i', 't'] {
        cmd is Exit
    } else if t[0] == seq!['h', 'e', 'l', 'p'] {
        cmd is Help
    } else if t[0] == seq!['a', 'l', 'l', 'o', 'c'] {
        if t.len() < 3 {
            cmd is AllocUsage
        } else {
            cmd == (ShellCommand::Alloc { pid: usize_or_zero(t[1]), count: usize_or_zero(t[2]) })
        }
    } else if t[0] == seq!['r', 'u', 'n'] {
        if t.len() < 2 {
            cmd is RunUsage
        } else {
            cmd matches ShellCommand::Run { qasm } && qasm@ == join_words(t.skip(1))
        }
    } else if t[0] == seq!['s', 't', 'a', 't', 'u', 's'] {
        cmd is Status
    } else {
        cmd is Unknown
    }
}

/// `w` as a number, or 0 where it does not parse.
fn parse_or_zero(w: &Vec<char>) -> (v: usize)
    ensures
        v == usize_or_zero(w@),
{
    match parse_usize(w) {
        Some(v) => v,
        None => 0,
    }
}

/// Decodes one line typed at the shell.
pub fn parse_shell_command(line: &str) -> (cmd: ShellCommand)
    ensures
        is_command_for(line@, cmd),
{
    let chars = chars_of(line);
    let tokens = split_whitespace_chars(&chars);
    let ghost t = split_ws(line@);
    assert(char_vecs_view(tokens@) == t);
    assert(forall|i: int| 0 <= i < tokens@.len() ==> #[trigger] tokens@[i]@ == t[i]);
    proof {
        reveal_strlit("exit");
        reveal_strlit("quit");
        reveal_strlit("help");
        reveal_strlit("alloc");
        reveal_strlit("run");
        reveal_strlit("status");
        assert("exit"@ =~= seq!['e', 'x', 'i', 't']);
        assert("quit"@ =~= seq!['q', 'u', 'i', 't']);
        assert("help"@ =~= seq!['h', 'e', 'l', 'p']);
        assert("alloc"@ =~= seq!['a', 'l', 'l', 'o', 'c']);
        assert("run"@ =~= seq!['r', 'u', 'n']);
        assert("status"@ =~= seq!['s', 't', 'a', 't', 'u', 's']);
    }
    if tokens.len() == 0 {
        return ShellCommand::Empty;
    }
    if word_is(&tokens[0], "exit") || word_is(&tokens[0], "quit") {
        ShellCommand::Exit
    } else if word_is(&tokens[0], "help") {
        ShellCommand::Help
    } else if word_is(&tokens[0], "alloc") {
        if tokens.len() < 3 {
            ShellCommand::AllocUsage
        } else {
            ShellCommand::Alloc { pid: parse_or_zero(&tokens[1]), count: parse_or_zero(&tokens[2]) }
        }
    } else if word_is(&tokens[0], "run") {
        if tokens.len() < 2 {
            ShellCommand::RunUsage
        } else {
            let mut qasm = String::new();
            let n = tokens.len();
            let mut i: usize = 1;
            assert(t.skip(1).take(0) =~= Seq::<Seq<char>>::empty());
            while i < n
                invariant
                    n == tokens@.len(),
                    n == t.len(),
                    1 <= i <= n,
                    forall|k: int| 0 <= k < tokens@.len() ==> #[trigger] tokens@[k]@ == t[k],
                    qasm@ == join_words(t.skip(1).take(i - 1)),
                decreases n - i,
            {
                let ghost before = qasm@;
                if i > 1 {
                    push_char(&mut qasm, ' ');
                }
                let w = &tokens[i];
                let m = w.len();
                let mut k: usize = 0;
                let ghost mid = qasm@;
                while k < m
                    invariant
                        m == w@.len(),
                        k <= m,
                        qasm@ == mid + w@.take(k as int),
                    decreases m - k,
                {
                    push_char(&mut qasm, w[k]);
                    assert(w@.take(k + 1) =~= w@.take(k as int).push(w@[k as int]));
                    k = k + 1;
                }
                proof {
                    assert(w@.take(m as int) =~= w@);
                    let ws = t.skip(1).take(i as int);
                    assert(ws.drop_last() =~= t.skip(1).take(i - 1));
                    assert(ws.last() == t[i as int]);
                    if i > 1 {
                        assert(mid == before.push(' '));
                        assert(qasm@ =~= before + seq![' '] + t[i as int]);
                    } else {
                        assert(ws.len() == 1);
                        assert(before =~= Seq::<char>::empty());
                        assert(qasm@ =~= t[i as int]);
                    }
                }
                i = i + 1;
            }
            assert(t.skip(1).take(n - 1) =~= t.skip(1));
            ShellCommand::Run { qasm }
        }
    } else if word_is(&tokens[0], "status") {
        ShellCommand::Status
    } else {
        ShellCommand::Unknown
    }
}

} // verus!
