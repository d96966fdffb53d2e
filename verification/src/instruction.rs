//! Gate instructions and the line-oriented QASM dialect that spells them.

use vstd::prelude::*;
use crate::text::{
    chars_of, split_whitespace_chars, parse_usize, split_ws, parse_usize_spec, char_vecs_view, word_is,
};

verus! {

/// One gate instruction of a program.
#[derive(Clone, Copy, Debug, PartialEq, Eq, Structural)]
pub enum QuantumOp {
    Hadamard(usize),
    CNOT { control: usize, target: usize },
    Measure(usize),
}

/// Parser and driver for textual programs.
pub struct QasmExecutor;

/// Whether a word names the Hadamard gate (`h` or `H`).
pub open spec fn is_h_word(w: Seq<char>) -> bool {
    w == seq!['h'] || w == seq!['H']
}

/// Whether a word names the CNOT gate (`cnot` or `CNOT`).
pub open spec fn is_cnot_word(w: Seq<char>) -> bool {
    w == seq!['c', 'n', 'o', 't'] || w == seq!['C', 'N', 'O', 'T']
}

/// Whether a word names a measurement (`measure` or `MEASURE`).
pub open spec fn is_measure_word(w: Seq<char>) -> bool {
    w == seq!['m', 'e', 'a', 's', 'u', 'r', 'e'] || w == seq!['M', 'E', 'A', 'S', 'U', 'R', 'E']
}

/// What a program line says: a gate name (`h`, `cnot`, `measure`, in
/// lower or upper case) and then its qubit indices. Words beyond those are
/// not looked at.
pub open spec fn parse_line_spec(line: Seq<char>) -> Option<QuantumOp> {
    let t = split_ws(line);
    if t.len() == 0 {
        None
    } else if is_h_word(t[0]) {
        if t.len() >= 2 && parse_usize_spec(t[1]) is Some {
            Some(QuantumOp::Hadamard(parse_usize_spec(t[1])->0))
        } else {
            None
        }
    } else if is_cnot_word(t[0]) {
        if t.len() >= 3 && parse_usize_spec(t[1]) is Some && parse_usize_spec(t[2]) is Some {
            Some(
                QuantumOp::CNOT {
                    control: parse_usize_spec(t[1])->0,
                    target: parse_usize_spec(t[2])->0,
                },
            )
        } else {
            None
        }
    } else if is_measure_word(t[0]) {
        if t.len() >= 2 && parse_usize_spec(t[1]) is Some {
            Some(QuantumOp::Measure(parse_usize_spec(t[1])->0))
        } else {
            None
        }
    } else {
        None
    }
}

/// Number of characters before the first line feed of `s` (all of `s` if
/// there is none).
pub open spec fn line_len(s: Seq<char>) -> nat
    decreases s.len(),
{
    if s.len() == 0 || s[0] == '\n' {
        0
    } else {
        1 + line_len(s.drop_first())
    }
}

pub proof fn lemma_line_len_bounded(s: Seq<char>)
    ensures
        line_len(s) <= s.len(),
        line_len(s) < s.len() ==> s[line_len(s) as int] == '\n',
    decreases s.len(),
{
    if s.len() > 0 && s[0] != '\n' {
        lemma_line_len_bounded(s.drop_first());
    }
}

/// A line of `s` that starts at `i` and ends before `j` has length `j - i`.
proof fn lemma_line_len_at(s: Seq<char>, i: int, j: int)
    requires
        0 <= i <= j <= s.len(),
        forall|k: int| i <= k < j ==> #[trigger] s[k] != '\n',
        j == s.len() || s[j] == '\n',
    ensures
        line_len(s.skip(i)) == j - i,
    decreases j - i,
{
    if i < j {
        lemma_line_len_at(s, i + 1, j);
        assert(s.skip(i).drop_first() =~= s.skip(i + 1));
    } else {
        assert(s.skip(i).len() == 0 || s.skip(i)[0] == s[j]);
    }
}

/// The lines of `s`: the pieces between line feeds.
pub open spec fn lines_of(s: Seq<char>) -> Seq<Seq<char>>
    decreases s.len(),
{
    let k = line_len(s);
    proof {
        lemma_line_len_bounded(s);
    }
    if k >= s.len() {
        seq![s]
    } else {
        seq![s.take(k as int)] + lines_of(s.skip(k + 1int))
    }
}

/// The instructions of the lines that parse, in order.
pub open spec fn ops_of_lines(ls: Seq<Seq<char>>) -> Seq<QuantumOp>
    decreases ls.len(),
{
    if ls.len() == 0 {
        Seq::empty()
    } else {
        match parse_line_spec(ls[0]) {
            Some(op) => seq![op] + ops_of_lines(ls.drop_first()),
            None => ops_of_lines(ls.drop_first()),
        }
    }
}

impl QasmExecutor {
    /// Parses one line of a program into an instruction; `None` for blank
    /// lines, unknown gate names and missing or malformed qubit indices.
    pub fn parse_line(line: &str) -> (r: Option<QuantumOp>)
        ensures
            r == parse_line_spec(line@),
    {
        let chars = chars_of(line);
        Self::parse_line_chars(&chars)
    }

    /// `parse_line` on a line given as its characters.
    pub fn parse_line_chars(chars: &Vec<char>) -> (r: Option<QuantumOp>)
        ensures
            r == parse_line_spec(chars@),
    {
        let tokens = split_whitespace_chars(chars);
        proof {
            reveal_strlit("h");
            reveal_strlit("H");
            reveal_strlit("cnot");
            reveal_strlit("CNOT");
            reveal_strlit("measure");
            reveal_strlit("MEASURE");
            assert("h"@ =~= seq!['h']);
            assert("H"@ =~= seq!['H']);
            assert("cnot"@ =~= seq!['c', 'n', 'o', 't']);
            assert("CNOT"@ =~= seq!['C', 'N', 'O', 'T']);
            assert("measure"@ =~= seq!['m', 'e', 'a', 's', 'u', 'r', 'e']);
            assert("MEASURE"@ =~= seq!['M', 'E', 'A', 'S', 'U', 'R', 'E']);
        }
        let ghost t = split_ws(chars@);
        assert(char_vecs_view(tokens@) == t);
        assert(forall|i: int| 0 <= i < tokens@.len() ==> #[trigger] tokens@[i]@ == t[i]);
        if tokens.len() == 0 {
            return None;
        }
        if word_is(&tokens[0], "h") || word_is(&tokens[0], "H") {
            if tokens.len() < 2 {
                return None;
            }
            match parse_usize(&tokens[1]) {
                Some(q) => Some(QuantumOp::Hadamard(q)),
                None => None,
            }
        } else if word_is(&tokens[0], "cnot") || word_is(&tokens[0], "CNOT") {
            if tokens.len() < 3 {
                return None;
            }
            let control = parse_usize(&tokens[1]);
            let target = parse_usize(&tokens[2]);
            match (control, target) {
                (Some(c), Some(t)) => Some(QuantumOp::CNOT { control: c, target: t }),
                _ => None,
            }
        } else if word_is(&tokens[0], "measure") || word_is(&tokens[0], "MEASURE") {
            if tokens.len() < 2 {
                return None;
            }
            match parse_usize(&tokens[1]) {
                Some(q) => Some(QuantumOp::Measure(q)),
                None => None,
            }
        } else {
            None
        }
    }

    /// The instructions of a multi-line program, in order, skipping the lines
    /// that do not parse: the instructions that `execute_program` runs.
    pub fn parse_program(program: &str) -> (ops: Vec<QuantumOp>)
        ensures
            ops@ == ops_of_lines(lines_of(program@)),
    {
        let s = chars_of(program);
        let n = s.len();
        let mut ops: Vec<QuantumOp> = Vec::new();
        let mut start: usize = 0;
        assert(s@.skip(0) =~= s@);
        loop
            invariant
                n == s@.len(),
                s@ == program@,
                start <= n,
                ops_of_lines(lines_of(s@)) == ops@ + ops_of_lines(lines_of(s@.skip(start as int))),
            decreases n - start,
        {
            let mut j = start;
            let mut line: Vec<char> = Vec::new();
            while j < n && s[j] != '\n'
                invariant
                    n == s@.len(),
                    start <= j <= n,
                    line@ =~= s@.subrange(start as int, j as int),
                    forall|k: int| start <= k < j ==> #[trigger] s@[k] != '\n',
                decreases n - j,
            {
                line.push(s[j]);
                j = j + 1;
            }
            let ghost rest = s@.skip(start as int);
            proof {
                lemma_line_len_at(s@, start as int, j as int);
                assert(rest.take((j - start) as int) =~= line@);
            }
            let parsed = Self::parse_line_chars(&line);
            let ghost before = ops@;
            match parsed {
                Some(op) => {
                    ops.push(op);
                },
                None => {},
            }
            proof {
                let ls = lines_of(rest);
                if j == n {
                    assert(rest.take((j - start) as int) =~= rest);
                    assert(ls == seq![rest]);
                    assert(ls.drop_first() =~= Seq::<Seq<char>>::empty());
                } else {
                    assert(rest.skip((j - start) + 1) =~= s@.skip(j + 1));
                    assert(ls.drop_first() =~= lines_of(s@.skip(j + 1)));
                }
                assert(ls[0] == line@);
                assert(ls.len() > 0);
                assert(ops@ + ops_of_lines(ls.drop_first()) =~= before + ops_of_lines(ls));
            }
            if j == n {
                assert(ops_of_lines(Seq::<Seq<char>>::empty()) == Seq::<QuantumOp>::empty());
                assert(ops@ + Seq::<QuantumOp>::empty() =~= ops@);
                return ops;
            }
            assert(ops@ + ops_of_lines(lines_of(s@.skip(j + 1))) =~= before + ops_of_lines(
                lines_of(rest),
            ));
            start = j + 1;
        }
    }
}

/// The instruction a line gives, as a sequence: empty where it does not
/// parse.
pub open spec fn line_ops(line: Seq<char>) -> Seq<QuantumOp> {
    match parse_line_spec(line) {
        Some(op) => seq![op],
        None => Seq::empty(),
    }
}

/// The pieces `ls` joined back together with a line feed between each two.
pub open spec fn join_lines(ls: Seq<Seq<char>>) -> Seq<char>
    decreases ls.len(),
{
    if ls.len() == 0 {
        Seq::empty()
    } else if ls.len() == 1 {
        ls[0]
    } else {
        ls[0] + seq!['\n'] + join_lines(ls.drop_first())
    }
}

proof fn lemma_line_len_whole(s: Seq<char>)
    requires
        !s.contains('\n'),
    ensures
        line_len(s) == s.len(),
{
    lemma_line_len_bounded(s);
    if line_len(s) < s.len() {
        assert(s.contains(s[line_len(s) as int]));
    }
}

proof fn lemma_line_len_prefix(a: Seq<char>, b: Seq<char>)
    requires
        !a.contains('\n'),
    ensures
        line_len(a + seq!['\n'] + b) == a.len(),
{
    let s = a + seq!['\n'] + b;
    assert forall|k: int| 0 <= k < a.len() implies #[trigger] s[k] != '\n' by {
        assert(s[k] == a[k]);
        if a[k] == '\n' {
            assert(a.contains(a[k]));
        }
    }
    assert(s[a.len() as int] == '\n');
    lemma_line_len_at(s, 0, a.len() as int);
    assert(s.skip(0) =~= s);
}

/// The lines of a text are exactly its pieces between line feeds, the piece
/// after the last line feed included: joined back with line feeds they give
/// the text, none of them holds a line feed, and there is one more of them
/// than the text has line feeds.
pub proof fn lines_split_the_text(s: Seq<char>)
    ensures
        join_lines(lines_of(s)) == s,
        lines_of(s).len() >= 1,
        forall|i: int| 0 <= i < lines_of(s).len() ==> !(#[trigger] lines_of(s)[i]).contains('\n'),
    decreases s.len(),
{
    let k = line_len(s);
    lemma_line_len_bounded(s);
    let ls = lines_of(s);
    assert forall|j: int| 0 <= j < k implies #[trigger] s[j] != '\n' by {
        lemma_line_len_first(s, j);
    }
    if k >= s.len() {
        assert(ls == seq![s]);
        assert forall|i: int| 0 <= i < ls.len() implies !(#[trigger] ls[i]).contains('\n') by {
            if s.contains('\n') {
                let j = choose|j: int| 0 <= j < s.len() && s[j] == '\n';
            }
        }
    } else {
        let first = s.take(k as int);
        let rest = s.skip(k + 1int);
        lines_split_the_text(rest);
        let lr = lines_of(rest);
        assert(ls == seq![first] + lr);
        assert(ls.drop_first() =~= lr);
        assert(ls[0] == first);
        assert(join_lines(ls) == first + seq!['\n'] + join_lines(lr));
        assert(first + seq!['\n'] + rest =~= s);
        assert(!first.contains('\n')) by {
            if first.contains('\n') {
                let j = choose|j: int| 0 <= j < first.len() && first[j] == '\n';
                assert(s[j] == first[j]);
            }
        }
        assert forall|i: int| 0 <= i < ls.len() implies !(#[trigger] ls[i]).contains('\n') by {
            if i > 0 {
                assert(ls[i] == lr[i - 1]);
            }
        }
    }
}

proof fn lemma_line_len_first(s: Seq<char>, j: int)
    requires
        0 <= j < line_len(s),
    ensures
        s[j] != '\n',
    decreases j,
{
    assert(s.len() > 0 && s[0] != '\n' && line_len(s) == 1 + line_len(s.drop_first())) by {
        if s.len() == 0 || s[0] == '\n' {
            assert(line_len(s) == 0);
        }
    }
    lemma_line_len_bounded(s);
    if j > 0 {
        lemma_line_len_first(s.drop_first(), j - 1);
        assert(s.drop_first()[j - 1] == s[j]);
    }
}

/// A text without a line feed is one line: the program it spells is the
/// instruction of that line, if the line parses.
pub proof fn one_line_program(s: Seq<char>)
    requires
        !s.contains('\n'),
    ensures
        ops_of_lines(lines_of(s)) == line_ops(s),
{
    lemma_line_len_whole(s);
    assert(lines_of(s) == seq![s]);
    assert(seq![s].drop_first() =~= Seq::<Seq<char>>::empty());
    assert(ops_of_lines(Seq::<Seq<char>>::empty()) == Seq::<QuantumOp>::empty());
    match parse_line_spec(s) {
        Some(op) => {
            assert(seq![op] + Seq::<QuantumOp>::empty() =~= seq![op]);
        },
        None => {},
    }
}

/// A program is its first line's instruction followed by the instructions
/// of the text after the first line feed.
pub proof fn program_of_first_line_and_rest(a: Seq<char>, b: Seq<char>)
    requires
        !a.contains('\n'),
    ensures
        ops_of_lines(lines_of(a + seq!['\n'] + b)) == line_ops(a) + ops_of_lines(lines_of(b)),
{
    let s = a + seq!['\n'] + b;
    lemma_line_len_prefix(a, b);
    lemma_line_len_bounded(s);
    assert(s.take(a.len() as int) =~= a);
    assert(s.skip(a.len() + 1int) =~= b);
    let ls = lines_of(s);
    assert(ls == seq![a] + lines_of(b));
    assert(ls.drop_first() =~= lines_of(b));
    assert(ls[0] == a);
    match parse_line_spec(a) {
        Some(op) => {},
        None => {
            assert(Seq::<QuantumOp>::empty() + ops_of_lines(lines_of(b)) =~= ops_of_lines(lines_of(b)));
        },
    }
}

} // verus!
