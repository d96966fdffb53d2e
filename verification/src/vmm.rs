//! The quantum virtual-memory manager: where swap files live and the byte
//! format in which a frozen process context is written to them.

use vstd::prelude::*;
use crate::scheduler::QuantumContextFrame;
use crate::text::{decimal, push_decimal, push_char};

verus! {

/// `256` to the power `n`.
pub open spec fn pow256(n: nat) -> nat
    decreases n,
{
    if n == 0 {
        1
    } else {
        256 * pow256((n - 1) as nat)
    }
}

/// The number of bytes of a `usize` on this machine.
pub open spec fn word_bytes() -> nat {
    (usize::BITS / 8) as nat
}

/// The `n` least significant bytes of `x`, least significant first.
pub open spec fn le_bytes(x: nat, n: nat) -> Seq<u8>
    decreases n,
{
    if n == 0 {
        Seq::empty()
    } else {
        seq![(x % 256) as u8] + le_bytes(x / 256, (n - 1) as nat)
    }
}

/// The number that the little-endian bytes `b` stand for.
pub open spec fn le_value(b: Seq<u8>) -> nat
    decreases b.len(),
{
    if b.len() == 0 {
        0
    } else {
        b[0] as nat + 256 * le_value(b.drop_first())
    }
}

/// The bytes of one stored amplitude: its basis-state index, then the bit
/// patterns of its real and imaginary parts.
pub open spec fn entry_bytes(e: (usize, u64, u64)) -> Seq<u8> {
    le_bytes(e.0 as nat, word_bytes()) + le_bytes(e.1 as nat, 8) + le_bytes(e.2 as nat, 8)
}

/// The bytes of a run of stored amplitudes, in order.
pub open spec fn entries_bytes(es: Seq<(usize, u64, u64)>) -> Seq<u8>
    decreases es.len(),
{
    if es.len() == 0 {
        Seq::empty()
    } else {
        entry_bytes(es[0]) + entries_bytes(es.drop_first())
    }
}

/// The swap-file image of a context: process id, qubit count and number of
/// stored amplitudes as machine words, then the amplitudes.
pub open spec fn frame_bytes(pid: usize, num_qubits: usize, es: Seq<(usize, u64, u64)>) -> Seq<u8> {
    le_bytes(pid as nat, word_bytes()) + le_bytes(num_qubits as nat, word_bytes()) + le_bytes(
        es.len(),
        word_bytes(),
    ) + entries_bytes(es)
}

/// Reads `count` amplitudes from the front of `b`; `None` where `b` runs out.
pub open spec fn decode_entries(b: Seq<u8>, count: nat) -> Option<Seq<(usize, u64, u64)>>
    decreases count,
{
    if count == 0 {
        Some(Seq::empty())
    } else if b.len() < word_bytes() + 16 {
        None
    } else {
        let w = word_bytes() as int;
        let e = (
            le_value(b.take(w)) as usize,
            le_value(b.subrange(w, w + 8)) as u64,
            le_value(b.subrange(w + 8, w + 16)) as u64,
        );
        match decode_entries(b.skip(w + 16), (count - 1) as nat) {
            Some(rest) => Some(seq![e] + rest),
            None => None,
        }
    }
}

/// Reads a context from the front of the swap-file bytes `b`: the three
/// header words and as many amplitudes as the third word says; bytes after
/// them are ignored, and `None` means that `b` ends too early.
pub open spec fn decode_frame(b: Seq<u8>) -> Option<(usize, usize, Seq<(usize, u64, u64)>)> {
    let w = word_bytes() as int;
    if b.len() < 3 * w {
        None
    } else {
        match decode_entries(b.skip(3 * w), le_value(b.subrange(2 * w, 3 * w))) {
            Some(es) => Some(
                (le_value(b.take(w)) as usize, le_value(b.subrange(w, 2 * w)) as usize, es),
            ),
            None => None,
        }
    }
}

/// A machine word is `word_bytes()` bytes wide.
pub proof fn lemma_word_range()
    ensures
        word_bytes() == 4 || word_bytes() == 8,
        usize::MAX + 1 == pow256(word_bytes()),
        pow256(8) == 0x1_0000_0000_0000_0000,
{
    assert(usize::BITS == 32 || usize::BITS == 64);
    assert(usize::BITS == 32 ==> usize::MAX == 0xffff_ffff);
    assert(usize::BITS == 64 ==> usize::MAX == 0xffff_ffff_ffff_ffff);
    assert(pow256(4) == 0x1_0000_0000) by {
        reveal_with_fuel(pow256, 5);
    }
    assert(pow256(8) == 0x1_0000_0000_0000_0000) by {
        reveal_with_fuel(pow256, 9);
    }
}

/// Writing `n` bytes of `x` and reading them back gives `x`.
pub proof fn lemma_le_roundtrip(x: nat, n: nat)
    requires
        x < pow256(n),
    ensures
        le_bytes(x, n).len() == n,
        le_value(le_bytes(x, n)) == x,
    decreases n,
{
    if n > 0 {
        assert(x / 256 < pow256((n - 1) as nat));
        lemma_le_roundtrip(x / 256, (n - 1) as nat);
        let b = le_bytes(x, n);
        assert(b.drop_first() =~= le_bytes(x / 256, (n - 1) as nat));
    }
}

/// Bytes read as a number and written back come out unchanged.
pub proof fn lemma_le_canonical(b: Seq<u8>)
    ensures
        le_value(b) < pow256(b.len()),
        le_bytes(le_value(b), b.len()) == b,
    decreases b.len(),
{
    if b.len() > 0 {
        lemma_le_canonical(b.drop_first());
        let v = le_value(b);
        let r = le_value(b.drop_first());
        assert(v % 256 == b[0] as nat && v / 256 == r) by {
            vstd::arithmetic::div_mod::lemma_fundamental_div_mod_converse(
                v as int,
                256,
                r as int,
                b[0] as int,
            );
        }
        assert(le_bytes(v, b.len()) =~= b);
    }
}

/// Appends the `n` least significant bytes of `x`, least significant first.
fn push_le(out: &mut Vec<u8>, x: u64, n: usize)
    ensures
        final(out)@ == old(out)@ + le_bytes(x as nat, n as nat),
{
    let mut v: u64 = x;
    let mut i: usize = 0;
    while i < n
        invariant
            i <= n,
            old(out)@ + le_bytes(x as nat, n as nat) == out@ + le_bytes(v as nat, (n - i) as nat),
        decreases n - i,
    {
        let ghost before = out@;
        out.push((v % 256) as u8);
        assert(le_bytes(v as nat, (n - i) as nat) == seq![(v % 256) as u8] + le_bytes(
            (v / 256) as nat,
            (n - i - 1) as nat,
        ));
        assert(before + le_bytes(v as nat, (n - i) as nat) =~= out@ + le_bytes(
            (v / 256) as nat,
            (n - i - 1) as nat,
        ));
        v = v / 256;
        i = i + 1;
    }
    assert(out@ + le_bytes(v as nat, 0) =~= out@);
}

/// Reads `n <= 8` little-endian bytes of `b` starting at `off`.
fn read_le(b: &[u8], off: usize, n: usize) -> (r: u64)
    requires
        n <= 8,
        off + n <= b@.len(),
    ensures
        r as nat == le_value(b@.subrange(off as int, off + n)),
{
    proof {
        lemma_word_range();
    }
    let blen = b.len();
    let mut acc: u64 = 0;
    let mut i: usize = n;
    assert(b@.subrange(off + n, off + n) =~= Seq::<u8>::empty());
    while i > 0
        invariant
            n <= 8,
            off + n <= b@.len(),
            blen == b@.len(),
            i <= n,
            acc as nat == le_value(b@.subrange(off + i, off + n)),
            pow256(8) == 0x1_0000_0000_0000_0000,
        decreases i,
    {
        let ghost s = b@.subrange(off + i, off + n);
        proof {
            lemma_le_canonical(s);
            lemma_pow256_monotone((n - i) as nat, 7);
        }
        i = i - 1;
        let byte = b[off + i];
        let ghost t = b@.subrange(off + i, off + n);
        assert(t.drop_first() =~= s);
        assert(t[0] == byte);
        acc = acc * 256 + byte as u64;
    }
    acc
}

proof fn lemma_pow256_monotone(a: nat, b: nat)
    requires
        a <= b,
    ensures
        pow256(a) <= pow256(b),
    decreases b,
{
    if a < b {
        lemma_pow256_monotone(a, (b - 1) as nat);
    }
}

impl QuantumContextFrame {
    /// The swap-file image of this context.
    pub fn to_swap_bytes(&self) -> (out: Vec<u8>)
        ensures
            out@ == frame_bytes(self.pid, self.num_qubits, self.sparse_state@),
    {
        let w = (usize::BITS / 8) as usize;
        let mut out: Vec<u8> = Vec::new();
        push_le(&mut out, self.pid as u64, w);
        push_le(&mut out, self.num_qubits as u64, w);
        let len = self.sparse_state.len();
        push_le(&mut out, len as u64, w);
        let ghost header = out@;
        let ghost es = self.sparse_state@;
        let mut k: usize = 0;
        assert(es.skip(0) =~= es);
        while k < len
            invariant
                len == es.len(),
                es == self.sparse_state@,
                w as nat == word_bytes(),
                k <= len,
                out@ + entries_bytes(es.skip(k as int)) == header + entries_bytes(es),
            decreases len - k,
        {
            let (idx, re, im) = self.sparse_state[k];
            let ghost before = out@;
            push_le(&mut out, idx as u64, w);
            push_le(&mut out, re, 8);
            push_le(&mut out, im, 8);
            proof {
                let rest = es.skip(k as int);
                assert(rest[0] == es[k as int]);
                assert(rest.drop_first() =~= es.skip(k + 1));
                assert(out@ =~= before + entry_bytes(es[k as int]));
                assert(out@ + entries_bytes(es.skip(k + 1)) =~= before + entries_bytes(rest));
            }
            k = k + 1;
        }
        assert(es.skip(len as int) =~= Seq::<(usize, u64, u64)>::empty());
        assert(out@ + Seq::<u8>::empty() =~= out@);
        out
    }

    /// Reads a context back from swap-file bytes; `None` where the bytes end
    /// before the context does.
    pub fn from_swap_bytes(bytes: &[u8]) -> (r: Option<QuantumContextFrame>)
        ensures
            match r {
                Some(f) => decode_frame(bytes@) == Some((f.pid, f.num_qubits, f.sparse_state@)),
                None => decode_frame(bytes@) is None,
            },
    {
        proof {
            lemma_word_range();
        }
        let w = (usize::BITS / 8) as usize;
        let n = bytes.len();
        if n < 3 * w {
            return None;
        }
        let ghost b = bytes@;
        let pid_raw = read_le(bytes, 0, w);
        let nq_raw = read_le(bytes, w, w);
        let count_raw = read_le(bytes, 2 * w, w);
        proof {
            lemma_le_canonical(b.subrange(0, w as int));
            lemma_le_canonical(b.subrange(w as int, 2 * w));
            lemma_le_canonical(b.subrange(2 * w, 3 * w));
            assert(b.take(w as int) =~= b.subrange(0, w as int));
        }
        let pid = pid_raw as usize;
        let num_qubits = nq_raw as usize;
        let count = count_raw as usize;
        let ghost tail = b.skip(3 * w);
        let mut entries: Vec<(usize, u64, u64)> = Vec::new();
        let mut pos: usize = 3 * w;
        let mut k: usize = 0;
        assert(b.skip(pos as int) =~= tail);
        assert(entries@ + Seq::<(usize, u64, u64)>::empty() =~= entries@);
        while k < count
            invariant
                n == b.len(),
                b == bytes@,
                w as nat == word_bytes(),
                w == 4 || w == 8,
                usize::MAX + 1 == pow256(word_bytes()),
                k <= count,
                pos <= n,
                n >= 3 * w,
                tail == b.skip(3 * w),
                count as nat == le_value(b.subrange(2 * w, 3 * w)),
                decode_entries(tail, count as nat) == match decode_entries(b.skip(pos as int), (count - k) as nat) {
                    Some(rest) => Some(entries@ + rest),
                    None => None,
                },
            decreases count - k,
        {
            let ghost rb = b.skip(pos as int);
            if n - pos < w + 16 {
                assert(decode_entries(rb, (count - k) as nat) is None);
                return None;
            }
            let idx_raw = read_le(bytes, pos, w);
            let re = read_le(bytes, pos + w, 8);
            let im = read_le(bytes, pos + w + 8, 8);
            proof {
                lemma_le_canonical(b.subrange(pos as int, pos + w));
                assert(rb.take(w as int) =~= b.subrange(pos as int, pos + w));
                assert(rb.subrange(w as int, w + 8) =~= b.subrange(pos + w, pos + w + 8));
                assert(rb.subrange(w + 8, w + 16) =~= b.subrange(pos + w + 8, pos + w + 16));
                assert(rb.skip(w + 16) =~= b.skip(pos + w + 16));
            }
            let e = (idx_raw as usize, re, im);
            let ghost before = entries@;
            entries.push(e);
            proof {
                match decode_entries(b.skip(pos + w + 16), (count - k - 1) as nat) {
                    Some(rest) => {
                        assert(before + (seq![e] + rest) =~= entries@ + rest);
                    },
                    None => {},
                }
            }
            pos = pos + w + 16;
            k = k + 1;
        }
        proof {
            assert(entries@ + Seq::<(usize, u64, u64)>::empty() =~= entries@);
        }
        Some(QuantumContextFrame { pid, num_qubits, sparse_state: entries })
    }
}

proof fn lemma_entries_roundtrip(es: Seq<(usize, u64, u64)>, extra: Seq<u8>)
    ensures
        decode_entries(entries_bytes(es) + extra, es.len()) == Some(es),
    decreases es.len(),
{
    lemma_word_range();
    if es.len() > 0 {
        let e = es[0];
        let w = word_bytes() as int;
        let a = le_bytes(e.0 as nat, word_bytes());
        let b1 = le_bytes(e.1 as nat, 8);
        let b2 = le_bytes(e.2 as nat, 8);
        lemma_le_roundtrip(e.0 as nat, word_bytes());
        lemma_le_roundtrip(e.1 as nat, 8);
        lemma_le_roundtrip(e.2 as nat, 8);
        let rest = entries_bytes(es.drop_first()) + extra;
        let all = entries_bytes(es) + extra;
        assert(all =~= a + b1 + b2 + rest);
        assert(all.take(w) =~= a);
        assert(all.subrange(w, w + 8) =~= b1);
        assert(all.subrange(w + 8, w + 16) =~= b2);
        assert(all.skip(w + 16) =~= rest);
        lemma_entries_roundtrip(es.drop_first(), extra);
        assert(seq![e] + es.drop_first() =~= es);
    }
}

/// What a context's swap-file image reads back as is that context, whatever
/// bytes follow the image.
pub proof fn frame_roundtrip(
    pid: usize,
    num_qubits: usize,
    es: Seq<(usize, u64, u64)>,
    extra: Seq<u8>,
)
    requires
        es.len() <= usize::MAX,
    ensures
        decode_frame(frame_bytes(pid, num_qubits, es) + extra) == Some((pid, num_qubits, es)),
{
    lemma_word_range();
    let w = word_bytes() as int;
    let h0 = le_bytes(pid as nat, word_bytes());
    let h1 = le_bytes(num_qubits as nat, word_bytes());
    let h2 = le_bytes(es.len(), word_bytes());
    lemma_le_roundtrip(pid as nat, word_bytes());
    lemma_le_roundtrip(num_qubits as nat, word_bytes());
    lemma_le_roundtrip(es.len(), word_bytes());
    let all = frame_bytes(pid, num_qubits, es) + extra;
    assert(all =~= h0 + h1 + h2 + (entries_bytes(es) + extra));
    assert(all.take(w) =~= h0);
    assert(all.subrange(w, 2 * w) =~= h1);
    assert(all.subrange(2 * w, 3 * w) =~= h2);
    assert(all.skip(3 * w) =~= entries_bytes(es) + extra);
    lemma_entries_roundtrip(es, extra);
}

proof fn lemma_entries_canonical(b: Seq<u8>, count: nat)
    requires
        decode_entries(b, count) is Some,
    ensures
        decode_entries(b, count)->0.len() == count,
        entries_bytes(decode_entries(b, count)->0).len() <= b.len(),
        b.take(entries_bytes(decode_entries(b, count)->0).len() as int) == entries_bytes(
            decode_entries(b, count)->0,
        ),
    decreases count,
{
    lemma_word_range();
    if count > 0 {
        let w = word_bytes() as int;
        let rb = b.skip(w + 16);
        lemma_entries_canonical(rb, (count - 1) as nat);
        let rest = decode_entries(rb, (count - 1) as nat)->0;
        let e = (
            le_value(b.take(w)) as usize,
            le_value(b.subrange(w, w + 8)) as u64,
            le_value(b.subrange(w + 8, w + 16)) as u64,
        );
        let es = decode_entries(b, count)->0;
        assert(es == seq![e] + rest);
        assert(es[0] == e);
        assert(es.drop_first() =~= rest);
        lemma_le_canonical(b.take(w));
        lemma_le_canonical(b.subrange(w, w + 8));
        lemma_le_canonical(b.subrange(w + 8, w + 16));
        assert(le_bytes(e.0 as nat, word_bytes()) =~= b.take(w));
        assert(le_bytes(e.1 as nat, 8) =~= b.subrange(w, w + 8));
        assert(le_bytes(e.2 as nat, 8) =~= b.subrange(w + 8, w + 16));
        let rl = entries_bytes(rest).len() as int;
        assert(b.take(w + 16 + rl) =~= b.take(w) + b.subrange(w, w + 8) + b.subrange(w + 8, w + 16)
            + rb.take(rl));
    } else {
        assert(b.take(0) =~= Seq::<u8>::empty());
    }
}

/// A context read from swap-file bytes is exactly what those bytes begin
/// with: writing it back gives a prefix of them.
pub proof fn frame_decode_is_prefix(b: Seq<u8>)
    requires
        decode_frame(b) is Some,
    ensures
        ({
            let (pid, num_qubits, es) = decode_frame(b)->0;
            let img = frame_bytes(pid, num_qubits, es);
            img.len() <= b.len() && b.take(img.len() as int) == img
        }),
{
    lemma_word_range();
    let w = word_bytes() as int;
    let count = le_value(b.subrange(2 * w, 3 * w));
    let tail = b.skip(3 * w);
    lemma_entries_canonical(tail, count);
    let (pid, num_qubits, es) = decode_frame(b)->0;
    lemma_le_canonical(b.take(w));
    lemma_le_canonical(b.subrange(w, 2 * w));
    lemma_le_canonical(b.subrange(2 * w, 3 * w));
    assert(le_bytes(pid as nat, word_bytes()) =~= b.take(w));
    assert(le_bytes(num_qubits as nat, word_bytes()) =~= b.subrange(w, 2 * w));
    assert(es.len() == count);
    assert(le_bytes(es.len(), word_bytes()) =~= b.subrange(2 * w, 3 * w));
    let el = entries_bytes(es).len() as int;
    let img = frame_bytes(pid, num_qubits, es);
    assert(b.take(3 * w + el) =~= b.take(w) + b.subrange(w, 2 * w) + b.subrange(2 * w, 3 * w) + tail.take(el));
}

/// The swap-file name of process `pid`: `process_<pid>.qswap`.
pub open spec fn swap_file_name(pid: usize) -> Seq<char> {
    seq!['p', 'r', 'o', 'c', 'e', 's', 's', '_'] + decimal(pid as nat) + seq![
        '.',
        'q',
        's',
        'w',
        'a',
        'p',
    ]
}

/// `dir` with `name` appended as a path component: the separator `sep`
/// goes between them unless `dir` is empty or already ends with a
/// separator (`ends_in_sep`).
pub open spec fn join_path(dir: Seq<char>, name: Seq<char>, sep: char, ends_in_sep: bool) -> Seq<char> {
    if dir.len() > 0 && !ends_in_sep {
        dir + seq![sep] + name
    } else {
        dir + name
    }
}

/// Whether `path` is `dir` joined with `name` on some platform: with its
/// main separator, `/` or `\`, in between where `dir` is not empty and does
/// not end in a character that the platform takes for a separator (which
/// can only be `/` or `\`).
pub open spec fn is_joined_path(dir: Seq<char>, name: Seq<char>, path: Seq<char>) -> bool {
    exists|sep: char, ends_in_sep: bool|
        {
            &&& sep == '/' || sep == '\\'
            &&& dir.len() > 0 ==> (ends_in_sep ==> dir.last() == '/' || dir.last() == '\\')
            &&& path == #[trigger] join_path(dir, name, sep, ends_in_sep)
        }
}

/// The platform's main path separator.
///
/// Reads `std::path::MAIN_SEPARATOR`, which the standard library documents
/// as `/` on Unix and `\` on Windows; which one holds is not stated.
#[verifier::external_body]
fn main_separator() -> (c: char)
    ensures
        c == '/' || c == '\\',
{
    std::path::MAIN_SEPARATOR
}

/// Whether `c` separates path components on this platform.
///
/// Calls `std::path::is_separator`, which answers for the separators of the
/// platform the program runs on; this states only that those are among `/`
/// and `\`, and leaves open which of the two count.
#[verifier::external_body]
fn is_path_separator(c: char) -> (b: bool)
    ensures
        b ==> c == '/' || c == '\\',
{
    std::path::is_separator(c)
}

/// Keeper of the directory that holds the swap files of frozen processes.
pub struct QuantumVMM {
    swap_directory: String,
}

impl QuantumVMM {
    /// The directory that holds the swap files.
    pub closed spec fn directory(&self) -> Seq<char> {
        self.swap_directory@
    }

    /// A manager whose swap files live in `swap_dir`.
    pub fn new(swap_dir: String) -> (vmm: Self)
        ensures
            vmm.directory() == swap_dir@,
    {
        QuantumVMM { swap_directory: swap_dir }
    }

    /// The directory that holds the swap files.
    pub fn swap_directory(&self) -> (d: &str)
        ensures
            d@ == self.directory(),
    {
        self.swap_directory.as_str()
    }

    /// The path of the swap file of process `pid`: the directory joined
    /// with `process_<pid>.qswap` as a path component.  A directory that is
    /// only a Windows drive, such as `C:`, also gets a separator here.
    pub fn get_swap_path(&self, pid: usize) -> (path: String)
        ensures
            is_joined_path(self.directory(), swap_file_name(pid), path@),
    {
        let mut path = self.swap_directory.clone();
        let n = self.swap_directory.as_str().unicode_len();
        let sep = main_separator();
        let mut ends_in_sep = false;
        if n > 0 {
            ends_in_sep = is_path_separator(self.swap_directory.as_str().get_char(n - 1));
            if !ends_in_sep {
                push_char(&mut path, sep);
            }
        }
        path.append("process_");
        push_decimal(&mut path, pid);
        path.append(".qswap");
        proof {
            reveal_strlit("process_");
            reveal_strlit(".qswap");
            assert("process_"@ =~= seq!['p', 'r', 'o', 'c', 'e', 's', 's', '_']);
            assert(".qswap"@ =~= seq!['.', 'q', 's', 'w', 'a', 'p']);
            assert(path@ =~= join_path(self.directory(), swap_file_name(pid), sep, ends_in_sep));
        }
        path
    }
}

} // verus!
