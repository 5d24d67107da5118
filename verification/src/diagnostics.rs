//! Diagnostics: messages about places in a source text, and their
//! rendering with the line they point into and a marker under the place.
use vstd::prelude::*;
use vstd::string::StringSliceAdditionalSpecFns;
use crate::format::{digits, push_digits};
use crate::token::Span;
use crate::vm::append_bytes;

verus! {

#[derive(Clone, Copy, Debug, PartialEq, Eq, Structural)]
pub enum Severity {
    Error,
    Warning,
    Note,
}

impl Severity {
    /// The name a rendering gives each severity.
    pub open spec fn name_text(self) -> &'static str {
        match self {
            Severity::Error => "Error",
            Severity::Warning => "Warning",
            Severity::Note => "Note",
        }
    }

    /// The name a rendering gives the severity.
    pub fn name(&self) -> (r: &'static str)
        ensures
            r == self.name_text(),
    {
        match self {
            Severity::Error => "Error",
            Severity::Warning => "Warning",
            Severity::Note => "Note",
        }
    }
}

/// A message, and the places of the source it is about.
pub struct Diagnostic {
    pub severity: Severity,
    pub message: String,
    pub labels: Vec<Label>,
}

/// A place of the source, with an optional note on it.
pub struct Label {
    pub span: Span,
    pub message: Option<String>,
}

#[derive(Clone, Copy, Debug, PartialEq, Eq, Structural)]
pub enum LabelStyle {
    Primary,
    Secondary,
}

/// Where the lines of `s` start: offset 0, and the offset after each line
/// feed, in order.
pub open spec fn line_starts(s: Seq<u8>) -> Seq<usize>
    decreases s.len(),
{
    if s.len() == 0 {
        seq![0usize]
    } else if s.last() == 10u8 {
        line_starts(s.drop_last()).push(s.len() as usize)
    } else {
        line_starts(s.drop_last())
    }
}

/// The line starts of a text: they begin with 0 and grow strictly.
pub open spec fn starts_ok(lines: Seq<usize>) -> bool {
    &&& lines.len() >= 1
    &&& lines[0] == 0
    &&& forall|a: int, b: int| 0 <= a < b < lines.len() ==> lines[a] < lines[b]
}

proof fn lemma_line_starts(s: Seq<u8>)
    requires
        s.len() <= usize::MAX,
    ensures
        starts_ok(line_starts(s)),
        forall|i: int| 0 <= i < line_starts(s).len() ==> line_starts(s)[i] <= s.len(),
    decreases s.len(),
{
    if s.len() > 0 {
        lemma_line_starts(s.drop_last());
        let prev = line_starts(s.drop_last());
        if s.last() == 10u8 {
            let cur = prev.push(s.len() as usize);
            assert forall|a: int, b: int| 0 <= a < b < cur.len() implies cur[a] < cur[b] by {
                if b == cur.len() - 1 {
                    assert(cur[a] == prev[a]);
                }
            }
        }
    }
}

/// Where the lines of `src` start (see [`line_starts`]).
pub fn build_line_index(src: &str) -> (r: Vec<usize>)
    ensures
        r@ == line_starts(src.spec_bytes()),
        starts_ok(r@),
{
    let bytes = src.as_bytes();
    let mut lines: Vec<usize> = Vec::new();
    lines.push(0);
    let mut i: usize = 0;
    assert(bytes@.take(0) =~= Seq::<u8>::empty());
    assert(lines@ =~= line_starts(bytes@.take(0)));
    while i < bytes.len()
        invariant
            i <= bytes@.len(),
            bytes@ == src.spec_bytes(),
            lines@ == line_starts(bytes@.take(i as int)),
        decreases bytes@.len() - i,
    {
        assert(bytes@.take(i + 1).drop_last() =~= bytes@.take(i as int));
        if bytes[i] == 10u8 {
            lines.push(i + 1);
        }
        i = i + 1;
    }
    assert(bytes@.take(i as int) =~= bytes@);
    proof {
        lemma_line_starts(bytes@);
    }
    lines
}

/// Byte `byte` lies on line `i`: the line starts at or before it, and the
/// next line, if any, starts after it.
pub open spec fn on_line(lines: Seq<usize>, byte: int, i: int) -> bool {
    0 <= i < lines.len() && lines[i] <= byte && (i + 1 == lines.len() || byte < lines[i + 1])
}

/// The index of the line that byte `byte` lies on: the last line that
/// starts at or before it.
pub open spec fn line_at(lines: Seq<usize>, byte: int) -> int {
    choose|i: int| #[trigger] on_line(lines, byte, i)
}

/// With line starts that grow, only one line holds a byte.
proof fn lemma_line_at(lines: Seq<usize>, byte: int, i: int)
    requires
        starts_ok(lines),
        0 <= i < lines.len(),
        lines[i] <= byte,
        i + 1 == lines.len() || byte < lines[i + 1],
    ensures
        line_at(lines, byte) == i,
{
    assert(on_line(lines, byte, i));
    let j = line_at(lines, byte);
    assert(on_line(lines, byte, j));
    if j < i {
        assert(lines[j + 1] <= lines[i]);
    } else if i < j {
        assert(lines[i + 1] <= lines[j]);
    }
}

/// The line (from 1) and column (from 1) of byte `byte`: the line is the
/// last one that starts at or before it.
pub fn byte_to_line_col(lines: &[usize], byte: usize) -> (r: (usize, usize))
    requires
        starts_ok(lines@),
        byte < usize::MAX,
    ensures
        ({
            let i = r.0 - 1;
            &&& 1 <= r.0 <= lines@.len()
            &&& lines@[i] <= byte
            &&& (i + 1 == lines@.len() || byte < lines@[i + 1])
            &&& r.1 == byte - lines@[i] + 1
            &&& i == line_at(lines@, byte as int)
        }),
{
    let mut lo: usize = 0;
    let mut hi: usize = lines.len();
    while hi - lo > 1
        invariant
            starts_ok(lines@),
            0 <= lo < hi <= lines@.len(),
            lines@[lo as int] <= byte,
            hi == lines@.len() || byte < lines@[hi as int],
        decreases hi - lo,
    {
        let mid = lo + (hi - lo) / 2;
        if lines[mid] <= byte {
            lo = mid;
        } else {
            hi = mid;
        }
    }
    proof {
        if lo + 1 < lines@.len() {
            assert(hi == lo + 1);
        }
        lemma_line_at(lines@, byte as int, lo as int);
    }
    (lo + 1, byte - lines[lo] + 1)
}

/// Appends the decimal rendering of `n`.
fn push_number(out: &mut Vec<u8>, n: usize)
    ensures
        final(out)@ == old(out)@ + digits(n as nat, 10),
{
    push_digits(out, n as u64, 10);
}

/// `n` copies of byte `b`.
pub open spec fn repeat(b: u8, n: int) -> Seq<u8> {
    Seq::new(if n > 0 { n as nat } else { 0 }, |_k: int| b)
}

/// The rendering of a label (see [`render_label`]) of text `src` whose
/// lines start at `lines`.
pub open spec fn label_text(src: Seq<u8>, lines: Seq<usize>, label: Label) -> Seq<u8> {
    let start = label.span.start as int;
    let end = label.span.end as int;
    let sl = line_at(lines, start);
    let start_col = start - lines[sl] + 1;
    let end_col = end - lines[line_at(lines, end)] + 1;
    let from = lines[sl] as int;
    let to = if sl + 1 < lines.len() { lines[sl + 1] as int } else { src.len() as int };
    let stop = if to < src.len() { to } else { src.len() as int };
    digits((sl + 1) as nat, 10) + " | ".spec_bytes() + src.subrange(from, stop) + seq![10u8]
        + "   | ".spec_bytes() + repeat(32u8, start_col - 1) + (if end > start {
        repeat(94u8, end_col - start_col)
    } else {
        seq![94u8]
    }) + match label.message {
        Some(m) => seq![32u8] + vstd::utf8::encode_utf8(m@),
        None => seq![],
    } + seq![10u8]
}

/// The label's line and a marker under the place it points to:
/// `LINE | TEXT`, where the text keeps its line feed, then `   | ` and
/// blanks up to the place, a caret under each byte of it on that line (one
/// caret for an empty place), and the label's note.
#[verifier::spinoff_prover]
#[verifier::rlimit(100)]
fn render_label(src: &str, lines: &[usize], label: &Label, out: &mut Vec<u8>)
    requires
        starts_ok(lines@),
        label.span.start < usize::MAX,
        label.span.end < usize::MAX,
        forall|i: int| 0 <= i < lines@.len() ==> lines@[i] <= src.spec_bytes().len(),
    ensures
        final(out)@ == old(out)@ + label_text(src.spec_bytes(), lines@, *label),
{
    let bytes = src.as_bytes();
    let start = label.span.start;
    let end = label.span.end;
    let (start_line, start_col) = byte_to_line_col(lines, start);
    let (_end_line, end_col) = byte_to_line_col(lines, end);
    let line_start_byte = lines[start_line - 1];
    let line_end_byte = if start_line < lines.len() {
        lines[start_line]
    } else {
        bytes.len()
    };
    let ghost stop: int = if line_end_byte < bytes@.len() { line_end_byte as int } else { bytes@.len() as int };
    push_number(out, start_line);
    append_bytes(out, " | ".as_bytes());
    let ghost base = out@;
    let ghost t1 = digits(start_line as nat, 10) + " | ".spec_bytes();
    assert(base =~= old(out)@ + t1);
    let mut k = line_start_byte;
    while k < line_end_byte && k < bytes.len()
        invariant
            line_start_byte <= k <= stop,
            stop <= bytes@.len(),
            stop == if line_end_byte < bytes@.len() { line_end_byte as int } else { bytes@.len() as int },
            out@ == base + bytes@.subrange(line_start_byte as int, k as int),
        decreases line_end_byte - k,
    {
        out.push(bytes[k]);
        assert(out@ =~= base + bytes@.subrange(line_start_byte as int, k + 1));
        k = k + 1;
    }
    out.push(10u8);
    append_bytes(out, "   | ".as_bytes());
    let ghost base2 = out@;
    let ghost t2 = t1 + bytes@.subrange(line_start_byte as int, stop) + seq![10u8] + "   | ".spec_bytes();
    assert(base2 =~= old(out)@ + t2);
    let mut c: usize = 1;
    while c < start_col
        invariant
            1 <= c <= start_col,
            out@ == base2 + repeat(32u8, c - 1),
        decreases start_col - c,
    {
        out.push(32u8);
        assert(out@ =~= base2 + repeat(32u8, c as int));
        c = c + 1;
    }
    let ghost base3 = out@;
    if end > start {
        let mut c: usize = start_col;
        while c < end_col
            invariant
                start_col <= c,
                c <= end_col || c == start_col,
                out@ == base3 + repeat(94u8, c - start_col),
            decreases end_col - c,
        {
            out.push(94u8);
            assert(out@ =~= base3 + repeat(94u8, c + 1 - start_col));
            c = c + 1;
        }
        assert(out@ =~= base3 + repeat(94u8, end_col - start_col));
    } else {
        out.push(94u8);
    }
    let ghost base4 = out@;
    let ghost marker = if end > start { repeat(94u8, end_col - start_col) } else { seq![94u8] };
    let ghost t3 = t2 + repeat(32u8, start_col - 1);
    assert(base3 =~= old(out)@ + t3);
    let ghost t4 = t3 + marker;
    assert(base4 =~= old(out)@ + t4);
    let ghost note = match &label.message {
        Some(m) => seq![32u8] + vstd::utf8::encode_utf8(m@),
        None => seq![],
    };
    match &label.message {
        Some(m) => {
            out.push(32u8);
            append_bytes(out, m.as_str().as_bytes());
        },
        None => {},
    }
    out.push(10u8);
    assert(out@ =~= old(out)@ + (t4 + note + seq![10u8]));
    assert(label_text(src.spec_bytes(), lines@, *label) == t4 + note + seq![10u8]);
}

/// The place of a label's start, ` --> filename.wtr:LINE:COLUMN`, and the
/// label itself, for the first `n` labels of `labels`.
pub open spec fn labels_text(src: Seq<u8>, lines: Seq<usize>, labels: Seq<Label>, n: nat) -> Seq<u8>
    decreases n,
{
    if n == 0 || n > labels.len() {
        seq![]
    } else {
        let start = labels[n - 1].span.start as int;
        let li = line_at(lines, start);
        labels_text(src, lines, labels, (n - 1) as nat) + " --> filename.wtr:".spec_bytes() + digits(
            (li + 1) as nat,
            10,
        ) + seq![58u8] + digits((start - lines[li] + 1) as nat, 10) + seq![10u8] + label_text(
            src,
            lines,
            labels[n - 1],
        )
    }
}

/// The rendering of one diagnostic: `SEVERITY: MESSAGE`, then its labels.
pub open spec fn diagnostic_text(src: Seq<u8>, lines: Seq<usize>, d: Diagnostic) -> Seq<u8> {
    d.severity.name_text().spec_bytes() + ": ".spec_bytes() + vstd::utf8::encode_utf8(d.message@)
        + seq![10u8] + labels_text(src, lines, d.labels@, d.labels@.len())
}

/// The renderings of the first `n` diagnostics of `ds`, one after another.
pub open spec fn diagnostics_text(src: Seq<u8>, lines: Seq<usize>, ds: Seq<Diagnostic>, n: nat) -> Seq<u8>
    decreases n,
{
    if n == 0 || n > ds.len() {
        seq![]
    } else {
        diagnostics_text(src, lines, ds, (n - 1) as nat) + diagnostic_text(src, lines, ds[n - 1])
    }
}

/// Renders diagnostics about `code`: for each, `SEVERITY: MESSAGE`, then
/// for each label ` --> filename.wtr:LINE:COLUMN` and the label's line
/// with a marker (see [`render_label`]); lines end with a line feed.
pub fn render_diagnostics(code: &str, diagnostics: &[Diagnostic]) -> (r: Vec<u8>)
    requires
        forall|d: int, l: int|
            0 <= d < diagnostics@.len() && 0 <= l < diagnostics@[d].labels@.len() ==> {
                &&& (#[trigger] diagnostics@[d].labels@[l]).span.start < usize::MAX
                &&& diagnostics@[d].labels@[l].span.end < usize::MAX
            },
    ensures
        r@ == diagnostics_text(
            code.spec_bytes(),
            line_starts(code.spec_bytes()),
            diagnostics@,
            diagnostics@.len(),
        ),
{
    let line_index = build_line_index(code);
    let code_len = code.as_bytes().len();
    proof {
        lemma_line_starts(code.spec_bytes());
    }
    let mut out: Vec<u8> = Vec::new();
    let mut d: usize = 0;
    while d < diagnostics.len()
        invariant
            forall|d: int, l: int|
                0 <= d < diagnostics@.len() && 0 <= l < diagnostics@[d].labels@.len() ==> {
                    &&& (#[trigger] diagnostics@[d].labels@[l]).span.start < usize::MAX
                    &&& diagnostics@[d].labels@[l].span.end < usize::MAX
                },
            line_index@ == line_starts(code.spec_bytes()),
            starts_ok(line_index@),
            forall|i: int| 0 <= i < line_index@.len() ==> line_index@[i] <= code.spec_bytes().len(),
            d <= diagnostics@.len(),
            out@ == diagnostics_text(code.spec_bytes(), line_index@, diagnostics@, d as nat),
        decreases diagnostics@.len() - d,
    {
        let diagnostic = &diagnostics[d];
        let ghost before = out@;
        append_bytes(&mut out, diagnostic.severity.name().as_bytes());
        append_bytes(&mut out, ": ".as_bytes());
        append_bytes(&mut out, diagnostic.message.as_str().as_bytes());
        out.push(10u8);
        let ghost head = diagnostic.severity.name_text().spec_bytes() + ": ".spec_bytes()
            + vstd::utf8::encode_utf8(diagnostic.message@) + seq![10u8];
        assert(out@ =~= before + head);
        let mut l: usize = 0;
        while l < diagnostic.labels.len()
            invariant
                d < diagnostics@.len(),
                diagnostic == &diagnostics@[d as int],
                forall|d: int, l: int|
                    0 <= d < diagnostics@.len() && 0 <= l < diagnostics@[d].labels@.len() ==> {
                        &&& (#[trigger] diagnostics@[d].labels@[l]).span.start < usize::MAX
                        &&& diagnostics@[d].labels@[l].span.end < usize::MAX
                    },
                line_index@ == line_starts(code.spec_bytes()),
                starts_ok(line_index@),
                forall|i: int| 0 <= i < line_index@.len() ==> line_index@[i] <= code.spec_bytes().len(),
                l <= diagnostic.labels@.len(),
                out@ == before + head + labels_text(code.spec_bytes(), line_index@, diagnostic.labels@, l as nat),
            decreases diagnostic.labels@.len() - l,
        {
            let label = &diagnostic.labels[l];
            assert(label.span.start < usize::MAX);
            let ghost prev = out@;
            let (line, col) = byte_to_line_col(line_index.as_slice(), label.span.start);
            append_bytes(&mut out, " --> filename.wtr:".as_bytes());
            push_number(&mut out, line);
            out.push(58u8);
            push_number(&mut out, col);
            out.push(10u8);
            render_label(code, line_index.as_slice(), label, &mut out);
            let ghost piece = " --> filename.wtr:".spec_bytes() + digits(line as nat, 10) + seq![58u8]
                + digits(col as nat, 10) + seq![10u8] + label_text(code.spec_bytes(), line_index@, *label);
            assert(out@ =~= prev + piece);
            assert(labels_text(code.spec_bytes(), line_index@, diagnostic.labels@, (l + 1) as nat)
                == labels_text(code.spec_bytes(), line_index@, diagnostic.labels@, l as nat) + piece);
            assert(out@ =~= before + head + labels_text(code.spec_bytes(), line_index@, diagnostic.labels@, (l + 1) as nat));
            l = l + 1;
        }
        assert(out@ =~= before + diagnostic_text(code.spec_bytes(), line_index@, *diagnostic));
        d = d + 1;
    }
    out
}

} // verus!
