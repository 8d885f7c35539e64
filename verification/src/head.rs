//! Head-style truncation: emit a bounded prefix of a source, either
//! its first lines (terminators kept as read) or its first bytes, with
//! a per-source header when several sources run in one batch.

use vstd::prelude::*;
use vstd::string::StringExecFns;
use vstd::string::StringSliceAdditionalSpecFns;
use crate::lines::NL;
use crate::lines::first_line_len;
use crate::lines::line_count;
use crate::lines::raw_lines;
use crate::lines::find_line_end;
use crate::lines::subvec;
use crate::lines::push_all;
use crate::lines::lemma_first_line_len_bounds;
use crate::lines::lemma_first_line_len_chars;
use crate::lines::lemma_raw_lines_prepend_line;
use crate::numfmt::SPACE;
use crate::parse::dec_value;
use crate::parse::is_valid_count;
use crate::parse::number_body;
use crate::parse::parse_positive_int;
use crate::report::SourceOutcome;
use crate::report::source_view;
use crate::report::source_views;
use crate::report::diagnostics_from;
use crate::report::format_diagnostic;

verus! {

/// Equals-sign byte, part of the header arrows.
pub const EQ: u8 = 61;
/// Greater-than byte, part of the opening arrow.
pub const GT: u8 = 62;
/// Less-than byte, part of the closing arrow.
pub const LT: u8 = 60;

/// How a bounded read stops: after a number of complete lines, or
/// after a number of bytes. Both limits are strictly positive by
/// construction of the configuration.
#[derive(Clone, Copy, Debug, PartialEq, Eq, Structural)]
pub enum TruncationMode {
    /// Stop after this many complete lines.
    Lines(usize),
    /// Stop after this many bytes.
    Bytes(usize),
}

/// Configuration of one truncation run.
#[derive(Debug)]
pub struct Config {
    /// The sources to read, in order.
    pub files: Vec<String>,
    /// The line limit; in force only when no byte limit is set.
    pub lines: usize,
    /// The byte limit; when set it takes precedence and suppresses
    /// line-oriented reading.
    pub bytes: Option<usize>,
}

/// The truncation mode a line limit and an optional byte limit select.
pub open spec fn spec_mode(lines: usize, bytes: Option<usize>) -> TruncationMode {
    match bytes {
        Some(b) => TruncationMode::Bytes(b),
        None => TruncationMode::Lines(lines),
    }
}

impl Config {
    /// The truncation mode this configuration selects.
    pub fn mode(&self) -> (m: TruncationMode)
        ensures
            m == spec_mode(self.lines, self.bytes),
    {
        match self.bytes {
            Some(b) => TruncationMode::Bytes(b),
            None => TruncationMode::Lines(self.lines),
        }
    }
}

/// The message naming an unusable line-count argument.
pub open spec fn illegal_line_count_msg(v: Seq<char>) -> Seq<char> {
    "illegal line count -- "@ + v
}

/// The message naming an unusable byte-count argument.
pub open spec fn illegal_byte_count_msg(v: Seq<char>) -> Seq<char> {
    "illegal byte count -- "@ + v
}

/// Validate the two count arguments and bundle the configuration.
/// Succeeds exactly when every given count is a strictly positive
/// integer; the first offending argument is named in the error,
/// verbatim.
pub fn get_args(files: Vec<String>, lines: &str, bytes: Option<&str>) -> (r: Result<Config, String>)
    ensures
        r is Ok <==> is_valid_count(lines.spec_bytes()) && (match bytes {
            Some(b) => is_valid_count(b.spec_bytes()),
            None => true,
        }),
        r is Ok ==> r->Ok_0.files == files,
        r is Ok ==> r->Ok_0.lines as nat == dec_value(number_body(lines.spec_bytes())),
        r is Ok ==> (match bytes {
            Some(b) => r->Ok_0.bytes == Some(
                (dec_value(number_body(b.spec_bytes())) as usize),
            ),
            None => r->Ok_0.bytes is None,
        }),
        !is_valid_count(lines.spec_bytes()) ==> r is Err && r->Err_0@ == illegal_line_count_msg(
            lines@,
        ),
        is_valid_count(lines.spec_bytes()) && (match bytes {
            Some(b) => !is_valid_count(b.spec_bytes()),
            None => false,
        }) ==> r is Err && r->Err_0@ == illegal_byte_count_msg(bytes->0@),
{
    let parsed_lines: usize = match parse_positive_int(lines) {
        Ok(n) => n,
        Err(e) => {
            let mut msg = "illegal line count -- ".to_owned();
            msg.append(e.as_str());
            return Err(msg);
        },
    };
    let parsed_bytes: Option<usize> = match bytes {
        Some(b) => match parse_positive_int(b) {
            Ok(n) => Some(n),
            Err(e) => {
                let mut msg = "illegal byte count -- ".to_owned();
                msg.append(e.as_str());
                return Err(msg);
            },
        },
        None => None,
    };
    Ok(Config { files, lines: parsed_lines, bytes: parsed_bytes })
}

/// The first `b` bytes of `s`, or all of `s` when it is shorter.
pub open spec fn byte_prefix(s: Seq<u8>, b: nat) -> Seq<u8> {
    if b <= s.len() {
        s.take(b as int)
    } else {
        s
    }
}

/// The first `limit` bytes of the input, byte-identical to its
/// leading bytes; fewer only when the input is shorter.
pub fn head_bytes(input: &Vec<u8>, limit: usize) -> (r: Vec<u8>)
    ensures
        r@ == byte_prefix(input@, limit as nat),
{
    let keep: usize = if limit <= input.len() {
        limit
    } else {
        input.len()
    };
    let r = subvec(input, 0, keep);
    proof {
        if limit as nat <= input@.len() {
            assert(input@.subrange(0, keep as int) =~= input@.take(limit as int));
        } else {
            assert(input@.subrange(0, keep as int) =~= input@);
        }
    }
    r
}

/// Position just past the first `n` raw lines of `s`; the end of `s`
/// when it has fewer.
pub open spec fn line_boundary(s: Seq<u8>, n: nat) -> nat
    decreases n,
{
    if n == 0 || s.len() == 0 {
        0
    } else {
        first_line_len(s) + line_boundary(s.skip(first_line_len(s) as int), (n - 1) as nat)
    }
}

/// A line boundary never passes the end of the input.
pub proof fn lemma_line_boundary_le(s: Seq<u8>, n: nat)
    ensures
        line_boundary(s, n) <= s.len(),
    decreases n,
{
    if n > 0 && s.len() > 0 {
        lemma_first_line_len_bounds(s);
        lemma_line_boundary_le(s.skip(first_line_len(s) as int), (n - 1) as nat);
    }
}

/// The first `n` complete lines of `s`, terminators kept as read.
pub open spec fn line_prefix(s: Seq<u8>, n: nat) -> Seq<u8> {
    s.take(line_boundary(s, n) as int)
}

/// The first `n` complete lines of the input, each byte-identical to
/// the corresponding input line including its terminator; fewer only
/// when the input has fewer lines.
pub fn head_lines(input: &Vec<u8>, n: usize) -> (r: Vec<u8>)
    ensures
        r@ == line_prefix(input@, n as nat),
{
    let len: usize = input.len();
    let mut pos: usize = 0;
    let mut k: usize = 0;
    proof {
        assert(input@.skip(0) =~= input@);
    }
    while k < n && pos < len
        invariant
            pos <= len,
            k <= n,
            len == input@.len(),
            line_boundary(input@, n as nat) == pos + line_boundary(
                input@.skip(pos as int),
                (n - k) as nat,
            ),
        decreases n - k,
    {
        let ghost tail = input@.skip(pos as int);
        let end = find_line_end(input, pos);
        proof {
            assert(line_boundary(tail, (n - k) as nat) == first_line_len(tail) + line_boundary(
                tail.skip(first_line_len(tail) as int),
                (n - k - 1) as nat,
            ));
            assert(tail.skip(first_line_len(tail) as int) =~= input@.skip(end as int));
        }
        pos = end;
        k = k + 1;
    }
    proof {
        if k == n {
            assert(line_boundary(input@.skip(pos as int), 0) == 0);
        } else {
            assert(input@.skip(pos as int).len() == 0);
            assert(line_boundary(input@.skip(pos as int), (n - k) as nat) == 0);
        }
        assert(input@.subrange(0, pos as int) =~= input@.take(pos as int));
    }
    subvec(input, 0, pos)
}

/// Byte-mode truncation emits exactly the smaller of the limit and
/// the input length, byte-identical to the input's leading bytes.
pub proof fn lemma_byte_prefix_law(s: Seq<u8>, b: nat)
    ensures
        byte_prefix(s, b).len() == if b <= s.len() {
            b
        } else {
            s.len()
        },
        forall|i: int| 0 <= i < byte_prefix(s, b).len() ==> #[trigger] byte_prefix(s, b)[i] == s[i],
{
    if b > s.len() {
        assert(byte_prefix(s, b) == s);
    }
}

/// Line-mode truncation emits exactly the first lines of the input up
/// to the limit — fewer only when the input has fewer — and each
/// emitted line is byte-identical to the corresponding input line,
/// terminator included.
pub proof fn lemma_line_prefix_law(s: Seq<u8>, n: nat)
    ensures
        line_count(line_prefix(s, n)) == if n <= line_count(s) {
            n
        } else {
            line_count(s)
        },
        forall|k: int|
            0 <= k < line_count(line_prefix(s, n)) ==> #[trigger] raw_lines(line_prefix(s, n))[k]
                == raw_lines(s)[k],
    decreases n,
{
    if n == 0 || s.len() == 0 {
        assert(line_boundary(s, n) == 0);
        assert(line_prefix(s, n) =~= Seq::<u8>::empty());
        assert(raw_lines(line_prefix(s, n)).len() == 0);
    } else {
        let fll = first_line_len(s) as int;
        lemma_first_line_len_bounds(s);
        lemma_first_line_len_chars(s);
        let head = s.take(fll);
        let tail = s.skip(fll);
        let b2 = line_boundary(tail, (n - 1) as nat) as int;
        lemma_line_boundary_le(tail, (n - 1) as nat);
        assert(line_boundary(s, n) == fll + b2);
        lemma_line_prefix_law(tail, (n - 1) as nat);
        assert(raw_lines(s) == seq![head] + raw_lines(tail));
        if fll == s.len() {
            assert(tail.len() == 0);
            assert(b2 == 0);
            assert(line_prefix(s, n) =~= s);
            assert(raw_lines(tail).len() == 0);
            assert(line_count(s) == 1);
        } else {
            assert(head.last() == s[fll - 1]);
            assert(head.last() == NL);
            assert forall|i: int| 0 <= i < head.len() - 1 implies head[i] != NL by {
                assert(head[i] == s[i]);
            }
            assert(line_prefix(s, n) =~= head + tail.take(b2));
            assert(tail.take(b2) == line_prefix(tail, (n - 1) as nat));
            lemma_raw_lines_prepend_line(head, tail.take(b2));
            assert(raw_lines(line_prefix(s, n)) == seq![head] + raw_lines(
                line_prefix(tail, (n - 1) as nat),
            ));
            assert(line_count(s) == 1 + line_count(tail));
            assert forall|k: int| 0 <= k < line_count(line_prefix(s, n)) implies #[trigger] raw_lines(
                line_prefix(s, n),
            )[k] == raw_lines(s)[k] by {
                if k > 0 {
                    assert(raw_lines(line_prefix(s, n))[k] == raw_lines(
                        line_prefix(tail, (n - 1) as nat),
                    )[k - 1]);
                    assert(raw_lines(s)[k] == raw_lines(tail)[k - 1]);
                }
            }
        }
    }
}

/// The header line announcing one source in a multi-source run: the
/// arrows around its name, preceded by one blank line for every source
/// after the first.
pub open spec fn header_line(name: Seq<u8>, first: bool) -> Seq<u8> {
    (if first {
        Seq::<u8>::empty()
    } else {
        seq![NL]
    }) + seq![EQ, EQ, GT, SPACE] + name + seq![SPACE, LT, EQ, EQ, NL]
}

/// The header line for one source of a multi-source run.
pub fn format_header(name: &Vec<u8>, first: bool) -> (r: Vec<u8>)
    ensures
        r@ == header_line(name@, first),
{
    let mut r: Vec<u8> = Vec::new();
    if !first {
        r.push(NL);
    }
    r.push(EQ);
    r.push(EQ);
    r.push(GT);
    r.push(SPACE);
    push_all(&mut r, name);
    r.push(SPACE);
    r.push(LT);
    r.push(EQ);
    r.push(EQ);
    r.push(NL);
    assert(r@ =~= header_line(name@, first));
    r
}

/// The truncated output for one source's content under a mode.
pub open spec fn head_piece(content: Seq<u8>, mode: TruncationMode) -> Seq<u8> {
    match mode {
        TruncationMode::Lines(n) => line_prefix(content, n as nat),
        TruncationMode::Bytes(b) => byte_prefix(content, b as nat),
    }
}

/// Truncate one source's content under the given mode.
pub fn head_source(content: &Vec<u8>, mode: TruncationMode) -> (r: Vec<u8>)
    ensures
        r@ == head_piece(content@, mode),
{
    match mode {
        TruncationMode::Lines(n) => head_lines(content, n),
        TruncationMode::Bytes(b) => head_bytes(content, b),
    }
}

/// The standard-output bytes of a truncation run over the sources
/// from position `i` on: each readable source truncated in order,
/// headed by its name when the batch holds more than one source;
/// failed sources contribute nothing here.
pub open spec fn head_stdout_from(
    srcs: Seq<(Seq<u8>, Result<Seq<u8>, Seq<u8>>)>,
    mode: TruncationMode,
    multi: bool,
    i: int,
) -> Seq<u8>
    decreases srcs.len() - i,
{
    if i < 0 || i >= srcs.len() {
        Seq::empty()
    } else {
        (match srcs[i].1 {
            Ok(content) => (if multi {
                header_line(srcs[i].0, i == 0)
            } else {
                Seq::empty()
            }) + head_piece(content, mode),
            Err(_) => Seq::empty(),
        }) + head_stdout_from(srcs, mode, multi, i + 1)
    }
}

/// Truncate a whole batch of sources: readable ones in order to
/// standard output, with a header before each when the batch holds
/// more than one source, one diagnostic line per failed source to
/// standard error, and the run never stops early.
pub fn head_sources(sources: &Vec<SourceOutcome>, mode: TruncationMode) -> (r: (Vec<u8>, Vec<u8>))
    ensures
        r.0@ == head_stdout_from(source_views(sources@), mode, sources@.len() > 1, 0),
        r.1@ == diagnostics_from(source_views(sources@), 0),
{
    let ghost views = source_views(sources@);
    let n: usize = sources.len();
    let multi: bool = n > 1;
    let mut out: Vec<u8> = Vec::new();
    let mut errs: Vec<u8> = Vec::new();
    let mut i: usize = 0;
    while i < n
        invariant
            i <= n,
            n == sources@.len(),
            multi == (n > 1),
            views == source_views(sources@),
            head_stdout_from(views, mode, multi, 0) == out@ + head_stdout_from(
                views,
                mode,
                multi,
                i as int,
            ),
            diagnostics_from(views, 0) == errs@ + diagnostics_from(views, i as int),
        decreases n - i,
    {
        let ghost out0 = out@;
        let ghost errs0 = errs@;
        proof {
            assert(views[i as int] == source_view(sources@[i as int]));
        }
        let source = &sources[i];
        match &source.1 {
            Ok(content) => {
                if multi {
                    let header = format_header(&source.0, i == 0);
                    push_all(&mut out, &header);
                }
                let piece = head_source(content, mode);
                push_all(&mut out, &piece);
                proof {
                    assert(views[i as int].1 == Ok::<Seq<u8>, Seq<u8>>(content@));
                    assert(views[i as int].0 == source.0@);
                    assert(diagnostics_from(views, i as int) == diagnostics_from(
                        views,
                        i as int + 1,
                    ));
                }
            },
            Err(cause) => {
                let line = format_diagnostic(&source.0, cause);
                push_all(&mut errs, &line);
                proof {
                    assert(views[i as int].1 == Err::<Seq<u8>, Seq<u8>>(cause@));
                    assert(views[i as int].0 == source.0@);
                    assert(head_stdout_from(views, mode, multi, i as int) == head_stdout_from(
                        views,
                        mode,
                        multi,
                        i as int + 1,
                    ));
                }
            },
        }
        proof {
            assert(out@ + head_stdout_from(views, mode, multi, i as int + 1) =~= out0
                + head_stdout_from(views, mode, multi, i as int));
            assert(errs@ + diagnostics_from(views, i as int + 1) =~= errs0 + diagnostics_from(
                views,
                i as int,
            ));
        }
        i = i + 1;
    }
    (out, errs)
}

} // verus!
