//! Line annotation: stream a source line by line and print each line,
//! under one of three numbering policies.

use vstd::prelude::*;
use crate::lines::NL;
use crate::lines::CR;
use crate::lines::first_line_len;
use crate::lines::lemma_first_line_len_bounds;
use crate::lines::lemma_first_line_len_chars;
use crate::lines::content_lines;
use crate::lines::line_count;
use crate::lines::raw_lines;
use crate::lines::strip_line;
use crate::lines::split_content_lines;
use crate::lines::push_all;
use crate::lines::lemma_content_lines_no_nl;
use crate::lines::lemma_raw_lines_prepend_line;
use crate::numfmt::counter_prefix;
use crate::numfmt::format_counter;
use crate::numfmt::lemma_counter_prefix_no_nl;
use crate::report::SourceOutcome;
use crate::report::source_view;
use crate::report::source_views;
use crate::report::diagnostics_from;
use crate::report::format_diagnostic;

verus! {

/// Which lines receive a counter prefix.
#[derive(Clone, Copy, Debug, PartialEq, Eq, Structural)]
pub enum NumberingPolicy {
    /// Every line prints unmodified.
    Plain,
    /// Every line gets a counter, starting at 1.
    NumberAll,
    /// Only nonempty lines get a counter; empty lines print as a bare
    /// line feed and do not advance it.
    NumberNonblank,
}

/// Configuration of one annotation run.
#[derive(Debug)]
pub struct Config {
    /// The sources to read, in order.
    pub files: Vec<String>,
    /// Number every line.
    pub number_lines: bool,
    /// Number nonblank lines only.
    pub number_nonblank_lines: bool,
}

/// Bundle the resolved command-line values into a configuration.
pub fn get_args(files: Vec<String>, number_lines: bool, number_nonblank_lines: bool) -> (c: Config)
    ensures
        c.files == files,
        c.number_lines == number_lines,
        c.number_nonblank_lines == number_nonblank_lines,
{
    Config { files, number_lines, number_nonblank_lines }
}

/// The policy two independent flags select: numbering every line wins
/// over numbering nonblank lines when both are set.
pub open spec fn spec_policy(number_lines: bool, number_nonblank_lines: bool) -> NumberingPolicy {
    if number_lines {
        NumberingPolicy::NumberAll
    } else if number_nonblank_lines {
        NumberingPolicy::NumberNonblank
    } else {
        NumberingPolicy::Plain
    }
}

impl Config {
    /// The numbering policy this configuration selects.
    pub fn policy(&self) -> (p: NumberingPolicy)
        ensures
            p == spec_policy(self.number_lines, self.number_nonblank_lines),
    {
        if self.number_lines {
            NumberingPolicy::NumberAll
        } else if self.number_nonblank_lines {
            NumberingPolicy::NumberNonblank
        } else {
            NumberingPolicy::Plain
        }
    }
}

/// The bytes printed for one content line when the counter has already
/// counted `counter` lines before it.
pub open spec fn line_output(line: Seq<u8>, policy: NumberingPolicy, counter: nat) -> Seq<u8> {
    match policy {
        NumberingPolicy::Plain => line + seq![NL],
        NumberingPolicy::NumberAll => counter_prefix(counter + 1) + line + seq![NL],
        NumberingPolicy::NumberNonblank => if line.len() > 0 {
            counter_prefix(counter + 1) + line + seq![NL]
        } else {
            seq![NL]
        },
    }
}

/// The counter after one more line under the given policy.
pub open spec fn next_counter(line: Seq<u8>, policy: NumberingPolicy, counter: nat) -> nat {
    match policy {
        NumberingPolicy::Plain => counter,
        NumberingPolicy::NumberAll => counter + 1,
        NumberingPolicy::NumberNonblank => if line.len() > 0 {
            counter + 1
        } else {
            counter
        },
    }
}

/// The bytes printed for a run of content lines, starting from a given
/// counter value.
pub open spec fn annotate_lines(lines: Seq<Seq<u8>>, policy: NumberingPolicy, counter: nat) -> Seq<
    u8,
>
    decreases lines.len(),
{
    if lines.len() == 0 {
        Seq::empty()
    } else {
        line_output(lines[0], policy, counter) + annotate_lines(
            lines.skip(1),
            policy,
            next_counter(lines[0], policy, counter),
        )
    }
}

/// The full annotated output for one source: its content lines under
/// the policy, the counter starting afresh at zero.
pub open spec fn annotated(s: Seq<u8>, policy: NumberingPolicy) -> Seq<u8> {
    annotate_lines(content_lines(s), policy, 0)
}

/// The counter value in force just before line `k` of a run that
/// started at `counter`.
pub open spec fn counter_before(
    lines: Seq<Seq<u8>>,
    policy: NumberingPolicy,
    counter: nat,
    k: int,
) -> nat
    decreases k,
{
    if k <= 0 {
        counter
    } else {
        next_counter(lines[k - 1], policy, counter_before(lines, policy, counter, k - 1))
    }
}

/// Annotate one source under the given policy, the counter starting
/// at zero.
pub fn annotate_source(input: &Vec<u8>, policy: NumberingPolicy) -> (out: Vec<u8>)
    ensures
        out@ == annotated(input@, policy),
{
    let lines = split_content_lines(input);
    let ghost clines = content_lines(input@);
    let mut out: Vec<u8> = Vec::new();
    let mut counter: usize = 0;
    let mut i: usize = 0;
    let n: usize = lines.len();
    proof {
        assert(clines.skip(0) =~= clines);
    }
    while i < n
        invariant
            i <= n,
            counter <= i,
            n == lines@.len(),
            clines == content_lines(input@),
            lines@.len() == clines.len(),
            forall|k: int| 0 <= k < lines@.len() ==> lines@[k]@ == clines[k],
            annotated(input@, policy) == out@ + annotate_lines(
                clines.skip(i as int),
                policy,
                counter as nat,
            ),
        decreases n - i,
    {
        let ghost rest = clines.skip(i as int);
        let ghost out0 = out@;
        proof {
            assert(rest[0] == clines[i as int]);
            assert(rest.skip(1) =~= clines.skip(i as int + 1));
            assert(annotate_lines(rest, policy, counter as nat) == line_output(
                clines[i as int],
                policy,
                counter as nat,
            ) + annotate_lines(
                clines.skip(i as int + 1),
                policy,
                next_counter(clines[i as int], policy, counter as nat),
            ));
        }
        let ghost c0 = counter as nat;
        let line = &lines[i];
        match policy {
            NumberingPolicy::Plain => {
                push_all(&mut out, line);
                out.push(NL);
            },
            NumberingPolicy::NumberAll => {
                let prefix = format_counter(counter + 1);
                push_all(&mut out, &prefix);
                push_all(&mut out, line);
                out.push(NL);
                counter = counter + 1;
            },
            NumberingPolicy::NumberNonblank => {
                if line.len() > 0 {
                    let prefix = format_counter(counter + 1);
                    push_all(&mut out, &prefix);
                    push_all(&mut out, line);
                    out.push(NL);
                    counter = counter + 1;
                } else {
                    out.push(NL);
                }
            },
        }
        proof {
            assert(out@ =~= out0 + line_output(clines[i as int], policy, c0));
            assert(counter as nat == next_counter(clines[i as int], policy, c0));
            assert((out0 + line_output(clines[i as int], policy, c0)) + annotate_lines(
                clines.skip(i as int + 1),
                policy,
                counter as nat,
            ) =~= out0 + (line_output(clines[i as int], policy, c0) + annotate_lines(
                clines.skip(i as int + 1),
                policy,
                counter as nat,
            )));
        }
        i = i + 1;
    }
    proof {
        assert(clines.skip(n as int).len() == 0);
        assert(annotate_lines(clines.skip(n as int), policy, counter as nat) == Seq::<u8>::empty());
        assert(out@ =~= out@ + Seq::<u8>::empty());
    }
    out
}

/// Shifting the run by one line: the counter before line `k + 1` of a
/// run equals the counter before line `k` of the run that starts past
/// the first line.
proof fn lemma_counter_before_shift(
    lines: Seq<Seq<u8>>,
    policy: NumberingPolicy,
    counter: nat,
    k: int,
)
    requires
        0 <= k,
        k + 1 <= lines.len(),
    ensures
        counter_before(lines, policy, counter, k + 1) == counter_before(
            lines.skip(1),
            policy,
            next_counter(lines[0], policy, counter),
            k,
        ),
    decreases k,
{
    if k > 0 {
        lemma_counter_before_shift(lines, policy, counter, k - 1);
        assert(lines.skip(1)[k - 1] == lines[k]);
        assert(counter_before(lines, policy, counter, k + 1) == next_counter(
            lines[k],
            policy,
            counter_before(lines, policy, counter, k),
        ));
        assert(counter_before(lines.skip(1), policy, next_counter(lines[0], policy, counter), k)
            == next_counter(
            lines.skip(1)[k - 1],
            policy,
            counter_before(lines.skip(1), policy, next_counter(lines[0], policy, counter), k - 1),
        ));
    } else {
        assert(counter_before(lines, policy, counter, 0) == counter);
        assert(counter_before(lines, policy, counter, 1) == next_counter(
            lines[0],
            policy,
            counter,
        ));
    }
}

/// The annotated output of a run of lines holds exactly one raw line
/// per input line, in order: line `k` prints as `line_output` under
/// the counter value in force before it.
pub proof fn lemma_annotate_lines_structure(
    lines: Seq<Seq<u8>>,
    policy: NumberingPolicy,
    counter: nat,
)
    requires
        forall|k: int, i: int|
            0 <= k < lines.len() && 0 <= i < lines[k].len() ==> #[trigger] lines[k][i] != NL,
    ensures
        raw_lines(annotate_lines(lines, policy, counter)).len() == lines.len(),
        forall|k: int|
            0 <= k < lines.len() ==> #[trigger] raw_lines(annotate_lines(lines, policy, counter))[k]
                == line_output(lines[k], policy, counter_before(lines, policy, counter, k)),
    decreases lines.len(),
{
    if lines.len() > 0 {
        let first = lines[0];
        let out0 = line_output(first, policy, counter);
        let c1 = next_counter(first, policy, counter);
        let rest = annotate_lines(lines.skip(1), policy, c1);
        lemma_counter_prefix_no_nl(counter + 1);
        assert(out0.len() > 0);
        assert(out0.last() == NL);
        assert forall|i: int| 0 <= i < out0.len() - 1 implies out0[i] != NL by {
            match policy {
                NumberingPolicy::Plain => {
                    assert(out0[i] == first[i]);
                },
                NumberingPolicy::NumberAll => {
                    let p = counter_prefix(counter + 1);
                    if i < p.len() {
                        assert(out0[i] == p[i]);
                    } else {
                        assert(out0[i] == first[i - p.len()]);
                    }
                },
                NumberingPolicy::NumberNonblank => {
                    if first.len() > 0 {
                        let p = counter_prefix(counter + 1);
                        if i < p.len() {
                            assert(out0[i] == p[i]);
                        } else {
                            assert(out0[i] == first[i - p.len()]);
                        }
                    }
                },
            }
        }
        lemma_raw_lines_prepend_line(out0, rest);
        assert forall|k: int, i: int|
            0 <= k < lines.skip(1).len() && 0 <= i < lines.skip(1)[k].len() implies #[trigger] lines.skip(
            1,
        )[k][i] != NL by {
            assert(lines.skip(1)[k] == lines[k + 1]);
        }
        lemma_annotate_lines_structure(lines.skip(1), policy, c1);
        let whole = annotate_lines(lines, policy, counter);
        assert(raw_lines(whole) == seq![out0] + raw_lines(rest));
        assert forall|k: int| 0 <= k < lines.len() implies #[trigger] raw_lines(whole)[k]
            == line_output(lines[k], policy, counter_before(lines, policy, counter, k)) by {
            if k > 0 {
                assert(raw_lines(whole)[k] == raw_lines(rest)[k - 1]);
                assert(lines.skip(1)[k - 1] == lines[k]);
                lemma_counter_before_shift(lines, policy, counter, k - 1);
            }
        }
    }
}

/// Plain mode reproduces every line: the output holds exactly as many
/// lines as the input, and line `k` of the output is content line `k`
/// with its terminator normalized to a single line feed.
pub proof fn lemma_plain_law(s: Seq<u8>)
    ensures
        line_count(annotated(s, NumberingPolicy::Plain)) == line_count(s),
        forall|k: int|
            0 <= k < line_count(s) ==> #[trigger] raw_lines(annotated(s, NumberingPolicy::Plain))[k]
                == content_lines(s)[k] + seq![NL],
{
    lemma_content_lines_no_nl(s);
    lemma_annotate_lines_structure(content_lines(s), NumberingPolicy::Plain, 0);
}

/// On input whose terminators are already normalized — the text ends
/// with a line feed and no carriage return stands directly before one
/// — plain mode reproduces the input byte for byte.
pub proof fn lemma_plain_identity(s: Seq<u8>)
    requires
        s.len() > 0 ==> s.last() == NL,
        forall|i: int| 0 < i < s.len() ==> !(#[trigger] s[i] == NL && s[i - 1] == CR),
    ensures
        annotated(s, NumberingPolicy::Plain) == s,
    decreases s.len(),
{
    if s.len() == 0 {
        assert(content_lines(s).len() == 0);
        assert(annotated(s, NumberingPolicy::Plain) =~= s);
    } else {
        let fll = first_line_len(s) as int;
        lemma_first_line_len_bounds(s);
        lemma_first_line_len_chars(s);
        let head = s.take(fll);
        let tail = s.skip(fll);
        assert(raw_lines(s) == seq![head] + raw_lines(tail));
        // The first raw line ends with a line feed not preceded by a
        // carriage return, so stripping and re-terminating is identity.
        if fll < s.len() {
            assert(head.last() == s[fll - 1]);
        } else {
            assert(head =~= s);
        }
        assert(head.last() == NL);
        let body = head.drop_last();
        if body.len() > 0 {
            assert(body.last() == s[fll - 2]);
            assert(!(s[fll - 1] == NL && s[fll - 2] == CR));
            assert(body.last() != CR);
        }
        assert(strip_line(head) == body);
        assert(body + seq![NL] =~= head);
        // The annotated output is the first line followed by the
        // annotated tail.
        let clines = content_lines(s);
        assert(clines.len() > 0);
        assert(clines[0] == strip_line(head));
        assert forall|k: int| 0 <= k < clines.skip(1).len() implies clines.skip(1)[k]
            == content_lines(tail)[k] by {
            assert(clines[k + 1] == strip_line(raw_lines(s)[k + 1]));
            assert(raw_lines(s)[k + 1] == raw_lines(tail)[k]);
        }
        assert(clines.skip(1) =~= content_lines(tail));
        assert(annotated(s, NumberingPolicy::Plain) == line_output(
            clines[0],
            NumberingPolicy::Plain,
            0,
        ) + annotated(tail, NumberingPolicy::Plain));
        // The tail meets the same normalization conditions.
        if tail.len() > 0 {
            assert(tail.last() == s.last());
        }
        assert forall|i: int| 0 < i < tail.len() implies !(#[trigger] tail[i] == NL && tail[i - 1] == CR) by {
            assert(tail[i] == s[fll + i]);
            assert(tail[i - 1] == s[fll + i - 1]);
        }
        lemma_plain_identity(tail);
        assert(line_output(clines[0], NumberingPolicy::Plain, 0) == body + seq![NL]);
        assert(annotated(s, NumberingPolicy::Plain) =~= head + tail);
        assert(head + tail =~= s);
    }
}

/// Number-all mode: the counter of output line `k` is exactly `k + 1`,
/// for every line. Each call of `annotate_source` starts the counter
/// afresh, so it restarts at 1 with every new source.
pub proof fn lemma_number_all_law(s: Seq<u8>)
    ensures
        line_count(annotated(s, NumberingPolicy::NumberAll)) == line_count(s),
        forall|k: int|
            0 <= k < line_count(s) ==> #[trigger] raw_lines(
                annotated(s, NumberingPolicy::NumberAll),
            )[k] == counter_prefix((k + 1) as nat) + content_lines(s)[k] + seq![NL],
{
    lemma_content_lines_no_nl(s);
    lemma_annotate_lines_structure(content_lines(s), NumberingPolicy::NumberAll, 0);
    assert forall|k: int| 0 <= k < line_count(s) implies counter_before(
        content_lines(s),
        NumberingPolicy::NumberAll,
        0,
        k,
    ) == k as nat by {
        lemma_counter_before_number_all(content_lines(s), k);
    }
}

/// In number-all mode the counter before line `k` is `k`.
proof fn lemma_counter_before_number_all(lines: Seq<Seq<u8>>, k: int)
    requires
        0 <= k,
    ensures
        counter_before(lines, NumberingPolicy::NumberAll, 0, k) == k as nat,
    decreases k,
{
    if k > 0 {
        lemma_counter_before_number_all(lines, k - 1);
    }
}

/// How many of the first `k` lines are nonblank.
pub open spec fn nonblank_before(lines: Seq<Seq<u8>>, k: int) -> nat
    decreases k,
{
    if k <= 0 {
        0
    } else {
        nonblank_before(lines, k - 1) + (if lines[k - 1].len() > 0 {
            1nat
        } else {
            0nat
        })
    }
}

/// In number-nonblank mode the counter before line `k` counts the
/// nonblank lines before it.
proof fn lemma_counter_before_nonblank(lines: Seq<Seq<u8>>, k: int)
    requires
        0 <= k,
    ensures
        counter_before(lines, NumberingPolicy::NumberNonblank, 0, k) == nonblank_before(lines, k),
    decreases k,
{
    if k > 0 {
        lemma_counter_before_nonblank(lines, k - 1);
    }
}

/// The nonblank count strictly increases past a nonblank line.
proof fn lemma_nonblank_before_increases(lines: Seq<Seq<u8>>, j: int, k: int)
    requires
        0 <= j < k,
        lines[j].len() > 0,
    ensures
        nonblank_before(lines, j) < nonblank_before(lines, k),
    decreases k,
{
    if k > j + 1 {
        lemma_nonblank_before_increases(lines, j, k - 1);
    }
}

/// Number-nonblank mode: a blank line prints as a bare line feed and
/// does not advance the counter; a nonblank line `k` carries the count
/// of nonblank lines up to and including itself, so the printed
/// counters strictly increase down the output.
pub proof fn lemma_number_nonblank_law(s: Seq<u8>)
    ensures
        line_count(annotated(s, NumberingPolicy::NumberNonblank)) == line_count(s),
        forall|k: int|
            0 <= k < line_count(s) && content_lines(s)[k].len() == 0 ==> #[trigger] raw_lines(
                annotated(s, NumberingPolicy::NumberNonblank),
            )[k] == seq![NL],
        forall|k: int|
            0 <= k < line_count(s) && content_lines(s)[k].len() > 0 ==> #[trigger] raw_lines(
                annotated(s, NumberingPolicy::NumberNonblank),
            )[k] == counter_prefix(nonblank_before(content_lines(s), k) + 1) + content_lines(s)[k]
                + seq![NL],
        forall|j: int, k: int|
            0 <= j < k < line_count(s) && content_lines(s)[j].len() > 0 ==> nonblank_before(
                content_lines(s),
                j,
            ) < nonblank_before(content_lines(s), k),
{
    lemma_content_lines_no_nl(s);
    lemma_annotate_lines_structure(content_lines(s), NumberingPolicy::NumberNonblank, 0);
    assert forall|k: int| 0 <= k < line_count(s) implies counter_before(
        content_lines(s),
        NumberingPolicy::NumberNonblank,
        0,
        k,
    ) == nonblank_before(content_lines(s), k) by {
        lemma_counter_before_nonblank(content_lines(s), k);
    }
    assert forall|j: int, k: int|
        0 <= j < k < line_count(s) && content_lines(s)[j].len() > 0 implies nonblank_before(
        content_lines(s),
        j,
    ) < nonblank_before(content_lines(s), k) by {
        lemma_nonblank_before_increases(content_lines(s), j, k);
    }
}

/// The standard-output bytes of an annotation run over the sources
/// from position `i` on: each readable source annotated in order, the
/// counter starting afresh at every source; failed sources contribute
/// nothing here.
pub open spec fn cat_stdout_from(
    srcs: Seq<(Seq<u8>, Result<Seq<u8>, Seq<u8>>)>,
    policy: NumberingPolicy,
    i: int,
) -> Seq<u8>
    decreases srcs.len() - i,
{
    if i < 0 || i >= srcs.len() {
        Seq::empty()
    } else {
        (match srcs[i].1 {
            Ok(content) => annotated(content, policy),
            Err(_) => Seq::empty(),
        }) + cat_stdout_from(srcs, policy, i + 1)
    }
}

/// Annotate a whole batch of sources: readable ones in order to
/// standard output, one diagnostic line per failed source to standard
/// error, and the run never stops early.
pub fn cat_sources(sources: &Vec<SourceOutcome>, policy: NumberingPolicy) -> (r: (Vec<u8>, Vec<u8>))
    ensures
        r.0@ == cat_stdout_from(source_views(sources@), policy, 0),
        r.1@ == diagnostics_from(source_views(sources@), 0),
{
    let ghost views = source_views(sources@);
    let mut out: Vec<u8> = Vec::new();
    let mut errs: Vec<u8> = Vec::new();
    let mut i: usize = 0;
    let n: usize = sources.len();
    while i < n
        invariant
            i <= n,
            n == sources@.len(),
            views == source_views(sources@),
            cat_stdout_from(views, policy, 0) == out@ + cat_stdout_from(views, policy, i as int),
            diagnostics_from(views, 0) == errs@ + diagnostics_from(views, i as int),
        decreases n - i,
    {
        let ghost out0 = out@;
        let ghost errs0 = errs@;
        proof {
            assert(views[i as int] == source_view(sources@[i as int]));
        }
        let source = &sources[i];
        match &source.1 {
            Ok(content) => {
                let piece = annotate_source(content, policy);
                push_all(&mut out, &piece);
                proof {
                    assert(views[i as int].1 == Ok::<Seq<u8>, Seq<u8>>(content@));
                    assert(diagnostics_from(views, i as int) == diagnostics_from(
                        views,
                        i as int + 1,
                    ));
                }
            },
            Err(cause) => {
                let line = format_diagnostic(&source.0, cause);
                push_all(&mut errs, &line);
                proof {
                    assert(views[i as int].1 == Err::<Seq<u8>, Seq<u8>>(cause@));
                    assert(views[i as int].0 == source.0@);
                    assert(cat_stdout_from(views, policy, i as int) == cat_stdout_from(
                        views,
                        policy,
                        i as int + 1,
                    ));
                }
            },
        }
        proof {
            assert(out@ + cat_stdout_from(views, policy, i as int + 1) =~= out0 + cat_stdout_from(
                views,
                policy,
                i as int,
            ));
            assert(errs@ + diagnostics_from(views, i as int + 1) =~= errs0 + diagnostics_from(
                views,
                i as int,
            ));
        }
        i = i + 1;
    }
    (out, errs)
}

} // verus!
