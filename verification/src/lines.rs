//! Splitting a byte stream into lines.
//!
//! A *raw line* is a maximal segment of the input ending with a line
//! feed, or the trailing segment when the input does not end with one;
//! it carries its terminator. A *content line* is a raw line with its
//! terminator stripped: a trailing line feed is removed, and a carriage
//! return directly before that line feed is removed with it.

use vstd::prelude::*;

verus! {

/// Line feed byte, the line terminator.
pub const NL: u8 = 10;
/// Carriage return byte, stripped when it stands directly before a
/// stripped line feed.
pub const CR: u8 = 13;

/// Length of the first raw line of `s`: everything up to and including
/// the first line feed, or all of `s` when it holds none.
pub open spec fn first_line_len(s: Seq<u8>) -> nat
    decreases s.len(),
{
    if s.len() == 0 {
        0
    } else if s[0] == NL {
        1
    } else {
        1 + first_line_len(s.skip(1))
    }
}

/// The first raw line of a nonempty sequence is nonempty and no longer
/// than the sequence.
pub proof fn lemma_first_line_len_bounds(s: Seq<u8>)
    ensures
        s.len() == 0 ==> first_line_len(s) == 0,
        s.len() > 0 ==> 1 <= first_line_len(s) <= s.len(),
    decreases s.len(),
{
    if s.len() > 0 && s[0] != NL {
        lemma_first_line_len_bounds(s.skip(1));
    }
}

/// Within the first raw line, only its very last byte can be a line
/// feed, and it is one unless the line runs to the end of the input.
pub proof fn lemma_first_line_len_chars(s: Seq<u8>)
    ensures
        forall|i: int| 0 <= i < first_line_len(s) - 1 ==> s[i] != NL,
        first_line_len(s) > 0 && first_line_len(s) < s.len() ==> s[first_line_len(s) - 1] == NL,
        s.len() > 0 && s[first_line_len(s) - 1] != NL ==> first_line_len(s) == s.len(),
    decreases s.len(),
{
    lemma_first_line_len_bounds(s);
    if s.len() > 0 && s[0] != NL {
        lemma_first_line_len_chars(s.skip(1));
        lemma_first_line_len_bounds(s.skip(1));
        assert forall|i: int| 0 <= i < first_line_len(s) - 1 implies s[i] != NL by {
            if i > 0 {
                assert(s.skip(1)[i - 1] == s[i]);
            }
        }
        if s.len() > 1 {
            assert(s[first_line_len(s) - 1] == s.skip(1)[first_line_len(s.skip(1)) - 1]);
        }
    }
}

/// The raw lines of `s`, in order, each with its terminator.
pub open spec fn raw_lines(s: Seq<u8>) -> Seq<Seq<u8>>
    decreases s.len(),
    via raw_lines_decreases
{
    if s.len() == 0 {
        Seq::empty()
    } else {
        seq![s.take(first_line_len(s) as int)] + raw_lines(s.skip(first_line_len(s) as int))
    }
}

#[via_fn]
proof fn raw_lines_decreases(s: Seq<u8>) {
    lemma_first_line_len_bounds(s);
}

/// A raw line with its terminator stripped: a trailing line feed goes,
/// and a carriage return directly before it goes with it.
pub open spec fn strip_line(l: Seq<u8>) -> Seq<u8> {
    if l.len() > 0 && l.last() == NL {
        let body = l.drop_last();
        if body.len() > 0 && body.last() == CR {
            body.drop_last()
        } else {
            body
        }
    } else {
        l
    }
}

/// The content lines of `s`: its raw lines with terminators stripped.
pub open spec fn content_lines(s: Seq<u8>) -> Seq<Seq<u8>> {
    raw_lines(s).map_values(|l: Seq<u8>| strip_line(l))
}

/// How many lines `s` holds.
pub open spec fn line_count(s: Seq<u8>) -> nat {
    raw_lines(s).len()
}

/// Every raw line is nonempty, holds a line feed only as its last
/// byte, and ends with one except possibly the final line.
pub proof fn lemma_raw_lines_structure(s: Seq<u8>)
    ensures
        s.len() == 0 <==> raw_lines(s).len() == 0,
        forall|k: int| 0 <= k < raw_lines(s).len() ==> (#[trigger] raw_lines(s)[k]).len() > 0,
        forall|k: int, i: int|
            0 <= k < raw_lines(s).len() && 0 <= i < raw_lines(s)[k].len() - 1 ==> #[trigger] raw_lines(
                s,
            )[k][i] != NL,
        forall|k: int| 0 <= k < raw_lines(s).len() - 1 ==> (#[trigger] raw_lines(s)[k]).last() == NL,
    decreases s.len(),
{
    if s.len() > 0 {
        let n = first_line_len(s) as int;
        lemma_first_line_len_bounds(s);
        lemma_first_line_len_chars(s);
        lemma_raw_lines_structure(s.skip(n));
        let head = s.take(n);
        assert(head.len() > 0);
        assert forall|i: int| 0 <= i < head.len() - 1 implies head[i] != NL by {
            assert(head[i] == s[i]);
        }
        if n < s.len() {
            assert(head.last() == s[n - 1]);
            assert(head.last() == NL);
        }
        assert(raw_lines(s) == seq![head] + raw_lines(s.skip(n)));
        assert forall|k: int| 0 <= k < raw_lines(s).len() - 1 implies (#[trigger] raw_lines(
            s,
        )[k]).last() == NL by {
            if k == 0 {
                assert(raw_lines(s.skip(n)).len() > 0);
                assert(s.skip(n).len() > 0);
            } else {
                assert(raw_lines(s)[k] == raw_lines(s.skip(n))[k - 1]);
            }
        }
    }
}

/// Content lines never hold a line feed: stripping removes the only
/// byte of a raw line that could be one.
pub proof fn lemma_content_lines_no_nl(s: Seq<u8>)
    ensures
        content_lines(s).len() == line_count(s),
        forall|k: int, i: int|
            0 <= k < content_lines(s).len() && 0 <= i < content_lines(s)[k].len()
                ==> #[trigger] content_lines(s)[k][i] != NL,
{
    lemma_raw_lines_structure(s);
    assert forall|k: int, i: int|
        0 <= k < content_lines(s).len() && 0 <= i < content_lines(s)[k].len() implies #[trigger] content_lines(
        s,
    )[k][i] != NL by {
        let l = raw_lines(s)[k];
        assert(content_lines(s)[k] == strip_line(l));
        assert(l.len() > 0);
        if l.last() == NL {
            let body = l.drop_last();
            if body.len() > 0 && body.last() == CR {
                assert(strip_line(l)[i] == l[i]);
                assert(i < l.len() - 1);
            } else {
                assert(strip_line(l)[i] == l[i]);
                assert(i < l.len() - 1);
            }
        } else {
            assert(strip_line(l) == l);
            if i < l.len() - 1 {
                assert(l[i] != NL);
            } else {
                assert(l[i] == l.last());
            }
        }
    }
}

/// A line-feed-terminated segment with no interior line feed is the
/// first raw line of any stream it starts.
pub proof fn lemma_raw_lines_prepend_line(p: Seq<u8>, rest: Seq<u8>)
    requires
        p.len() > 0,
        forall|i: int| 0 <= i < p.len() - 1 ==> p[i] != NL,
        p.last() == NL,
    ensures
        first_line_len(p + rest) == p.len(),
        raw_lines(p + rest) == seq![p] + raw_lines(rest),
    decreases p.len(),
{
    let s = p + rest;
    if p.len() == 1 {
        assert(s[0] == p[0]);
        assert(s[0] == NL);
        assert(first_line_len(s) == 1);
    } else {
        assert(s[0] == p[0]);
        assert(s[0] != NL);
        let p1 = p.skip(1);
        assert forall|i: int| 0 <= i < p1.len() - 1 implies p1[i] != NL by {
            assert(p1[i] == p[i + 1]);
        }
        assert(p1.last() == p.last());
        lemma_raw_lines_prepend_line(p1, rest);
        assert(s.skip(1) =~= p1 + rest);
        assert(first_line_len(s) == 1 + first_line_len(p1 + rest));
    }
    assert(s.len() > 0);
    assert(s.take(p.len() as int) =~= p);
    assert(s.skip(p.len() as int) =~= rest);
    assert(raw_lines(s) == seq![p] + raw_lines(rest));
}

/// Position just past the first raw line that starts at `from`.
pub fn find_line_end(input: &Vec<u8>, from: usize) -> (end: usize)
    requires
        from < input@.len(),
    ensures
        end == from + first_line_len(input@.skip(from as int)),
        from < end <= input@.len(),
{
    let n: usize = input.len();
    let mut j: usize = from;
    while j < n
        invariant
            from <= j <= n,
            n == input@.len(),
            first_line_len(input@.skip(from as int)) == (j - from) + first_line_len(
                input@.skip(j as int),
            ),
            forall|i: int| from <= i < j ==> input@[i] != NL,
        decreases n - j,
    {
        if input[j] == NL {
            assert(input@.skip(j as int)[0] == NL);
            assert(first_line_len(input@.skip(j as int)) == 1);
            proof {
                lemma_first_line_len_bounds(input@.skip(from as int));
            }
            return j + 1;
        }
        assert(input@.skip(j as int)[0] != NL);
        assert(input@.skip(j as int).skip(1) =~= input@.skip(j as int + 1));
        j = j + 1;
    }
    assert(input@.skip(j as int).len() == 0);
    assert(first_line_len(input@.skip(j as int)) == 0);
    j
}

/// Copy of `input[from..to]`.
pub fn subvec(input: &Vec<u8>, from: usize, to: usize) -> (r: Vec<u8>)
    requires
        from <= to <= input@.len(),
    ensures
        r@ == input@.subrange(from as int, to as int),
{
    let mut r: Vec<u8> = Vec::new();
    let mut i: usize = from;
    while i < to
        invariant
            from <= i <= to <= input@.len(),
            r@ == input@.subrange(from as int, i as int),
        decreases to - i,
    {
        r.push(input[i]);
        assert(input@.subrange(from as int, i as int + 1) =~= input@.subrange(
            from as int,
            i as int,
        ).push(input@[i as int]));
        i = i + 1;
    }
    r
}

/// Append all of `src` to `dst`.
pub fn push_all(dst: &mut Vec<u8>, src: &Vec<u8>)
    ensures
        final(dst)@ == old(dst)@ + src@,
{
    let n: usize = src.len();
    let mut i: usize = 0;
    while i < n
        invariant
            i <= n,
            n == src@.len(),
            dst@ == old(dst)@ + src@.take(i as int),
        decreases n - i,
    {
        dst.push(src[i]);
        assert(src@.take(i as int + 1) =~= src@.take(i as int).push(src@[i as int]));
        assert(dst@ == old(dst)@ + src@.take(i as int + 1));
        i = i + 1;
    }
    assert(src@.take(n as int) =~= src@);
}

/// A raw line with its terminator removed, as `strip_line` describes.
pub fn strip_terminator(line: &Vec<u8>) -> (r: Vec<u8>)
    ensures
        r@ == strip_line(line@),
{
    let n: usize = line.len();
    let keep: usize = if n > 0 && line[n - 1] == NL {
        if n > 1 && line[n - 2] == CR {
            n - 2
        } else {
            n - 1
        }
    } else {
        n
    };
    proof {
        if n > 0 && line@[n - 1] == NL {
            assert(line@.drop_last() =~= line@.subrange(0, n - 1));
            if n > 1 && line@[n - 2] == CR {
                assert(line@.drop_last().drop_last() =~= line@.subrange(0, n - 2));
            }
        }
        assert(line@.subrange(0, n as int) =~= line@);
    }
    subvec(line, 0, keep)
}

/// The content lines of `input`, in order.
pub fn split_content_lines(input: &Vec<u8>) -> (r: Vec<Vec<u8>>)
    ensures
        r@.len() == line_count(input@),
        forall|k: int| 0 <= k < r@.len() ==> r@[k]@ == content_lines(input@)[k],
{
    let n: usize = input.len();
    let mut r: Vec<Vec<u8>> = Vec::new();
    let mut pos: usize = 0;
    proof {
        assert(input@.skip(0) =~= input@);
        assert(raw_lines(input@).skip(0) =~= raw_lines(input@));
    }
    while pos < n
        invariant
            pos <= n,
            n == input@.len(),
            r@.len() <= raw_lines(input@).len(),
            raw_lines(input@).skip(r@.len() as int) == raw_lines(input@.skip(pos as int)),
            forall|k: int| 0 <= k < r@.len() ==> r@[k]@ == content_lines(input@)[k],
        decreases n - pos,
    {
        let ghost tail = input@.skip(pos as int);
        let ghost done = r@.len() as int;
        let end = find_line_end(input, pos);
        let ghost fll = first_line_len(tail) as int;
        let raw = subvec(input, pos, end);
        proof {
            assert(tail.len() > 0);
            assert(raw_lines(tail) == seq![tail.take(fll)] + raw_lines(tail.skip(fll)));
            assert(raw@ =~= tail.take(fll));
            assert(tail.skip(fll) =~= input@.skip(end as int));
            assert(raw_lines(input@)[done] == raw_lines(tail)[0]);
            assert(raw_lines(input@)[done] == raw@);
            assert(content_lines(input@)[done] == strip_line(raw@));
            assert(raw_lines(input@).skip(done + 1) =~= raw_lines(tail).skip(1));
            assert(raw_lines(tail).skip(1) =~= raw_lines(input@.skip(end as int)));
        }
        let content = strip_terminator(&raw);
        r.push(content);
        pos = end;
    }
    proof {
        assert(input@.skip(pos as int).len() == 0);
        assert(raw_lines(input@.skip(pos as int)).len() == 0);
        assert(raw_lines(input@).skip(r@.len() as int).len() == 0);
    }
    r
}

} // verus!
