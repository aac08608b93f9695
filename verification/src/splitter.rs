//! The stream splitter: partitions an input's bytes into the directive
//! line (discarded), the header lines (comment lines with the marker run
//! and one leading whitespace run stripped), and the body, which begins
//! at the first byte of the first non-comment line.

use vstd::prelude::*;

use crate::lines::{
    after_line, first_line, lemma_run_len, lemma_run_len_is, line_len, run_len, COMMENT_MARKER,
    NEWLINE,
};

verus! {

/// Whitespace inside a line: the ASCII whitespace bytes other than the
/// newline, which never occurs within a line.
pub open spec fn is_blank(b: u8) -> bool {
    b == 9 || b == 11 || b == 12 || b == 13 || b == 32
}

/// Length of the leading run of comment-marker bytes in a line.
pub open spec fn marker_len(line: Seq<u8>) -> nat {
    run_len(line, |b: u8| b == COMMENT_MARKER)
}

/// Length of the leading run of whitespace bytes in a line.
pub open spec fn blank_len(line: Seq<u8>) -> nat {
    run_len(line, |b: u8| is_blank(b))
}

/// A header line's text: the line with its leading run of comment
/// markers stripped, then one leading run of whitespace stripped.
pub open spec fn clean_line(line: Seq<u8>) -> Seq<u8> {
    let unmarked = if marker_len(line) <= line.len() {
        line.skip(marker_len(line) as int)
    } else {
        Seq::empty()
    };
    if blank_len(unmarked) <= unmarked.len() {
        unmarked.skip(blank_len(unmarked) as int)
    } else {
        Seq::empty()
    }
}

/// The header lines of `s`, where `s` is the input after the directive
/// line: each leading comment line, cleaned, in file order.
pub open spec fn header_lines(s: Seq<u8>) -> Seq<Seq<u8>>
    decreases s.len(),
{
    if s.len() == 0 || s[0] != COMMENT_MARKER {
        Seq::empty()
    } else {
        seq![clean_line(first_line(s))] + header_lines(after_line(s))
    }
}

/// How many bytes of `s` the header consumes, newlines included.
pub open spec fn header_len(s: Seq<u8>) -> nat
    decreases s.len(),
{
    if s.len() == 0 || s[0] != COMMENT_MARKER {
        0
    } else if line_len(s) as int + 1 <= s.len() {
        line_len(s) + 1 + header_len(s.skip(line_len(s) as int + 1))
    } else {
        s.len()
    }
}

/// The body of `s`: the bytes after the header block, untouched.
pub open spec fn body_of(s: Seq<u8>) -> Seq<u8> {
    if header_len(s) <= s.len() {
        s.skip(header_len(s) as int)
    } else {
        Seq::empty()
    }
}

/// The header lines of a whole input, whose first line is the discarded
/// directive line.
pub open spec fn split_header(input: Seq<u8>) -> Seq<Seq<u8>> {
    header_lines(after_line(input))
}

/// The body of a whole input, whose first line is the discarded
/// directive line.
pub open spec fn split_body(input: Seq<u8>) -> Seq<u8> {
    body_of(after_line(input))
}

/// The header block never consumes more bytes than there are.
pub proof fn lemma_header_len_le(s: Seq<u8>)
    ensures
        header_len(s) <= s.len(),
    decreases s.len(),
{
    if s.len() > 0 && s[0] == COMMENT_MARKER {
        if line_len(s) as int + 1 <= s.len() {
            lemma_header_len_le(s.skip(line_len(s) as int + 1));
        }
    }
}

/// The lines of a byte block, in order, each without its newline.
pub open spec fn lines_of(s: Seq<u8>) -> Seq<Seq<u8>>
    decreases s.len(),
{
    if s.len() == 0 {
        Seq::empty()
    } else {
        seq![first_line(s)] + lines_of(after_line(s))
    }
}

/// The newline that ended the directive line, if the input had one.
pub open spec fn directive_newline(input: Seq<u8>) -> Seq<u8> {
    if (line_len(input) as int) < input.len() {
        seq![NEWLINE]
    } else {
        Seq::empty()
    }
}

/// The header block of `s` is its first `header_len(s)` bytes: the body
/// is the untouched suffix right after it, and the header lines are
/// exactly the block's lines, each cleaned.
proof fn lemma_header_block(s: Seq<u8>)
    ensures
        header_len(s) <= s.len(),
        body_of(s) == s.skip(header_len(s) as int),
        header_lines(s) == lines_of(s.take(header_len(s) as int)).map_values(
            |l: Seq<u8>| clean_line(l),
        ),
    decreases s.len(),
{
    lemma_header_len_le(s);
    let clean = |l: Seq<u8>| clean_line(l);
    if s.len() == 0 || s[0] != COMMENT_MARKER {
        assert(s.take(0) =~= Seq::<u8>::empty());
        assert(s.skip(0) =~= s);
        assert(lines_of(Seq::<u8>::empty()).map_values(clean) =~~= Seq::<Seq<u8>>::empty());
    } else {
        lemma_run_len(s, |b: u8| b != NEWLINE);
        let len: int = line_len(s) as int;
        if len + 1 <= s.len() {
            let rest = s.skip(len + 1);
            lemma_header_block(rest);
            let k: int = header_len(rest) as int;
            let blk = s.take(len + 1 + k);
            assert(s[len] == NEWLINE);
            assert forall|i: int| 0 <= i < len implies blk[i] != NEWLINE by {
                assert(blk[i] == s[i]);
            }
            assert(blk[len] == NEWLINE);
            lemma_run_len_is(blk, |b: u8| b != NEWLINE, len);
            assert(first_line(blk) =~= first_line(s));
            assert(after_line(blk) =~= rest.take(k));
            assert(after_line(s) == rest);
            assert(lines_of(blk) == seq![first_line(blk)] + lines_of(rest.take(k)));
            assert(lines_of(blk).map_values(clean) =~~= seq![clean_line(first_line(blk))]
                + lines_of(rest.take(k)).map_values(clean));
            assert(header_lines(s) =~~= lines_of(blk).map_values(clean));
            assert(s.skip(len + 1 + k) =~= rest.skip(k));
        } else {
            assert(line_len(s) == s.len());
            let blk = s.take(s.len() as int);
            assert(blk =~= s);
            assert(after_line(s) =~= Seq::<u8>::empty());
            assert(lines_of(after_line(s)) =~~= Seq::<Seq<u8>>::empty());
            assert(header_lines(after_line(s)) =~~= Seq::<Seq<u8>>::empty());
            assert(lines_of(s) =~~= seq![first_line(s)] + lines_of(after_line(s)));
            assert(lines_of(s) =~~= seq![first_line(s)]);
            assert(lines_of(s).map_values(clean) =~~= seq![clean_line(first_line(s))]);
            assert(header_lines(s) =~~= seq![clean_line(first_line(s))] + header_lines(
                after_line(s),
            ));
            assert(header_lines(s) =~~= seq![clean_line(first_line(s))]);
        }
    }
}

/// Header lines and body are a lossless, byte-exact partition: after the
/// directive line and its newline, the input is exactly the header block
/// directly followed by the body, no byte shared, duplicated or dropped;
/// the header lines are the block's lines with only the comment-marker
/// run and one whitespace run stripped, and the body is untouched.
pub proof fn lemma_split_partition(input: Seq<u8>)
    ensures
        header_len(after_line(input)) <= after_line(input).len(),
        split_body(input) == after_line(input).skip(header_len(after_line(input)) as int),
        split_header(input) == lines_of(
            after_line(input).take(header_len(after_line(input)) as int),
        ).map_values(|l: Seq<u8>| clean_line(l)),
        after_line(input) == after_line(input).take(header_len(after_line(input)) as int)
            + after_line(input).skip(header_len(after_line(input)) as int),
        input == first_line(input) + directive_newline(input) + after_line(input),
{
    let rest = after_line(input);
    lemma_header_block(rest);
    let k: int = header_len(rest) as int;
    assert(rest =~= rest.take(k) + rest.skip(k));
    lemma_run_len(input, |b: u8| b != NEWLINE);
    assert(input =~= first_line(input) + directive_newline(input) + after_line(input));
}

/// Splitting is a function of the input bytes alone: the same bytes,
/// split a second time, give the same header lines and the same body.
pub proof fn lemma_split_deterministic(a: Seq<u8>, b: Seq<u8>)
    requires
        a == b,
    ensures
        split_header(a) == split_header(b),
        split_body(a) == split_body(b),
{
}

/// Consuming one comment line keeps the body and contributes one cleaned
/// header line.
proof fn lemma_header_step(s: Seq<u8>)
    requires
        s.len() > 0,
        s[0] == COMMENT_MARKER,
    ensures
        header_lines(s) == seq![clean_line(first_line(s))] + header_lines(after_line(s)),
        body_of(s) == body_of(after_line(s)),
{
    lemma_run_len(s, |b: u8| b != NEWLINE);
    let len: int = line_len(s) as int;
    if len + 1 <= s.len() {
        let rest = s.skip(len + 1);
        lemma_header_len_le(rest);
        assert(s.skip(len + 1 + header_len(rest) as int) =~= rest.skip(header_len(rest) as int));
    } else {
        assert(line_len(s) == s.len());
        assert(body_of(s) =~= Seq::<u8>::empty());
        assert(after_line(s) =~= Seq::<u8>::empty());
    }
}

/// At the first non-comment byte, or at the end, the header stops and
/// the body is everything that is left.
proof fn lemma_header_stop(s: Seq<u8>)
    requires
        s.len() == 0 || s[0] != COMMENT_MARKER,
    ensures
        header_lines(s) == Seq::<Seq<u8>>::empty(),
        body_of(s) == s,
{
    assert(s.skip(0) =~= s);
}

/// Index just past the line that starts at `start`: the first newline at
/// or after `start`, or the end of the input.
fn scan_line_end(input: &[u8], start: usize) -> (end: usize)
    requires
        start <= input.len(),
    ensures
        start <= end <= input.len(),
        end - start == line_len(input@.skip(start as int)),
{
    let n = input.len();
    let mut j = start;
    while j < n && input[j] != NEWLINE
        invariant
            start <= j <= n,
            n == input.len(),
            forall|k: int| start <= k < j ==> input@[k] != NEWLINE,
        decreases n - j,
    {
        j += 1;
    }
    proof {
        let s = input@.skip(start as int);
        assert forall|i: int| 0 <= i < j - start implies s[i] != NEWLINE by {
            assert(s[i] == input@[start + i]);
        }
        if j < n {
            assert(s[j - start] == input@[j as int]);
        }
        lemma_run_len_is(s, |b: u8| b != NEWLINE, j - start);
    }
    j
}

/// A fresh copy of the bytes `input[start..end]`.
fn copy_range(input: &[u8], start: usize, end: usize) -> (r: Vec<u8>)
    requires
        start <= end <= input.len(),
    ensures
        r@ == input@.subrange(start as int, end as int),
{
    let mut r: Vec<u8> = Vec::new();
    let mut k = start;
    while k < end
        invariant
            start <= k <= end <= input.len(),
            r@ == input@.subrange(start as int, k as int),
        decreases end - k,
    {
        r.push(input[k]);
        k += 1;
        proof {
            assert(r@ =~= input@.subrange(start as int, k as int));
        }
    }
    r
}

/// Whether `b` is whitespace that a header line sheds after its markers.
fn is_blank_byte(b: u8) -> (r: bool)
    ensures
        r == is_blank(b),
{
    b == 9 || b == 11 || b == 12 || b == 13 || b == 32
}

/// The cleaned text of the header line `input[start..end]`: the leading
/// run of comment markers and then one run of whitespace are dropped.
fn clean_header_line(input: &[u8], start: usize, end: usize) -> (r: Vec<u8>)
    requires
        start <= end <= input.len(),
    ensures
        r@ == clean_line(input@.subrange(start as int, end as int)),
{
    let ghost whole = input@.subrange(start as int, end as int);
    let mut p = start;
    while p < end && input[p] == COMMENT_MARKER
        invariant
            start <= p <= end <= input.len(),
            forall|k: int| start <= k < p ==> input@[k] == COMMENT_MARKER,
        decreases end - p,
    {
        p += 1;
    }
    proof {
        assert forall|i: int| 0 <= i < p - start implies whole[i] == COMMENT_MARKER by {
            assert(whole[i] == input@[start + i]);
        }
        if (p as int) < end as int {
            assert(whole[p - start] == input@[p as int]);
        }
        lemma_run_len_is(whole, |b: u8| b == COMMENT_MARKER, p - start);
    }
    let ghost unmarked = whole.skip(marker_len(whole) as int);
    let marker_end = p;
    while p < end && is_blank_byte(input[p])
        invariant
            marker_end <= p <= end <= input.len(),
            forall|k: int| marker_end <= k < p ==> is_blank(input@[k]),
        decreases end - p,
    {
        p += 1;
    }
    proof {
        assert(unmarked =~= input@.subrange(marker_end as int, end as int));
        assert forall|i: int| 0 <= i < p - marker_end implies is_blank(unmarked[i]) by {
            assert(unmarked[i] == input@[marker_end + i]);
        }
        if (p as int) < end as int {
            assert(unmarked[p - marker_end] == input@[p as int]);
        }
        lemma_run_len_is(unmarked, |b: u8| is_blank(b), p - marker_end);
        assert(unmarked.skip(blank_len(unmarked) as int) =~= input@.subrange(
            p as int,
            end as int,
        ));
    }
    copy_range(input, p, end)
}

/// Splits an input into its header lines and its body. The first line is
/// discarded; each following line that starts with the comment marker is
/// cleaned and collected; the body is the byte-exact remainder, starting
/// at the first byte of the first non-comment line.
pub fn split(input: &[u8]) -> (r: (Vec<Vec<u8>>, Vec<u8>))
    ensures
        r.0@.map_values(|l: Vec<u8>| l@) == split_header(input@),
        r.1@ == split_body(input@),
{
    let n = input.len();
    let first_end = scan_line_end(input, 0);
    let mut i = first_end;
    if i < n {
        i += 1;
    }
    proof {
        assert(input@.skip(0) =~= input@);
        assert(input@.skip(i as int) =~= after_line(input@));
    }
    let mut head: Vec<Vec<u8>> = Vec::new();
    while i < n && input[i] == COMMENT_MARKER
        invariant
            i <= n,
            n == input.len(),
            split_header(input@) == head@.map_values(|l: Vec<u8>| l@) + header_lines(
                input@.skip(i as int),
            ),
            split_body(input@) == body_of(input@.skip(i as int)),
        decreases n - i,
    {
        let ghost suffix = input@.skip(i as int);
        proof {
            assert(suffix[0] == input@[i as int]);
            lemma_header_step(suffix);
            lemma_run_len(suffix, |b: u8| b != NEWLINE);
        }
        let j = scan_line_end(input, i);
        proof {
            assert(input@.subrange(i as int, j as int) =~= first_line(suffix));
        }
        let line = clean_header_line(input, i, j);
        proof {
            let prev = head@.map_values(|l: Vec<u8>| l@);
            assert(head@.push(line).map_values(|l: Vec<u8>| l@) =~= prev.push(line@));
            assert(prev.push(line@) + header_lines(after_line(suffix)) =~= prev + (seq![
                clean_line(first_line(suffix)),
            ] + header_lines(after_line(suffix))));
        }
        head.push(line);
        if j < n {
            i = j + 1;
            proof {
                assert(input@.skip(i as int) =~= after_line(suffix));
            }
        } else {
            i = n;
            proof {
                assert(line_len(suffix) == suffix.len());
                assert(input@.skip(i as int) =~= after_line(suffix));
            }
        }
    }
    proof {
        let suffix = input@.skip(i as int);
        if i < n {
            assert(suffix[0] == input@[i as int]);
        }
        lemma_header_stop(suffix);
        assert(head@.map_values(|l: Vec<u8>| l@) + Seq::<Seq<u8>>::empty() =~= head@.map_values(
            |l: Vec<u8>| l@,
        ));
        assert(suffix =~= input@.subrange(i as int, n as int));
    }
    let body = copy_range(input, i, n);
    (head, body)
}

} // verus!
