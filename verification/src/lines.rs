//! Byte-level line primitives: leading runs of bytes satisfying a
//! predicate, and the decomposition of a byte sequence into its first
//! line and the remainder after that line's newline.

use vstd::prelude::*;

verus! {

/// The byte that terminates a line.
pub const NEWLINE: u8 = 10;

/// The comment marker that introduces a header line.
pub const COMMENT_MARKER: u8 = 35;

/// Length of the longest prefix of `s` whose bytes all satisfy `p`.
pub open spec fn run_len(s: Seq<u8>, p: spec_fn(u8) -> bool) -> nat
    decreases s.len(),
{
    if s.len() == 0 || !p(s[0]) {
        0
    } else {
        1 + run_len(s.skip(1), p)
    }
}

/// A leading run is within bounds, its bytes satisfy the predicate, and
/// the byte after it (if any) does not.
pub proof fn lemma_run_len(s: Seq<u8>, p: spec_fn(u8) -> bool)
    ensures
        run_len(s, p) <= s.len(),
        forall|i: int| 0 <= i < run_len(s, p) ==> p(s[i]),
        run_len(s, p) < s.len() ==> !p(s[run_len(s, p) as int]),
    decreases s.len(),
{
    if s.len() > 0 && p(s[0]) {
        lemma_run_len(s.skip(1), p);
        assert forall|i: int| 0 <= i < run_len(s, p) implies p(s[i]) by {
            if i > 0 {
                assert(s.skip(1)[i - 1] == s[i]);
            }
        }
        if run_len(s, p) < s.len() {
            assert(s.skip(1)[run_len(s, p) - 1] == s[run_len(s, p) as int]);
        }
    }
}

/// A prefix whose bytes satisfy `p`, followed by the end of `s` or by a
/// byte that does not, is exactly the leading run.
pub proof fn lemma_run_len_is(s: Seq<u8>, p: spec_fn(u8) -> bool, m: int)
    requires
        0 <= m <= s.len(),
        forall|i: int| 0 <= i < m ==> p(s[i]),
        m < s.len() ==> !p(s[m]),
    ensures
        run_len(s, p) == m,
    decreases s.len(),
{
    if m == 0 {
        if s.len() > 0 {
            assert(!p(s[0]));
        }
    } else {
        assert(p(s[0]));
        assert forall|i: int| 0 <= i < m - 1 implies p(s.skip(1)[i]) by {
            assert(s.skip(1)[i] == s[i + 1]);
        }
        if m - 1 < s.skip(1).len() {
            assert(s.skip(1)[m - 1] == s[m]);
        }
        lemma_run_len_is(s.skip(1), p, m - 1);
    }
}

/// Length of the first line of `s`: the bytes before the first newline,
/// or all of `s` when it holds none.
pub open spec fn line_len(s: Seq<u8>) -> nat {
    run_len(s, |b: u8| b != NEWLINE)
}

/// The first line of `s`, without its terminating newline.
pub open spec fn first_line(s: Seq<u8>) -> Seq<u8> {
    if line_len(s) <= s.len() {
        s.take(line_len(s) as int)
    } else {
        s
    }
}

/// What follows the first line and its newline; empty when the first
/// line runs to the end of `s`.
pub open spec fn after_line(s: Seq<u8>) -> Seq<u8> {
    if line_len(s) as int + 1 <= s.len() {
        s.skip(line_len(s) as int + 1)
    } else {
        Seq::empty()
    }
}

} // verus!
