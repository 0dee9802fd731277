//! Stream demultiplexer: turns the child's unframed stdout bytes into
//! exactly-once output fragments for the command currently in flight.
//!
//! The child signals completion by the literal token `>>>` at the end of the
//! accumulated text (directly, or followed by one newline).  Reads are not
//! aligned with tokens, lines or character boundaries, so the demultiplexer
//! keeps a growing buffer and emits only the newly observed suffix on each
//! read, holding back two kinds of tails that later reads may still finish:
//! a partial `>`-run that may turn out to be the completion marker, and an
//! incomplete UTF-8 character — so no marker byte is ever leaked into a
//! fragment, and no fragment ends inside a character that the next read
//! could complete.

use vstd::prelude::*;

use crate::bytes::{contains_seq, contains_sub, ends_with_seq, ends_with_sub, match_at};

verus! {

broadcast use vstd::array::group_array_axioms;

/// One `>` of the marker token.
pub const GT: u8 = 62;

/// The line break byte.
pub const NL: u8 = 10;

/// The completion/readiness marker token `>>>`.
pub open spec fn marker() -> Seq<u8> {
    seq![GT, GT, GT]
}

/// The marker preceded by a line break.
pub open spec fn nl_marker() -> Seq<u8> {
    seq![NL, GT, GT, GT]
}

/// Completion has been observed: the accumulated text ends with the marker
/// token, or contains a line break followed by the marker.
pub open spec fn is_terminal(s: Seq<u8>) -> bool {
    ends_with_seq(s, marker()) || contains_seq(s, nl_marker())
}

/// Length of `s` without its trailing run of `>` bytes: the held back run
/// may still complete the marker token.
pub open spec fn marker_safe_len(s: Seq<u8>) -> int
    decreases s.len(),
{
    if s.len() == 0 || s.last() != GT {
        s.len() as int
    } else {
        marker_safe_len(s.drop_last())
    }
}

/// The text delivered for a completed command: the accumulated bytes with
/// one trailing newline (the one after the marker, if any) and the marker
/// token stripped.
pub open spec fn stripped(s: Seq<u8>) -> Seq<u8> {
    let t = if s.len() > 0 && s.last() == NL {
        s.drop_last()
    } else {
        s
    };
    if ends_with_seq(t, marker()) {
        t.take(t.len() - 3)
    } else {
        t
    }
}

/// How many continuation bytes a leading byte announces; zero for ASCII,
/// continuation and invalid bytes.
pub open spec fn needed_continuations(b: u8) -> int {
    if vstd::utf8::is_leading_byte_width_2(b) {
        1
    } else if vstd::utf8::is_leading_byte_width_3(b) {
        2
    } else if vstd::utf8::is_leading_byte_width_4(b) {
        3
    } else {
        0
    }
}

/// Length of the trailing run of UTF-8 continuation bytes of `s`.
pub open spec fn trailing_cont(s: Seq<u8>) -> int
    decreases s.len(),
{
    if s.len() == 0 || !vstd::utf8::is_continuation_byte(s.last()) {
        0
    } else {
        1 + trailing_cont(s.drop_last())
    }
}

/// Length of a trailing incomplete character: a leading byte whose promised
/// continuation bytes have not all arrived yet.  Anything else — a complete
/// character, or bytes that no further input can turn into one — is zero.
pub open spec fn incomplete_suffix_len(s: Seq<u8>) -> int {
    let k = trailing_cont(s);
    if k <= 2 && k < s.len() && needed_continuations(s[s.len() - k - 1]) > k {
        k + 1
    } else {
        0
    }
}

/// The prefix of `s` that is safe to deliver while completion has not been
/// observed: everything but a trailing partial marker run and a trailing
/// incomplete character, both of which later reads may still finish.
/// Holding the latter back keeps every fragment a whole-character byte
/// sequence, so decoding fragment by fragment equals decoding the
/// concatenation.
pub open spec fn visible_len(s: Seq<u8>) -> int {
    let v = marker_safe_len(s);
    v - incomplete_suffix_len(s.take(v))
}

pub proof fn lemma_marker_safe_bounds(s: Seq<u8>)
    ensures
        0 <= marker_safe_len(s) <= s.len(),
    decreases s.len(),
{
    if s.len() > 0 && s.last() == GT {
        lemma_marker_safe_bounds(s.drop_last());
    }
}

/// Every byte past the marker-safe prefix is a `>`.
pub proof fn lemma_marker_safe_suffix_gt(s: Seq<u8>, j: int)
    requires
        marker_safe_len(s) <= j < s.len(),
    ensures
        s[j] == GT,
    decreases s.len(),
{
    lemma_marker_safe_bounds(s);
    if s.len() > 0 && s.last() == GT {
        if j < s.len() - 1 {
            lemma_marker_safe_suffix_gt(s.drop_last(), j);
        }
    }
}

/// The byte just before the marker-safe boundary is not a `>`.
pub proof fn lemma_marker_safe_boundary(s: Seq<u8>)
    requires
        marker_safe_len(s) > 0,
    ensures
        marker_safe_len(s) <= s.len(),
        s[marker_safe_len(s) - 1] != GT,
    decreases s.len(),
{
    lemma_marker_safe_bounds(s);
    if s.len() > 0 && s.last() == GT {
        lemma_marker_safe_boundary(s.drop_last());
    }
}

/// If everything from position `k` on is a `>`, the marker-safe prefix ends
/// at or before `k`.
pub proof fn lemma_marker_safe_le(s: Seq<u8>, k: int)
    requires
        0 <= k <= s.len(),
        forall|j: int| k <= j < s.len() ==> s[j] == GT,
    ensures
        marker_safe_len(s) <= k,
{
    if marker_safe_len(s) > k {
        lemma_marker_safe_boundary(s);
    }
}

/// Appending bytes never shrinks the marker-safe prefix: the boundary byte
/// is not a `>`, so a later trailing `>`-run cannot reach past it.
pub proof fn lemma_marker_safe_monotone(s: Seq<u8>, u: Seq<u8>)
    requires
        s.len() <= u.len(),
        forall|j: int| 0 <= j < s.len() ==> s[j] == u[j],
    ensures
        marker_safe_len(s) <= marker_safe_len(u),
{
    lemma_marker_safe_bounds(s);
    lemma_marker_safe_bounds(u);
    if marker_safe_len(u) < marker_safe_len(s) {
        lemma_marker_safe_boundary(s);
        lemma_marker_safe_suffix_gt(u, marker_safe_len(s) - 1);
    }
}

pub proof fn lemma_trailing_cont_bounds(s: Seq<u8>)
    ensures
        0 <= trailing_cont(s) <= s.len(),
    decreases s.len(),
{
    if s.len() > 0 && vstd::utf8::is_continuation_byte(s.last()) {
        lemma_trailing_cont_bounds(s.drop_last());
    }
}

/// Every byte of the trailing continuation run is a continuation byte.
pub proof fn lemma_trailing_cont_suffix(s: Seq<u8>, j: int)
    requires
        s.len() - trailing_cont(s) <= j < s.len(),
    ensures
        vstd::utf8::is_continuation_byte(s[j]),
    decreases s.len(),
{
    lemma_trailing_cont_bounds(s);
    if s.len() > 0 && vstd::utf8::is_continuation_byte(s.last()) {
        if j < s.len() - 1 {
            lemma_trailing_cont_suffix(s.drop_last(), j);
        }
    }
}

/// A run of exactly `k` trailing continuation bytes, bounded below by a
/// non-continuation byte or the start, pins `trailing_cont` down.
pub proof fn lemma_trailing_cont_exact(s: Seq<u8>, k: int)
    requires
        0 <= k <= s.len(),
        forall|j: int| s.len() - k <= j < s.len() ==> vstd::utf8::is_continuation_byte(#[trigger] s[j]),
        k == s.len() || !vstd::utf8::is_continuation_byte(s[s.len() - k - 1]),
    ensures
        trailing_cont(s) == k,
    decreases k,
{
    if k == 0 {
        if s.len() > 0 {
            assert(!vstd::utf8::is_continuation_byte(s.last()));
        }
    } else {
        assert(vstd::utf8::is_continuation_byte(s.last()));
        assert forall|j: int|
            s.drop_last().len() - (k - 1) <= j < s.drop_last().len() implies vstd::utf8::is_continuation_byte(
            #[trigger] s.drop_last()[j],
        ) by {
            assert(s.drop_last()[j] == s[j]);
        }
        if k - 1 < s.drop_last().len() {
            assert(s.drop_last()[s.len() - k - 1] == s[s.len() - k - 1]);
        }
        lemma_trailing_cont_exact(s.drop_last(), k - 1);
    }
}

/// Growing a byte sequence never shrinks its whole-character prefix: the
/// held back incomplete character either completes, keeps waiting, or turns
/// out invalid and is released, never reaching back past what was already
/// whole.
pub proof fn lemma_whole_char_prefix_monotone(y: Seq<u8>, lx: int)
    requires
        0 <= lx <= y.len(),
    ensures
        lx - incomplete_suffix_len(y.take(lx)) <= y.len() - incomplete_suffix_len(y),
{
    let x = y.take(lx);
    lemma_trailing_cont_bounds(x);
    lemma_trailing_cont_bounds(y);
    if y.len() - incomplete_suffix_len(y) < lx - incomplete_suffix_len(x) {
        let ky = trailing_cont(y);
        assert(incomplete_suffix_len(y) == ky + 1);
        let p = y.len() - ky - 1;
        assert(needed_continuations(y[p]) > ky);
        assert forall|j: int| p < j < y.len() implies vstd::utf8::is_continuation_byte(
            #[trigger] y[j],
        ) by {
            lemma_trailing_cont_suffix(y, j);
        }
        assert(p < lx);
        let kx = lx - p - 1;
        // a leading byte is never a continuation byte
        assert(!vstd::utf8::is_continuation_byte(y[p]));
        assert forall|j: int| x.len() - kx <= j < x.len() implies vstd::utf8::is_continuation_byte(
            #[trigger] x[j],
        ) by {
            assert(x[j] == y[j]);
        }
        assert(x[x.len() - kx - 1] == y[p]);
        lemma_trailing_cont_exact(x, kx);
        assert(incomplete_suffix_len(x) == kx + 1);
        assert(false);
    }
}

/// The deliverable prefix never cuts a character that later input could
/// still complete: the first byte past the boundary is never a UTF-8
/// continuation byte.  Fragments therefore decode one by one exactly as the
/// concatenated text does — a replacement character appears in a fragment
/// only where the whole text has one.
pub proof fn lemma_boundary_cuts_no_character(s: Seq<u8>)
    ensures
        visible_len(s) < s.len() ==> !vstd::utf8::is_continuation_byte(s[visible_len(s)]),
{
    lemma_marker_safe_bounds(s);
    let v = marker_safe_len(s);
    let t = s.take(v);
    lemma_trailing_cont_bounds(t);
    let w = visible_len(s);
    if w < s.len() {
        if incomplete_suffix_len(t) == 0 {
            // only marker bytes are held; `>` is not a continuation byte
            lemma_marker_safe_suffix_gt(s, w);
        } else {
            // the byte at the boundary is the held leading byte
            let k = trailing_cont(t);
            assert(s[w] == t[t.len() - k - 1]);
            assert(needed_continuations(s[w]) > k);
        }
    }
}

pub proof fn lemma_visible_len_bounds(s: Seq<u8>)
    ensures
        0 <= visible_len(s) <= s.len(),
{
    lemma_marker_safe_bounds(s);
    let v = marker_safe_len(s);
    lemma_trailing_cont_bounds(s.take(v));
    lemma_whole_char_prefix_monotone(s.take(v), 0);
    assert(s.take(v).take(0) =~= Seq::<u8>::empty());
}

/// Appending bytes never shrinks the deliverable prefix.
pub proof fn lemma_visible_len_monotone(s: Seq<u8>, u: Seq<u8>)
    requires
        s.len() <= u.len(),
        forall|j: int| 0 <= j < s.len() ==> s[j] == u[j],
    ensures
        visible_len(s) <= visible_len(u),
{
    lemma_marker_safe_monotone(s, u);
    lemma_marker_safe_bounds(s);
    lemma_marker_safe_bounds(u);
    let vs = marker_safe_len(s);
    let vu = marker_safe_len(u);
    assert(s.take(vs) =~= u.take(vu).take(vs));
    lemma_whole_char_prefix_monotone(u.take(vu), vs);
}

/// What was already delivered before completion never reaches past the
/// delivered text of the completed command: held-back bytes are exactly the
/// ones that stripping removes.
pub proof fn lemma_emitted_within_stripped(prev: Seq<u8>, s: Seq<u8>)
    requires
        !is_terminal(prev),
        is_terminal(s),
        prev.len() <= s.len(),
        forall|j: int| 0 <= j < prev.len() ==> prev[j] == s[j],
    ensures
        visible_len(prev) <= stripped(s).len(),
        stripped(s).len() <= s.len(),
{
    lemma_marker_safe_bounds(prev);
    let v = marker_safe_len(prev);
    lemma_trailing_cont_bounds(prev.take(v));
    assert(visible_len(prev) <= v);
    let t = if s.len() > 0 && s.last() == NL {
        s.drop_last()
    } else {
        s
    };
    if ends_with_seq(t, marker()) {
        // The delivered text ends where the marker starts; every byte of
        // `prev` at or past that point is one of the marker's `>` bytes.
        let m = t.len() - 3;
        assert(stripped(s).len() == m);
        if prev.len() > m {
            // `prev` cannot cover the whole of `t` with its marker, else
            // `prev` itself would have been terminal.
            assert(prev.len() <= s.len());
            if prev.len() == s.len() {
                assert(forall|j: int| 0 <= j < prev.len() ==> prev[j] == s[j]);
                assert(prev =~= s);
                assert(false);
            }
            if t.len() < s.len() && prev.len() == t.len() {
                assert(prev =~= t);
                assert(false);
            }
            assert forall|j: int| m <= j < prev.len() implies prev[j] == GT by {
                assert(prev[j] == s[j]);
                assert(j < t.len());
                assert(t[j] == marker()[j - m]);
            }
            lemma_marker_safe_le(prev, m);
        }
    } else {
        // Nothing but at most one trailing newline is stripped, and `prev`
        // ends before it.
        if s.len() > 0 && s.last() == NL {
            assert(stripped(s).len() == s.len() - 1);
            if prev.len() == s.len() {
                assert(prev =~= s);
                assert(false);
            }
        }
    }
}

/// One step of the demultiplexer on ghost state: the accumulated buffer,
/// the concatenation of everything delivered so far, and the finished flag.
pub open spec fn demux_step(
    buf: Seq<u8>,
    delivered: Seq<u8>,
    chunk: Seq<u8>,
) -> (Seq<u8>, Seq<u8>, bool) {
    let s = buf + chunk;
    if is_terminal(s) {
        (s, stripped(s), true)
    } else {
        (s, s.take(visible_len(s)), false)
    }
}

/// The demultiplexer run over a whole sequence of reads.
pub open spec fn demux_run(chunks: Seq<Seq<u8>>) -> (Seq<u8>, Seq<u8>, bool)
    decreases chunks.len(),
{
    if chunks.len() == 0 {
        (Seq::empty(), Seq::empty(), false)
    } else {
        let prev = demux_run(chunks.drop_last());
        demux_step(prev.0, prev.1, chunks.last())
    }
}

/// The bytes of an optional fragment; empty when there is none.
pub open spec fn fragment_seq(f: Option<Vec<u8>>) -> Seq<u8> {
    match f {
        Some(v) => v@,
        None => Seq::<u8>::empty(),
    }
}

/// Outcome of feeding one read to the demultiplexer.
pub struct DemuxStep {
    /// The newly observed text, absent when nothing new may be delivered.
    pub fragment: Option<Vec<u8>>,
    /// The completion marker was observed; the command is finished.
    pub complete: bool,
}

/// Per-command decoder state: the accumulation buffer and how much of it
/// has already been delivered.
pub struct Demultiplexer {
    /// Every byte read for this command, in order.
    pub buf: Vec<u8>,
    /// Length of the prefix of `buf` already delivered as fragments.
    pub emitted: usize,
    /// The completion marker has been observed.
    pub done: bool,
}

/// Decides whether `b` is a UTF-8 continuation byte.
fn is_cont_byte(b: u8) -> (r: bool)
    ensures
        r == vstd::utf8::is_continuation_byte(b),
{
    128 <= b && b <= 191
}

/// How many continuation bytes the leading byte `b` announces.
fn needed_continuations_exec(b: u8) -> (r: u8)
    ensures
        r as int == needed_continuations(b),
{
    if 192 <= b && b <= 223 {
        1
    } else if 224 <= b && b <= 239 {
        2
    } else if 240 <= b && b <= 247 {
        3
    } else {
        0
    }
}

/// How many bytes of the prefix `s[..v]` form a trailing incomplete
/// character and must be held back.
fn incomplete_holdback(s: &[u8], v: usize) -> (h: usize)
    requires
        v <= s@.len(),
    ensures
        h as int == incomplete_suffix_len(s@.take(v as int)),
        h <= v,
{
    let ghost t = s@.take(v as int);
    if v >= 1 && is_cont_byte(s[v - 1]) {
        if v >= 2 && is_cont_byte(s[v - 2]) {
            if v >= 3 && is_cont_byte(s[v - 3]) {
                // three or more trailing continuation bytes can never be
                // completed by later input
                proof {
                    assert(t.last() == s@[v - 1]);
                    assert(t.drop_last() =~= s@.take(v - 1));
                    assert(s@.take(v - 1).last() == s@[v - 2]);
                    assert(s@.take(v - 1).drop_last() =~= s@.take(v - 2));
                    assert(s@.take(v - 2).last() == s@[v - 3]);
                    assert(s@.take(v - 2).drop_last() =~= s@.take(v - 3));
                    lemma_trailing_cont_bounds(s@.take(v - 3));
                    assert(trailing_cont(t) == 1 + trailing_cont(s@.take(v - 1)));
                    assert(trailing_cont(s@.take(v - 1)) == 1 + trailing_cont(s@.take(v - 2)));
                    assert(trailing_cont(s@.take(v - 2)) == 1 + trailing_cont(s@.take(v - 3)));
                    assert(trailing_cont(t) >= 3);
                }
                0
            } else {
                // exactly two trailing continuation bytes
                proof {
                    assert(t[v - 1] == s@[v - 1]);
                    assert(t[v - 2] == s@[v - 2]);
                    if v >= 3 {
                        assert(t[v - 3] == s@[v - 3]);
                    }
                    lemma_trailing_cont_exact(t, 2);
                }
                if v >= 3 && needed_continuations_exec(s[v - 3]) > 2 {
                    3
                } else {
                    0
                }
            }
        } else {
            // exactly one trailing continuation byte
            proof {
                assert(t[v - 1] == s@[v - 1]);
                if v >= 2 {
                    assert(t[v - 2] == s@[v - 2]);
                }
                lemma_trailing_cont_exact(t, 1);
            }
            if v >= 2 && needed_continuations_exec(s[v - 2]) > 1 {
                2
            } else {
                0
            }
        }
    } else {
        // no trailing continuation bytes
        proof {
            if v > 0 {
                assert(t.last() == s@[v - 1]);
            }
            lemma_trailing_cont_exact(t, 0);
        }
        if v >= 1 && needed_continuations_exec(s[v - 1]) > 0 {
            1
        } else {
            0
        }
    }
}

impl Demultiplexer {
    /// Concatenation of all fragments delivered so far.
    pub open spec fn delivered(self) -> Seq<u8> {
        self.buf@.take(self.emitted as int)
    }

    /// Every byte read is accounted for exactly once: either delivered or
    /// still held in the buffer; while running, exactly the safe prefix is
    /// delivered.
    pub open spec fn wf(self) -> bool {
        &&& self.emitted <= self.buf@.len()
        &&& !self.done ==> !is_terminal(self.buf@) && self.emitted == visible_len(self.buf@)
    }

    /// A fresh decoder with an empty buffer.
    pub fn new() -> (r: Self)
        ensures
            r.wf(),
            r.buf@ == Seq::<u8>::empty(),
            r.emitted == 0,
            !r.done,
    {
        Demultiplexer { buf: Vec::new(), emitted: 0, done: false }
    }

    /// Delivers the rest of the completed command's text: everything up to
    /// the marker that has not been delivered yet.
    fn finish(&mut self) -> (frag: Option<Vec<u8>>)
        requires
            is_terminal(old(self).buf@),
            old(self).emitted <= stripped(old(self).buf@).len(),
        ensures
            final(self).buf@ == old(self).buf@,
            final(self).done,
            final(self).emitted as int == stripped(old(self).buf@).len(),
            final(self).emitted <= final(self).buf@.len(),
            final(self).delivered() == stripped(old(self).buf@),
            final(self).delivered() == old(self).delivered() + fragment_seq(frag),
            frag is Some ==> frag->0@.len() > 0,
    {
        let ghost s = self.buf@;
        // Strip one trailing newline, then the marker token.
        let mut end = self.buf.len();
        if end > 0 && self.buf[end - 1] == NL {
            end -= 1;
        }
        let ghost t = if s.len() > 0 && s.last() == NL {
            s.drop_last()
        } else {
            s
        };
        assert(t =~= s.take(end as int));
        if end >= 3 && self.buf[end - 1] == GT && self.buf[end - 2] == GT && self.buf[end - 3]
            == GT {
            assert(match_at(t, marker(), t.len() - 3));
            end -= 3;
        } else {
            assert(!ends_with_seq(t, marker()));
        }
        assert(stripped(s) =~= s.take(end as int));
        let frag = if end > self.emitted {
            let f = vstd::slice::slice_to_vec(&self.buf.as_slice()[self.emitted..end]);
            assert(f@ =~= s.subrange(old(self).emitted as int, end as int));
            Some(f)
        } else {
            None
        };
        self.emitted = end;
        self.done = true;
        proof {
            assert(final(self).delivered() =~= old(self).delivered() + fragment_seq(frag));
        }
        frag
    }

    /// Delivers the new safe prefix of a still-running command, holding back
    /// a trailing partial marker and a trailing incomplete character.
    fn advance(&mut self) -> (frag: Option<Vec<u8>>)
        requires
            !is_terminal(old(self).buf@),
            old(self).emitted <= visible_len(old(self).buf@),
        ensures
            final(self).buf@ == old(self).buf@,
            final(self).done == old(self).done,
            final(self).emitted == visible_len(old(self).buf@),
            final(self).delivered() == old(self).buf@.take(visible_len(old(self).buf@)),
            final(self).delivered() == old(self).delivered() + fragment_seq(frag),
            frag is Some ==> frag->0@.len() > 0,
    {
        let ghost s = self.buf@;
        proof {
            lemma_visible_len_bounds(s);
            lemma_marker_safe_bounds(s);
        }
        let mut v = self.buf.len();
        proof {
            assert(self.buf@.take(v as int) =~= self.buf@);
        }
        while v > 0 && self.buf[v - 1] == GT
            invariant
                self.buf@ == s,
                v <= s.len(),
                marker_safe_len(s) == marker_safe_len(s.take(v as int)),
                forall|j: int| v <= j < s.len() ==> s[j] == GT,
            decreases v,
        {
            proof {
                assert(s.take(v as int).last() == GT);
                assert(s.take(v as int).drop_last() =~= s.take(v - 1));
            }
            v -= 1;
        }
        proof {
            if v > 0 {
                assert(s.take(v as int).last() != GT);
            }
            assert(marker_safe_len(s.take(v as int)) == v as int);
            assert(marker_safe_len(s) == v as int);
        }
        let h = incomplete_holdback(self.buf.as_slice(), v);
        let w = v - h;
        proof {
            assert(w as int == visible_len(s));
        }
        let frag = if w > self.emitted {
            let f = vstd::slice::slice_to_vec(&self.buf.as_slice()[self.emitted..w]);
            assert(f@ =~= s.subrange(old(self).emitted as int, w as int));
            Some(f)
        } else {
            assert(w == old(self).emitted);
            None
        };
        self.emitted = w;
        proof {
            assert(final(self).delivered() =~= old(self).delivered() + fragment_seq(frag));
        }
        frag
    }

    /// Feeds one read of raw bytes; returns the newly observed fragment, if
    /// any, and whether the completion marker was observed.
    ///
    /// The fragment is exactly the delta past what was already delivered:
    /// nothing is ever delivered twice, and once the marker is observed the
    /// delivered text equals the accumulated text with marker and trailing
    /// newline stripped.  While streaming, a fragment ends only at a safe
    /// boundary — never inside the marker and never inside a character that
    /// later input could still complete ([`lemma_boundary_cuts_no_character`]).
    pub fn push(&mut self, chunk: &[u8]) -> (r: DemuxStep)
        requires
            old(self).wf(),
            !old(self).done,
            old(self).buf@.len() + chunk@.len() <= usize::MAX,
        ensures
            final(self).wf(),
            final(self).buf@ == old(self).buf@ + chunk@,
            final(self).done == r.complete,
            r.complete == is_terminal(final(self).buf@),
            // exactly-once delta emission
            final(self).delivered() == old(self).delivered() + fragment_seq(r.fragment),
            r.fragment is Some ==> r.fragment->0@.len() > 0,
            r.complete ==> final(self).delivered() == stripped(final(self).buf@),
            // mirrors the ghost transition, for whole-run reasoning
            final(self).buf@ == demux_step(old(self).buf@, old(self).delivered(), chunk@).0,
            final(self).delivered() == demux_step(old(self).buf@, old(self).delivered(), chunk@).1,
            final(self).done == demux_step(old(self).buf@, old(self).delivered(), chunk@).2,
    {
        let ghost prev = self.buf@;
        self.buf.extend_from_slice(chunk);
        let ghost s = self.buf@;
        let m: [u8; 3] = [GT, GT, GT];
        let nm: [u8; 4] = [NL, GT, GT, GT];
        assert(m@ =~= marker());
        assert(nm@ =~= nl_marker());
        let terminal = ends_with_sub(self.buf.as_slice(), m.as_slice()) || contains_sub(
            self.buf.as_slice(),
            nm.as_slice(),
        );
        proof {
            assert(old(self).delivered() =~= s.take(old(self).emitted as int));
        }
        if terminal {
            proof {
                lemma_emitted_within_stripped(prev, s);
            }
            let frag = self.finish();
            proof {
                let su = old(self).buf@ + chunk@;
                assert(su == self.buf@);
                assert(demux_step(old(self).buf@, old(self).delivered(), chunk@).1 == stripped(su));
            }
            DemuxStep { fragment: frag, complete: true }
        } else {
            proof {
                lemma_visible_len_monotone(prev, s);
            }
            proof {
                lemma_visible_len_bounds(s);
            }
            let frag = self.advance();
            proof {
                let su = old(self).buf@ + chunk@;
                assert(su == self.buf@);
                assert(demux_step(old(self).buf@, old(self).delivered(), chunk@).1 == su.take(
                    visible_len(su),
                ));
            }
            DemuxStep { fragment: frag, complete: false }
        }
    }
}

/// While no read has yet completed the command, the buffer holds exactly
/// the flattened reads and precisely the safe prefix has been delivered.
proof fn lemma_demux_run_running(chunks: Seq<Seq<u8>>)
    requires
        forall|k: int| 0 < k <= chunks.len() ==> !is_terminal(#[trigger] chunks.take(k).flatten()),
    ensures
        demux_run(chunks).0 == chunks.flatten(),
        demux_run(chunks).1 == chunks.flatten().take(visible_len(chunks.flatten())),
        !demux_run(chunks).2,
    decreases chunks.len(),
{
    if chunks.len() == 0 {
        assert(chunks.flatten() =~= Seq::<u8>::empty());
        assert(visible_len(chunks.flatten()) == 0);
        assert(demux_run(chunks).1 =~= chunks.flatten().take(visible_len(chunks.flatten())));
    } else {
        let pre = chunks.drop_last();
        assert forall|k: int| 0 < k <= pre.len() implies !is_terminal(
            #[trigger] pre.take(k).flatten(),
        ) by {
            assert(pre.take(k) =~= chunks.take(k));
        }
        lemma_demux_run_running(pre);
        Seq::lemma_flatten_push(pre, chunks.last());
        assert(pre.push(chunks.last()) =~= chunks);
        assert(chunks.flatten() == pre.flatten() + chunks.last());
        assert(chunks.take(chunks.len() as int) =~= chunks);
        assert(!is_terminal(chunks.flatten()));
    }
}

/// Exactly-once delta emission over a whole run: for any sequence of reads
/// whose accumulated bytes reach the completion marker on the last read, the
/// concatenation of all delivered fragments equals the full accumulated text
/// with the marker and trailing newline stripped — no byte delivered twice,
/// none skipped.
pub proof fn lemma_exactly_once_emission(chunks: Seq<Seq<u8>>)
    requires
        chunks.len() > 0,
        forall|k: int| 0 < k < chunks.len() ==> !is_terminal(#[trigger] chunks.take(k).flatten()),
        is_terminal(chunks.flatten()),
    ensures
        demux_run(chunks).2,
        demux_run(chunks).1 == stripped(chunks.flatten()),
{
    let pre = chunks.drop_last();
    assert forall|k: int| 0 < k <= pre.len() implies !is_terminal(
        #[trigger] pre.take(k).flatten(),
    ) by {
        assert(pre.take(k) =~= chunks.take(k));
    }
    lemma_demux_run_running(pre);
    Seq::lemma_flatten_push(pre, chunks.last());
    assert(pre.push(chunks.last()) =~= chunks);
    assert(chunks.flatten() == pre.flatten() + chunks.last());
}

} // verus!
