//! The precise CSI recognizer: a pull-based byte filter that removes
//! well-formed CSI escape sequences (`ESC '['` followed by any bytes up to and
//! including a terminator byte) and passes every other byte through unchanged,
//! including ESC bytes that do not introduce a CSI sequence.

use vstd::prelude::*;

verus! {

/// The escape byte that may introduce a control sequence.
pub const ESC: u8 = 0x1b;

/// The byte that, coming immediately after an ESC byte, confirms a CSI
/// sequence.
pub const CSI_START: u8 = 0x5b;

/// Whether `byte` ends a CSI sequence.
pub open spec fn is_terminator_spec(byte: u8) -> bool {
    0x40 <= byte <= 0x7e
}

/// Whether `byte` ends a CSI sequence (the inclusive range 0x40 to 0x7e).
pub fn is_terminator(byte: u8) -> (r: bool)
    ensures
        r == is_terminator_spec(byte),
{
    byte >= 0x40 && byte <= 0x7e
}

/// The filtered form of `s`: every maximal run matching
/// `ESC '[' <bytes outside 0x40..=0x7e>* <byte in 0x40..=0x7e>` is removed
/// (an unterminated run at the end of `s` as well), and every other byte is
/// kept verbatim and in order. `in_seq` says whether the scan stands inside
/// such a run, just past its `ESC '['`.
pub open spec fn csi_filter_state(s: Seq<u8>, in_seq: bool) -> Seq<u8>
    decreases s.len(),
{
    if s.len() == 0 {
        Seq::empty()
    } else if in_seq {
        if is_terminator_spec(s[0]) {
            csi_filter_state(s.skip(1), false)
        } else {
            csi_filter_state(s.skip(1), true)
        }
    } else if s[0] == ESC {
        if s.len() >= 2 && s[1] == CSI_START {
            csi_filter_state(s.skip(2), true)
        } else if s.len() >= 2 {
            seq![s[0], s[1]] + csi_filter_state(s.skip(2), false)
        } else {
            seq![s[0]]
        }
    } else {
        seq![s[0]] + csi_filter_state(s.skip(1), false)
    }
}

/// What filtering a whole byte sequence yields.
pub open spec fn csi_filtered(s: Seq<u8>) -> Seq<u8> {
    csi_filter_state(s, false)
}

/// Whether no byte of `s` is the escape byte.
pub open spec fn esc_free(s: Seq<u8>) -> bool {
    forall|i: int| 0 <= i < s.len() ==> s[i] != ESC
}

/// Whether `s` holds a CSI introducer: an ESC byte immediately followed by
/// `[`. Only such a pair ever starts a discarded run.
pub open spec fn has_csi_start(s: Seq<u8>) -> bool {
    exists|i: int| 0 <= i && i + 1 < s.len() && #[trigger] s[i] == ESC && s[i + 1] == CSI_START
}

proof fn lemma_no_csi_start_skip(s: Seq<u8>, k: int)
    requires
        !has_csi_start(s),
        0 <= k <= s.len(),
    ensures
        !has_csi_start(s.skip(k)),
{
    if has_csi_start(s.skip(k)) {
        let i = choose|i: int|
            0 <= i && i + 1 < s.skip(k).len() && #[trigger] s.skip(k)[i] == ESC && s.skip(k)[i
                + 1] == CSI_START;
        assert(s[k + i] == ESC && s[k + i + 1] == CSI_START);
        assert(has_csi_start(s));
    }
}

/// Law: on an input without any CSI introducer, filtering changes nothing —
/// lone ESC bytes and ESC bytes followed by anything but `[` pass through.
pub proof fn lemma_filter_no_csi_identity(s: Seq<u8>)
    requires
        !has_csi_start(s),
    ensures
        csi_filtered(s) == s,
    decreases s.len(),
{
    if s.len() == 0 {
        assert(csi_filtered(s) =~= s);
    } else if s[0] == ESC {
        if s.len() >= 2 {
            assert(s[1] != CSI_START);
            lemma_no_csi_start_skip(s, 2);
            lemma_filter_no_csi_identity(s.skip(2));
            assert(csi_filtered(s) =~= s);
        } else {
            assert(csi_filtered(s) =~= s);
        }
    } else {
        lemma_no_csi_start_skip(s, 1);
        lemma_filter_no_csi_identity(s.skip(1));
        assert(csi_filtered(s) =~= s);
    }
}

/// Law: on an input without any ESC byte, filtering is the identity.
pub proof fn lemma_filter_esc_free_identity(s: Seq<u8>)
    requires
        esc_free(s),
    ensures
        csi_filtered(s) == s,
{
    assert(!has_csi_start(s));
    lemma_filter_no_csi_identity(s);
}

proof fn lemma_filter_state_len(s: Seq<u8>, in_seq: bool)
    ensures
        csi_filter_state(s, in_seq).len() <= s.len(),
    decreases s.len(),
{
    if s.len() == 0 {
    } else if in_seq {
        lemma_filter_state_len(s.skip(1), !is_terminator_spec(s[0]));
    } else if s[0] == ESC {
        if s.len() >= 2 && s[1] == CSI_START {
            lemma_filter_state_len(s.skip(2), true);
        } else if s.len() >= 2 {
            lemma_filter_state_len(s.skip(2), false);
        }
    } else {
        lemma_filter_state_len(s.skip(1), false);
    }
}

/// Law: the filtered output is never longer than the input.
pub proof fn lemma_filtered_len_le(s: Seq<u8>)
    ensures
        csi_filtered(s).len() <= s.len(),
{
    lemma_filter_state_len(s, false);
}

/// Law: an input that already holds no CSI introducer filters to itself, so
/// filtering it twice yields the same bytes as filtering it once.
pub proof fn lemma_filter_no_csi_idempotent(s: Seq<u8>)
    requires
        !has_csi_start(s),
    ensures
        csi_filtered(csi_filtered(s)) == csi_filtered(s),
{
    lemma_filter_no_csi_identity(s);
}

/// A pull-based filter over a byte sequence. Each call to [`CsiFilter::next`]
/// yields the next byte of [`csi_filtered`] applied to the wrapped bytes.
///
/// `peeks` is the lookahead buffer: bytes already pulled from the input but
/// not yet handed out, kept in their original order. It is drained before any
/// further input byte is examined.
pub struct CsiFilter {
    bytes: Vec<u8>,
    pos: usize,
    peeks: Vec<u8>,
}

impl CsiFilter {
    /// The scan position never runs past the end of the input.
    pub closed spec fn wf(self) -> bool {
        self.pos <= self.bytes@.len()
    }

    /// The bytes this filter has yet to emit: the lookahead buffer first, then
    /// the filtered form of the unread input.
    pub closed spec fn remaining(self) -> Seq<u8> {
        self.peeks@ + csi_filtered(self.bytes@.skip(self.pos as int))
    }

    /// Advance the filter by one output byte: `Some` of the front of
    /// [`CsiFilter::remaining`], or `None` once nothing is left.
    pub fn next(&mut self) -> (r: Option<u8>)
        requires
            old(self).wf(),
        ensures
            final(self).wf(),
            match r {
                Some(b) => {
                    &&& old(self).remaining().len() > 0
                    &&& b == old(self).remaining()[0]
                    &&& final(self).remaining() == old(self).remaining().skip(1)
                },
                None => {
                    &&& old(self).remaining().len() == 0
                    &&& final(self).remaining().len() == 0
                },
            },
    {
        // Drain the lookahead buffer first: its bytes were already decided.
        if self.peeks.len() > 0 {
            let b = self.peeks.remove(0);
            proof {
                assert(final(self).remaining() =~= old(self).remaining().skip(1));
            }
            return Some(b);
        }
        loop
            invariant
                self.wf(),
                self.peeks@.len() == 0,
                self.bytes@ == old(self).bytes@,
                csi_filtered(self.bytes@.skip(self.pos as int)) == old(self).remaining(),
            decreases self.bytes@.len() - self.pos,
        {
            if self.pos == self.bytes.len() {
                return None;
            }
            let ghost p0: int = self.pos as int;
            let b = self.bytes[self.pos];
            self.pos = self.pos + 1;
            if b != ESC {
                // A plain byte is emitted as it is.
                proof {
                    assert(self.bytes@.skip(p0).skip(1) =~= self.bytes@.skip(p0 + 1));
                    assert(final(self).remaining() =~= old(self).remaining().skip(1));
                }
                return Some(b);
            }
            if self.pos == self.bytes.len() {
                // A lone ESC at the end of the input: nothing follows it, so it
                // cannot introduce a sequence and is emitted itself.
                proof {
                    assert(self.bytes@.skip(p0) =~= seq![ESC]);
                    assert(final(self).remaining() =~= old(self).remaining().skip(1));
                }
                return Some(b);
            }
            let peek = self.bytes[self.pos];
            self.pos = self.pos + 1;
            if peek != CSI_START {
                // Not a CSI sequence: the ESC byte goes out now and the peeked
                // byte waits in the lookahead buffer.
                self.peeks.push(peek);
                proof {
                    assert(self.bytes@.skip(p0).skip(2) =~= self.bytes@.skip(p0 + 2));
                    assert(final(self).remaining() =~= old(self).remaining().skip(1));
                }
                return Some(b);
            }
            // A confirmed CSI sequence: the ESC and `[` are dropped, and the
            // input is discarded up to and including a terminator byte.
            proof {
                assert(self.bytes@.skip(p0).skip(2) =~= self.bytes@.skip(p0 + 2));
            }
            while self.pos < self.bytes.len() && !is_terminator(self.bytes[self.pos])
                invariant
                    p0 + 2 <= self.pos,
                    self.pos <= self.bytes@.len(),
                    self.peeks@.len() == 0,
                    self.bytes@ == old(self).bytes@,
                    csi_filter_state(self.bytes@.skip(self.pos as int), true)
                        == old(self).remaining(),
                decreases self.bytes@.len() - self.pos,
            {
                proof {
                    let q = self.pos as int;
                    assert(self.bytes@.skip(q).skip(1) =~= self.bytes@.skip(q + 1));
                }
                self.pos = self.pos + 1;
            }
            if self.pos < self.bytes.len() {
                // The terminator byte itself belongs to the sequence and is
                // discarded too.
                proof {
                    let q = self.pos as int;
                    assert(self.bytes@.skip(q).skip(1) =~= self.bytes@.skip(q + 1));
                }
                self.pos = self.pos + 1;
            } else {
                proof {
                    assert(self.bytes@.skip(self.pos as int) =~= Seq::<u8>::empty());
                }
            }
        }
    }

    /// Drain the filter, collecting every byte it still has to emit, in order.
    pub fn collect_remaining(&mut self) -> (r: Vec<u8>)
        requires
            old(self).wf(),
        ensures
            final(self).wf(),
            r@ == old(self).remaining(),
            final(self).remaining().len() == 0,
    {
        let mut out: Vec<u8> = Vec::new();
        loop
            invariant
                self.wf(),
                out@ + self.remaining() == old(self).remaining(),
            ensures
                self.wf(),
                out@ + self.remaining() == old(self).remaining(),
                self.remaining().len() == 0,
            decreases self.remaining().len(),
        {
            let n = self.next();
            match n {
                Some(b) => {
                    out.push(b);
                    proof {
                        assert(out@ + self.remaining() =~= old(self).remaining());
                    }
                }
                None => {
                    break;
                }
            }
        }
        proof {
            assert(out@ =~= old(self).remaining());
        }
        out
    }
}

/// Byte containers that can be wrapped in a [`CsiFilter`].
pub trait CsiFilterable: Sized {
    /// The byte sequence the filter is built over.
    spec fn filter_input(self) -> Seq<u8>;

    /// Wrap the bytes in a filter that emits their filtered form.
    fn filter_csi(self) -> (r: CsiFilter)
        ensures
            r.wf(),
            r.remaining() == csi_filtered(self.filter_input()),
    ;
}

impl CsiFilterable for Vec<u8> {
    open spec fn filter_input(self) -> Seq<u8> {
        self@
    }

    fn filter_csi(self) -> (r: CsiFilter)
    {
        let ghost input: Seq<u8> = self@;
        let r = CsiFilter { bytes: self, pos: 0, peeks: Vec::new() };
        proof {
            assert(r.bytes@.skip(0) =~= input);
            assert(r.remaining() =~= csi_filtered(input));
        }
        r
    }
}

} // verus!
