//! The simplified escape stripper: a legacy filter that treats every ESC byte
//! as the start of a discarded run ending at the first `m` byte (or at the end
//! of the input). It is less precise than the CSI recognizer in
//! [`crate::csi_filter`], which is the intended behavior: this variant also
//! discards content after an ESC byte that never introduced a CSI sequence,
//! and it knows no terminator byte but `m`.

use crate::csi_filter::ESC;
use vstd::prelude::*;

verus! {

/// The only byte that ends a discarded run for the simplified stripper: `m`.
pub const M_TERMINATOR: u8 = 0x6d;

/// The stripped form of `s`: every run starting at an ESC byte and ending at
/// the first later `m` byte (or at the end of the input) is removed, both ends
/// included; every byte outside such runs is kept in order. `in_run` says
/// whether the scan stands inside such a run, just past its ESC byte.
pub open spec fn ansi_filter_state(s: Seq<u8>, in_run: bool) -> Seq<u8>
    decreases s.len(),
{
    if s.len() == 0 {
        Seq::empty()
    } else if in_run {
        if s[0] == M_TERMINATOR {
            ansi_filter_state(s.skip(1), false)
        } else {
            ansi_filter_state(s.skip(1), true)
        }
    } else if s[0] == ESC {
        ansi_filter_state(s.skip(1), true)
    } else {
        seq![s[0]] + ansi_filter_state(s.skip(1), false)
    }
}

/// What stripping a whole byte sequence yields.
pub open spec fn ansi_filtered(s: Seq<u8>) -> Seq<u8> {
    ansi_filter_state(s, false)
}

/// A pull-based stripper over a byte sequence. Each call to
/// [`AnsiFilterInner::next`] yields the next byte of [`ansi_filtered`] applied
/// to the wrapped bytes. No lookahead buffer is needed: every ESC byte starts
/// a discarded run unconditionally.
pub struct AnsiFilterInner {
    bytes: Vec<u8>,
    pos: usize,
}

impl AnsiFilterInner {
    /// The scan position never runs past the end of the input.
    pub closed spec fn wf(self) -> bool {
        self.pos <= self.bytes@.len()
    }

    /// The bytes this stripper has yet to emit: the stripped form of the
    /// unread input.
    pub closed spec fn remaining(self) -> Seq<u8> {
        ansi_filtered(self.bytes@.skip(self.pos as int))
    }

    /// Advance the stripper by one output byte: `Some` of the front of
    /// [`AnsiFilterInner::remaining`], or `None` once nothing is left.
    pub fn next(&mut self) -> (r: Option<u8>)
        requires
            old(self).wf(),
        ensures
            final(self).wf(),
            match r {
                Some(b) => {
                    &&& old(self).remaining().len() > 0
                    &&& b == old(self).remaining()[0]
                    &&& final(self).remaining() == old(self).remaining().skip(1)
                },
                None => {
                    &&& old(self).remaining().len() == 0
                    &&& final(self).remaining().len() == 0
                },
            },
    {
        loop
            invariant
                self.wf(),
                self.bytes@ == old(self).bytes@,
                ansi_filtered(self.bytes@.skip(self.pos as int)) == old(self).remaining(),
            decreases self.bytes@.len() - self.pos,
        {
            if self.pos == self.bytes.len() {
                return None;
            }
            let ghost p0: int = self.pos as int;
            let b = self.bytes[self.pos];
            self.pos = self.pos + 1;
            proof {
                assert(self.bytes@.skip(p0).skip(1) =~= self.bytes@.skip(p0 + 1));
            }
            if b != ESC {
                // A plain byte is emitted as it is.
                proof {
                    assert(final(self).remaining() =~= old(self).remaining().skip(1));
                }
                return Some(b);
            }
            // An ESC byte: discard up to and including the first `m` byte, or
            // to the end of the input.
            while self.pos < self.bytes.len() && self.bytes[self.pos] != M_TERMINATOR
                invariant
                    p0 < self.pos,
                    self.pos <= self.bytes@.len(),
                    self.bytes@ == old(self).bytes@,
                    ansi_filter_state(self.bytes@.skip(self.pos as int), true)
                        == old(self).remaining(),
                decreases self.bytes@.len() - self.pos,
            {
                proof {
                    let q = self.pos as int;
                    assert(self.bytes@.skip(q).skip(1) =~= self.bytes@.skip(q + 1));
                }
                self.pos = self.pos + 1;
            }
            if self.pos < self.bytes.len() {
                // The `m` byte itself belongs to the run and is discarded too.
                proof {
                    let q = self.pos as int;
                    assert(self.bytes@.skip(q).skip(1) =~= self.bytes@.skip(q + 1));
                }
                self.pos = self.pos + 1;
            } else {
                proof {
                    assert(self.bytes@.skip(self.pos as int) =~= Seq::<u8>::empty());
                }
            }
        }
    }

    /// Drain the stripper, collecting every byte it still has to emit, in
    /// order.
    pub fn collect_remaining(&mut self) -> (r: Vec<u8>)
        requires
            old(self).wf(),
        ensures
            final(self).wf(),
            r@ == old(self).remaining(),
            final(self).remaining().len() == 0,
    {
        let mut out: Vec<u8> = Vec::new();
        loop
            invariant
                self.wf(),
                out@ + self.remaining() == old(self).remaining(),
            ensures
                self.wf(),
                out@ + self.remaining() == old(self).remaining(),
                self.remaining().len() == 0,
            decreases self.remaining().len(),
        {
            let n = self.next();
            match n {
                Some(b) => {
                    out.push(b);
                    proof {
                        assert(out@ + self.remaining() =~= old(self).remaining());
                    }
                }
                None => {
                    break;
                }
            }
        }
        proof {
            assert(out@ =~= old(self).remaining());
        }
        out
    }
}

/// Byte containers that can be wrapped in an [`AnsiFilterInner`].
pub trait AnsiFilter: Sized {
    /// The byte sequence the stripper is built over.
    spec fn strip_input(self) -> Seq<u8>;

    /// Wrap the bytes in a stripper that emits their stripped form.
    fn ansi_filter(self) -> (r: AnsiFilterInner)
        ensures
            r.wf(),
            r.remaining() == ansi_filtered(self.strip_input()),
    ;
}

impl AnsiFilter for Vec<u8> {
    open spec fn strip_input(self) -> Seq<u8> {
        self@
    }

    fn ansi_filter(self) -> (r: AnsiFilterInner)
    {
        let ghost input: Seq<u8> = self@;
        let r = AnsiFilterInner { bytes: self, pos: 0 };
        proof {
            assert(r.bytes@.skip(0) =~= input);
        }
        r
    }
}

} // verus!
