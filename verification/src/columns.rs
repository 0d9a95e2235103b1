//! Column-width bookkeeping and padded-output rendering for delimited text.
//!
//! A buffer is split into lines, each line into fields on a delimiter. A
//! field's visible width is its byte count once CSI sequences are removed
//! (see [`crate::csi_filter`]). Per-column target widths are the running
//! maxima of the visible widths over all lines; output pads every field but
//! the last of its line to its column's target width plus one space.

use crate::csi_filter::{csi_filtered, CsiFilterable};
use vstd::prelude::*;

verus! {

/// The line-break byte.
pub const NL: u8 = 0x0a;

/// The carriage-return byte, dropped from a line end before `NL`.
pub const CR: u8 = 0x0d;

/// The padding byte.
pub const SPACE: u8 = 0x20;

/// The larger of two integers.
pub open spec fn int_max(a: int, b: int) -> int {
    if a >= b {
        a
    } else {
        b
    }
}

/// The views of a sequence of byte vectors.
pub open spec fn views_of(fields: Seq<Vec<u8>>) -> Seq<Seq<u8>> {
    fields.map_values(|f: Vec<u8>| f@)
}

/// A sequence of widths as mathematical integers.
pub open spec fn widths_view(v: Seq<usize>) -> Seq<int> {
    v.map_values(|w: usize| w as int)
}

/// Whether the delimiter `d` occurs in `s` starting at position `i`.
pub open spec fn is_match_at(s: Seq<u8>, d: Seq<u8>, i: int) -> bool {
    0 <= i && i + d.len() <= s.len() && s.subrange(i, i + d.len()) == d
}

/// The fields of `s` split on the delimiter `d`, given that no occurrence of
/// `d` starts before position `k`: the text up to the first occurrence at or
/// after `k`, then the split of what follows that occurrence. A text without
/// any occurrence is one single field, so the split is never empty.
pub open spec fn split_from(s: Seq<u8>, d: Seq<u8>, k: int) -> Seq<Seq<u8>>
    recommends
        0 <= k <= s.len(),
        d.len() > 0,
    decreases s.len(), s.len() - k,
{
    if d.len() == 0 || !(0 <= k) || k + d.len() > s.len() {
        seq![s]
    } else if s.subrange(k, k + d.len()) == d {
        seq![s.take(k)] + split_from(s.skip(k + d.len()), d, 0)
    } else {
        split_from(s, d, k + 1)
    }
}

/// The fields of `s` split on the non-overlapping, leftmost-first occurrences
/// of the delimiter `d`.
pub open spec fn split_on(s: Seq<u8>, d: Seq<u8>) -> Seq<Seq<u8>> {
    split_from(s, d, 0)
}

/// A line end: one trailing carriage return is not part of the line.
pub open spec fn strip_cr(p: Seq<u8>) -> Seq<u8> {
    if p.len() > 0 && p.last() == CR {
        p.drop_last()
    } else {
        p
    }
}

/// The lines of `s`, given that no line-break byte stands before position
/// `k`: each maximal run up to an `NL` byte (a trailing `CR` dropped), the
/// `NL` itself not included. Text after the last `NL` is a final line of its
/// own unless it is empty, so a buffer ending in `NL` yields no extra empty
/// line.
pub open spec fn lines_from(s: Seq<u8>, k: int) -> Seq<Seq<u8>>
    recommends
        0 <= k <= s.len(),
    decreases s.len(), s.len() - k,
{
    if !(0 <= k) || k >= s.len() {
        if s.len() == 0 {
            Seq::empty()
        } else {
            seq![s]
        }
    } else if s[k] == NL {
        seq![strip_cr(s.take(k))] + lines_from(s.skip(k + 1), 0)
    } else {
        lines_from(s, k + 1)
    }
}

/// The lines of a whole buffer.
pub open spec fn lines_of(s: Seq<u8>) -> Seq<Seq<u8>> {
    lines_from(s, 0)
}

/// The visible width of one field: its byte count once CSI sequences are
/// removed.
pub open spec fn visible_width_spec(field: Seq<u8>) -> int {
    csi_filtered(field).len() as int
}

/// The visible widths of the fields of one line.
pub open spec fn line_widths(line: Seq<u8>, d: Seq<u8>) -> Seq<int> {
    split_on(line, d).map_values(|f: Seq<u8>| visible_width_spec(f))
}

/// The pointwise maximum of two width sequences, a missing entry counting as
/// zero: the result is as long as the longer of the two.
pub open spec fn merge_max(a: Seq<int>, b: Seq<int>) -> Seq<int> {
    Seq::new(
        int_max(a.len() as int, b.len() as int) as nat,
        |i: int|
            int_max(
                if i < a.len() {
                    a[i]
                } else {
                    0
                },
                if i < b.len() {
                    b[i]
                } else {
                    0
                },
            ),
    )
}

/// The per-column target widths of a buffer's lines: the running pointwise
/// maximum of every line's field widths.
pub open spec fn column_widths_spec(ls: Seq<Seq<u8>>, d: Seq<u8>) -> Seq<int>
    decreases ls.len(),
{
    if ls.len() == 0 {
        Seq::empty()
    } else {
        merge_max(column_widths_spec(ls.drop_last(), d), line_widths(ls.last(), d))
    }
}

/// Copy `s[a..b]` into a fresh vector.
fn subrange_vec(s: &Vec<u8>, a: usize, b: usize) -> (r: Vec<u8>)
    requires
        a <= b <= s@.len(),
    ensures
        r@ == s@.subrange(a as int, b as int),
{
    let mut r: Vec<u8> = Vec::new();
    let mut i: usize = a;
    while i < b
        invariant
            a <= i <= b <= s@.len(),
            r@ == s@.subrange(a as int, i as int),
        decreases b - i,
    {
        r.push(s[i]);
        i = i + 1;
        proof {
            assert(r@ =~= s@.subrange(a as int, i as int));
        }
    }
    r
}

/// The visible width of a field: how many bytes the CSI recognizer leaves of
/// it.
pub fn visible_width(field: &Vec<u8>) -> (r: usize)
    ensures
        r as int == visible_width_spec(field@),
{
    let copy = subrange_vec(field, 0, field.len());
    proof {
        assert(copy@ =~= field@);
    }
    let mut f = copy.filter_csi();
    let visible = f.collect_remaining();
    visible.len()
}

/// Whether the delimiter `d` stands in `s` at position `k`.
fn match_at(s: &Vec<u8>, d: &Vec<u8>, k: usize) -> (r: bool)
    requires
        k + d@.len() <= s@.len(),
    ensures
        r == is_match_at(s@, d@, k as int),
{
    let n = s.len();
    let mut j: usize = 0;
    while j < d.len()
        invariant
            j <= d@.len(),
            k + d@.len() <= n,
            n == s@.len(),
            forall|t: int| 0 <= t < j ==> s@[k + t] == d@[t],
        decreases d@.len() - j,
    {
        if s[k + j] != d[j] {
            proof {
                assert(s@.subrange(k as int, k as int + d@.len())[j as int] == s@[k + j]);
            }
            return false;
        }
        j = j + 1;
    }
    proof {
        assert(s@.subrange(k as int, k as int + d@.len()) =~= d@);
    }
    true
}

/// Split `s` into its fields on the delimiter `d`.
pub fn split_fields(s: &Vec<u8>, d: &Vec<u8>) -> (r: Vec<Vec<u8>>)
    requires
        d@.len() > 0,
    ensures
        views_of(r@) == split_on(s@, d@),
{
    let mut r: Vec<Vec<u8>> = Vec::new();
    let mut start: usize = 0;
    let mut k: usize = 0;
    proof {
        assert(s@.skip(0) =~= s@);
        assert(views_of(r@) =~= Seq::<Seq<u8>>::empty());
        assert(views_of(r@) + split_from(s@, d@, 0) =~= split_from(s@, d@, 0));
    }
    loop
        invariant
            start <= k <= s@.len(),
            d@.len() > 0,
            views_of(r@) + split_from(s@.skip(start as int), d@, k as int - start as int)
                == split_on(s@, d@),
        decreases s@.len() - k,
    {
        let ghost sv: Seq<u8> = s@.skip(start as int);
        let ghost kk: int = k as int - start as int;
        let ghost r0: Seq<Vec<u8>> = r@;
        if s.len() - k < d.len() {
            // No further occurrence fits: the rest is the last field.
            let f = subrange_vec(s, start, s.len());
            r.push(f);
            proof {
                assert(sv =~= s@.subrange(start as int, s@.len() as int));
                assert(split_from(sv, d@, kk) == seq![sv]);
                assert(views_of(r@) =~= views_of(r0).push(f@));
                assert(views_of(r@) =~= views_of(r0) + seq![sv]);
                assert(views_of(r@) =~= split_on(s@, d@));
            }
            return r;
        }
        if match_at(s, d, k) {
            let f = subrange_vec(s, start, k);
            r.push(f);
            proof {
                assert(sv.subrange(kk, kk + d@.len()) =~= s@.subrange(
                    k as int,
                    k as int + d@.len(),
                ));
                assert(split_from(sv, d@, kk) == seq![sv.take(kk)] + split_from(
                    sv.skip(kk + d@.len()),
                    d@,
                    0,
                ));
                assert(sv.take(kk) =~= f@);
                assert(sv.skip(kk + d@.len()) =~= s@.skip(k as int + d@.len()));
                assert(views_of(r@) =~= views_of(r0).push(f@));
                assert(views_of(r@) + split_from(s@.skip(k as int + d@.len()), d@, 0)
                    =~= views_of(r0) + split_from(sv, d@, kk));
            }
            start = k + d.len();
            k = start;
        } else {
            proof {
                assert(sv.subrange(kk, kk + d@.len()) =~= s@.subrange(
                    k as int,
                    k as int + d@.len(),
                ));
                assert(split_from(sv, d@, kk) == split_from(sv, d@, kk + 1));
            }
            k = k + 1;
        }
    }
}

/// Drop one trailing carriage return from a line that ended at an `NL` byte.
fn strip_cr_vec(line: Vec<u8>) -> (r: Vec<u8>)
    ensures
        r@ == strip_cr(line@),
{
    let mut line = line;
    if line.len() > 0 && line[line.len() - 1] == CR {
        line.pop();
    }
    line
}

/// Split a buffer into its lines: each run up to an `NL` byte, the `NL`
/// dropped and one trailing `CR` with it; text after the last `NL` is a final
/// line unless it is empty.
pub fn split_lines(s: &Vec<u8>) -> (r: Vec<Vec<u8>>)
    ensures
        views_of(r@) == lines_of(s@),
{
    let mut r: Vec<Vec<u8>> = Vec::new();
    let mut start: usize = 0;
    let mut k: usize = 0;
    proof {
        assert(s@.skip(0) =~= s@);
        assert(views_of(r@) =~= Seq::<Seq<u8>>::empty());
        assert(views_of(r@) + lines_from(s@, 0) =~= lines_from(s@, 0));
    }
    loop
        invariant
            start <= k <= s@.len(),
            views_of(r@) + lines_from(s@.skip(start as int), k as int - start as int)
                == lines_of(s@),
        decreases s@.len() - k,
    {
        let ghost sv: Seq<u8> = s@.skip(start as int);
        let ghost kk: int = k as int - start as int;
        let ghost r0: Seq<Vec<u8>> = r@;
        if k == s.len() {
            if start < s.len() {
                // Text after the last line break is a final line of its own.
                let line = subrange_vec(s, start, s.len());
                r.push(line);
                proof {
                    assert(sv.len() > 0);
                    assert(lines_from(sv, kk) == seq![sv]);
                    assert(sv =~= s@.subrange(start as int, s@.len() as int));
                    assert(views_of(r@) =~= views_of(r0).push(sv));
                    assert(views_of(r@) =~= views_of(r0) + seq![sv]);
                    assert(views_of(r@) =~= lines_of(s@));
                }
            } else {
                proof {
                    assert(sv.len() == 0);
                    assert(lines_from(sv, kk) == Seq::<Seq<u8>>::empty());
                    assert(views_of(r@) =~= views_of(r@) + lines_from(sv, kk));
                }
            }
            return r;
        }
        let b = s[k];
        if b == NL {
            let line = subrange_vec(s, start, k);
            let line = strip_cr_vec(line);
            r.push(line);
            proof {
                assert(sv[kk] == NL);
                assert(lines_from(sv, kk) == seq![strip_cr(sv.take(kk))] + lines_from(
                    sv.skip(kk + 1),
                    0,
                ));
                assert(sv.take(kk) =~= s@.subrange(start as int, k as int));
                assert(line@ == strip_cr(sv.take(kk)));
                assert(sv.skip(kk + 1) =~= s@.skip(k as int + 1));
                assert(views_of(r@) =~= views_of(r0).push(line@));
                assert(views_of(r@) + lines_from(s@.skip(k as int + 1), 0) =~= views_of(r0)
                    + lines_from(sv, kk));
            }
            start = k + 1;
            k = start;
        } else {
            proof {
                assert(sv[kk] != NL);
                assert(lines_from(sv, kk) == lines_from(sv, kk + 1));
            }
            k = k + 1;
        }
    }
}

/// Fold one line's field widths `l` into the running per-column maxima
/// `maximums`: the vector grows to the larger length, and each entry becomes
/// the larger of its old value (zero where it was missing) and the new width.
pub fn maximum(maximums: &mut Vec<usize>, l: &Vec<usize>)
    ensures
        widths_view(final(maximums)@) == merge_max(
            widths_view(old(maximums)@),
            widths_view(l@),
        ),
{
    let ghost m0: Seq<usize> = maximums@;
    let ghost lv: Seq<usize> = l@;
    while maximums.len() < l.len()
        invariant
            m0.len() <= maximums@.len(),
            maximums@.len() <= int_max(m0.len() as int, lv.len() as int),
            forall|j: int| 0 <= j < m0.len() ==> maximums@[j] == m0[j],
            forall|j: int| m0.len() <= j < maximums@.len() ==> maximums@[j] == 0usize,
            lv == l@,
        decreases l@.len() - maximums@.len(),
    {
        maximums.push(0);
    }
    let mut i: usize = 0;
    while i < l.len()
        invariant
            i <= lv.len(),
            lv == l@,
            maximums@.len() == int_max(m0.len() as int, lv.len() as int),
            forall|j: int|
                0 <= j < i ==> maximums@[j] as int == merge_max(
                    widths_view(m0),
                    widths_view(lv),
                )[j],
            forall|j: int|
                i <= j < maximums@.len() ==> maximums@[j] as int == (if j < m0.len() {
                    m0[j] as int
                } else {
                    0
                }),
        decreases lv.len() - i,
    {
        if l[i] > maximums[i] {
            let v = l[i];
            maximums[i] = v;
        }
        proof {
            assert(maximums@[i as int] as int == merge_max(widths_view(m0), widths_view(lv))[
                i as int
            ]);
        }
        i = i + 1;
    }
    proof {
        assert forall|j: int| 0 <= j < maximums@.len() implies widths_view(maximums@)[j]
            == merge_max(widths_view(m0), widths_view(lv))[j] by {}
        assert(widths_view(maximums@) =~= merge_max(widths_view(m0), widths_view(lv)));
    }
}

/// Deduce the per-column target widths of a buffer: for every line in order,
/// the visible widths of its fields are folded into the running maxima.
pub fn deduce_column_widths(buffer: &Vec<u8>, splitter: &Vec<u8>) -> (r: Vec<usize>)
    requires
        splitter@.len() > 0,
    ensures
        widths_view(r@) == column_widths_spec(lines_of(buffer@), splitter@),
{
    let lines = split_lines(buffer);
    let ghost lv: Seq<Seq<u8>> = views_of(lines@);
    let mut column_widths: Vec<usize> = Vec::new();
    let mut li: usize = 0;
    proof {
        assert(lv.take(0) =~= Seq::<Seq<u8>>::empty());
        assert(widths_view(column_widths@) =~= Seq::<int>::empty());
    }
    while li < lines.len()
        invariant
            li <= lines@.len(),
            lv == views_of(lines@),
            lv == lines_of(buffer@),
            splitter@.len() > 0,
            widths_view(column_widths@) == column_widths_spec(lv.take(li as int), splitter@),
        decreases lines@.len() - li,
    {
        let fields = split_fields(&lines[li], splitter);
        let ghost fv: Seq<Seq<u8>> = views_of(fields@);
        proof {
            assert(lv[li as int] == lines@[li as int]@);
            assert(fv == split_on(lv[li as int], splitter@));
        }
        let mut segment_lengths: Vec<usize> = Vec::new();
        let mut fi: usize = 0;
        proof {
            assert(widths_view(segment_lengths@) =~= line_widths(lv[li as int], splitter@).take(
                0,
            ));
        }
        while fi < fields.len()
            invariant
                fi <= fields@.len(),
                fv == views_of(fields@),
                fv == split_on(lv[li as int], splitter@),
                widths_view(segment_lengths@) == line_widths(lv[li as int], splitter@).take(
                    fi as int,
                ),
            decreases fields@.len() - fi,
        {
            let w = visible_width(&fields[fi]);
            let ghost seg0: Seq<usize> = segment_lengths@;
            segment_lengths.push(w);
            proof {
                let lw = line_widths(lv[li as int], splitter@);
                assert(lw.len() == fv.len());
                assert(fv[fi as int] == fields@[fi as int]@);
                assert(lw[fi as int] == visible_width_spec(fv[fi as int]));
                assert(segment_lengths@ == seg0.push(w));
                assert(widths_view(seg0).len() == seg0.len());
                assert(lw.take(fi as int).len() == fi as int);
                assert(seg0.len() == fi as int);
                assert forall|j: int| 0 <= j < fi as int + 1 implies widths_view(
                    segment_lengths@,
                )[j] == lw.take(fi as int + 1)[j] by {
                    if j < fi as int {
                        assert(widths_view(seg0)[j] == lw.take(fi as int)[j]);
                        assert(segment_lengths@[j] == seg0[j]);
                    } else {
                        assert(segment_lengths@[j] == w);
                    }
                }
                assert(widths_view(segment_lengths@) =~= lw.take(fi as int + 1));
            }
            fi = fi + 1;
        }
        proof {
            assert(line_widths(lv[li as int], splitter@).take(fields@.len() as int)
                =~= line_widths(lv[li as int], splitter@));
        }
        maximum(&mut column_widths, &segment_lengths);
        proof {
            assert(lv.take(li as int + 1).drop_last() =~= lv.take(li as int));
            assert(lv.take(li as int + 1).last() == lv[li as int]);
        }
        li = li + 1;
    }
    proof {
        assert(lv.take(lines@.len() as int) =~= lv);
    }
    column_widths
}

/// `n` padding spaces (none for a negative `n`).
pub open spec fn spaces(n: int) -> Seq<u8> {
    Seq::new(
        if n >= 0 {
            n as nat
        } else {
            0
        },
        |i: int| SPACE,
    )
}

/// A field padded for output: the raw bytes, then one space more than what
/// the column's target width lacks over the field's visible width — so the
/// escape bytes, which occupy no terminal column, do not count against the
/// padding.
pub open spec fn padded_field(f: Seq<u8>, target: int) -> Seq<u8> {
    f + spaces(target - visible_width_spec(f) + 1)
}

/// One line's fields rendered: every field but the last of the line padded to
/// its column's target width plus one separating space; the last field raw.
pub open spec fn rendered_fields(fs: Seq<Seq<u8>>, widths: Seq<int>) -> Seq<u8>
    decreases fs.len(),
{
    if fs.len() == 0 {
        Seq::empty()
    } else if fs.len() == 1 {
        fs[0]
    } else {
        padded_field(fs[0], widths[0]) + rendered_fields(fs.skip(1), widths.skip(1))
    }
}

/// A whole buffer rendered: each line's fields in order, a line break after
/// every line.
pub open spec fn rendered_lines(ls: Seq<Seq<u8>>, d: Seq<u8>, widths: Seq<int>) -> Seq<u8>
    decreases ls.len(),
{
    if ls.len() == 0 {
        Seq::empty()
    } else {
        rendered_lines(ls.drop_last(), d, widths) + rendered_fields(split_on(ls.last(), d), widths)
            + seq![NL]
    }
}

/// Whether `widths` accommodates one line: the line has at most one field (the
/// unpadded last) beyond the width entries, and no padded field is visibly
/// wider than its column's target.
pub open spec fn line_fits(line: Seq<u8>, d: Seq<u8>, widths: Seq<int>) -> bool {
    let fs = split_on(line, d);
    &&& fs.len() <= widths.len() + 1
    &&& forall|j: int| 0 <= j < fs.len() - 1 ==> visible_width_spec(fs[j]) <= widths[j]
}

/// Whether `widths` accommodates every line.
pub open spec fn widths_fit(ls: Seq<Seq<u8>>, d: Seq<u8>, widths: Seq<int>) -> bool {
    forall|i: int| 0 <= i < ls.len() ==> line_fits(ls[i], d, widths)
}

/// Append every byte of `src` to `out`.
fn push_all(out: &mut Vec<u8>, src: &Vec<u8>)
    ensures
        final(out)@ == old(out)@ + src@,
{
    let mut i: usize = 0;
    proof {
        assert(out@ =~= old(out)@ + src@.take(0));
    }
    while i < src.len()
        invariant
            i <= src@.len(),
            out@ == old(out)@ + src@.take(i as int),
        decreases src@.len() - i,
    {
        out.push(src[i]);
        i = i + 1;
        proof {
            assert(out@ =~= old(out)@ + src@.take(i as int));
        }
    }
    proof {
        assert(src@.take(src@.len() as int) =~= src@);
    }
}

/// Append `n` spaces to `out`.
fn push_spaces(out: &mut Vec<u8>, n: usize)
    ensures
        final(out)@ == old(out)@ + spaces(n as int),
{
    let mut i: usize = 0;
    proof {
        assert(out@ =~= old(out)@ + spaces(0));
    }
    while i < n
        invariant
            i <= n,
            out@ == old(out)@ + spaces(i as int),
        decreases n - i,
    {
        out.push(SPACE);
        i = i + 1;
        proof {
            assert(out@ =~= old(out)@ + spaces(i as int));
        }
    }
}

/// Render the whole buffer with its fields padded to the given per-column
/// target widths: every field but the last of its line is followed by
/// `target - visible + 1` spaces, the last is emitted raw, and every line ends
/// in a line break.
pub fn write_output(buffer: &Vec<u8>, splitter: &Vec<u8>, column_widths: &Vec<usize>) -> (out: Vec<
    u8,
>)
    requires
        splitter@.len() > 0,
        widths_fit(lines_of(buffer@), splitter@, widths_view(column_widths@)),
    ensures
        out@ == rendered_lines(lines_of(buffer@), splitter@, widths_view(column_widths@)),
{
    let lines = split_lines(buffer);
    let ghost lv: Seq<Seq<u8>> = views_of(lines@);
    let ghost wv: Seq<int> = widths_view(column_widths@);
    let mut out: Vec<u8> = Vec::new();
    let mut li: usize = 0;
    proof {
        assert(lv.take(0) =~= Seq::<Seq<u8>>::empty());
    }
    while li < lines.len()
        invariant
            li <= lines@.len(),
            lv == views_of(lines@),
            lv == lines_of(buffer@),
            wv == widths_view(column_widths@),
            splitter@.len() > 0,
            widths_fit(lv, splitter@, wv),
            out@ == rendered_lines(lv.take(li as int), splitter@, wv),
        decreases lines@.len() - li,
    {
        let fields = split_fields(&lines[li], splitter);
        let ghost fv: Seq<Seq<u8>> = views_of(fields@);
        let ghost out0: Seq<u8> = out@;
        proof {
            assert(lv[li as int] == lines@[li as int]@);
            assert(fv == split_on(lv[li as int], splitter@));
            assert(line_fits(lv[li as int], splitter@, wv));
            assert(fv.skip(0) =~= fv);
            assert(wv.skip(0) =~= wv);
        }
        let mut fi: usize = 0;
        while fi < fields.len()
            invariant
                fi <= fields@.len(),
                fv == views_of(fields@),
                fv == split_on(lv[li as int], splitter@),
                wv == widths_view(column_widths@),
                line_fits(lv[li as int], splitter@, wv),
                out@ + rendered_fields(fv.skip(fi as int), wv.skip(fi as int)) == out0
                    + rendered_fields(fv, wv),
            decreases fields@.len() - fi,
        {
            proof {
                assert(fv[fi as int] == fields@[fi as int]@);
            }
            if fi + 1 == fields.len() {
                // The last field of its line is emitted without padding.
                push_all(&mut out, &fields[fi]);
                proof {
                    assert(fv.skip(fi as int).len() == 1);
                    assert(rendered_fields(fv.skip(fi as int), wv.skip(fi as int)) == fv.skip(
                        fi as int,
                    )[0]);
                    assert(fv.skip(fi as int)[0] == fv[fi as int]);
                    assert(fv.skip(fi as int + 1) =~= Seq::<Seq<u8>>::empty());
                    assert(out@ + rendered_fields(fv.skip(fi as int + 1), wv.skip(fi as int + 1))
                        =~= out0 + rendered_fields(fv, wv));
                }
            } else {
                let vis = visible_width(&fields[fi]);
                proof {
                    assert(visible_width_spec(fv[fi as int]) <= wv[fi as int]);
                    assert(wv[fi as int] == column_widths@[fi as int] as int);
                }
                let w = column_widths[fi];
                push_all(&mut out, &fields[fi]);
                push_spaces(&mut out, w - vis);
                out.push(SPACE);
                proof {
                    assert(fv.skip(fi as int).len() >= 2);
                    assert(rendered_fields(fv.skip(fi as int), wv.skip(fi as int)) == padded_field(
                        fv.skip(fi as int)[0],
                        wv.skip(fi as int)[0],
                    ) + rendered_fields(fv.skip(fi as int).skip(1), wv.skip(fi as int).skip(1)));
                    assert(fv.skip(fi as int).skip(1) =~= fv.skip(fi as int + 1));
                    assert(wv.skip(fi as int).skip(1) =~= wv.skip(fi as int + 1));
                    assert(spaces((w - vis) as int) + seq![SPACE] =~= spaces(w as int - vis + 1));
                    assert(out@ + rendered_fields(fv.skip(fi as int + 1), wv.skip(fi as int + 1))
                        =~= out0 + rendered_fields(fv, wv));
                }
            }
            fi = fi + 1;
        }
        out.push(NL);
        proof {
            assert(fv.skip(fields@.len() as int) =~= Seq::<Seq<u8>>::empty());
            assert(lv.take(li as int + 1).drop_last() =~= lv.take(li as int));
            assert(lv.take(li as int + 1).last() == lv[li as int]);
            assert(out@ =~= rendered_lines(lv.take(li as int + 1), splitter@, wv));
        }
        li = li + 1;
    }
    proof {
        assert(lv.take(lines@.len() as int) =~= lv);
    }
    out
}

proof fn lemma_merge_max_bounds(a: Seq<int>, b: Seq<int>)
    ensures
        merge_max(a, b).len() == int_max(a.len() as int, b.len() as int),
        forall|j: int| 0 <= j < a.len() ==> a[j] <= #[trigger] merge_max(a, b)[j],
        forall|j: int| 0 <= j < b.len() ==> b[j] <= #[trigger] merge_max(a, b)[j],
{
}

proof fn lemma_column_widths_line(ls: Seq<Seq<u8>>, d: Seq<u8>, i: int)
    requires
        0 <= i < ls.len(),
    ensures
        line_widths(ls[i], d).len() <= column_widths_spec(ls, d).len(),
        forall|j: int|
            0 <= j < line_widths(ls[i], d).len() ==> line_widths(ls[i], d)[j]
                <= #[trigger] column_widths_spec(ls, d)[j],
    decreases ls.len(),
{
    let prev = column_widths_spec(ls.drop_last(), d);
    let lw = line_widths(ls.last(), d);
    lemma_merge_max_bounds(prev, lw);
    if i < ls.len() - 1 {
        lemma_column_widths_line(ls.drop_last(), d, i);
        assert(ls.drop_last()[i] == ls[i]);
    }
}

/// Law: the column widths deduced from a buffer's lines accommodate every one
/// of those lines, so rendering with them never lacks a width entry and never
/// meets a field wider than its column's target.
pub proof fn lemma_column_widths_fit(ls: Seq<Seq<u8>>, d: Seq<u8>)
    ensures
        widths_fit(ls, d, column_widths_spec(ls, d)),
{
    let widths = column_widths_spec(ls, d);
    assert forall|i: int| 0 <= i < ls.len() implies line_fits(ls[i], d, widths) by {
        lemma_column_widths_line(ls, d, i);
        let fs = split_on(ls[i], d);
        let lw = line_widths(ls[i], d);
        assert(lw.len() == fs.len());
        assert forall|j: int| 0 <= j < fs.len() - 1 implies visible_width_spec(fs[j])
            <= widths[j] by {
            assert(lw[j] == visible_width_spec(fs[j]));
            assert(lw[j] <= column_widths_spec(ls, d)[j]);
        }
    }
}

/// Align a whole buffer: deduce the per-column target widths from every line,
/// then render every line padded to them.
pub fn align_columns(buffer: &Vec<u8>, splitter: &Vec<u8>) -> (out: Vec<u8>)
    requires
        splitter@.len() > 0,
    ensures
        out@ == rendered_lines(
            lines_of(buffer@),
            splitter@,
            column_widths_spec(lines_of(buffer@), splitter@),
        ),
{
    let widths = deduce_column_widths(buffer, splitter);
    proof {
        lemma_column_widths_fit(lines_of(buffer@), splitter@);
    }
    write_output(buffer, splitter, &widths)
}

} // verus!
