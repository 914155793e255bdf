//! The stated laws of the formatter: what the layout guarantees over
//! all inputs, proved from the spec functions of `format`.

use vstd::prelude::*;
use vstd::arithmetic::div_mod::lemma_mod_multiples_vanish;

use crate::format::NL;
use crate::format::SP;
use crate::format::eff_len;
use crate::format::field;
use crate::format::fields;
use crate::format::format_spec;
use crate::format::grouped;
use crate::format::sep;
use crate::hex::hex_pair;

verus! {

/// The hex pairs of all bytes of a buffer, concatenated, nothing
/// between them.
pub open spec fn hex_concat(bytes: Seq<u8>) -> Seq<u8>
    decreases bytes.len(),
{
    if bytes.len() == 0 {
        Seq::empty()
    } else {
        hex_pair(bytes[0]) + hex_concat(bytes.drop_first())
    }
}

/// A run of bare renderings is plain hex concatenation.
proof fn lemma_fields_bare(bytes: Seq<u8>, start: int)
    requires
        0 <= start <= bytes.len(),
    ensures
        fields(bytes, Seq::<u8>::empty(), Seq::<u8>::empty(), start, bytes.len() as int)
            == hex_concat(bytes.subrange(start, bytes.len() as int)),
    decreases bytes.len() - start,
{
    let sub = bytes.subrange(start, bytes.len() as int);
    if start == bytes.len() {
        assert(sub.len() == 0);
    } else {
        lemma_fields_bare(bytes, start + 1);
        assert(sub.drop_first() =~= bytes.subrange(start + 1, bytes.len() as int));
        assert(field(Seq::<u8>::empty(), Seq::<u8>::empty(), bytes[start]) =~= hex_pair(
            bytes[start],
        ));
        assert(fields(bytes, Seq::<u8>::empty(), Seq::<u8>::empty(), start, bytes.len() as int)
            =~= hex_concat(sub));
    }
}

/// Under the default options — no grouping, no offset, no length, no
/// decoration — the output is exactly the two-digit lowercase hex
/// renderings of every byte of the buffer, concatenated in order with
/// no separator, followed by one newline.
pub proof fn lemma_default_output(bytes: Seq<u8>)
    ensures
        format_spec(bytes, Seq::<u8>::empty(), Seq::<u8>::empty(), None, 1, 0, None)
            == hex_concat(bytes) + seq![NL],
{
    lemma_fields_bare(bytes, 0);
    assert(bytes.subrange(0, bytes.len() as int) =~= bytes);
}

/// An offset at or past the effective length leaves nothing to emit:
/// the output is exactly one newline, in grouped and ungrouped mode
/// alike, an empty buffer included.
pub proof fn lemma_empty_window(
    bytes: Seq<u8>,
    pre: Seq<u8>,
    post: Seq<u8>,
    group: Option<usize>,
    columns: usize,
    offset: usize,
    length: Option<usize>,
)
    requires
        group matches Some(g) ==> g >= 1,
        offset as int >= eff_len(bytes.len() as int, length),
    ensures
        format_spec(bytes, pre, post, group, columns, offset, length) == seq![NL],
{
    let limit = eff_len(bytes.len() as int, length);
    match group {
        Some(g) => {
            assert(fields(bytes, pre, post, offset as int, limit) == Seq::<u8>::empty());
            assert(grouped(bytes, pre, post, g as int, columns as int, offset as int, limit)
                =~= seq![NL]);
        },
        None => {
            assert(fields(bytes, pre, post, offset as int, limit) == Seq::<u8>::empty());
            assert(fields(bytes, pre, post, offset as int, limit) + seq![NL] =~= seq![NL]);
        },
    }
}

/// Grouped output as rows: each chunk followed by a newline, never a
/// space.
pub open spec fn grouped_rows(
    bytes: Seq<u8>,
    pre: Seq<u8>,
    post: Seq<u8>,
    group: int,
    iter: int,
    limit: int,
) -> Seq<u8>
    decreases limit - iter,
{
    if group < 1 {
        Seq::empty()
    } else {
        let end = if iter + group <= limit { iter + group } else { limit };
        if end == limit {
            fields(bytes, pre, post, iter, end) + seq![NL]
        } else {
            fields(bytes, pre, post, iter, end) + seq![NL] + grouped_rows(
                bytes,
                pre,
                post,
                group,
                iter + group,
                limit,
            )
        }
    }
}

/// With one column, and a cursor on a group boundary, every chunk
/// boundary is a multiple of the group size, so every separator is a
/// newline and no space is ever emitted: each output line but the
/// last holds exactly `group` renderings.
pub proof fn lemma_single_column(
    bytes: Seq<u8>,
    pre: Seq<u8>,
    post: Seq<u8>,
    group: int,
    iter: int,
    limit: int,
)
    requires
        group >= 1,
        iter % group == 0,
    ensures
        grouped(bytes, pre, post, group, 1, iter, limit) == grouped_rows(
            bytes,
            pre,
            post,
            group,
            iter,
            limit,
        ),
    decreases limit - iter,
{
    let end = if iter + group <= limit { iter + group } else { limit };
    if end != limit {
        lemma_mod_multiples_vanish(1, iter, group);
        assert(end % (group * 1) == 0);
        assert(sep(group, 1, end) == seq![NL]);
        lemma_single_column(bytes, pre, post, group, iter + group, limit);
    }
}

/// In grouped mode a newline stands after the chunk ending at absolute
/// byte position `end` exactly when `end` is a multiple of
/// `group * columns` (a full row of `columns` groups is complete);
/// otherwise the chunks are parted by a single space; and the chunk
/// that reaches the effective length is followed by the one trailing
/// newline instead.
pub proof fn lemma_newline_positions(
    bytes: Seq<u8>,
    pre: Seq<u8>,
    post: Seq<u8>,
    group: int,
    columns: int,
    iter: int,
    limit: int,
)
    requires
        group >= 1,
    ensures
        ({
            let end = if iter + group <= limit { iter + group } else { limit };
            let chunk = fields(bytes, pre, post, iter, end);
            let rest = grouped(bytes, pre, post, group, columns, end, limit);
            &&& end == limit ==> grouped(bytes, pre, post, group, columns, iter, limit) == chunk
                + seq![NL]
            &&& end != limit && end % (group * columns) == 0 ==> grouped(
                bytes,
                pre,
                post,
                group,
                columns,
                iter,
                limit,
            ) == chunk + seq![NL] + rest
            &&& end != limit && end % (group * columns) != 0 ==> grouped(
                bytes,
                pre,
                post,
                group,
                columns,
                iter,
                limit,
            ) == chunk + seq![SP] + rest
        }),
{
}

/// A length at or beyond the buffer size clamps to the buffer size:
/// the output is exactly the output produced with no length given —
/// no padding, no error.
pub proof fn lemma_length_clamped(
    bytes: Seq<u8>,
    pre: Seq<u8>,
    post: Seq<u8>,
    group: Option<usize>,
    columns: usize,
    offset: usize,
    l: usize,
)
    requires
        l as int >= bytes.len(),
    ensures
        format_spec(bytes, pre, post, group, columns, offset, Some(l)) == format_spec(
            bytes,
            pre,
            post,
            group,
            columns,
            offset,
            None,
        ),
{
}

/// The byte count of a run of renderings: one fixed-width slot per
/// byte of the window.
pub proof fn lemma_fields_len(bytes: Seq<u8>, pre: Seq<u8>, post: Seq<u8>, start: int, end: int)
    requires
        start <= end,
    ensures
        fields(bytes, pre, post, start, end).len() == (end - start) * (pre.len() + 2 + post.len()),
    decreases end - start,
{
    let w = (pre.len() + 2 + post.len()) as int;
    if start == end {
        assert((end - start) * (pre.len() + 2 + post.len()) == 0) by (nonlinear_arith)
            requires
                start == end,
        ;
    } else {
        lemma_fields_len(bytes, pre, post, start + 1, end);
        assert(field(pre, post, bytes[start]).len() == w);
        assert((end - start) * w == w + (end - start - 1) * w) by (nonlinear_arith);
    }
}

/// Every byte of the window stands in its run of renderings as
/// `prefix + two hex digits + postfix`, in its own fixed-width slot,
/// with nothing inserted between slots by the wrapping itself.
pub proof fn lemma_field_layout(
    bytes: Seq<u8>,
    pre: Seq<u8>,
    post: Seq<u8>,
    start: int,
    end: int,
    i: int,
)
    requires
        start <= i < end,
    ensures
        ({
            let w = (pre.len() + 2 + post.len()) as int;
            fields(bytes, pre, post, start, end).subrange((i - start) * w, (i - start + 1) * w)
                == field(pre, post, bytes[i])
        }),
    decreases i - start,
{
    let w = (pre.len() + 2 + post.len()) as int;
    let whole = fields(bytes, pre, post, start, end);
    lemma_fields_len(bytes, pre, post, start, end);
    lemma_fields_len(bytes, pre, post, start + 1, end);
    assert(field(pre, post, bytes[start]).len() == w);
    if i == start {
        assert(whole.subrange(0, w) =~= field(pre, post, bytes[start]));
        assert((i - start) * w == 0) by (nonlinear_arith)
            requires
                i == start,
        ;
        assert((i - start + 1) * w == w) by (nonlinear_arith)
            requires
                i == start,
        ;
    } else {
        lemma_field_layout(bytes, pre, post, start + 1, end, i);
        let lo = (i - start) * w;
        let hi = (i - start + 1) * w;
        assert((i - start) * w == (i - start - 1) * w + w) by (nonlinear_arith);
        assert((i - start + 1) * w == (i - start) * w + w) by (nonlinear_arith);
        assert(lo >= w && hi <= whole.len()) by {
            assert((i - start - 1) * w >= 0) by (nonlinear_arith)
                requires
                    i - start - 1 >= 0,
                    w >= 0,
            ;
            assert((i - start) * w <= (end - start - 1) * w) by (nonlinear_arith)
                requires
                    i < end,
                    w >= 0,
            ;
        }
        assert(whole.subrange(lo, hi) =~= fields(bytes, pre, post, start + 1, end).subrange(
            lo - w,
            hi - w,
        ));
    }
}

} // verus!
