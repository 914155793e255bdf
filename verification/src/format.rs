//! The layout algorithm: offset/length clamping, grouping, column
//! wrapping, per-byte prefix/postfix decoration.

use vstd::prelude::*;

use crate::hex::hex_pair;
use crate::hex::push_hex;

verus! {

/// ASCII line feed.
pub const NL: u8 = 10;

/// ASCII space.
pub const SP: u8 = 32;

/// The resolved formatting options for one run.
///
/// `group == None` means ungrouped output: one unbroken run of bytes
/// (`columns` is then unused). `length == None` means the whole buffer
/// is in range. `prefix` and `postfix` are emitted literally around
/// every byte's two hex digits.
pub struct Config {
    pub columns: usize,
    pub group: Option<usize>,
    pub offset: usize,
    pub length: Option<usize>,
    pub prefix: Vec<u8>,
    pub postfix: Vec<u8>,
}

impl Config {
    /// The options a run gets when none are given: one column,
    /// ungrouped, no offset, whole buffer, bare hex digits.
    pub open spec fn is_default(self) -> bool {
        &&& self.columns == 1
        &&& self.group is None
        &&& self.offset == 0
        &&& self.length is None
        &&& self.prefix@ == Seq::<u8>::empty()
        &&& self.postfix@ == Seq::<u8>::empty()
    }

    /// What the formatter assumes of its options: a group size, when
    /// given, is positive, and then the column count is positive too
    /// and a whole row's byte count fits in `usize`.
    pub open spec fn wf(self) -> bool {
        match self.group {
            Some(g) => 1 <= g && 1 <= self.columns
                && g * self.columns <= usize::MAX,
            None => true,
        }
    }
}

impl Default for Config {
    fn default() -> (c: Config)
        ensures
            c.is_default(),
    {
        Config {
            columns: 1,
            group: None,
            offset: 0,
            length: None,
            prefix: Vec::new(),
            postfix: Vec::new(),
        }
    }
}

/// The exclusive upper bound of buffer indices ever emitted: the given
/// `length` clamped to the buffer size, or the buffer size when no
/// length was given. Note the clamp is against the whole buffer, not
/// against the bytes remaining after the offset.
pub open spec fn eff_len(buf_len: int, length: Option<usize>) -> int {
    match length {
        Some(l) => if l as int <= buf_len { l as int } else { buf_len },
        None => buf_len,
    }
}

/// One byte's rendering: prefix, two hex digits, postfix.
pub open spec fn field(pre: Seq<u8>, post: Seq<u8>, b: u8) -> Seq<u8> {
    pre + hex_pair(b) + post
}

/// The renderings of bytes `start..end`, concatenated with no
/// separator. Empty when `start >= end`.
pub open spec fn fields(bytes: Seq<u8>, pre: Seq<u8>, post: Seq<u8>, start: int, end: int) -> Seq<u8>
    decreases end - start,
{
    if start >= end {
        Seq::empty()
    } else {
        field(pre, post, bytes[start]) + fields(bytes, pre, post, start + 1, end)
    }
}

/// The separator after a chunk ending at absolute position `end`: a
/// newline when `end` is a multiple of `group * columns` (a full row
/// of `columns` groups is complete), else a single space.
pub open spec fn sep(group: int, columns: int, end: int) -> Seq<u8> {
    if end % (group * columns) == 0 {
        seq![NL]
    } else {
        seq![SP]
    }
}

/// Grouped output from cursor `iter` up to `limit`: chunks of `group`
/// bytes (the last possibly shorter), each followed by the separator
/// of its end position, and one trailing newline after the chunk that
/// reaches `limit`. A cursor at or past `limit` yields just the
/// newline.
pub open spec fn grouped(
    bytes: Seq<u8>,
    pre: Seq<u8>,
    post: Seq<u8>,
    group: int,
    columns: int,
    iter: int,
    limit: int,
) -> Seq<u8>
    decreases limit - iter,
{
    if group < 1 {
        Seq::empty()
    } else {
        let end = if iter + group <= limit { iter + group } else { limit };
        if end == limit {
            fields(bytes, pre, post, iter, end) + seq![NL]
        } else {
            fields(bytes, pre, post, iter, end) + sep(group, columns, end) + grouped(
                bytes,
                pre,
                post,
                group,
                columns,
                iter + group,
                limit,
            )
        }
    }
}

/// The whole output for buffer `bytes` under the given options:
/// ungrouped when `group` is `None`, grouped otherwise; either way one
/// trailing newline.
pub open spec fn format_spec(
    bytes: Seq<u8>,
    pre: Seq<u8>,
    post: Seq<u8>,
    group: Option<usize>,
    columns: usize,
    offset: usize,
    length: Option<usize>,
) -> Seq<u8> {
    let limit = eff_len(bytes.len() as int, length);
    match group {
        Some(g) => grouped(bytes, pre, post, g as int, columns as int, offset as int, limit),
        None => fields(bytes, pre, post, offset as int, limit) + seq![NL],
    }
}

/// What `format_spec` says of a buffer and a `Config`.
pub open spec fn config_output(bytes: Seq<u8>, c: Config) -> Seq<u8> {
    format_spec(bytes, c.prefix@, c.postfix@, c.group, c.columns, c.offset, c.length)
}

/// Appends all of `xs` to `out`.
pub fn push_all(out: &mut Vec<u8>, xs: &Vec<u8>)
    ensures
        final(out)@ == old(out)@ + xs@,
{
    let mut j: usize = 0;
    while j < xs.len()
        invariant
            j <= xs.len(),
            out@ == old(out)@ + xs@.take(j as int),
        decreases xs.len() - j,
    {
        out.push(xs[j]);
        proof {
            assert(out@ =~= old(out)@ + xs@.take(j + 1 as int));
        }
        j = j + 1;
    }
    proof {
        assert(out@ =~= old(out)@ + xs@);
    }
}

/// Appending one more rendering on the right extends `fields` by one
/// field.
proof fn lemma_fields_snoc(bytes: Seq<u8>, pre: Seq<u8>, post: Seq<u8>, start: int, i: int)
    requires
        start <= i,
    ensures
        fields(bytes, pre, post, start, i + 1) == fields(bytes, pre, post, start, i) + field(
            pre,
            post,
            bytes[i],
        ),
    decreases i - start,
{
    if start == i {
        assert(fields(bytes, pre, post, start + 1, i + 1) == Seq::<u8>::empty());
        assert(fields(bytes, pre, post, start, i) == Seq::<u8>::empty());
        assert(fields(bytes, pre, post, start, i + 1) =~= fields(bytes, pre, post, start, i)
            + field(pre, post, bytes[i]));
    } else {
        lemma_fields_snoc(bytes, pre, post, start + 1, i);
        assert(fields(bytes, pre, post, start, i + 1) =~= fields(bytes, pre, post, start, i)
            + field(pre, post, bytes[i]));
    }
}

/// Appends the renderings of `bytes[start..end]`, prefix and postfix
/// around each byte's two hex digits, no separator. Appends nothing
/// when `start >= end`.
pub fn push_fields(out: &mut Vec<u8>, bytes: &Vec<u8>, pre: &Vec<u8>, post: &Vec<u8>, start: usize, end: usize)
    requires
        end <= bytes@.len(),
    ensures
        final(out)@ == old(out)@ + fields(bytes@, pre@, post@, start as int, end as int),
{
    let mut i: usize = start;
    if i >= end {
        proof {
            assert(out@ =~= old(out)@ + fields(bytes@, pre@, post@, start as int, end as int));
        }
        return ;
    }
    while i < end
        invariant
            start <= i <= end,
            end <= bytes@.len(),
            out@ == old(out)@ + fields(bytes@, pre@, post@, start as int, i as int),
        decreases end - i,
    {
        push_all(out, pre);
        push_hex(out, bytes[i]);
        push_all(out, post);
        proof {
            lemma_fields_snoc(bytes@, pre@, post@, start as int, i as int);
            assert(out@ =~= old(out)@ + fields(bytes@, pre@, post@, start as int, i + 1 as int));
        }
        i = i + 1;
    }
}

/// Formats the whole buffer under the given options and returns the
/// output text: exactly what `format_spec` states, trailing newline
/// included.
pub fn format_bytes(input: &Vec<u8>, c: &Config) -> (out: Vec<u8>)
    requires
        c.wf(),
    ensures
        out@ == config_output(input@, *c),
{
    let limit: usize = match c.length {
        Some(l) => if l <= input.len() { l } else { input.len() },
        None => input.len(),
    };
    proof {
        assert(limit as int == eff_len(input@.len() as int, c.length));
    }
    let mut out: Vec<u8> = Vec::new();
    match c.group {
        Some(group) => {
            let ghost goal = grouped(
                input@,
                c.prefix@,
                c.postfix@,
                group as int,
                c.columns as int,
                c.offset as int,
                limit as int,
            );
            let mut iter: usize = c.offset;
            loop
                invariant_except_break
                    out@ + grouped(
                        input@,
                        c.prefix@,
                        c.postfix@,
                        group as int,
                        c.columns as int,
                        iter as int,
                        limit as int,
                    ) == goal,
                invariant
                    c.wf(),
                    c.group == Some(group),
                    limit <= input@.len(),
                ensures
                    out@ == goal,
                decreases limit - iter,
            {
                let ghost out0 = out@;
                let end: usize = if iter >= limit {
                    limit
                } else if group <= limit - iter {
                    iter + group
                } else {
                    limit
                };
                proof {
                    assert(end as int == (
                        if iter as int + group as int <= limit as int {
                            iter as int + group as int
                        } else {
                            limit as int
                        }
                    ));
                }
                push_fields(&mut out, input, &c.prefix, &c.postfix, iter, end);
                if end == limit {
                    out.push(NL);
                    proof {
                        assert(out@ =~= goal);
                    }
                    break ;
                }
                proof {
                    assert(group * c.columns >= 1) by (nonlinear_arith)
                        requires
                            group >= 1,
                            c.columns >= 1,
                    ;
                }
                let row = group * c.columns;
                if end % row == 0 {
                    out.push(NL);
                } else {
                    out.push(SP);
                }
                proof {
                    assert(out@ + grouped(
                        input@,
                        c.prefix@,
                        c.postfix@,
                        group as int,
                        c.columns as int,
                        iter as int + group as int,
                        limit as int,
                    ) =~= out0 + grouped(
                        input@,
                        c.prefix@,
                        c.postfix@,
                        group as int,
                        c.columns as int,
                        iter as int,
                        limit as int,
                    ));
                }
                iter = iter + group;
            }
        },
        None => {
            push_fields(&mut out, input, &c.prefix, &c.postfix, c.offset, limit);
            out.push(NL);
            proof {
                assert(out@ =~= config_output(input@, *c));
            }
        },
    }
    out
}

} // verus!
