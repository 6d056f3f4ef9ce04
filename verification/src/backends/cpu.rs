//! The index logic of the CPU reference kernels that move data without
//! arithmetic on it: each copies windows of a source into a destination,
//! row by row. Element values are carried as they are, whatever their type.

use vstd::prelude::*;

use crate::shader::CpuBinding;

verus! {

/// `dst` with the `width` elements at `at` replaced by the `width` elements
/// of `src` at `from`.
pub open spec fn window_written<T>(dst: Seq<T>, at: int, src: Seq<T>, from: int, width: int) -> Seq<T> {
    dst.take(at) + src.subrange(from, from + width) + dst.skip(at + width)
}

/// Copies `width` elements of `src` starting at `from` over the elements of
/// `dst` starting at `at`.
pub fn copy_window<T: Copy>(dst: &mut Vec<T>, at: usize, src: &[T], from: usize, width: usize)
    requires
        at + width <= old(dst)@.len(),
        from + width <= src@.len(),
    ensures
        final(dst)@ == window_written(old(dst)@, at as int, src@, from as int, width as int),
{
    let dst_len = dst.len();
    let src_len = src.len();
    let mut c: usize = 0;
    while c < width
        invariant
            dst_len == old(dst)@.len(),
            src_len == src@.len(),
            c <= width,
            at + width <= dst@.len(),
            from + width <= src@.len(),
            dst@.len() == old(dst)@.len(),
            forall|i: int| 0 <= i < at ==> dst@[i] == old(dst)@[i],
            forall|i: int| at + c <= i < dst@.len() ==> dst@[i] == old(dst)@[i],
            forall|i: int| at <= i < at + c ==> #[trigger] dst@[i] == src@[from + (i - at)],
        decreases width - c,
    {
        dst.set(at + c, src[from + c]);
        c = c + 1;
    }
    assert(dst@ =~= window_written(old(dst)@, at as int, src@, from as int, width as int));
}

/// `r * w` grows with `r`.
proof fn lemma_row_offset_le(r: int, rows: int, w: int)
    requires
        0 <= r < rows,
        w >= 0,
    ensures
        r * w + w <= rows * w,
        0 <= r * w,
{
    assert(r * w + w <= rows * w) by (nonlinear_arith)
        requires
            0 <= r < rows,
            w >= 0,
    ;
    assert(0 <= r * w) by (nonlinear_arith)
        requires
            0 <= r,
            w >= 0,
    ;
}

// ---------------------------------------------------------------------------
// CacheWrite: dst rows [dst_row_offset, dst_row_offset + row_count) = src rows
// ---------------------------------------------------------------------------

/// `dst` after the first `rows` rows of `src` (rows of `width`) are written
/// to the rows of `dst` that start at row `dst_row_offset`, in order.
pub open spec fn cache_written<T>(dst: Seq<T>, src: Seq<T>, rows: int, width: int, dst_row_offset: int) -> Seq<T>
    decreases rows,
{
    if rows <= 0 {
        dst
    } else {
        window_written(
            cache_written(dst, src, rows - 1, width, dst_row_offset),
            (dst_row_offset + rows - 1) * width,
            src,
            (rows - 1) * width,
            width,
        )
    }
}

proof fn lemma_cache_written_len<T>(dst: Seq<T>, src: Seq<T>, rows: int, width: int, dst_row_offset: int)
    requires
        width >= 0,
        dst_row_offset >= 0,
        rows <= 0 || (dst_row_offset + rows) * width <= dst.len(),
        rows <= 0 || rows * width <= src.len(),
    ensures
        cache_written(dst, src, rows, width, dst_row_offset).len() == dst.len(),
    decreases rows,
{
    if rows > 0 {
        lemma_row_offset_le(dst_row_offset + rows - 1, dst_row_offset + rows, width);
        lemma_row_offset_le(rows - 1, rows, width);
        if rows > 1 {
            lemma_row_offset_le(dst_row_offset + rows - 1, dst_row_offset + rows, width);
            lemma_row_offset_le(rows - 1, rows, width);
        }
        lemma_cache_written_len(dst, src, rows - 1, width, dst_row_offset);
    }
}

/// Writes `row_count` rows of `src` into `dst` from row `dst_row_offset` on.
pub fn cache_write<T: Copy>(src: &[T], dst: &mut Vec<T>, row_count: usize, width: usize, dst_row_offset: usize)
    requires
        row_count == 0 || dst_row_offset + row_count - 1 <= usize::MAX,
        row_count == 0 || (dst_row_offset + row_count) * width <= old(dst)@.len(),
        row_count == 0 || row_count * width <= src@.len(),
    ensures
        final(dst)@ == cache_written(old(dst)@, src@, row_count as int, width as int, dst_row_offset as int),
        final(dst)@.len() == old(dst)@.len(),
{
    let dst_len = dst.len();
    let src_len = src.len();
    let mut row: usize = 0;
    while row < row_count
        invariant
            dst_len == old(dst)@.len(),
            src_len == src@.len(),
            row <= row_count,
            row_count == 0 || dst_row_offset + row_count - 1 <= usize::MAX,
            row_count == 0 || (dst_row_offset + row_count) * width <= old(dst)@.len(),
            row_count == 0 || row_count * width <= src@.len(),
            dst@ == cache_written(old(dst)@, src@, row as int, width as int, dst_row_offset as int),
            dst@.len() == old(dst)@.len(),
        decreases row_count - row,
    {
        proof {
            lemma_row_offset_le(dst_row_offset + row, dst_row_offset + row_count, width as int);
            lemma_row_offset_le(row as int, row_count as int, width as int);
        }
        let src_off = row * width;
        let dst_off = (dst_row_offset + row) * width;
        copy_window(dst, dst_off, src, src_off, width);
        proof {
            lemma_row_offset_le(dst_row_offset + row, dst_row_offset + row_count, width as int);
        }
        row = row + 1;
    }
}

// ---------------------------------------------------------------------------
// HeadGather / HeadScatter: one head's columns out of / into full rows
// ---------------------------------------------------------------------------

/// `dst` after, for each of the first `rows` rows in order, the `head_dim`
/// columns of `src` row (of `full_dim`) starting at column `head_offset`
/// are written to `dst` row (of `head_dim`).
pub open spec fn head_gathered<T>(dst: Seq<T>, src: Seq<T>, rows: int, full_dim: int, head_dim: int, head_offset: int) -> Seq<T>
    decreases rows,
{
    if rows <= 0 {
        dst
    } else {
        window_written(
            head_gathered(dst, src, rows - 1, full_dim, head_dim, head_offset),
            (rows - 1) * head_dim,
            src,
            (rows - 1) * full_dim + head_offset,
            head_dim,
        )
    }
}

/// `dst` after, for each of the first `rows` rows in order, `src` row (of
/// `head_dim`) is written to the `head_dim` columns of `dst` row (of
/// `full_dim`) starting at column `head_offset`.
pub open spec fn head_scattered<T>(dst: Seq<T>, src: Seq<T>, rows: int, full_dim: int, head_dim: int, head_offset: int) -> Seq<T>
    decreases rows,
{
    if rows <= 0 {
        dst
    } else {
        window_written(
            head_scattered(dst, src, rows - 1, full_dim, head_dim, head_offset),
            (rows - 1) * full_dim + head_offset,
            src,
            (rows - 1) * head_dim,
            head_dim,
        )
    }
}

proof fn lemma_window_len<T>(dst: Seq<T>, at: int, src: Seq<T>, from: int, width: int)
    requires
        0 <= at,
        0 <= width,
        at + width <= dst.len(),
        0 <= from,
        from + width <= src.len(),
    ensures
        window_written(dst, at, src, from, width).len() == dst.len(),
{
}

proof fn lemma_head_gathered_len<T>(dst: Seq<T>, src: Seq<T>, rows: int, full_dim: int, head_dim: int, head_offset: int)
    requires
        full_dim >= 0,
        head_dim >= 0,
        head_offset >= 0,
        rows <= 0 || rows * head_dim <= dst.len(),
        rows <= 0 || (rows - 1) * full_dim + head_offset + head_dim <= src.len(),
    ensures
        head_gathered(dst, src, rows, full_dim, head_dim, head_offset).len() == dst.len(),
    decreases rows,
{
    if rows > 0 {
        lemma_row_offset_le(rows - 1, rows, head_dim);
        if rows > 1 {
            lemma_row_offset_le(rows - 2, rows - 1, head_dim);
            lemma_row_offset_le(rows - 2, rows - 1, full_dim);
        }
        lemma_head_gathered_len(dst, src, rows - 1, full_dim, head_dim, head_offset);
        lemma_row_offset_le(rows - 1, rows, full_dim);
        lemma_window_len(
            head_gathered(dst, src, rows - 1, full_dim, head_dim, head_offset),
            (rows - 1) * head_dim,
            src,
            (rows - 1) * full_dim + head_offset,
            head_dim,
        );
    }
}

proof fn lemma_head_scattered_len<T>(dst: Seq<T>, src: Seq<T>, rows: int, full_dim: int, head_dim: int, head_offset: int)
    requires
        full_dim >= 0,
        head_dim >= 0,
        head_offset >= 0,
        rows <= 0 || rows * head_dim <= src.len(),
        rows <= 0 || (rows - 1) * full_dim + head_offset + head_dim <= dst.len(),
    ensures
        head_scattered(dst, src, rows, full_dim, head_dim, head_offset).len() == dst.len(),
    decreases rows,
{
    if rows > 0 {
        lemma_row_offset_le(rows - 1, rows, head_dim);
        if rows > 1 {
            lemma_row_offset_le(rows - 2, rows - 1, head_dim);
            lemma_row_offset_le(rows - 2, rows - 1, full_dim);
        }
        lemma_head_scattered_len(dst, src, rows - 1, full_dim, head_dim, head_offset);
        lemma_row_offset_le(rows - 1, rows, full_dim);
        lemma_window_len(
            head_scattered(dst, src, rows - 1, full_dim, head_dim, head_offset),
            (rows - 1) * full_dim + head_offset,
            src,
            (rows - 1) * head_dim,
            head_dim,
        );
    }
}

/// Each element of a written window comes from `src`; every other element
/// is the old one.
proof fn lemma_window_at<T>(dst: Seq<T>, at: int, src: Seq<T>, from: int, width: int, i: int)
    requires
        0 <= at,
        0 <= width,
        at + width <= dst.len(),
        0 <= from,
        from + width <= src.len(),
        0 <= i < dst.len(),
    ensures
        at <= i < at + width ==> window_written(dst, at, src, from, width)[i] == src[from + (i - at)],
        !(at <= i < at + width) ==> window_written(dst, at, src, from, width)[i] == dst[i],
{
}

/// Row `r` of a gathered buffer holds the head's columns of row `r` of the
/// source; what lies past the gathered rows is untouched.
proof fn lemma_head_gathered_at<T>(dst: Seq<T>, src: Seq<T>, rows: int, full_dim: int, head_dim: int, head_offset: int)
    requires
        rows >= 0,
        full_dim >= 0,
        head_dim >= 0,
        head_offset >= 0,
        rows * head_dim <= dst.len(),
        rows == 0 || (rows - 1) * full_dim + head_offset + head_dim <= src.len(),
    ensures
        forall|r: int, c: int|
            0 <= r < rows && 0 <= c < head_dim ==> #[trigger] head_gathered(dst, src, rows, full_dim, head_dim, head_offset)[r
                * head_dim + c] == src[r * full_dim + head_offset + c],
        forall|i: int|
            rows * head_dim <= i < dst.len() ==> #[trigger] head_gathered(dst, src, rows, full_dim, head_dim, head_offset)[i]
                == dst[i],
    decreases rows,
{
    if rows > 0 {
        let prev = head_gathered(dst, src, rows - 1, full_dim, head_dim, head_offset);
        lemma_row_offset_le(rows - 1, rows, head_dim);
        lemma_row_offset_le(rows - 1, rows, full_dim);
        if rows > 1 {
            lemma_row_offset_le(rows - 2, rows - 1, full_dim);
        }
        lemma_head_gathered_at(dst, src, rows - 1, full_dim, head_dim, head_offset);
        lemma_head_gathered_len(dst, src, rows - 1, full_dim, head_dim, head_offset);
        assert forall|r: int, c: int| 0 <= r < rows && 0 <= c < head_dim implies #[trigger] head_gathered(
            dst,
            src,
            rows,
            full_dim,
            head_dim,
            head_offset,
        )[r * head_dim + c] == src[r * full_dim + head_offset + c] by {
            lemma_row_offset_le(r, rows, head_dim);
            lemma_window_at(prev, (rows - 1) * head_dim, src, (rows - 1) * full_dim + head_offset, head_dim, r * head_dim + c);
            if r < rows - 1 {
                lemma_row_offset_le(r, rows - 1, head_dim);
            } else {
                assert(r * head_dim == (rows - 1) * head_dim);
            }
        }
        assert forall|i: int| rows * head_dim <= i < dst.len() implies #[trigger] head_gathered(
            dst,
            src,
            rows,
            full_dim,
            head_dim,
            head_offset,
        )[i] == dst[i] by {
            lemma_window_at(prev, (rows - 1) * head_dim, src, (rows - 1) * full_dim + head_offset, head_dim, i);
        }
    }
}

/// When the head lies inside a row, column `c` of the head in row `r` of a
/// scattered buffer holds element `c` of row `r` of the source.
proof fn lemma_head_scattered_at<T>(dst: Seq<T>, src: Seq<T>, rows: int, full_dim: int, head_dim: int, head_offset: int)
    requires
        rows >= 0,
        full_dim >= 0,
        head_dim >= 0,
        head_offset >= 0,
        head_offset + head_dim <= full_dim,
        rows * head_dim <= src.len(),
        rows == 0 || (rows - 1) * full_dim + head_offset + head_dim <= dst.len(),
    ensures
        forall|r: int, c: int|
            0 <= r < rows && 0 <= c < head_dim ==> #[trigger] head_scattered(dst, src, rows, full_dim, head_dim, head_offset)[r
                * full_dim + head_offset + c] == src[r * head_dim + c],
    decreases rows,
{
    if rows > 0 {
        let prev = head_scattered(dst, src, rows - 1, full_dim, head_dim, head_offset);
        lemma_row_offset_le(rows - 1, rows, head_dim);
        lemma_row_offset_le(rows - 1, rows, full_dim);
        if rows > 1 {
            lemma_row_offset_le(rows - 2, rows - 1, full_dim);
            lemma_row_offset_le(rows - 2, rows - 1, head_dim);
        }
        lemma_head_scattered_at(dst, src, rows - 1, full_dim, head_dim, head_offset);
        lemma_head_scattered_len(dst, src, rows - 1, full_dim, head_dim, head_offset);
        assert forall|r: int, c: int| 0 <= r < rows && 0 <= c < head_dim implies #[trigger] head_scattered(
            dst,
            src,
            rows,
            full_dim,
            head_dim,
            head_offset,
        )[r * full_dim + head_offset + c] == src[r * head_dim + c] by {
            lemma_row_offset_le(r, rows, full_dim);
            lemma_row_offset_le(r, rows, head_dim);
            assert(r * full_dim <= (rows - 1) * full_dim) by (nonlinear_arith)
                requires
                    0 <= r < rows,
                    full_dim >= 0,
            ;
            lemma_window_at(
                prev,
                (rows - 1) * full_dim + head_offset,
                src,
                (rows - 1) * head_dim,
                head_dim,
                r * full_dim + head_offset + c,
            );
            if r < rows - 1 {
                lemma_row_offset_le(r, rows - 1, full_dim);
                assert(r * full_dim + full_dim <= (rows - 1) * full_dim);
            } else {
                assert(r * full_dim == (rows - 1) * full_dim);
                assert(r * head_dim == (rows - 1) * head_dim);
            }
        }
    }
}

/// Index `i` lies outside the head's columns of full row `r`.
pub open spec fn outside_head_of_row(i: int, r: int, full_dim: int, head_dim: int, head_offset: int) -> bool {
    i < r * full_dim + head_offset || i >= r * full_dim + head_offset + head_dim
}

/// Scattering writes only the head's columns of the first `rows` rows:
/// every other element of the destination keeps its value.
pub proof fn lemma_scatter_leaves_the_rest<T>(
    dst: Seq<T>,
    src: Seq<T>,
    rows: int,
    full_dim: int,
    head_dim: int,
    head_offset: int,
    i: int,
)
    requires
        rows >= 0,
        full_dim >= 0,
        head_dim >= 0,
        head_offset >= 0,
        rows * head_dim <= src.len(),
        rows == 0 || (rows - 1) * full_dim + head_offset + head_dim <= dst.len(),
        0 <= i < dst.len(),
        forall|r: int| 0 <= r < rows ==> #[trigger] outside_head_of_row(i, r, full_dim, head_dim, head_offset),
    ensures
        head_scattered(dst, src, rows, full_dim, head_dim, head_offset)[i] == dst[i],
    decreases rows,
{
    if rows > 0 {
        lemma_row_offset_le(rows - 1, rows, head_dim);
        lemma_row_offset_le(rows - 1, rows, full_dim);
        if rows > 1 {
            lemma_row_offset_le(rows - 2, rows - 1, full_dim);
            lemma_row_offset_le(rows - 2, rows - 1, head_dim);
        }
        assert(outside_head_of_row(i, rows - 1, full_dim, head_dim, head_offset));
        lemma_scatter_leaves_the_rest(dst, src, rows - 1, full_dim, head_dim, head_offset, i);
        lemma_head_scattered_len(dst, src, rows - 1, full_dim, head_dim, head_offset);
        lemma_window_at(
            head_scattered(dst, src, rows - 1, full_dim, head_dim, head_offset),
            (rows - 1) * full_dim + head_offset,
            src,
            (rows - 1) * head_dim,
            head_dim,
            i,
        );
    }
}

/// Gathering a head back out of rows it was just scattered into gives the
/// scattered rows back, provided the head lies inside a row.
pub proof fn lemma_gather_undoes_scatter<T>(
    full: Seq<T>,
    heads: Seq<T>,
    out: Seq<T>,
    rows: int,
    full_dim: int,
    head_dim: int,
    head_offset: int,
)
    requires
        rows >= 0,
        head_dim >= 0,
        head_offset >= 0,
        head_offset + head_dim <= full_dim,
        rows * head_dim <= heads.len(),
        rows * head_dim <= out.len(),
        rows == 0 || (rows - 1) * full_dim + head_offset + head_dim <= full.len(),
    ensures
        head_gathered(
            out,
            head_scattered(full, heads, rows, full_dim, head_dim, head_offset),
            rows,
            full_dim,
            head_dim,
            head_offset,
        ).take(rows * head_dim) == heads.take(rows * head_dim),
{
    let scattered = head_scattered(full, heads, rows, full_dim, head_dim, head_offset);
    let gathered = head_gathered(out, scattered, rows, full_dim, head_dim, head_offset);
    lemma_head_scattered_at(full, heads, rows, full_dim, head_dim, head_offset);
    if rows > 0 {
        lemma_head_scattered_len(full, heads, rows, full_dim, head_dim, head_offset);
    }
    lemma_head_gathered_at(out, scattered, rows, full_dim, head_dim, head_offset);
    if rows > 0 {
        lemma_head_gathered_len(out, scattered, rows, full_dim, head_dim, head_offset);
    }
    assert forall|i: int| 0 <= i < rows * head_dim implies #[trigger] gathered[i] == heads[i] by {
        let r = i / head_dim;
        let c = i % head_dim;
        assert(i == r * head_dim + c && 0 <= c < head_dim && 0 <= r < rows) by (nonlinear_arith)
            requires
                0 <= i < rows * head_dim,
                head_dim > 0,
                r == i / head_dim,
                c == i % head_dim,
        ;
        assert(gathered[r * head_dim + c] == scattered[r * full_dim + head_offset + c]);
        assert(scattered[r * full_dim + head_offset + c] == heads[r * head_dim + c]);
    }
    assert(gathered.take(rows * head_dim) =~= heads.take(rows * head_dim));
}

/// Copies one head's columns of each of `seq_len` full rows of `src` into
/// the rows of `dst`.
pub fn head_gather<T: Copy>(
    src: &[T],
    dst: &mut Vec<T>,
    seq_len: usize,
    full_dim: usize,
    head_dim: usize,
    head_offset: usize,
)
    requires
        seq_len == 0 || seq_len * head_dim <= old(dst)@.len(),
        seq_len == 0 || (seq_len - 1) * full_dim + head_offset + head_dim <= src@.len(),
    ensures
        final(dst)@ == head_gathered(old(dst)@, src@, seq_len as int, full_dim as int, head_dim as int, head_offset as int),
        final(dst)@.len() == old(dst)@.len(),
{
    let dst_len = dst.len();
    let src_len = src.len();
    let mut row: usize = 0;
    while row < seq_len
        invariant
            dst_len == old(dst)@.len(),
            src_len == src@.len(),
            row <= seq_len,
            seq_len == 0 || seq_len * head_dim <= old(dst)@.len(),
            seq_len == 0 || (seq_len - 1) * full_dim + head_offset + head_dim <= src@.len(),
            dst@ == head_gathered(old(dst)@, src@, row as int, full_dim as int, head_dim as int, head_offset as int),
            dst@.len() == old(dst)@.len(),
        decreases seq_len - row,
    {
        proof {
            lemma_row_offset_le(row as int, seq_len as int, head_dim as int);
            lemma_row_offset_le(row as int, seq_len as int, full_dim as int);
            assert(row * full_dim <= (seq_len - 1) * full_dim) by (nonlinear_arith)
                requires
                    row < seq_len,
            ;
        }
        let src_off = row * full_dim + head_offset;
        let dst_off = row * head_dim;
        copy_window(dst, dst_off, src, src_off, head_dim);
        row = row + 1;
    }
}

/// Copies the rows of `src` into one head's columns of each of `seq_len`
/// full rows of `dst`.
pub fn head_scatter<T: Copy>(
    src: &[T],
    dst: &mut Vec<T>,
    seq_len: usize,
    full_dim: usize,
    head_dim: usize,
    head_offset: usize,
)
    requires
        seq_len == 0 || seq_len * head_dim <= src@.len(),
        seq_len == 0 || (seq_len - 1) * full_dim + head_offset + head_dim <= old(dst)@.len(),
    ensures
        final(dst)@ == head_scattered(old(dst)@, src@, seq_len as int, full_dim as int, head_dim as int, head_offset as int),
        final(dst)@.len() == old(dst)@.len(),
{
    let dst_len = dst.len();
    let src_len = src.len();
    let mut row: usize = 0;
    while row < seq_len
        invariant
            dst_len == old(dst)@.len(),
            src_len == src@.len(),
            row <= seq_len,
            seq_len == 0 || seq_len * head_dim <= src@.len(),
            seq_len == 0 || (seq_len - 1) * full_dim + head_offset + head_dim <= old(dst)@.len(),
            dst@ == head_scattered(old(dst)@, src@, row as int, full_dim as int, head_dim as int, head_offset as int),
            dst@.len() == old(dst)@.len(),
        decreases seq_len - row,
    {
        proof {
            lemma_row_offset_le(row as int, seq_len as int, head_dim as int);
            lemma_row_offset_le(row as int, seq_len as int, full_dim as int);
            assert(row * full_dim <= (seq_len - 1) * full_dim) by (nonlinear_arith)
                requires
                    row < seq_len,
            ;
        }
        let src_off = row * head_dim;
        let dst_off = row * full_dim + head_offset;
        copy_window(dst, dst_off, src, src_off, head_dim);
        row = row + 1;
    }
}


// ---------------------------------------------------------------------------
// Embedding: one weight row per token
// ---------------------------------------------------------------------------

/// The output after the first `rows` tokens are looked up: starts as
/// `seq_len * embed_dim` copies of `zero`; a token below `vocab_size` gets
/// its weight row copied into its output row, any other token leaves its
/// row at `zero`.
pub open spec fn embedded<T>(
    tokens: Seq<u32>,
    weight: Seq<T>,
    zero: T,
    vocab_size: u32,
    embed_dim: int,
    seq_len: int,
    rows: int,
) -> Seq<T>
    decreases rows,
{
    if rows <= 0 {
        Seq::new((seq_len * embed_dim) as nat, |i: int| zero)
    } else {
        let prev = embedded(tokens, weight, zero, vocab_size, embed_dim, seq_len, rows - 1);
        let token = tokens[rows - 1];
        if token < vocab_size {
            window_written(prev, (rows - 1) * embed_dim, weight, token * embed_dim, embed_dim)
        } else {
            prev
        }
    }
}

proof fn lemma_embedded_len<T>(
    tokens: Seq<u32>,
    weight: Seq<T>,
    zero: T,
    vocab_size: u32,
    embed_dim: int,
    seq_len: int,
    rows: int,
)
    requires
        embed_dim >= 0,
        seq_len >= 0,
        rows <= seq_len,
        rows <= tokens.len(),
        forall|t: int| 0 <= t < rows && tokens[t] < vocab_size ==> #[trigger] tokens[t] * embed_dim + embed_dim <= weight.len(),
    ensures
        embedded(tokens, weight, zero, vocab_size, embed_dim, seq_len, rows).len() == seq_len * embed_dim,
    decreases rows,
{
    assert(seq_len * embed_dim >= 0) by (nonlinear_arith)
        requires
            embed_dim >= 0,
            seq_len >= 0,
    ;
    if rows > 0 {
        lemma_embedded_len(tokens, weight, zero, vocab_size, embed_dim, seq_len, rows - 1);
        lemma_row_offset_le(rows - 1, seq_len, embed_dim);
        let token = tokens[rows - 1];
        if token < vocab_size {
            assert(token * embed_dim >= 0) by (nonlinear_arith)
                requires
                    embed_dim >= 0,
            ;
        }
    }
}

/// Looks up the weight row of each of the first `seq_len` tokens.
pub fn embedding<T: Copy>(
    tokens: &[u32],
    weight: &[T],
    zero: T,
    vocab_size: u32,
    embed_dim: usize,
    seq_len: usize,
) -> (out: Vec<T>)
    requires
        seq_len <= tokens@.len(),
        seq_len * embed_dim <= usize::MAX,
        forall|t: int|
            0 <= t < seq_len && tokens@[t] < vocab_size ==> #[trigger] tokens@[t] * embed_dim + embed_dim
                <= weight@.len(),
    ensures
        out@ == embedded(tokens@, weight@, zero, vocab_size, embed_dim as int, seq_len as int, seq_len as int),
{
    let total = seq_len * embed_dim;
    let mut out: Vec<T> = Vec::new();
    let mut i: usize = 0;
    while i < total
        invariant
            i <= total,
            out@ == Seq::new(i as nat, |k: int| zero),
        decreases total - i,
    {
        out.push(zero);
        i = i + 1;
        assert(out@ =~= Seq::new(i as nat, |k: int| zero));
    }
    let weight_len = weight.len();
    let mut t: usize = 0;
    while t < seq_len
        invariant
            t <= seq_len,
            seq_len <= tokens@.len(),
            weight_len == weight@.len(),
            total == seq_len * embed_dim,
            forall|u: int|
                0 <= u < seq_len && tokens@[u] < vocab_size ==> #[trigger] tokens@[u] * embed_dim + embed_dim
                    <= weight@.len(),
            out@ == embedded(tokens@, weight@, zero, vocab_size, embed_dim as int, seq_len as int, t as int),
        decreases seq_len - t,
    {
        proof {
            lemma_embedded_len(tokens@, weight@, zero, vocab_size, embed_dim as int, seq_len as int, t as int);
            lemma_row_offset_le(t as int, seq_len as int, embed_dim as int);
        }
        let token = tokens[t];
        if token < vocab_size {
            proof {
                assert(tokens@[t as int] * embed_dim + embed_dim <= weight@.len());
                assert(token * embed_dim >= 0) by (nonlinear_arith);
            }
            let w_off = token as usize * embed_dim;
            let o_off = t * embed_dim;
            copy_window(&mut out, o_off, weight, w_off, embed_dim);
        }
        t = t + 1;
    }
    out
}

// ---------------------------------------------------------------------------
// Binding lookup and meta decoding
// ---------------------------------------------------------------------------

/// The first binding bound to `slot`.
pub fn find(bindings: &[CpuBinding], slot: u32) -> (r: &CpuBinding)
    requires
        exists|i: int| 0 <= i < bindings@.len() && (#[trigger] bindings@[i]).slot == slot,
    ensures
        exists|i: int|
            0 <= i < bindings@.len() && (#[trigger] bindings@[i]).slot == slot && *r == bindings@[i] && forall|j: int|
                0 <= j < i ==> (#[trigger] bindings@[j]).slot != slot,
{
    let mut i: usize = 0;
    while i < bindings.len()
        invariant
            i <= bindings@.len(),
            exists|k: int| 0 <= k < bindings@.len() && (#[trigger] bindings@[k]).slot == slot,
            forall|j: int| 0 <= j < i ==> (#[trigger] bindings@[j]).slot != slot,
        decreases bindings@.len() - i,
    {
        if bindings[i].slot == slot {
            return &bindings[i];
        }
        i = i + 1;
    }
    proof {
        let k = choose|k: int| 0 <= k < bindings@.len() && (#[trigger] bindings@[k]).slot == slot;
        assert(bindings@[k].slot != slot);
    }
    &bindings[0]
}

/// Byte `i` of `bytes`, or zero past its end.
pub open spec fn byte_or_zero(bytes: Seq<u8>, i: int) -> nat {
    if 0 <= i < bytes.len() {
        bytes[i] as nat
    } else {
        0
    }
}

/// Word `k` of `bytes`: its four bytes read least significant first when
/// `little`, most significant first otherwise; bytes past the end read as
/// zero.
pub open spec fn meta_word(bytes: Seq<u8>, k: int, little: bool) -> u32 {
    let b0 = byte_or_zero(bytes, 4 * k);
    let b1 = byte_or_zero(bytes, 4 * k + 1);
    let b2 = byte_or_zero(bytes, 4 * k + 2);
    let b3 = byte_or_zero(bytes, 4 * k + 3);
    if little {
        (b0 + 256 * b1 + 65536 * b2 + 16777216 * b3) as u32
    } else {
        (b3 + 256 * b2 + 65536 * b1 + 16777216 * b0) as u32
    }
}

/// The words of a meta buffer read in one byte order, the last one
/// zero-padded.
pub open spec fn meta_words(bytes: Seq<u8>, little: bool) -> Seq<u32> {
    Seq::new(((bytes.len() + 3) / 4) as nat, |k: int| meta_word(bytes, k, little))
}

/// `bytemuck::pod_collect_to_vec::<u8, u32>`: the bytes copied into a
/// zeroed vector of just enough 32-bit words, so each word is four bytes
/// read in the machine's byte order and the last one is zero-padded. Which
/// byte order that is, the contract leaves open.
#[verifier::external_body]
fn collect_words(bytes: &[u8]) -> (w: Vec<u32>)
    ensures
        exists|little: bool| w@ == meta_words(bytes@, little),
{
    bytemuck::pod_collect_to_vec::<u8, u32>(bytes)
}

/// The words of a meta buffer, in the machine's byte order. The buffer
/// holds whole words.
pub fn read_u32(bytes: &[u8]) -> (w: Vec<u32>)
    requires
        bytes@.len() % 4 == 0,
    ensures
        exists|little: bool| w@ == meta_words(bytes@, little),
{
    collect_words(bytes)
}

/// Why a kernel cannot run on the buffers and meta it was given.
#[derive(Debug, Clone, Copy, PartialEq, Eq, Structural)]
pub enum KernelError {
    /// The meta buffer's length, `bytes`, is not a whole number of words.
    MetaNotWords { bytes: usize },
    /// The meta buffer holds fewer words than the kernel reads.
    MetaTooShort { needed: usize, words: usize },
    /// A window the meta describes lies outside one of the buffers.
    OutOfBounds,
}

/// The words `a * b + c` computed without overflow, when they fit.
fn checked_mul_add(a: usize, b: usize, c: usize) -> (r: Option<usize>)
    ensures
        r matches Some(v) ==> v == a * b + c,
        r is None ==> a * b + c > usize::MAX,
{
    match a.checked_mul(b) {
        Some(p) => p.checked_add(c),
        None => {
            assert(a * b + c > usize::MAX) by (nonlinear_arith)
                requires
                    a * b > usize::MAX,
                    c >= 0,
            ;
            None
        },
    }
}

/// What CacheWrite does with meta words `[row_count, width, dst_row_offset]`:
/// the error when it refuses, and the destination after.
pub open spec fn cache_write_outcome<T>(src: Seq<T>, dst: Seq<T>, words: Seq<u32>) -> (Result<(), KernelError>, Seq<T>) {
    if words.len() < 3 {
        (Err(KernelError::MetaTooShort { needed: 3, words: words.len() as usize }), dst)
    } else {
        let rows = words[0] as int;
        let width = words[1] as int;
        let offset = words[2] as int;
        if rows > 0 && width > 0 && (offset + rows > usize::MAX || (offset + rows) * width > dst.len() || rows
            * width > src.len()) {
            (Err(KernelError::OutOfBounds), dst)
        } else {
            (Ok(()), cache_written(dst, src, rows, width, offset))
        }
    }
}

/// Rows of width zero write nothing.
proof fn lemma_cache_written_no_width<T>(dst: Seq<T>, src: Seq<T>, rows: int, dst_row_offset: int)
    ensures
        cache_written(dst, src, rows, 0, dst_row_offset) == dst,
    decreases rows,
{
    if rows > 0 {
        lemma_cache_written_no_width(dst, src, rows - 1, dst_row_offset);
        assert((dst_row_offset + rows - 1) * 0 == 0);
        assert((rows - 1) * 0 == 0);
        assert(dst.take(0) + src.subrange(0, 0) + dst.skip(0) =~= dst);
    }
}

/// CacheWrite on decoded meta words: refuses words that describe rows
/// outside either buffer.
pub fn cache_write_from_words<T: Copy>(src: &[T], dst: &mut Vec<T>, words: &[u32]) -> (r: Result<(), KernelError>)
    ensures
        (r, final(dst)@) == cache_write_outcome(src@, old(dst)@, words@),
{
    if words.len() < 3 {
        return Err(KernelError::MetaTooShort { needed: 3, words: words.len() });
    }
    let row_count = words[0] as usize;
    let width = words[1] as usize;
    let dst_row_offset = words[2] as usize;
    let dst_len = dst.len();
    let src_len = src.len();
    if width == 0 {
        proof {
            lemma_cache_written_no_width(dst@, src@, row_count as int, dst_row_offset as int);
        }
        return Ok(());
    }
    if row_count > 0 {
        let last = match dst_row_offset.checked_add(row_count) {
            Some(v) => v,
            None => {
                return Err(KernelError::OutOfBounds);
            },
        };
        match checked_mul_add(last, width, 0) {
            Some(v) => {
                if v > dst.len() {
                    return Err(KernelError::OutOfBounds);
                }
            },
            None => {
                return Err(KernelError::OutOfBounds);
            },
        }
        match checked_mul_add(row_count, width, 0) {
            Some(v) => {
                if v > src.len() {
                    return Err(KernelError::OutOfBounds);
                }
            },
            None => {
                return Err(KernelError::OutOfBounds);
            },
        }
    }
    cache_write(src, dst, row_count, width, dst_row_offset);
    Ok(())
}

/// CacheWrite as the CPU backend runs it, on the raw meta buffer.
pub fn run_cache_write<T: Copy>(src: &[T], dst: &mut Vec<T>, meta: &[u8]) -> (r: Result<(), KernelError>)
    ensures
        meta@.len() % 4 != 0 ==> r == Err::<(), KernelError>(KernelError::MetaNotWords { bytes: meta@.len() as usize })
            && final(dst)@ == old(dst)@,
        meta@.len() % 4 == 0 ==> exists|little: bool| #![trigger meta_words(meta@, little)] (r, final(dst)@) == cache_write_outcome(src@, old(dst)@, meta_words(meta@, little)),
{
    if meta.len() % 4 != 0 {
        return Err(KernelError::MetaNotWords { bytes: meta.len() });
    }
    let words = read_u32(meta);
    let ghost little = choose|little: bool| words@ == meta_words(meta@, little);
    cache_write_from_words(src, dst, words.as_slice())
}

/// What HeadGather (`gather`) or HeadScatter does with meta words
/// `[seq_len, full_dim, head_dim, head_offset]`: the error when it refuses,
/// and the destination after.
pub open spec fn head_move_outcome<T>(src: Seq<T>, dst: Seq<T>, words: Seq<u32>, gather: bool) -> (Result<(), KernelError>, Seq<T>) {
    if words.len() < 4 {
        (Err(KernelError::MetaTooShort { needed: 4, words: words.len() as usize }), dst)
    } else {
        let seq_len = words[0] as int;
        let full_dim = words[1] as int;
        let head_dim = words[2] as int;
        let head_offset = words[3] as int;
        let (full_len, head_len) = if gather { (src.len(), dst.len()) } else { (dst.len(), src.len()) };
        if seq_len > 0 && !(seq_len * head_dim <= head_len && (seq_len - 1) * full_dim + head_offset + head_dim
            <= full_len) {
            (Err(KernelError::OutOfBounds), dst)
        } else if gather {
            (Ok(()), head_gathered(dst, src, seq_len, full_dim, head_dim, head_offset))
        } else {
            (Ok(()), head_scattered(dst, src, seq_len, full_dim, head_dim, head_offset))
        }
    }
}

/// HeadGather on decoded meta words: refuses words that describe windows
/// outside either buffer.
pub fn head_gather_from_words<T: Copy>(src: &[T], dst: &mut Vec<T>, words: &[u32]) -> (r: Result<(), KernelError>)
    ensures
        (r, final(dst)@) == head_move_outcome(src@, old(dst)@, words@, true),
{
    if words.len() < 4 {
        return Err(KernelError::MetaTooShort { needed: 4, words: words.len() });
    }
    let seq_len = words[0] as usize;
    let full_dim = words[1] as usize;
    let head_dim = words[2] as usize;
    let head_offset = words[3] as usize;
    if seq_len > 0 {
        if !rows_fit(seq_len, full_dim, head_dim, head_offset, src.len(), dst.len()) {
            return Err(KernelError::OutOfBounds);
        }
    }
    head_gather(src, dst, seq_len, full_dim, head_dim, head_offset);
    Ok(())
}

/// HeadGather as the CPU backend runs it, on the raw meta buffer.
pub fn run_head_gather<T: Copy>(src: &[T], dst: &mut Vec<T>, meta: &[u8]) -> (r: Result<(), KernelError>)
    ensures
        meta@.len() % 4 != 0 ==> r == Err::<(), KernelError>(KernelError::MetaNotWords { bytes: meta@.len() as usize })
            && final(dst)@ == old(dst)@,
        meta@.len() % 4 == 0 ==> exists|little: bool| #![trigger meta_words(meta@, little)] (r, final(dst)@) == head_move_outcome(src@, old(dst)@, meta_words(meta@, little), true),
{
    if meta.len() % 4 != 0 {
        return Err(KernelError::MetaNotWords { bytes: meta.len() });
    }
    let words = read_u32(meta);
    let ghost little = choose|little: bool| words@ == meta_words(meta@, little);
    head_gather_from_words(src, dst, words.as_slice())
}

/// HeadScatter on decoded meta words: refuses words that describe windows
/// outside either buffer.
pub fn head_scatter_from_words<T: Copy>(src: &[T], dst: &mut Vec<T>, words: &[u32]) -> (r: Result<(), KernelError>)
    ensures
        (r, final(dst)@) == head_move_outcome(src@, old(dst)@, words@, false),
{
    if words.len() < 4 {
        return Err(KernelError::MetaTooShort { needed: 4, words: words.len() });
    }
    let seq_len = words[0] as usize;
    let full_dim = words[1] as usize;
    let head_dim = words[2] as usize;
    let head_offset = words[3] as usize;
    if seq_len > 0 {
        if !rows_fit(seq_len, full_dim, head_dim, head_offset, dst.len(), src.len()) {
            return Err(KernelError::OutOfBounds);
        }
    }
    head_scatter(src, dst, seq_len, full_dim, head_dim, head_offset);
    Ok(())
}

/// HeadScatter as the CPU backend runs it, on the raw meta buffer.
pub fn run_head_scatter<T: Copy>(src: &[T], dst: &mut Vec<T>, meta: &[u8]) -> (r: Result<(), KernelError>)
    ensures
        meta@.len() % 4 != 0 ==> r == Err::<(), KernelError>(KernelError::MetaNotWords { bytes: meta@.len() as usize })
            && final(dst)@ == old(dst)@,
        meta@.len() % 4 == 0 ==> exists|little: bool| #![trigger meta_words(meta@, little)] (r, final(dst)@) == head_move_outcome(src@, old(dst)@, meta_words(meta@, little), false),
{
    if meta.len() % 4 != 0 {
        return Err(KernelError::MetaNotWords { bytes: meta.len() });
    }
    let words = read_u32(meta);
    let ghost little = choose|little: bool| words@ == meta_words(meta@, little);
    head_scatter_from_words(src, dst, words.as_slice())
}

/// `seq_len` rows of a head fit: the head rows (of `head_dim`) in a buffer
/// of `head_len`, and the head's columns of the full rows (of `full_dim`,
/// from column `head_offset`) in a buffer of `full_len`.
fn rows_fit(seq_len: usize, full_dim: usize, head_dim: usize, head_offset: usize, full_len: usize, head_len: usize) -> (r: bool)
    requires
        seq_len > 0,
    ensures
        r <==> (seq_len * head_dim <= head_len && (seq_len - 1) * full_dim + head_offset + head_dim <= full_len),
{
    let a = match checked_mul_add(seq_len, head_dim, 0) {
        Some(v) => v,
        None => {
            return false;
        },
    };
    if a > head_len {
        return false;
    }
    let b = match checked_mul_add(seq_len - 1, full_dim, head_offset) {
        Some(v) => v,
        None => {
            return false;
        },
    };
    match b.checked_add(head_dim) {
        Some(c) => c <= full_len,
        None => false,
    }
}

/// Some token among the first `seq_len` lies below `vocab_size` and its
/// weight row runs past the weights.
pub open spec fn token_row_outside<T>(tokens: Seq<u32>, weight: Seq<T>, vocab_size: u32, embed_dim: int, seq_len: int) -> bool {
    exists|t: int|
        0 <= t < seq_len && #[trigger] tokens[t] < vocab_size && tokens[t] * embed_dim + embed_dim > weight.len()
}

/// What Embedding does with meta words `[vocab_size, embed_dim, seq_len]`:
/// the error when it refuses, else the output.
pub open spec fn embedding_outcome<T>(tokens: Seq<u32>, weight: Seq<T>, zero: T, words: Seq<u32>) -> Result<Seq<T>, KernelError> {
    if words.len() < 3 {
        Err(KernelError::MetaTooShort { needed: 3, words: words.len() as usize })
    } else {
        let vocab_size = words[0];
        let embed_dim = words[1] as int;
        let seq_len = words[2] as int;
        if seq_len > tokens.len() || seq_len * embed_dim > usize::MAX || token_row_outside(
            tokens,
            weight,
            vocab_size,
            embed_dim,
            seq_len,
        ) {
            Err(KernelError::OutOfBounds)
        } else {
            Ok(embedded(tokens, weight, zero, vocab_size, embed_dim, seq_len, seq_len))
        }
    }
}

/// Embedding on decoded meta words: refuses words that read past the
/// tokens or past the weights.
pub fn embedding_from_words<T: Copy>(tokens: &[u32], weight: &[T], zero: T, words: &[u32]) -> (r: Result<Vec<T>, KernelError>)
    ensures
        r matches Err(e) ==> embedding_outcome(tokens@, weight@, zero, words@) == Err::<Seq<T>, KernelError>(e),
        r matches Ok(out) ==> embedding_outcome(tokens@, weight@, zero, words@) == Ok::<Seq<T>, KernelError>(out@),
{
    if words.len() < 3 {
        return Err(KernelError::MetaTooShort { needed: 3, words: words.len() });
    }
    let vocab_size = words[0];
    let embed_dim = words[1] as usize;
    let seq_len = words[2] as usize;
    if seq_len > tokens.len() {
        return Err(KernelError::OutOfBounds);
    }
    match checked_mul_add(seq_len, embed_dim, 0) {
        Some(_) => {},
        None => {
            return Err(KernelError::OutOfBounds);
        },
    }
    let weight_len = weight.len();
    let mut t: usize = 0;
    while t < seq_len
        invariant
            t <= seq_len <= tokens@.len(),
            weight_len == weight@.len(),
            words@.len() >= 3,
            vocab_size == words@[0],
            embed_dim == words@[1],
            seq_len == words@[2],
            seq_len * embed_dim <= usize::MAX,
            forall|u: int|
                0 <= u < t && tokens@[u] < vocab_size ==> #[trigger] tokens@[u] * embed_dim + embed_dim
                    <= weight@.len(),
        decreases seq_len - t,
    {
        let token = tokens[t];
        if token < vocab_size {
            match checked_mul_add(token as usize, embed_dim, embed_dim) {
                Some(end) => {
                    if end > weight_len {
                        proof {
                            assert(tokens@[t as int] * embed_dim + embed_dim > weight@.len());
                        }
                        return Err(KernelError::OutOfBounds);
                    }
                },
                None => {
                    proof {
                        assert(tokens@[t as int] * embed_dim + embed_dim > weight@.len());
                    }
                    return Err(KernelError::OutOfBounds);
                },
            }
        }
        t = t + 1;
    }
    proof {
        assert(!token_row_outside(tokens@, weight@, vocab_size, embed_dim as int, seq_len as int));
    }
    Ok(embedding(tokens, weight, zero, vocab_size, embed_dim, seq_len))
}

/// Embedding as the CPU backend runs it, on the raw meta buffer.
pub fn run_embedding<T: Copy>(tokens: &[u32], weight: &[T], zero: T, meta: &[u8]) -> (r: Result<Vec<T>, KernelError>)
    ensures
        meta@.len() % 4 != 0 ==> r == Err::<Vec<T>, KernelError>(KernelError::MetaNotWords { bytes: meta@.len() as usize }),
        meta@.len() % 4 == 0 ==> exists|little: bool| #![trigger meta_words(meta@, little)] {
            let outcome = embedding_outcome(tokens@, weight@, zero, meta_words(meta@, little));
            &&& r matches Err(e) ==> outcome == Err::<Seq<T>, KernelError>(e)
            &&& r matches Ok(out) ==> outcome == Ok::<Seq<T>, KernelError>(out@)
        },
{
    if meta.len() % 4 != 0 {
        return Err(KernelError::MetaNotWords { bytes: meta.len() });
    }
    let words = read_u32(meta);
    let ghost little = choose|little: bool| words@ == meta_words(meta@, little);
    embedding_from_words(tokens, weight, zero, words.as_slice())
}

/// What zeroing does with meta words `[len]`: the error when it refuses,
/// else `len` copies of `zero`.
pub open spec fn zero_tensor_outcome<T>(zero: T, words: Seq<u32>) -> Result<Seq<T>, KernelError> {
    if words.len() < 1 {
        Err(KernelError::MetaTooShort { needed: 1, words: words.len() as usize })
    } else {
        Ok(Seq::new(words[0] as nat, |i: int| zero))
    }
}

/// Zeroing on decoded meta words: the buffer becomes word 0 zero elements.
pub fn zero_tensor_from_words<T: Copy>(zero: T, words: &[u32]) -> (r: Result<Vec<T>, KernelError>)
    ensures
        r matches Err(e) ==> zero_tensor_outcome(zero, words@) == Err::<Seq<T>, KernelError>(e),
        r matches Ok(out) ==> zero_tensor_outcome(zero, words@) == Ok::<Seq<T>, KernelError>(out@),
{
    if words.len() < 1 {
        return Err(KernelError::MetaTooShort { needed: 1, words: words.len() });
    }
    let len = words[0] as usize;
    let mut out: Vec<T> = Vec::new();
    let mut i: usize = 0;
    while i < len
        invariant
            i <= len,
            out@ == Seq::new(i as nat, |j: int| zero),
        decreases len - i,
    {
        out.push(zero);
        i = i + 1;
        assert(out@ =~= Seq::new(i as nat, |j: int| zero));
    }
    Ok(out)
}

/// Zeroing as the CPU backend runs it, on the raw meta buffer: refuses an
/// empty meta buffer.
pub fn run_zero_tensor<T: Copy>(zero: T, meta: &[u8]) -> (r: Result<Vec<T>, KernelError>)
    ensures
        r is Err <==> meta@.len() == 0 || meta@.len() % 4 != 0,
        meta@.len() % 4 != 0 ==> r == Err::<Vec<T>, KernelError>(KernelError::MetaNotWords { bytes: meta@.len() as usize }),
        meta@.len() % 4 == 0 ==> exists|little: bool| #![trigger meta_words(meta@, little)] {
            let outcome = zero_tensor_outcome(zero, meta_words(meta@, little));
            &&& r matches Err(e) ==> outcome == Err::<Seq<T>, KernelError>(e)
            &&& r matches Ok(out) ==> outcome == Ok::<Seq<T>, KernelError>(out@)
        },
{
    if meta.len() % 4 != 0 {
        return Err(KernelError::MetaNotWords { bytes: meta.len() });
    }
    let words = read_u32(meta);
    let ghost little = choose|little: bool| words@ == meta_words(meta@, little);
    zero_tensor_from_words(zero, words.as_slice())
}

} // verus!
