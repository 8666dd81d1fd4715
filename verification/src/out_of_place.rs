//! Transposition out of place: from one buffer into another, tile by tile.

use vstd::arithmetic::div_mod::lemma_fundamental_div_mod_converse;
use vstd::prelude::*;

verus! {

/// Edge length of the square tiles in which a matrix is walked. A tile of
/// this size keeps both the rows that are read and the columns that are
/// written within a few cache lines.
pub const BLOCK_SIZE: usize = 16;

/// Position, in a row-major buffer whose rows hold `row_length` elements, of
/// the element in column `column` of row `row`.
pub open spec fn flat_index(column: int, row: int, row_length: int) -> int {
    column + row * row_length
}

/// The transpose of `input`, read as a row-major matrix with `height` rows
/// of `width` elements each: a row-major matrix with `width` rows of
/// `height` elements, whose row `x` is column `x` of `input`.
pub open spec fn transposed<T>(input: Seq<T>, width: int, height: int) -> Seq<T> {
    Seq::new(
        (width * height) as nat,
        |i: int| input[flat_index(i / height, i % height, width)],
    )
}

/// The cell `(x, y)` lies in the tile that starts at `(start_x, start_y)`.
pub open spec fn in_tile(
    x: int,
    y: int,
    start_x: int,
    start_y: int,
    block_width: int,
    block_height: int,
) -> bool {
    start_x <= x < start_x + block_width && start_y <= y < start_y + block_height
}

/// A cell of a `width` by `height` grid has a flat index below
/// `width * height`, in the matrix and in its transpose.
proof fn lemma_cell_in_bounds(x: int, y: int, width: int, height: int)
    by (nonlinear_arith)
    requires
        0 <= x < width,
        0 <= y < height,
    ensures
        0 <= x + y * width < width * height,
        0 <= y + x * height < width * height,
{
}

/// Two cells of one grid with the same flat index are the same cell.
proof fn lemma_flat_index_injective(x1: int, y1: int, x2: int, y2: int, height: int)
    by (nonlinear_arith)
    requires
        0 <= y1 < height,
        0 <= y2 < height,
        y1 + x1 * height == y2 + x2 * height,
    ensures
        x1 == x2,
        y1 == y2,
{
}

/// Every flat index below `width * height` is that of the cell in column
/// `i / height` and row `i % height` of the transpose.
proof fn lemma_flat_index_split(i: int, width: int, height: int)
    by (nonlinear_arith)
    requires
        0 <= i < width * height,
        0 <= width,
        0 <= height,
    ensures
        0 < height,
        0 <= i / height < width,
        0 <= i % height < height,
        i == i % height + (i / height) * height,
{
}

/// Copies one tile of `input` to its place in the transpose. The tile need
/// not be square: the tiles at the right and bottom edges of a matrix whose
/// sides are no multiple of the tile size are narrower or shorter.
fn transpose_block<T: Copy>(
    input: &[T],
    output: &mut [T],
    width: usize,
    height: usize,
    start_x: usize,
    start_y: usize,
    block_width: usize,
    block_height: usize,
)
    requires
        input@.len() == width * height,
        old(output)@.len() == width * height,
        start_x + block_width <= width,
        start_y + block_height <= height,
    ensures
        final(output)@.len() == old(output)@.len(),
        forall|x: int, y: int|
            0 <= x < width && 0 <= y < height ==> final(output)@[#[trigger] flat_index(
                y,
                x,
                height as int,
            )] == (if in_tile(
                x,
                y,
                start_x as int,
                start_y as int,
                block_width as int,
                block_height as int,
            ) {
                input@[flat_index(x, y, width as int)]
            } else {
                old(output)@[flat_index(y, x, height as int)]
            }),
{
    let ghost before = output@;
    assert(width * height <= usize::MAX) by {
        assert(input.len() == input@.len());
    }
    for inner_x in 0..block_width
        invariant
            width * height <= usize::MAX,
            input@.len() == width * height,
            output@.len() == width * height,
            before.len() == width * height,
            start_x + block_width <= width,
            start_y + block_height <= height,
            forall|x: int, y: int|
                0 <= x < width && 0 <= y < height ==> output@[#[trigger] flat_index(
                    y,
                    x,
                    height as int,
                )] == if in_tile(
                    x,
                    y,
                    start_x as int,
                    start_y as int,
                    inner_x as int,
                    block_height as int,
                ) {
                    input@[flat_index(x, y, width as int)]
                } else {
                    before[flat_index(y, x, height as int)]
                },
    {
        for inner_y in 0..block_height
            invariant
                width * height <= usize::MAX,
                input@.len() == width * height,
                output@.len() == width * height,
                before.len() == width * height,
                inner_x < block_width,
                start_x + block_width <= width,
                start_y + block_height <= height,
                forall|x: int, y: int|
                    0 <= x < width && 0 <= y < height ==> output@[#[trigger] flat_index(
                        y,
                        x,
                        height as int,
                    )] == if in_tile(
                        x,
                        y,
                        start_x as int,
                        start_y as int,
                        inner_x as int,
                        block_height as int,
                    ) || in_tile(x, y, start_x + inner_x, start_y as int, 1, inner_y as int) {
                        input@[flat_index(x, y, width as int)]
                    } else {
                        before[flat_index(y, x, height as int)]
                    },
        {
            let x: usize = start_x + inner_x;
            let y: usize = start_y + inner_y;
            proof {
                lemma_cell_in_bounds(x as int, y as int, width as int, height as int);
            }
            let input_index: usize = x + y * width;
            let output_index: usize = y + x * height;
            let ghost earlier = output@;
            output[output_index] = input[input_index];
            proof {
                assert forall|x2: int, y2: int|
                    0 <= x2 < width && 0 <= y2 < height && !(x2 == x && y2 == y) implies output@[
                    #[trigger] flat_index(y2, x2, height as int)] == earlier[flat_index(
                    y2,
                    x2,
                    height as int,
                )] by {
                    lemma_cell_in_bounds(x2, y2, width as int, height as int);
                    if y2 + x2 * height == y + x * height {
                        lemma_flat_index_injective(x2, y2, x as int, y as int, height as int);
                    }
                }
            }
        }
    }
}

/// The part of the transpose that is in place while the tiles are walked:
/// the first `done_rows` rows of `input`, and of the rows from there up to
/// `row_end` the first `done_columns` columns.
spec fn transposed_so_far<T>(
    input: Seq<T>,
    output: Seq<T>,
    width: int,
    height: int,
    done_rows: int,
    row_end: int,
    done_columns: int,
) -> bool {
    forall|x: int, y: int|
        0 <= x < width && 0 <= y < height && (y < done_rows || (y < row_end && x < done_columns))
            ==> output[#[trigger] flat_index(y, x, height)] == input[flat_index(x, y, width)]
}

/// Transposes `input`, a row-major matrix with `height` rows of `width`
/// elements each, into `output`, which then holds `width` rows of `height`
/// elements each: the element in column `x` of row `y` of `input` is the
/// element in column `y` of row `x` of `output`.
///
/// The matrix is walked in square tiles of `BLOCK_SIZE` by `BLOCK_SIZE`
/// elements, row of tiles by row of tiles. Where a side is no multiple of
/// the tile size, narrower tiles cover the right edge and shorter ones the
/// bottom edge.
pub fn transpose<T: Copy>(input: &[T], output: &mut [T], width: usize, height: usize)
    requires
        input@.len() == width * height,
        old(output)@.len() == width * height,
    ensures
        final(output)@ == transposed(input@, width as int, height as int),
        final(output)@.len() == width * height,
        forall|x: int, y: int|
            0 <= x < width && 0 <= y < height ==> final(output)@[#[trigger] flat_index(
                y,
                x,
                height as int,
            )] == input@[flat_index(x, y, width as int)],
{
    let x_block_count: usize = width / BLOCK_SIZE;
    let y_block_count: usize = height / BLOCK_SIZE;

    let remainder_x: usize = width - x_block_count * BLOCK_SIZE;
    let remainder_y: usize = height - y_block_count * BLOCK_SIZE;

    for y_block in 0..y_block_count
        invariant
            input@.len() == width * height,
            output@.len() == width * height,
            x_block_count == width / BLOCK_SIZE,
            y_block_count == height / BLOCK_SIZE,
            remainder_x == width % BLOCK_SIZE,
            transposed_so_far(
                input@,
                output@,
                width as int,
                height as int,
                y_block * BLOCK_SIZE,
                0,
                0,
            ),
    {
        for x_block in 0..x_block_count
            invariant
                input@.len() == width * height,
                output@.len() == width * height,
                x_block_count == width / BLOCK_SIZE,
                y_block < height / BLOCK_SIZE,
                transposed_so_far(
                    input@,
                    output@,
                    width as int,
                    height as int,
                    y_block * BLOCK_SIZE,
                    y_block * BLOCK_SIZE + BLOCK_SIZE,
                    x_block * BLOCK_SIZE,
                ),
        {
            transpose_block(
                input,
                output,
                width,
                height,
                x_block * BLOCK_SIZE,
                y_block * BLOCK_SIZE,
                BLOCK_SIZE,
                BLOCK_SIZE,
            );
        }

        // The columns that are left where the width is no multiple of the
        // tile size.
        if remainder_x > 0 {
            transpose_block(
                input,
                output,
                width,
                height,
                width - remainder_x,
                y_block * BLOCK_SIZE,
                remainder_x,
                BLOCK_SIZE,
            );
        }
    }

    // The rows that are left where the height is no multiple of the tile
    // size.
    if remainder_y > 0 {
        for x_block in 0..x_block_count
            invariant
                input@.len() == width * height,
                output@.len() == width * height,
                x_block_count == width / BLOCK_SIZE,
                remainder_y == height % BLOCK_SIZE,
                transposed_so_far(
                    input@,
                    output@,
                    width as int,
                    height as int,
                    height - remainder_y,
                    height as int,
                    x_block * BLOCK_SIZE,
                ),
        {
            transpose_block(
                input,
                output,
                width,
                height,
                x_block * BLOCK_SIZE,
                height - remainder_y,
                BLOCK_SIZE,
                remainder_y,
            );
        }

        // The corner that is left where neither side is a multiple of the
        // tile size.
        if remainder_x > 0 {
            transpose_block(
                input,
                output,
                width,
                height,
                width - remainder_x,
                height - remainder_y,
                remainder_x,
                remainder_y,
            );
        }
    }
    proof {
        let result = output@;
        let expected = transposed(input@, width as int, height as int);
        assert forall|i: int| 0 <= i < result.len() implies result[i] == expected[i] by {
            lemma_flat_index_split(i, width as int, height as int);
            assert(i == flat_index(i % (height as int), i / (height as int), height as int));
        }
        assert(result =~= expected);
    }
}

/// The flat index of a cell splits back into the cell: divided by the row
/// length it gives the row, with the column as remainder.
proof fn lemma_flat_index_parts(column: int, row: int, row_length: int)
    requires
        0 <= column < row_length,
    ensures
        flat_index(column, row, row_length) / row_length == row,
        flat_index(column, row, row_length) % row_length == column,
{
    lemma_fundamental_div_mod_converse(
        flat_index(column, row, row_length),
        row_length,
        row,
        column,
    );
}

/// The transpose holds, in column `y` of its row `x`, the element in column
/// `x` of row `y` of the matrix.
pub proof fn lemma_transposed_cell<T>(input: Seq<T>, width: int, height: int, x: int, y: int)
    requires
        input.len() == width * height,
        0 <= x < width,
        0 <= y < height,
    ensures
        0 <= flat_index(x, y, width) < input.len(),
        0 <= flat_index(y, x, height) < transposed(input, width, height).len(),
        transposed(input, width, height)[flat_index(y, x, height)] == input[flat_index(
            x,
            y,
            width,
        )],
{
    lemma_cell_in_bounds(x, y, width, height);
    lemma_flat_index_parts(y, x, height);
}

/// A matrix without columns or without rows has the empty transpose.
pub proof fn lemma_transposed_degenerate<T>(input: Seq<T>, width: int, height: int)
    requires
        0 <= width,
        0 <= height,
        width == 0 || height == 0,
    ensures
        transposed(input, width, height) == Seq::<T>::empty(),
{
    assert(width * height == 0) by (nonlinear_arith)
        requires
            width == 0 || height == 0,
    ;
    assert(transposed(input, width, height) =~= Seq::<T>::empty());
}

/// Transposing twice, the second time with the sides exchanged, gives the
/// matrix back.
pub proof fn lemma_transposed_twice<T>(input: Seq<T>, width: int, height: int)
    requires
        0 <= width,
        0 <= height,
        input.len() == width * height,
    ensures
        transposed(transposed(input, width, height), height, width) == input,
{
    let once = transposed(input, width, height);
    let twice = transposed(once, height, width);
    assert(height * width == width * height) by (nonlinear_arith);
    assert forall|i: int| 0 <= i < input.len() implies twice[i] == input[i] by {
        lemma_flat_index_split(i, height, width);
        let x = i % width;
        let y = i / width;
        assert(i == flat_index(x, y, width));
        lemma_transposed_cell(input, width, height, x, y);
    }
    assert(twice =~= input);
}

} // verus!
