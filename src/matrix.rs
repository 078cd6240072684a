//! The score tensor as a row-major matrix of 32-bit float bit patterns.
use vstd::prelude::*;
use vstd::arithmetic::div_mod::lemma_fundamental_div_mod_converse;
use crate::error::DetectError;

verus! {

/// The order in which the four bytes of a float are stored.
#[derive(Debug, Clone, Copy, PartialEq, Eq, Structural)]
pub enum ByteOrder {
    Little,
    Big,
}

pub open spec fn word_of(b0: u8, b1: u8, b2: u8, b3: u8, order: ByteOrder) -> u32 {
    match order {
        ByteOrder::Little => little_word(b0, b1, b2, b3),
        ByteOrder::Big => little_word(b3, b2, b1, b0),
    }
}

pub open spec fn little_word(b0: u8, b1: u8, b2: u8, b3: u8) -> u32 {
    (b0 as u32) | ((b1 as u32) << 8u32) | ((b2 as u32) << 16u32) | ((b3 as u32) << 24u32)
}

/// Byte `t` (0 to 3) of `w` in little-endian order.
pub open spec fn little_byte(w: u32, t: int) -> u8 {
    if t == 0 {
        (w & 0xffu32) as u8
    } else if t == 1 {
        ((w >> 8u32) & 0xffu32) as u8
    } else if t == 2 {
        ((w >> 16u32) & 0xffu32) as u8
    } else {
        ((w >> 24u32) & 0xffu32) as u8
    }
}

/// Byte `t` (0 to 3) of `w` as it is stored in the given order.
pub open spec fn byte_of(w: u32, t: int, order: ByteOrder) -> u8 {
    match order {
        ByteOrder::Little => little_byte(w, t),
        ByteOrder::Big => little_byte(w, 3 - t),
    }
}

/// The word stored in `bytes` from offset `k` on.
pub open spec fn word_at(bytes: Seq<u8>, k: int, order: ByteOrder) -> u32 {
    word_of(bytes[k], bytes[k + 1], bytes[k + 2], bytes[k + 3], order)
}

/// A buffer of `len` bytes holds a `rows` by `columns` matrix.
pub open spec fn shape_fits(len: int, rows: int, columns: int) -> bool {
    rows > 0 && columns > 0 && len == rows * columns * 4
}

/// The matrix that a buffer holds, read row-major with no padding.
pub open spec fn decoded(bytes: Seq<u8>, rows: int, columns: int, order: ByteOrder) -> Seq<Seq<u32>> {
    Seq::new(
        rows as nat,
        |i: int| Seq::new(columns as nat, |j: int| word_at(bytes, 4 * (i * columns + j), order)),
    )
}

/// A matrix written row-major into bytes, four per value.
pub open spec fn encoded(m: Seq<Seq<u32>>, order: ByteOrder) -> Seq<u8> {
    let c = m[0].len() as int;
    Seq::new(
        (m.len() * c * 4) as nat,
        |k: int| byte_of(m[k / (4 * c)][(k / 4) % c], k % 4, order),
    )
}

/// Every row has the length of the first.
pub open spec fn is_rectangular(m: Seq<Seq<u32>>) -> bool {
    forall|i: int| 0 <= i < m.len() ==> #[trigger] m[i].len() == m[0].len()
}

pub open spec fn column_count(m: Seq<Seq<u32>>) -> int {
    if m.len() > 0 {
        m[0].len() as int
    } else {
        0
    }
}

/// Rows and columns swapped: element `[j][i]` is the input's `[i][j]`.
pub open spec fn transposed(m: Seq<Seq<u32>>) -> Seq<Seq<u32>> {
    Seq::new(column_count(m) as nat, |j: int| Seq::new(m.len(), |i: int| m[i][j]))
}

fn read_word(b0: u8, b1: u8, b2: u8, b3: u8, order: ByteOrder) -> (r: u32)
    ensures
        r == word_of(b0, b1, b2, b3, order),
{
    match order {
        ByteOrder::Little => (b0 as u32) | ((b1 as u32) << 8u32) | ((b2 as u32) << 16u32) | ((b3
            as u32) << 24u32),
        ByteOrder::Big => (b3 as u32) | ((b2 as u32) << 8u32) | ((b1 as u32) << 16u32) | ((b0
            as u32) << 24u32),
    }
}

/// Reads `binary` as `rows` rows of `columns` floats each.
pub fn binary_to_matrix(binary: &Vec<u8>, rows: usize, columns: usize, order: ByteOrder) -> (r:
    Result<Vec<Vec<u32>>, DetectError>)
    ensures
        match r {
            Ok(m) => shape_fits(binary@.len() as int, rows as int, columns as int) && m.deep_view()
                == decoded(binary@, rows as int, columns as int, order),
            Err(e) => e == DetectError::ShapeMismatch && !shape_fits(
                binary@.len() as int,
                rows as int,
                columns as int,
            ),
        },
{
    if rows == 0 || columns == 0 {
        return Err(DetectError::ShapeMismatch);
    }
    let len: usize = binary.len();
    let row_size: usize = match columns.checked_mul(4) {
        Some(v) => v,
        None => {
            proof {
                assert(rows * columns * 4 >= columns * 4) by (nonlinear_arith)
                    requires
                        rows >= 1,
                        columns >= 1,
                ;
                assert(len < columns * 4);
            }
            return Err(DetectError::ShapeMismatch);
        },
    };
    let total: usize = match rows.checked_mul(row_size) {
        Some(v) => v,
        None => {
            proof {
                assert(rows * columns * 4 == rows * (columns * 4)) by (nonlinear_arith);
                assert(len < rows * (columns * 4));
            }
            return Err(DetectError::ShapeMismatch);
        },
    };
    proof {
        assert(rows * columns * 4 == rows * (columns * 4)) by (nonlinear_arith);
    }
    if binary.len() != total {
        return Err(DetectError::ShapeMismatch);
    }
    let ghost want = decoded(binary@, rows as int, columns as int, order);
    let mut matrix: Vec<Vec<u32>> = Vec::new();
    let mut pos: usize = 0;
    let mut i: usize = 0;
    while i < rows
        invariant
            i <= rows,
            binary@.len() == rows * columns * 4,
            binary@.len() == total,
            columns > 0,
            pos == 4 * (i * columns),
            want == decoded(binary@, rows as int, columns as int, order),
            matrix@.len() == i,
            forall|a: int| 0 <= a < i ==> #[trigger] matrix@[a].deep_view() == want[a],
        decreases rows - i,
    {
        let mut row: Vec<u32> = Vec::new();
        let mut j: usize = 0;
        while j < columns
            invariant
                i < rows,
                j <= columns,
                binary@.len() == rows * columns * 4,
                binary@.len() == total,
                pos == 4 * (i * columns + j),
                want == decoded(binary@, rows as int, columns as int, order),
                row@.len() == j,
                forall|b: int| 0 <= b < j ==> #[trigger] row@[b] == want[i as int][b],
            decreases columns - j,
        {
            proof {
                assert(4 * (i * columns + j) + 4 <= rows * columns * 4) by (nonlinear_arith)
                    requires
                        i < rows,
                        j < columns,
                ;
            }
            let w = read_word(binary[pos], binary[pos + 1], binary[pos + 2], binary[pos + 3], order);
            row.push(w);
            pos = pos + 4;
            j = j + 1;
        }
        proof {
            assert(row.deep_view() =~= want[i as int]);
            assert(4 * (i * columns + columns) == 4 * ((i + 1) * columns)) by (nonlinear_arith);
        }
        matrix.push(row);
        i = i + 1;
    }
    proof {
        assert(matrix.deep_view() =~= want);
    }
    Ok(matrix)
}

/// Swaps rows and columns.
pub fn transpose_matrix(matrix: &Vec<Vec<u32>>) -> (r: Vec<Vec<u32>>)
    requires
        is_rectangular(matrix.deep_view()),
    ensures
        r.deep_view() == transposed(matrix.deep_view()),
{
    let ghost m = matrix.deep_view();
    let rows = matrix.len();
    let cols = if rows > 0 {
        matrix[0].len()
    } else {
        0
    };
    let mut out: Vec<Vec<u32>> = Vec::new();
    let mut j: usize = 0;
    while j < cols
        invariant
            j <= cols,
            m == matrix.deep_view(),
            rows == m.len(),
            cols == column_count(m),
            is_rectangular(m),
            out@.len() == j,
            forall|a: int| 0 <= a < j ==> #[trigger] out@[a].deep_view() == transposed(m)[a],
        decreases cols - j,
    {
        let mut column: Vec<u32> = Vec::new();
        let mut i: usize = 0;
        while i < rows
            invariant
                j < cols,
                i <= rows,
                m == matrix.deep_view(),
                rows == m.len(),
                cols == column_count(m),
                is_rectangular(m),
                column@.len() == i,
                forall|b: int| 0 <= b < i ==> #[trigger] column@[b] == m[b][j as int],
            decreases rows - i,
        {
            assert(m[i as int].len() == m[0].len());
            column.push(matrix[i][j]);
            i = i + 1;
        }
        proof {
            assert(column.deep_view() =~= transposed(m)[j as int]);
        }
        out.push(column);
        j = j + 1;
    }
    proof {
        assert(out.deep_view() =~= transposed(m));
    }
    out
}

proof fn lemma_little_bytes(w: u32)
    ensures
        little_word(little_byte(w, 0), little_byte(w, 1), little_byte(w, 2), little_byte(w, 3))
            == w,
{
    assert(((w & 0xffu32) as u8 as u32) | ((((w >> 8u32) & 0xffu32) as u8 as u32) << 8u32) | ((((w
        >> 16u32) & 0xffu32) as u8 as u32) << 16u32) | ((((w >> 24u32) & 0xffu32) as u8 as u32)
        << 24u32) == w) by (bit_vector);
}

/// Writing a matrix row-major into bytes and reading the bytes back with
/// the same shape and byte order gives the matrix again, bit for bit.
pub proof fn lemma_decode_round_trip(m: Seq<Seq<u32>>, order: ByteOrder)
    requires
        m.len() > 0,
        m[0].len() > 0,
        is_rectangular(m),
    ensures
        shape_fits(encoded(m, order).len() as int, m.len() as int, m[0].len() as int),
        decoded(encoded(m, order), m.len() as int, m[0].len() as int, order) == m,
{
    let rows = m.len() as int;
    let c = m[0].len() as int;
    let bytes = encoded(m, order);
    assert(rows * c * 4 >= 0) by (nonlinear_arith)
        requires
            rows > 0,
            c > 0,
    ;
    let d = decoded(bytes, rows, c, order);
    assert forall|i: int| 0 <= i < rows implies #[trigger] d[i] == m[i] by {
        assert forall|j: int| 0 <= j < c implies #[trigger] d[i][j] == m[i][j] by {
            let k = 4 * (i * c + j);
            assert forall|t: int| 0 <= t < 4 implies #[trigger] bytes[k + t] == byte_of(
                m[i][j],
                t,
                order,
            ) by {
                assert(k + t == i * (4 * c) + (4 * j + t)) by (nonlinear_arith)
                    requires
                        k == 4 * (i * c + j),
                ;
                assert(i * c + j < rows * c) by (nonlinear_arith)
                    requires
                        0 <= i < rows,
                        0 <= j < c,
                ;
                assert(rows * c * 4 == 4 * (rows * c)) by (nonlinear_arith);
                lemma_fundamental_div_mod_converse(k + t, 4 * c, i, 4 * j + t);
                lemma_fundamental_div_mod_converse(k + t, 4, i * c + j, t);
                lemma_fundamental_div_mod_converse(i * c + j, c, i, j);
            }
            lemma_little_bytes(m[i][j]);
            assert(bytes[k + 0] == byte_of(m[i][j], 0, order));
            assert(bytes[k + 1] == byte_of(m[i][j], 1, order));
            assert(bytes[k + 2] == byte_of(m[i][j], 2, order));
            assert(bytes[k + 3] == byte_of(m[i][j], 3, order));
            assert(k + 0 == k);
        }
        assert(d[i] =~= m[i]);
    }
    assert(d =~= m);
}

/// Transposing a matrix twice gives it back, for every matrix whose rows
/// share one length and are not empty.
pub proof fn lemma_transpose_involution(m: Seq<Seq<u32>>)
    requires
        is_rectangular(m),
        m.len() > 0 ==> m[0].len() > 0,
    ensures
        transposed(transposed(m)) == m,
{
    let t = transposed(m);
    let tt = transposed(t);
    if m.len() > 0 {
        assert(t.len() > 0);
        assert forall|i: int| 0 <= i < m.len() implies #[trigger] tt[i] =~= m[i] by {
            assert(m[i].len() == m[0].len());
        }
    }
    assert(tt =~= m);
}

} // verus!
