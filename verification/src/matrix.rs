//! Index bookkeeping for square matrices.

use vstd::prelude::*;

verus! {

/// `s` without its element at index `k`; `s` itself when `k` is not an index of `s`.
pub open spec fn without<A>(s: Seq<A>, k: int) -> Seq<A> {
    if 0 <= k < s.len() {
        s.remove(k)
    } else {
        s
    }
}

/// The rows of a matrix, each as the sequence of its entries.
pub open spec fn rows_view<T>(data: Seq<Vec<T>>) -> Seq<Seq<T>> {
    data.map_values(|row: Vec<T>| row@)
}

/// The matrix `data` without row `n` and column `m`.
pub open spec fn submatrix_spec<T>(data: Seq<Seq<T>>, n: int, m: int) -> Seq<Seq<T>> {
    without(data, n).map_values(|row: Seq<T>| without(row, m))
}

fn row_without<T: Copy>(row: &Vec<T>, m: usize) -> (r: Vec<T>)
    ensures
        r@ == without(row@, m as int),
{
    let mut out: Vec<T> = Vec::new();
    let mut j: usize = 0;
    while j < row.len()
        invariant
            j <= row@.len(),
            out@ == without(row@.take(j as int), m as int),
        decreases row@.len() - j,
    {
        proof {
            let t = row@.take(j as int);
            let t1 = row@.take(j + 1);
            assert(t1 =~= t.push(row@[j as int]));
            if j < m {
                assert(without(t1, m as int) =~= without(t, m as int).push(row@[j as int]));
            } else if j == m {
                assert(without(t1, m as int) =~= t);
            } else {
                assert(without(t1, m as int) =~= without(t, m as int).push(row@[j as int]));
            }
        }
        if j != m {
            out.push(row[j]);
        }
        j = j + 1;
    }
    assert(row@.take(j as int) =~= row@);
    out
}

/// The matrix `data` without row `n` and column `m`, as used for minors and
/// cofactors.
pub fn submatrix<T: Copy>(data: &Vec<Vec<T>>, n: usize, m: usize) -> (r: Vec<Vec<T>>)
    ensures
        rows_view(r@) == submatrix_spec(rows_view(data@), n as int, m as int),
{
    let mut out: Vec<Vec<T>> = Vec::new();
    let mut i: usize = 0;
    while i < data.len()
        invariant
            i <= data@.len(),
            rows_view(out@) == submatrix_spec(rows_view(data@.take(i as int)), n as int, m as int),
        decreases data@.len() - i,
    {
        let ghost before = out@;
        proof {
            let t = rows_view(data@.take(i as int));
            let t1 = rows_view(data@.take(i + 1));
            assert(t1 =~= t.push(data@[i as int]@));
            if i < n {
                assert(without(t1, n as int) =~= without(t, n as int).push(data@[i as int]@));
            } else if i == n {
                assert(without(t1, n as int) =~= t);
            } else {
                assert(without(t1, n as int) =~= without(t, n as int).push(data@[i as int]@));
            }
        }
        if i != n {
            let row = row_without(&data[i], m);
            out.push(row);
            proof {
                assert(rows_view(out@) =~= rows_view(before).push(row@));
            }
        }
        proof {
            let t = rows_view(data@.take(i as int));
            let t1 = rows_view(data@.take(i + 1));
            assert(rows_view(out@) =~= submatrix_spec(t1, n as int, m as int));
        }
        i = i + 1;
    }
    assert(data@.take(i as int) =~= data@);
    out
}

} // verus!
