//! Linear algebra over the field of two elements.
//!
//! A bit is a `bool` and addition is exclusive or. A matrix is a sequence of
//! rows of equal width.
use vstd::prelude::*;

verus! {

/// The sum of `f(0)`, ..., `f(n - 1)`.
pub open spec fn xsum(n: nat, f: spec_fn(int) -> bool) -> bool
    decreases n,
{
    if n == 0 {
        false
    } else {
        xsum((n - 1) as nat, f) != f(n - 1)
    }
}

/// The sum of the rows that the coefficients pick.
pub open spec fn combine(c: Seq<bool>, rows: Seq<Seq<bool>>, width: nat) -> Seq<bool> {
    Seq::new(width, |j: int| xsum(rows.len(), |i: int| c[i] && rows[i][j]))
}

/// Whether a word is a sum of rows.
pub open spec fn in_span(w: Seq<bool>, rows: Seq<Seq<bool>>, width: nat) -> bool {
    exists|c: Seq<bool>| c.len() == rows.len() && #[trigger] combine(c, rows, width) == w
}

/// Whether a word has no bit set.
pub open spec fn is_zero(w: Seq<bool>) -> bool {
    forall|j: int| 0 <= j < w.len() ==> !#[trigger] w[j]
}

/// Whether no two sums of rows are equal.
pub open spec fn independent(rows: Seq<Seq<bool>>, width: nat) -> bool {
    forall|c: Seq<bool>|
        c.len() == rows.len() && is_zero(#[trigger] combine(c, rows, width)) ==> is_zero(c)
}

/// Whether two matrices have the same sums of rows.
pub open spec fn same_span(a: Seq<Seq<bool>>, b: Seq<Seq<bool>>, width: nat) -> bool {
    &&& a.len() == b.len()
    &&& forall|c: Seq<bool>|
        c.len() == a.len() ==> in_span(#[trigger] combine(c, a, width), b, width)
    &&& forall|c: Seq<bool>|
        c.len() == b.len() ==> in_span(#[trigger] combine(c, b, width), a, width)
}

/// The bitwise sum of two words.
pub open spec fn xor(a: Seq<bool>, b: Seq<bool>) -> Seq<bool> {
    Seq::new(a.len(), |j: int| a[j] != b[j])
}

/// Whether every row has the width.
pub open spec fn is_matrix(rows: Seq<Seq<bool>>, width: nat) -> bool {
    forall|i: int| 0 <= i < rows.len() ==> (#[trigger] rows[i]).len() == width
}

/// A matrix with row `p` added to row `r`.
pub open spec fn add_row(rows: Seq<Seq<bool>>, r: int, p: int) -> Seq<Seq<bool>> {
    rows.update(r, xor(rows[r], rows[p]))
}

pub proof fn lemma_xsum_ext(n: nat, f: spec_fn(int) -> bool, g: spec_fn(int) -> bool)
    requires
        forall|i: int| 0 <= i < n ==> #[trigger] f(i) == g(i),
    ensures
        xsum(n, f) == xsum(n, g),
    decreases n,
{
    if n > 0 {
        lemma_xsum_ext((n - 1) as nat, f, g);
        assert(f(n - 1) == g(n - 1));
    }
}

/// Changing one term changes the sum by the change of that term.
pub proof fn lemma_xsum_change(n: nat, f: spec_fn(int) -> bool, g: spec_fn(int) -> bool, k: int)
    requires
        0 <= k < n,
        forall|i: int| 0 <= i < n && i != k ==> #[trigger] f(i) == g(i),
    ensures
        xsum(n, g) == (xsum(n, f) != (f(k) != g(k))),
    decreases n,
{
    if k == n - 1 {
        lemma_xsum_ext((n - 1) as nat, f, g);
    } else {
        lemma_xsum_change((n - 1) as nat, f, g, k);
        assert(f(n - 1) == g(n - 1));
    }
}

/// A sum with at most one term set is that term.
pub proof fn lemma_xsum_single(n: nat, f: spec_fn(int) -> bool, k: int)
    requires
        0 <= k < n,
        forall|i: int| 0 <= i < n && i != k ==> !#[trigger] f(i),
    ensures
        xsum(n, f) == f(k),
    decreases n,
{
    if k == n - 1 {
        lemma_xsum_none((n - 1) as nat, f);
    } else {
        lemma_xsum_single((n - 1) as nat, f, k);
        assert(!f(n - 1));
    }
}

/// A sum with no term set is nothing.
pub proof fn lemma_xsum_none(n: nat, f: spec_fn(int) -> bool)
    requires
        forall|i: int| 0 <= i < n ==> !#[trigger] f(i),
    ensures
        !xsum(n, f),
    decreases n,
{
    if n > 0 {
        lemma_xsum_none((n - 1) as nat, f);
        assert(!f(n - 1));
    }
}

/// Sums add up term by term.
pub proof fn lemma_xsum_add(
    n: nat,
    f: spec_fn(int) -> bool,
    g: spec_fn(int) -> bool,
    h: spec_fn(int) -> bool,
)
    requires
        forall|i: int| 0 <= i < n ==> #[trigger] h(i) == (f(i) != g(i)),
    ensures
        xsum(n, h) == (xsum(n, f) != xsum(n, g)),
    decreases n,
{
    if n > 0 {
        lemma_xsum_add((n - 1) as nat, f, g, h);
        assert(h(n - 1) == (f(n - 1) != g(n - 1)));
    }
}

/// A sum of sums can be taken in either order.
pub proof fn lemma_xsum_swap(n: nat, m: nat, f: spec_fn(int, int) -> bool)
    ensures
        xsum(n, |k: int| xsum(m, |i: int| f(k, i))) == xsum(
            m,
            |i: int| xsum(n, |k: int| f(k, i)),
        ),
    decreases n,
{
    let outer = |k: int| xsum(m, |i: int| f(k, i));
    let inner = |i: int| xsum(n, |k: int| f(k, i));
    if n == 0 {
        lemma_xsum_none(m, inner);
    } else {
        let less = |i: int| xsum((n - 1) as nat, |k: int| f(k, i));
        let last = |i: int| f(n - 1, i);
        lemma_xsum_swap((n - 1) as nat, m, f);
        assert forall|i: int| 0 <= i < m implies #[trigger] inner(i) == (less(i) != last(i)) by {
            let g = |k: int| f(k, i);
            assert(xsum(n, g) == (xsum((n - 1) as nat, g) != g(n - 1)));
        }
        lemma_xsum_add(m, less, last, inner);
        assert(outer(n - 1) == xsum(m, last));
    }
}

/// Sums of rows add up coefficient by coefficient.
pub proof fn lemma_combine_xor(
    a: Seq<bool>,
    b: Seq<bool>,
    rows: Seq<Seq<bool>>,
    width: nat,
)
    requires
        a.len() == rows.len(),
        b.len() == rows.len(),
    ensures
        combine(xor(a, b), rows, width) == xor(combine(a, rows, width), combine(b, rows, width)),
{
    let c = xor(a, b);
    assert forall|j: int| 0 <= j < width implies combine(c, rows, width)[j] == xor(
        combine(a, rows, width),
        combine(b, rows, width),
    )[j] by {
        lemma_xsum_add(
            rows.len(),
            |i: int| a[i] && rows[i][j],
            |i: int| b[i] && rows[i][j],
            |i: int| c[i] && rows[i][j],
        );
    }
    assert(combine(c, rows, width) =~= xor(combine(a, rows, width), combine(b, rows, width)));
}

/// Adding a row to another turns a sum of the new rows into one of the old.
pub proof fn lemma_add_row_combine(
    c: Seq<bool>,
    rows: Seq<Seq<bool>>,
    r: int,
    p: int,
    width: nat,
)
    requires
        is_matrix(rows, width),
        c.len() == rows.len(),
        0 <= r < rows.len(),
        0 <= p < rows.len(),
        r != p,
    ensures
        combine(c, add_row(rows, r, p), width) == combine(
            c.update(p, c[p] != c[r]),
            rows,
            width,
        ),
{
    let after = add_row(rows, r, p);
    let d = c.update(p, c[p] != c[r]);
    assert forall|j: int| 0 <= j < width implies combine(c, after, width)[j] == combine(
        d,
        rows,
        width,
    )[j] by {
        let base = |i: int| c[i] && rows[i][j];
        let left = |i: int| c[i] && after[i][j];
        let right = |i: int| d[i] && rows[i][j];
        lemma_xsum_change(rows.len(), base, left, r);
        lemma_xsum_change(rows.len(), base, right, p);
        assert(left(r) == (c[r] && (rows[r][j] != rows[p][j])));
        assert(right(p) == ((c[p] != c[r]) && rows[p][j]));
        assert(combine(c, after, width)[j] == xsum(rows.len(), left)) by {
            assert(after.len() == rows.len());
        }
        assert(combine(d, rows, width)[j] == xsum(rows.len(), right));
    }
    assert(combine(c, after, width) =~= combine(d, rows, width));
}

/// Adding a row to another keeps the sums of rows and their independence.
pub proof fn lemma_add_row(
    rows: Seq<Seq<bool>>,
    origin: Seq<Seq<bool>>,
    r: int,
    p: int,
    width: nat,
)
    requires
        is_matrix(rows, width),
        0 <= r < rows.len(),
        0 <= p < rows.len(),
        r != p,
        same_span(rows, origin, width),
        independent(rows, width),
    ensures
        is_matrix(add_row(rows, r, p), width),
        same_span(add_row(rows, r, p), origin, width),
        independent(add_row(rows, r, p), width),
{
    let after = add_row(rows, r, p);
    assert forall|c: Seq<bool>| c.len() == after.len() implies in_span(
        #[trigger] combine(c, after, width),
        origin,
        width,
    ) by {
        lemma_add_row_combine(c, rows, r, p, width);
        let d = c.update(p, c[p] != c[r]);
        assert(in_span(combine(d, rows, width), origin, width));
    }
    assert forall|c: Seq<bool>| c.len() == origin.len() implies in_span(
        #[trigger] combine(c, origin, width),
        after,
        width,
    ) by {
        let w = combine(c, origin, width);
        assert(in_span(w, rows, width));
        let e = choose|e: Seq<bool>|
            e.len() == rows.len() && #[trigger] combine(e, rows, width) == w;
        let d = e.update(p, e[p] != e[r]);
        lemma_add_row_combine(d, rows, r, p, width);
        assert(d.update(p, d[p] != d[r]) =~= e);
        assert(combine(d, after, width) == w);
    }
    assert forall|c: Seq<bool>|
        c.len() == after.len() && is_zero(#[trigger] combine(c, after, width)) implies is_zero(
        c,
    ) by {
        lemma_add_row_combine(c, rows, r, p, width);
        let d = c.update(p, c[p] != c[r]);
        assert(is_zero(combine(d, rows, width)));
        assert(is_zero(d));
        assert(!d[r] && !d[p]);
        assert(c[r] == d[r]);
        assert forall|j: int| 0 <= j < c.len() implies !#[trigger] c[j] by {
            if j != p {
                assert(c[j] == d[j]);
            }
        }
    }
}

} // verus!
