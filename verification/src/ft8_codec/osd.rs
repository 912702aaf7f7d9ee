//! Ordered decoding: codewords that agree with the most reliable received bits.
use super::gf2;
use super::ldpc_decoder;
use super::ldpc_decoder::{check_crc14_96, CODE_BITS, MESSAGE_BITS};
use super::ranking;
use super::ranking::rank_order;
use vstd::prelude::*;

verus! {

/// The number of parity bits of a codeword.
pub const PARITY_BITS: usize = 83;

/// Whether a table holds the parity bits of each message bit.
pub open spec fn is_generator(gen: Seq<Vec<u8>>) -> bool {
    &&& gen.len() == MESSAGE_BITS
    &&& forall|i: int|
        0 <= i < MESSAGE_BITS ==> (#[trigger] gen[i])@.len() == PARITY_BITS
            && ldpc_decoder::are_bits(gen[i]@)
}

/// Row `i` of the generator matrix: message bit `i` and its parity bits.
pub open spec fn generator_row(gen: Seq<Vec<u8>>, i: int) -> Seq<bool> {
    Seq::new(
        CODE_BITS as nat,
        |j: int| if j < MESSAGE_BITS { j == i } else { gen[i]@[j - MESSAGE_BITS] == 1 },
    )
}

/// The generator matrix.
pub open spec fn generator(gen: Seq<Vec<u8>>) -> Seq<Seq<bool>> {
    Seq::new(MESSAGE_BITS as nat, |i: int| generator_row(gen, i))
}

/// Whether a word is a codeword.
pub open spec fn is_codeword(gen: Seq<Vec<u8>>, w: Seq<bool>) -> bool {
    gf2::in_span(w, generator(gen), CODE_BITS as nat)
}

/// Whether a list names every position of a codeword.
pub open spec fn is_order(order: Seq<usize>) -> bool {
    ranking::covers(order, CODE_BITS as int)
}

/// Whether, of the bits of a word in the order, bit `j` is the first set.
pub open spec fn first_set(order: Seq<usize>, w: Seq<bool>, j: int) -> bool {
    &&& w[order[j] as int]
    &&& forall|k: int| 0 <= k < j ==> !w[#[trigger] order[k] as int]
}

/// Whether bit `j` in the order is independent of the bits before it: some
/// codeword has it set and none before it.
pub open spec fn leads_at(gen: Seq<Vec<u8>>, order: Seq<usize>, j: int) -> bool {
    exists|w: Seq<bool>| #[trigger] is_codeword(gen, w) && first_set(order, w, j)
}

/// The first `n` bits in the order that are independent of those before them.
pub open spec fn leads(gen: Seq<Vec<u8>>, order: Seq<usize>, n: nat) -> Seq<int>
    decreases n,
{
    if n == 0 {
        Seq::empty()
    } else if leads_at(gen, order, n - 1) {
        leads(gen, order, (n - 1) as nat).push(n - 1)
    } else {
        leads(gen, order, (n - 1) as nat)
    }
}

/// The most reliable basis: the places in the order whose bits determine a codeword.
pub open spec fn basis_of(gen: Seq<Vec<u8>>, order: Seq<usize>) -> Seq<int> {
    leads(gen, order, CODE_BITS as nat)
}

/// Whether `w` is the codeword whose bits on the basis are `m`.
pub open spec fn matches_on_basis(
    gen: Seq<Vec<u8>>,
    order: Seq<usize>,
    m: Seq<bool>,
    w: Seq<bool>,
) -> bool {
    let basis = basis_of(gen, order);
    &&& is_codeword(gen, w)
    &&& forall|i: int|
        0 <= i < MESSAGE_BITS ==> w[order[#[trigger] basis[i]] as int] == m[i]
}

/// The codeword whose bits on the basis are `m`.
pub open spec fn word_for(gen: Seq<Vec<u8>>, order: Seq<usize>, m: Seq<bool>) -> Seq<bool> {
    choose|w: Seq<bool>| matches_on_basis(gen, order, m, w)
}

/// The received bits on the basis.
pub open spec fn basis_bits(gen: Seq<Vec<u8>>, order: Seq<usize>, received: Seq<bool>) -> Seq<bool> {
    Seq::new(MESSAGE_BITS as nat, |i: int| received[order[basis_of(gen, order)[i]] as int])
}

/// `m` with bit `i` flipped.
pub open spec fn flip(m: Seq<bool>, i: int) -> Seq<bool> {
    m.update(i, !m[i])
}

/// `m` with each bit flipped in turn.
pub open spec fn singles(m: Seq<bool>) -> Seq<Seq<bool>> {
    Seq::new(m.len(), |i: int| flip(m, i))
}

/// `m` with bit `i` and each later bit flipped in turn.
pub open spec fn pairs_with(m: Seq<bool>, i: int) -> Seq<Seq<bool>> {
    Seq::new((m.len() - 1 - i) as nat, |d: int| flip(flip(m, i), i + 1 + d))
}

/// `m` with each pair of bits flipped whose first is below `n`.
pub open spec fn pairs_below(m: Seq<bool>, n: nat) -> Seq<Seq<bool>>
    decreases n,
{
    if n == 0 {
        Seq::empty()
    } else {
        pairs_below(m, (n - 1) as nat) + pairs_with(m, n - 1)
    }
}

/// The basis bits that are tried, in turn: those received, then those with
/// one bit flipped, then those with two.
pub open spec fn trials(m: Seq<bool>, norder: int) -> Seq<Seq<bool>> {
    seq![m] + (if norder >= 1 {
        singles(m)
    } else {
        Seq::empty()
    }) + (if norder >= 2 {
        pairs_below(m, m.len())
    } else {
        Seq::empty()
    })
}

/// The codewords of the tried basis bits whose CRC holds, in turn.
pub open spec fn passing(gen: Seq<Vec<u8>>, order: Seq<usize>, tried: Seq<Seq<bool>>) -> Seq<
    Seq<bool>,
>
    decreases tried.len(),
{
    if tried.len() == 0 {
        Seq::empty()
    } else {
        let before = passing(gen, order, tried.drop_last());
        let w = word_for(gen, order, tried.last());
        if ldpc_decoder::crc_holds(w) {
            before.push(w)
        } else {
            before
        }
    }
}

/// The bits of each of some words.
pub open spec fn words_of(v: Seq<Vec<u8>>) -> Seq<Seq<bool>> {
    Seq::new(v.len(), |i: int| ldpc_decoder::parities(v[i]@))
}

/// The generator matrix with its columns in the order.
spec fn ordered(gen: Seq<Vec<u8>>, order: Seq<usize>) -> Seq<Seq<bool>> {
    Seq::new(
        MESSAGE_BITS as nat,
        |i: int|
            Seq::new(CODE_BITS as nat, |j: int| generator_row(gen, i)[order[j] as int]),
    )
}

/// The bits of the rows of a matrix of bytes.
spec fn bit_rows(g: Seq<Vec<u8>>) -> Seq<Seq<bool>> {
    Seq::new(g.len(), |i: int| ldpc_decoder::parities(g[i]@))
}

/// A sum of generator rows in the order is the codeword in the order.
proof fn lemma_ordered(gen: Seq<Vec<u8>>, order: Seq<usize>, c: Seq<bool>, k: int)
    requires
        order.len() == CODE_BITS,
        0 <= k < CODE_BITS,
        order[k] < CODE_BITS,
    ensures
        gf2::combine(c, ordered(gen, order), CODE_BITS as nat)[k] == gf2::combine(
            c,
            generator(gen),
            CODE_BITS as nat,
        )[order[k] as int],
{
    gf2::lemma_xsum_ext(
        MESSAGE_BITS as nat,
        |i: int| c[i] && ordered(gen, order)[i][k],
        |i: int| c[i] && generator(gen)[i][order[k] as int],
    );
}

/// No two messages have the same codeword.
proof fn lemma_ordered_independent(gen: Seq<Vec<u8>>, order: Seq<usize>)
    requires
        is_order(order),
    ensures
        gf2::is_matrix(ordered(gen, order), CODE_BITS as nat),
        gf2::independent(ordered(gen, order), CODE_BITS as nat),
        gf2::same_span(ordered(gen, order), ordered(gen, order), CODE_BITS as nat),
{
    let rows = ordered(gen, order);
    assert forall|c: Seq<bool>|
        c.len() == rows.len() && gf2::is_zero(
            #[trigger] gf2::combine(c, rows, CODE_BITS as nat),
        ) implies gf2::is_zero(c) by {
        assert forall|i: int| 0 <= i < c.len() implies !#[trigger] c[i] by {
            assert(ranking::names(order, i));
            let k = choose|k: int| 0 <= k < order.len() && #[trigger] order[k] == i;
            assert(!gf2::combine(c, rows, CODE_BITS as nat)[k]);
            gf2::lemma_xsum_single(MESSAGE_BITS as nat, |t: int| c[t] && rows[t][k], i);
            assert(rows[i][k]);
        }
    }
}

/// Whether bytes are a matrix of the size of the generator matrix.
spec fn shaped(g: Seq<Vec<u8>>) -> bool {
    &&& g.len() == MESSAGE_BITS
    &&& forall|r: int|
        0 <= r < g.len() ==> (#[trigger] g[r])@.len() == CODE_BITS && ldpc_decoder::are_bits(g[r]@)
}

/// What elimination keeps after column `j`: `g` generates the code, its rows
/// are reduced on the basis, and the rows past the basis begin after column `j`.
spec fn eliminated(
    gen: Seq<Vec<u8>>,
    order: Seq<usize>,
    g: Seq<Vec<u8>>,
    basis: Seq<usize>,
    j: int,
) -> bool {
    let rows = bit_rows(g);
    &&& shaped(g)
    &&& gf2::is_matrix(rows, CODE_BITS as nat)
    &&& gf2::same_span(rows, ordered(gen, order), CODE_BITS as nat)
    &&& gf2::independent(rows, CODE_BITS as nat)
    &&& basis.len() <= MESSAGE_BITS
    &&& basis.map_values(|b: usize| b as int) == leads(gen, order, j as nat)
    &&& forall|i: int| 0 <= i < basis.len() ==> #[trigger] basis[i] < j
    &&& forall|i: int, r: int|
        0 <= i < basis.len() && 0 <= r < MESSAGE_BITS ==> #[trigger] rows[r][basis[i] as int] == (r
            == i)
    &&& forall|r: int, c: int|
        basis.len() <= r < MESSAGE_BITS && 0 <= c < j ==> !#[trigger] rows[r][c]
}

/// Adds row `p` of a matrix to row `r`.
fn add_into(g: &mut Vec<Vec<u8>>, r: usize, p: usize)
    requires
        shaped(old(g)@),
        r < MESSAGE_BITS,
        p < MESSAGE_BITS,
        r != p,
    ensures
        shaped(final(g)@),
        bit_rows(final(g)@) == gf2::add_row(bit_rows(old(g)@), r as int, p as int),
{
    let ghost before = g@;
    let mut row: Vec<u8> = Vec::new();
    let mut c: usize = 0;
    while c < CODE_BITS
        invariant
            g@ == before,
            shaped(before),
            r < MESSAGE_BITS,
            p < MESSAGE_BITS,
            c <= CODE_BITS,
            row@.len() == c,
            ldpc_decoder::are_bits(row@),
            forall|k: int|
                0 <= k < c ==> (#[trigger] row@[k] % 2 == 1) == ((before[r as int]@[k] % 2 == 1)
                    != (before[p as int]@[k] % 2 == 1)),
        decreases CODE_BITS - c,
    {
        let a: u8 = g[r][c] % 2;
        let b: u8 = g[p][c] % 2;
        row.push(if a == b { 0 } else { 1 });
        c += 1;
    }
    g.set(r, row);
    proof {
        let after = bit_rows(g@);
        let want = gf2::add_row(bit_rows(before), r as int, p as int);
        assert forall|i: int| 0 <= i < after.len() implies after[i] =~= want[i] by {}
        assert(after =~= want);
    }
}

/// The coefficients that pick row `p` alone.
spec fn unit(p: int) -> Seq<bool> {
    Seq::new(MESSAGE_BITS as nat, |i: int| i == p)
}

proof fn lemma_unit(rows: Seq<Seq<bool>>, p: int)
    requires
        rows.len() == MESSAGE_BITS,
        0 <= p < MESSAGE_BITS,
        rows[p].len() == CODE_BITS,
    ensures
        gf2::combine(unit(p), rows, CODE_BITS as nat) == rows[p],
{
    assert forall|k: int| 0 <= k < CODE_BITS implies gf2::combine(
        unit(p),
        rows,
        CODE_BITS as nat,
    )[k] == rows[p][k] by {
        gf2::lemma_xsum_single(MESSAGE_BITS as nat, |t: int| unit(p)[t] && rows[t][k], p);
    }
    assert(gf2::combine(unit(p), rows, CODE_BITS as nat) =~= rows[p]);
}

/// A word of the eliminated matrix is a codeword in the order.
proof fn lemma_back(
    gen: Seq<Vec<u8>>,
    order: Seq<usize>,
    rows: Seq<Seq<bool>>,
    c: Seq<bool>,
) -> (w: Seq<bool>)
    requires
        is_order(order),
        rows.len() == MESSAGE_BITS,
        gf2::same_span(rows, ordered(gen, order), CODE_BITS as nat),
        c.len() == MESSAGE_BITS,
    ensures
        is_codeword(gen, w),
        w.len() == CODE_BITS,
        forall|k: int|
            0 <= k < CODE_BITS ==> w[order[k] as int] == #[trigger] gf2::combine(
                c,
                rows,
                CODE_BITS as nat,
            )[k],
{
    let v = gf2::combine(c, rows, CODE_BITS as nat);
    assert(gf2::in_span(v, ordered(gen, order), CODE_BITS as nat));
    let d = choose|d: Seq<bool>|
        d.len() == ordered(gen, order).len() && #[trigger] gf2::combine(
            d,
            ordered(gen, order),
            CODE_BITS as nat,
        ) == v;
    let w = gf2::combine(d, generator(gen), CODE_BITS as nat);
    assert(d.len() == generator(gen).len());
    assert forall|k: int| 0 <= k < CODE_BITS implies w[order[k] as int] == #[trigger] v[k] by {
        lemma_ordered(gen, order, d, k);
    }
    w
}

/// A codeword in the order is a word of the eliminated matrix.
proof fn lemma_forth(
    gen: Seq<Vec<u8>>,
    order: Seq<usize>,
    rows: Seq<Seq<bool>>,
    w: Seq<bool>,
) -> (d: Seq<bool>)
    requires
        is_order(order),
        rows.len() == MESSAGE_BITS,
        gf2::same_span(rows, ordered(gen, order), CODE_BITS as nat),
        is_codeword(gen, w),
    ensures
        d.len() == MESSAGE_BITS,
        forall|k: int|
            0 <= k < CODE_BITS ==> w[#[trigger] order[k] as int] == gf2::combine(
                d,
                rows,
                CODE_BITS as nat,
            )[k],
{
    let c = choose|c: Seq<bool>|
        c.len() == generator(gen).len() && #[trigger] gf2::combine(
            c,
            generator(gen),
            CODE_BITS as nat,
        ) == w;
    let v = gf2::combine(c, ordered(gen, order), CODE_BITS as nat);
    assert(c.len() == ordered(gen, order).len());
    assert(gf2::in_span(v, rows, CODE_BITS as nat));
    let d = choose|d: Seq<bool>|
        d.len() == rows.len() && #[trigger] gf2::combine(d, rows, CODE_BITS as nat) == v;
    assert forall|k: int| 0 <= k < CODE_BITS implies w[#[trigger] order[k] as int] == v[k] by {
        lemma_ordered(gen, order, c, k);
    }
    d
}

/// A row past the basis that has bit `j` set shows that the bit is independent.
proof fn lemma_lead(
    gen: Seq<Vec<u8>>,
    order: Seq<usize>,
    g: Seq<Vec<u8>>,
    basis: Seq<usize>,
    j: int,
    p: int,
)
    requires
        is_order(order),
        eliminated(gen, order, g, basis, j),
        0 <= j < CODE_BITS,
        basis.len() <= p < MESSAGE_BITS,
        bit_rows(g)[p][j],
    ensures
        leads_at(gen, order, j),
{
    let rows = bit_rows(g);
    lemma_unit(rows, p);
    let w = lemma_back(gen, order, rows, unit(p));
    let v = gf2::combine(unit(p), rows, CODE_BITS as nat);
    assert(w[order[j] as int] == v[j]);
    assert forall|k: int| 0 <= k < j implies !w[#[trigger] order[k] as int] by {
        assert(w[order[k] as int] == v[k]);
    }
    assert(first_set(order, w, j));
}

/// With no such row the bit depends on those before it.
proof fn lemma_no_lead(
    gen: Seq<Vec<u8>>,
    order: Seq<usize>,
    g: Seq<Vec<u8>>,
    basis: Seq<usize>,
    j: int,
)
    requires
        is_order(order),
        eliminated(gen, order, g, basis, j),
        0 <= j < CODE_BITS,
        forall|r: int| basis.len() <= r < MESSAGE_BITS ==> !#[trigger] bit_rows(g)[r][j],
    ensures
        !leads_at(gen, order, j),
{
    let rows = bit_rows(g);
    if leads_at(gen, order, j) {
        let w = choose|w: Seq<bool>| #[trigger] is_codeword(gen, w) && first_set(order, w, j);
        let d = lemma_forth(gen, order, rows, w);
        let v = gf2::combine(d, rows, CODE_BITS as nat);
        assert forall|t: int| 0 <= t < MESSAGE_BITS implies !(#[trigger] d[t] && rows[t][j]) by {
            if t < basis.len() {
                let b = basis[t] as int;
                assert(w[order[b] as int] == v[b]);
                gf2::lemma_xsum_single(
                    MESSAGE_BITS as nat,
                    |s: int| d[s] && rows[s][b],
                    t,
                );
                assert(rows[t][basis[t] as int]);
            }
        }
        gf2::lemma_xsum_none(MESSAGE_BITS as nat, |s: int| d[s] && rows[s][j]);
        assert(w[order[j] as int] == v[j]);
    }
}

/// When every column is done the basis is complete.
proof fn lemma_full(
    gen: Seq<Vec<u8>>,
    order: Seq<usize>,
    g: Seq<Vec<u8>>,
    basis: Seq<usize>,
)
    requires
        eliminated(gen, order, g, basis, CODE_BITS as int),
    ensures
        basis.len() == MESSAGE_BITS,
{
    let rows = bit_rows(g);
    let p = basis.len() as int;
    if p < MESSAGE_BITS {
        lemma_unit(rows, p);
        assert(gf2::is_zero(rows[p]));
        assert(gf2::is_zero(unit(p)));
        assert(unit(p)[p]);
    }
}

/// Adding a row past the basis to another keeps what elimination keeps.
proof fn lemma_keep(
    gen: Seq<Vec<u8>>,
    order: Seq<usize>,
    g: Seq<Vec<u8>>,
    after: Seq<Vec<u8>>,
    basis: Seq<usize>,
    j: int,
    r: int,
    p: int,
)
    requires
        eliminated(gen, order, g, basis, j),
        0 <= j <= CODE_BITS,
        shaped(after),
        bit_rows(after) == gf2::add_row(bit_rows(g), r, p),
        0 <= r < MESSAGE_BITS,
        basis.len() <= p < MESSAGE_BITS,
        r != p,
    ensures
        eliminated(gen, order, after, basis, j),
{
    let rows = bit_rows(g);
    gf2::lemma_add_row(rows, ordered(gen, order), r, p, CODE_BITS as nat);
    let new = bit_rows(after);
    assert forall|s: int, c: int| 0 <= s < MESSAGE_BITS && 0 <= c < j implies #[trigger] new[s][c]
        == rows[s][c] by {
        assert(!rows[p][c]);
        if s == r {
            assert(new[r] == gf2::xor(rows[r], rows[p]));
        }
    }
    assert forall|i: int, s: int|
        0 <= i < basis.len() && 0 <= s < MESSAGE_BITS implies #[trigger] new[s][basis[i] as int] == (
    s == i) by {
        assert(rows[s][basis[i] as int] == (s == i));
    }
}

/// The generator matrix with its columns in the order, as bytes.
fn ordered_generator(gen: &Vec<Vec<u8>>, order: &Vec<usize>) -> (g: Vec<Vec<u8>>)
    requires
        is_generator(gen@),
        is_order(order@),
    ensures
        shaped(g@),
        bit_rows(g@) == ordered(gen@, order@),
{
    let mut g: Vec<Vec<u8>> = Vec::new();
    let mut i: usize = 0;
    while i < MESSAGE_BITS
        invariant
            is_generator(gen@),
            is_order(order@),
            i <= MESSAGE_BITS,
            g@.len() == i,
            forall|r: int|
                0 <= r < i ==> (#[trigger] g@[r])@.len() == CODE_BITS && ldpc_decoder::are_bits(
                    g@[r]@,
                ) && ldpc_decoder::parities(g@[r]@) == ordered(gen@, order@)[r],
        decreases MESSAGE_BITS - i,
    {
        let mut row: Vec<u8> = Vec::new();
        let mut j: usize = 0;
        while j < CODE_BITS
            invariant
                is_generator(gen@),
                is_order(order@),
                i < MESSAGE_BITS,
                j <= CODE_BITS,
                row@.len() == j,
                ldpc_decoder::are_bits(row@),
                forall|k: int|
                    0 <= k < j ==> (#[trigger] row@[k] % 2 == 1) == ordered(gen@, order@)[i as int][k],
            decreases CODE_BITS - j,
        {
            let col: usize = order[j];
            assert(gen@[i as int]@.len() == PARITY_BITS);
            let bit: u8 = if col < MESSAGE_BITS {
                if col == i {
                    1
                } else {
                    0
                }
            } else {
                gen[i][col - MESSAGE_BITS]
            };
            row.push(bit);
            j += 1;
        }
        assert(ldpc_decoder::parities(row@) =~= ordered(gen@, order@)[i as int]);
        g.push(row);
        i += 1;
    }
    assert(bit_rows(g@) =~= ordered(gen@, order@));
    g
}

/// Finds the most reliable basis by Gaussian elimination.
fn eliminate(gen: &Vec<Vec<u8>>, order: &Vec<usize>) -> (r: (Vec<Vec<u8>>, Vec<usize>))
    requires
        is_generator(gen@),
        is_order(order@),
    ensures
        eliminated(gen@, order@, r.0@, r.1@, CODE_BITS as int),
        r.1@.len() == MESSAGE_BITS,
{
    let mut g = ordered_generator(gen, order);
    let mut basis: Vec<usize> = Vec::new();
    proof {
        lemma_ordered_independent(gen@, order@);
        assert(basis@.map_values(|b: usize| b as int) =~= leads(gen@, order@, 0));
    }
    let mut j: usize = 0;
    while j < CODE_BITS
        invariant
            is_generator(gen@),
            is_order(order@),
            j <= CODE_BITS,
            eliminated(gen@, order@, g@, basis@, j as int),
        decreases CODE_BITS - j,
    {
        let p: usize = basis.len();
        let mut r: usize = p;
        while r < MESSAGE_BITS && g[r][j] != 1
            invariant
                p <= r <= MESSAGE_BITS,
                j < CODE_BITS,
                shaped(g@),
                forall|t: int| p <= t < r ==> !#[trigger] bit_rows(g@)[t][j as int],
            decreases MESSAGE_BITS - r,
        {
            assert(g@[r as int]@[j as int] <= 1);
            r += 1;
        }
        if r < MESSAGE_BITS {
            assert(g@[r as int]@[j as int] == 1);
            assert(bit_rows(g@)[r as int][j as int]);
            if r != p {
                let ghost before = g@;
                assert(!bit_rows(before)[p as int][j as int]);
                add_into(&mut g, p, r);
                proof {
                    lemma_keep(gen@, order@, before, g@, basis@, j as int, p as int, r as int);
                }
            }
            assert(bit_rows(g@)[p as int][j as int]);
            proof {
                lemma_lead(gen@, order@, g@, basis@, j as int, p as int);
            }
            let mut s: usize = 0;
            while s < MESSAGE_BITS
                invariant
                    is_order(order@),
                    j < CODE_BITS,
                    p == basis@.len(),
                    p < MESSAGE_BITS,
                    s <= MESSAGE_BITS,
                    eliminated(gen@, order@, g@, basis@, j as int),
                    bit_rows(g@)[p as int][j as int],
                    forall|t: int|
                        0 <= t < s && t != p ==> !#[trigger] bit_rows(g@)[t][j as int],
                decreases MESSAGE_BITS - s,
            {
                let ghost before = g@;
                assert(g@[s as int]@.len() == CODE_BITS);
                assert(g@[s as int]@[j as int] <= 1);
                if s != p && g[s][j] == 1 {
                    assert(bit_rows(before)[s as int][j as int]);
                    add_into(&mut g, s, p);
                    proof {
                        lemma_keep(gen@, order@, before, g@, basis@, j as int, s as int, p as int);
                        assert(!bit_rows(g@)[s as int][j as int]);
                        assert forall|t: int| 0 <= t < s && t != p implies !#[trigger] bit_rows(
                            g@,
                        )[t][j as int] by {
                            assert(bit_rows(g@)[t] == bit_rows(before)[t]);
                        }
                    }
                }
                s += 1;
            }
            let ghost old_basis = basis@;
            basis.push(j);
            proof {
                assert(basis@.map_values(|b: usize| b as int) =~= old_basis.map_values(
                    |b: usize| b as int,
                ).push(j as int));
                let rows = bit_rows(g@);
                assert forall|i: int, t: int|
                    0 <= i < basis@.len() && 0 <= t < MESSAGE_BITS implies #[trigger] rows[t][basis@[i] as int]
                    == (t == i) by {
                    if i < p {
                        assert(rows[t][old_basis[i] as int] == (t == i));
                    }
                }
            }
        } else {
            proof {
                lemma_no_lead(gen@, order@, g@, basis@, j as int);
            }
        }
        j += 1;
    }
    proof {
        lemma_full(gen@, order@, g@, basis@);
    }
    (g, basis)
}

/// A place that is independent of those before it is in the basis.
proof fn lemma_in_basis(gen: Seq<Vec<u8>>, order: Seq<usize>, n: nat, j: int) -> (i: int)
    requires
        0 <= j < n,
        leads_at(gen, order, j),
    ensures
        0 <= i < leads(gen, order, n).len(),
        leads(gen, order, n)[i] == j,
    decreases n,
{
    if j == n - 1 {
        leads(gen, order, (n - 1) as nat).len() as int
    } else {
        lemma_in_basis(gen, order, (n - 1) as nat, j)
    }
}

/// A word with a bit set in the order has a first one.
proof fn lemma_first_set(order: Seq<usize>, w: Seq<bool>, k: int) -> (j: int)
    requires
        0 <= k,
        w[order[k] as int],
    ensures
        0 <= j <= k,
        first_set(order, w, j),
    decreases k,
{
    if exists|i: int| 0 <= i < k && w[#[trigger] order[i] as int] {
        let i = choose|i: int| 0 <= i < k && w[#[trigger] order[i] as int];
        lemma_first_set(order, w, i)
    } else {
        k
    }
}

/// The bits on the basis determine a codeword.
pub proof fn law_basis_determines_codeword(
    gen: Seq<Vec<u8>>,
    order: Seq<usize>,
    m: Seq<bool>,
    a: Seq<bool>,
    b: Seq<bool>,
)
    requires
        is_order(order),
        basis_of(gen, order).len() == MESSAGE_BITS,
        matches_on_basis(gen, order, m, a),
        matches_on_basis(gen, order, m, b),
    ensures
        a == b,
{
    let rows = generator(gen);
    let c = choose|c: Seq<bool>|
        c.len() == rows.len() && #[trigger] gf2::combine(c, rows, CODE_BITS as nat) == a;
    let d = choose|d: Seq<bool>|
        d.len() == rows.len() && #[trigger] gf2::combine(d, rows, CODE_BITS as nat) == b;
    gf2::lemma_combine_xor(c, d, rows, CODE_BITS as nat);
    let e = gf2::xor(a, b);
    assert(gf2::xor(c, d).len() == rows.len());
    assert(is_codeword(gen, e));
    assert forall|v: int| 0 <= v < CODE_BITS implies a[v] == b[v] by {
        if a[v] != b[v] {
            assert(ranking::names(order, v));
            let k = choose|k: int| 0 <= k < order.len() && #[trigger] order[k] == v;
            assert(e[order[k] as int]);
            let j = lemma_first_set(order, e, k);
            assert(leads_at(gen, order, j));
            let i = lemma_in_basis(gen, order, CODE_BITS as nat, j);
            assert(basis_of(gen, order)[i] == j);
            assert(a[order[j] as int] == m[i] && b[order[j] as int] == m[i]);
        }
    }
    assert(a =~= b);
}

/// Encodes basis bits.
fn encode_basis(
    Ghost(gen): Ghost<Seq<Vec<u8>>>,
    order: &Vec<usize>,
    g: &Vec<Vec<u8>>,
    basis: &Vec<usize>,
    m: &Vec<u8>,
) -> (w: Vec<u8>)
    requires
        is_order(order@),
        eliminated(gen, order@, g@, basis@, CODE_BITS as int),
        basis@.len() == MESSAGE_BITS,
        m@.len() == MESSAGE_BITS,
    ensures
        w@.len() == CODE_BITS,
        ldpc_decoder::are_bits(w@),
        ldpc_decoder::parities(w@) == word_for(gen, order@, ldpc_decoder::parities(m@)),
        is_codeword(gen, ldpc_decoder::parities(w@)),
{
    let ghost rows = bit_rows(g@);
    let ghost c = ldpc_decoder::parities(m@);
    let ghost v = gf2::combine(c, rows, CODE_BITS as nat);
    let ghost target = lemma_back(gen, order@, rows, c);
    let mut w: Vec<u8> = Vec::new();
    let mut n: usize = 0;
    while n < CODE_BITS
        invariant
            n <= CODE_BITS,
            w@.len() == n,
            ldpc_decoder::are_bits(w@),
        decreases CODE_BITS - n,
    {
        w.push(0);
        n += 1;
    }
    let mut j: usize = 0;
    while j < CODE_BITS
        invariant
            is_order(order@),
            eliminated(gen, order@, g@, basis@, CODE_BITS as int),
            m@.len() == MESSAGE_BITS,
            rows == bit_rows(g@),
            c == ldpc_decoder::parities(m@),
            v == gf2::combine(c, rows, CODE_BITS as nat),
            target.len() == CODE_BITS,
            forall|k: int| 0 <= k < CODE_BITS ==> target[order@[k] as int] == #[trigger] v[k],
            j <= CODE_BITS,
            w@.len() == CODE_BITS,
            ldpc_decoder::are_bits(w@),
            forall|k: int|
                0 <= k < j ==> (w@[#[trigger] order@[k] as int] % 2 == 1) == target[order@[k] as int],
        decreases CODE_BITS - j,
    {
        let ghost term = |t: int| c[t] && rows[t][j as int];
        let mut bit = false;
        let mut i: usize = 0;
        while i < MESSAGE_BITS
            invariant
                shaped(g@),
                m@.len() == MESSAGE_BITS,
                rows == bit_rows(g@),
                c == ldpc_decoder::parities(m@),
                j < CODE_BITS,
                i <= MESSAGE_BITS,
                term == (|t: int| c[t] && rows[t][j as int]),
                bit == gf2::xsum(i as nat, term),
            decreases MESSAGE_BITS - i,
        {
            assert(g@[i as int]@.len() == CODE_BITS);
            let both = m[i] % 2 == 1 && g[i][j] % 2 == 1;
            assert(term(i as int) == both);
            bit = bit != both;
            i += 1;
        }
        assert(v[j as int] == gf2::xsum(MESSAGE_BITS as nat, term));
        let at: usize = order[j];
        let ghost before = w@;
        w.set(at, if bit { 1 } else { 0 });
        proof {
            assert forall|k: int| 0 <= k < j + 1 implies (w@[#[trigger] order@[k] as int] % 2 == 1)
                == target[order@[k] as int] by {
                assert(target[order@[j as int] as int] == v[j as int]);
                if k < j && order@[k] != at {
                    assert(w@[order@[k] as int] == before[order@[k] as int]);
                }
            }
        }
        j += 1;
    }
    proof {
        let bits = ldpc_decoder::parities(w@);
        assert forall|t: int| 0 <= t < CODE_BITS implies bits[t] == target[t] by {
            assert(ranking::names(order@, t));
            let k = choose|k: int| 0 <= k < order@.len() && #[trigger] order@[k] == t;
            assert((w@[order@[k] as int] % 2 == 1) == target[order@[k] as int]);
        }
        assert(bits =~= target);
        let places = basis_of(gen, order@);
        assert forall|i: int| 0 <= i < MESSAGE_BITS implies target[order@[#[trigger] places[i]] as int]
            == c[i] by {
            assert(places[i] == basis@.map_values(|b: usize| b as int)[i]);
            let b = basis@[i] as int;
            assert(places[i] == b);
            gf2::lemma_xsum_single(MESSAGE_BITS as nat, |t: int| c[t] && rows[t][b], i);
            assert(rows[i][basis@[i] as int]);
            assert(target[order@[b] as int] == v[b]);
        }
        assert(matches_on_basis(gen, order@, c, target));
        assert(places.len() == MESSAGE_BITS);
        law_basis_determines_codeword(gen, order@, c, target, word_for(gen, order@, c));
    }
    w
}

/// Encodes basis bits and keeps the codeword if its CRC holds.
fn try_basis(
    Ghost(gen): Ghost<Seq<Vec<u8>>>,
    order: &Vec<usize>,
    g: &Vec<Vec<u8>>,
    basis: &Vec<usize>,
    m: &Vec<u8>,
    kept: &mut Vec<Vec<u8>>,
    Ghost(tried): Ghost<Seq<Seq<bool>>>,
)
    requires
        is_order(order@),
        eliminated(gen, order@, g@, basis@, CODE_BITS as int),
        basis@.len() == MESSAGE_BITS,
        m@.len() == MESSAGE_BITS,
        words_of(old(kept)@) == passing(gen, order@, tried),
        all_good(gen, old(kept)@),
    ensures
        words_of(final(kept)@) == passing(
            gen,
            order@,
            tried.push(ldpc_decoder::parities(m@)),
        ),
        all_good(gen, final(kept)@),
{
    let w = encode_basis(Ghost(gen), order, g, basis, m);
    let ghost before = kept@;
    let ghost next = tried.push(ldpc_decoder::parities(m@));
    assert(next.drop_last() =~= tried);
    if check_crc14_96(w.as_slice()) {
        kept.push(w);
        assert(words_of(kept@) =~= words_of(before).push(ldpc_decoder::parities(w@)));
    }
}

/// Whether bytes are the bits of a codeword with a good CRC.
pub open spec fn is_kept(gen: Seq<Vec<u8>>, cw: Seq<u8>) -> bool {
    &&& cw.len() == CODE_BITS
    &&& ldpc_decoder::are_bits(cw)
    &&& is_codeword(gen, ldpc_decoder::parities(cw))
    &&& ldpc_decoder::crc_holds(ldpc_decoder::parities(cw))
}

/// Whether every entry is a codeword with a good CRC, a byte for each bit.
pub open spec fn all_good(gen: Seq<Vec<u8>>, v: Seq<Vec<u8>>) -> bool {
    forall|i: int| 0 <= i < v.len() ==> is_kept(gen, (#[trigger] v[i])@)
}

/// A copy of some bits with bit `i` flipped.
fn flipped(m: &Vec<u8>, i: usize) -> (r: Vec<u8>)
    requires
        i < m@.len(),
        ldpc_decoder::are_bits(m@),
    ensures
        r@.len() == m@.len(),
        ldpc_decoder::are_bits(r@),
        ldpc_decoder::parities(r@) == flip(ldpc_decoder::parities(m@), i as int),
{
    let mut r: Vec<u8> = Vec::new();
    let mut k: usize = 0;
    while k < m.len()
        invariant
            k <= m@.len(),
            i < m@.len(),
            ldpc_decoder::are_bits(m@),
            r@.len() == k,
            ldpc_decoder::are_bits(r@),
            forall|t: int|
                0 <= t < k ==> (#[trigger] r@[t] % 2 == 1) == ((m@[t] % 2 == 1) != (t == i)),
        decreases m@.len() - k,
    {
        assert(m@[k as int] <= 1);
        if k == i {
            r.push(1 - m[k]);
        } else {
            r.push(m[k]);
        }
        k += 1;
    }
    assert(ldpc_decoder::parities(r@) =~= flip(ldpc_decoder::parities(m@), i as int));
    r
}

/// Lists the codewords with a good CRC whose bits on the most reliable basis
/// differ from the received bits in at most `norder` places, two at most.
///
/// `order` lists the positions from the most to the least reliable.
pub fn osd174_91(
    gen: &Vec<Vec<u8>>,
    received: &Vec<u8>,
    order: &Vec<usize>,
    norder: usize,
) -> (kept: Vec<Vec<u8>>)
    requires
        is_generator(gen@),
        is_order(order@),
        received@.len() == CODE_BITS,
        ldpc_decoder::are_bits(received@),
    ensures
        all_good(gen@, kept@),
        words_of(kept@) == passing(
            gen@,
            order@,
            trials(
                basis_bits(gen@, order@, ldpc_decoder::parities(received@)),
                norder as int,
            ),
        ),
        basis_of(gen@, order@).len() == MESSAGE_BITS,
{
    let (g, basis) = eliminate(gen, order);
    let ghost places = basis_of(gen@, order@);
    let ghost bits = basis_bits(gen@, order@, ldpc_decoder::parities(received@));
    let mut m0: Vec<u8> = Vec::new();
    let mut i: usize = 0;
    while i < MESSAGE_BITS
        invariant
            is_order(order@),
            eliminated(gen@, order@, g@, basis@, CODE_BITS as int),
            basis@.len() == MESSAGE_BITS,
            received@.len() == CODE_BITS,
            ldpc_decoder::are_bits(received@),
            places == basis_of(gen@, order@),
            bits == basis_bits(gen@, order@, ldpc_decoder::parities(received@)),
            i <= MESSAGE_BITS,
            m0@.len() == i,
            ldpc_decoder::are_bits(m0@),
            forall|k: int| 0 <= k < i ==> (#[trigger] m0@[k] % 2 == 1) == bits[k],
        decreases MESSAGE_BITS - i,
    {
        let b: usize = basis[i];
        assert(places[i as int] == basis@.map_values(|b: usize| b as int)[i as int]);
        m0.push(received[order[b]]);
        i += 1;
    }
    assert(ldpc_decoder::parities(m0@) =~= bits);
    assert(places.len() == basis@.map_values(|b: usize| b as int).len());
    let mut kept: Vec<Vec<u8>> = Vec::new();
    let ghost mut tried: Seq<Seq<bool>> = Seq::empty();
    assert(words_of(kept@) =~= passing(gen@, order@, tried));
    try_basis(Ghost(gen@), order, &g, &basis, &m0, &mut kept, Ghost(tried));
    proof {
        tried = tried.push(bits);
    }
    if norder >= 1 {
        let ghost start = tried;
        let mut k: usize = 0;
        assert(start + singles(bits).take(0) =~= start);
        while k < MESSAGE_BITS
            invariant
                is_order(order@),
                eliminated(gen@, order@, g@, basis@, CODE_BITS as int),
                basis@.len() == MESSAGE_BITS,
                m0@.len() == MESSAGE_BITS,
                ldpc_decoder::are_bits(m0@),
                ldpc_decoder::parities(m0@) == bits,
                k <= MESSAGE_BITS,
                tried == start + singles(bits).take(k as int),
                words_of(kept@) == passing(gen@, order@, tried),
                all_good(gen@, kept@),
            decreases MESSAGE_BITS - k,
        {
            let m = flipped(&m0, k);
            try_basis(Ghost(gen@), order, &g, &basis, &m, &mut kept, Ghost(tried));
            proof {
                tried = tried.push(flip(bits, k as int));
                assert(tried =~= start + singles(bits).take(k + 1));
            }
            k += 1;
        }
        assert(singles(bits).take(MESSAGE_BITS as int) =~= singles(bits));
    }
    if norder >= 2 {
        let ghost start = tried;
        let mut k: usize = 0;
        assert(start + pairs_below(bits, 0) =~= start);
        while k < MESSAGE_BITS
            invariant
                is_order(order@),
                eliminated(gen@, order@, g@, basis@, CODE_BITS as int),
                basis@.len() == MESSAGE_BITS,
                m0@.len() == MESSAGE_BITS,
                ldpc_decoder::are_bits(m0@),
                ldpc_decoder::parities(m0@) == bits,
                k <= MESSAGE_BITS,
                tried == start + pairs_below(bits, k as nat),
                words_of(kept@) == passing(gen@, order@, tried),
                all_good(gen@, kept@),
            decreases MESSAGE_BITS - k,
        {
            let one = flipped(&m0, k);
            let ghost inner = tried;
            let mut j: usize = k + 1;
            assert(inner + pairs_with(bits, k as int).take(0) =~= inner);
            while j < MESSAGE_BITS
                invariant
                    is_order(order@),
                    eliminated(gen@, order@, g@, basis@, CODE_BITS as int),
                    basis@.len() == MESSAGE_BITS,
                    one@.len() == MESSAGE_BITS,
                    ldpc_decoder::are_bits(one@),
                    bits.len() == MESSAGE_BITS,
                    ldpc_decoder::parities(one@) == flip(bits, k as int),
                    k < j <= MESSAGE_BITS,
                    tried == inner + pairs_with(bits, k as int).take(j - k - 1),
                    words_of(kept@) == passing(gen@, order@, tried),
                    all_good(gen@, kept@),
                decreases MESSAGE_BITS - j,
            {
                let m = flipped(&one, j);
                try_basis(Ghost(gen@), order, &g, &basis, &m, &mut kept, Ghost(tried));
                proof {
                    tried = tried.push(flip(flip(bits, k as int), j as int));
                    assert(tried =~= inner + pairs_with(bits, k as int).take(j - k));
                }
                j += 1;
            }
            proof {
                let all = pairs_with(bits, k as int);
                assert(all.take(MESSAGE_BITS - k - 1) =~= all);
                assert(pairs_below(bits, (k + 1) as nat) =~= pairs_below(bits, k as nat) + all);
                assert(tried =~= start + pairs_below(bits, (k + 1) as nat));
            }
            k += 1;
        }
    }
    assert(tried =~= trials(bits, norder as int));
    kept
}

/// Orders the positions of a codeword from the most to the least reliable.
pub fn reliability_order(keys: &Vec<u32>) -> (order: Vec<usize>)
    requires
        keys@.len() == CODE_BITS,
    ensures
        is_order(order@),
        ranking::ranks(keys@, order@),
{
    rank_order(keys)
}

/// Whether `i` is the first of the least keys that there are.
pub open spec fn is_first_least(keys: Seq<Option<u32>>, i: int) -> bool {
    &&& 0 <= i < keys.len()
    &&& keys[i] is Some
    &&& forall|j: int|
        0 <= j < keys.len() && (#[trigger] keys[j]) is Some ==> keys[j]->0 >= keys[i]->0 && (j < i
            ==> keys[j]->0 > keys[i]->0)
}

/// Picks the nearest codeword: the first with the least key.
pub fn pick_nearest(keys: &Vec<Option<u32>>) -> (r: Option<usize>)
    ensures
        match r {
            Some(i) => is_first_least(keys@, i as int),
            None => forall|j: int| 0 <= j < keys@.len() ==> #[trigger] keys@[j] is None,
        },
{
    let mut best: Option<usize> = None;
    let mut j: usize = 0;
    while j < keys.len()
        invariant
            j <= keys@.len(),
            match best {
                Some(i) => i < j && is_first_least(keys@.take(j as int), i as int),
                None => forall|k: int| 0 <= k < j ==> #[trigger] keys@[k] is None,
            },
        decreases keys@.len() - j,
    {
        let ghost prev = keys@.take(j as int);
        let ghost next = keys@.take(j + 1);
        assert(forall|k: int| 0 <= k < j ==> next[k] == prev[k] && #[trigger] prev[k] == keys@[k]);
        if let Some(key) = keys[j] {
            match best {
                Some(i) => {
                    assert(keys@[i as int] == prev[i as int]);
                    if let Some(least) = keys[i] {
                        if key < least {
                            best = Some(j);
                        }
                    }
                },
                None => {
                    best = Some(j);
                },
            }
        }
        j += 1;
    }
    assert(keys@.take(j as int) =~= keys@);
    best
}

/// Whether two words differ in two places, which may be one, and in no others.
pub open spec fn differ_at(m: Seq<bool>, w: Seq<bool>, i: int, j: int) -> bool {
    forall|k: int| 0 <= k < m.len() ==> (#[trigger] m[k] != w[k] <==> k == i || k == j)
}

/// Which basis bits are tried: those received, first; those that differ from
/// them in one place, if one is allowed; those that differ in two, if two are;
/// and no others.
pub proof fn law_trials_of_an_order(m: Seq<bool>, norder: int, w: Seq<bool>)
    requires
        w.len() == m.len(),
    ensures
        trials(m, norder)[0] == m,
        trials(m, norder).contains(w) <==> {
            ||| w == m
            ||| norder >= 1 && exists|i: int| 0 <= i < m.len() && #[trigger] differ_at(m, w, i, i)
            ||| norder >= 2 && exists|i: int, j: int|
                0 <= i < j < m.len() && #[trigger] differ_at(m, w, i, j)
        },
{
    let a = seq![m];
    let b = if norder >= 1 {
        singles(m)
    } else {
        Seq::empty()
    };
    let c = if norder >= 2 {
        pairs_below(m, m.len())
    } else {
        Seq::empty()
    };
    let all = trials(m, norder);
    assert(all == a + b + c);
    lemma_pairs_below(m, m.len(), w);
    if all.contains(w) {
        let k = choose|k: int| 0 <= k < all.len() && all[k] == w;
        if k == 0 {
        } else if k < 1 + b.len() {
            assert(w == singles(m)[k - 1]);
            assert(differ_at(m, w, k - 1, k - 1));
        } else {
            assert(c[k - 1 - b.len()] == w);
            assert(c.contains(w));
        }
    }
    if w == m {
        assert(all[0] == w);
    }
    if norder >= 1 && exists|i: int| 0 <= i < m.len() && #[trigger] differ_at(m, w, i, i) {
        let i = choose|i: int| 0 <= i < m.len() && #[trigger] differ_at(m, w, i, i);
        assert(singles(m)[i] =~= w) by {
            assert forall|k: int| 0 <= k < m.len() implies singles(m)[i][k] == w[k] by {
                assert(m[k] != w[k] <==> k == i);
            }
        }
        assert(all[1 + i] == singles(m)[i]);
    }
    if norder >= 2 && pairs_below(m, m.len()).contains(w) {
        let k = choose|k: int| 0 <= k < c.len() && c[k] == w;
        assert(all[1 + b.len() + k] == w);
    }
}

proof fn lemma_pairs_below(m: Seq<bool>, n: nat, w: Seq<bool>)
    requires
        n <= m.len(),
        w.len() == m.len(),
    ensures
        pairs_below(m, n).contains(w) <==> exists|i: int, j: int|
            0 <= i < n && i < j < m.len() && #[trigger] differ_at(m, w, i, j),
    decreases n,
{
    if n > 0 {
        lemma_pairs_below(m, (n - 1) as nat, w);
        let fewer = pairs_below(m, (n - 1) as nat);
        let more = pairs_with(m, n - 1);
        let all = pairs_below(m, n);
        assert(all == fewer + more);
        if all.contains(w) {
            let k = choose|k: int| 0 <= k < all.len() && all[k] == w;
            if k < fewer.len() {
                assert(fewer[k] == w);
                assert(fewer.contains(w));
            } else {
                let d = k - fewer.len();
                let j = n + d;
                assert(more[d] == w);
                assert(differ_at(m, w, n - 1, j));
            }
        }
        if exists|i: int, j: int|
            0 <= i < n && i < j < m.len() && #[trigger] differ_at(m, w, i, j) {
            let (i, j) = choose|i: int, j: int|
                0 <= i < n && i < j < m.len() && #[trigger] differ_at(m, w, i, j);
            if i < n - 1 {
                assert(fewer.contains(w));
                let k = choose|k: int| 0 <= k < fewer.len() && fewer[k] == w;
                assert(all[k] == w);
            } else {
                assert(more[j - n] =~= w) by {
                    assert forall|k: int| 0 <= k < m.len() implies more[j - n][k] == w[k] by {
                        assert(m[k] != w[k] <==> k == i || k == j);
                    }
                }
                assert(all[fewer.len() + (j - n)] == w);
            }
        }
    }
}

/// Of the words that are tried those are kept whose CRC holds, and no others.
pub proof fn law_words_with_good_crc_are_kept(
    gen: Seq<Vec<u8>>,
    order: Seq<usize>,
    tried: Seq<Seq<bool>>,
    w: Seq<bool>,
)
    ensures
        passing(gen, order, tried).contains(w) <==> ldpc_decoder::crc_holds(w) && exists|i: int|
            0 <= i < tried.len() && w == word_for(gen, order, #[trigger] tried[i]),
    decreases tried.len(),
{
    if tried.len() > 0 {
        let fewer = tried.drop_last();
        law_words_with_good_crc_are_kept(gen, order, fewer, w);
        let before = passing(gen, order, fewer);
        let all = passing(gen, order, tried);
        let last = word_for(gen, order, tried.last());
        assert forall|i: int| 0 <= i < fewer.len() implies fewer[i] == #[trigger] tried[i] by {}
        if before.contains(w) {
            let k = choose|k: int| 0 <= k < before.len() && before[k] == w;
            assert(all[k] == w);
            let i = choose|i: int|
                0 <= i < fewer.len() && w == word_for(gen, order, #[trigger] fewer[i]);
            assert(w == word_for(gen, order, tried[i]));
        }
        if all.contains(w) && !before.contains(w) {
            let k = choose|k: int| 0 <= k < all.len() && all[k] == w;
            if k < before.len() {
                assert(before[k] == w);
            }
            assert(w == word_for(gen, order, tried[tried.len() - 1]));
        }
        if ldpc_decoder::crc_holds(w) && exists|i: int|
            0 <= i < tried.len() && w == word_for(gen, order, #[trigger] tried[i]) {
            let i = choose|i: int|
                0 <= i < tried.len() && w == word_for(gen, order, #[trigger] tried[i]);
            if i < fewer.len() {
                assert(w == word_for(gen, order, fewer[i]));
            } else {
                assert(all[before.len() as int] == w);
            }
        }
    }
}

} // verus!
