//! The code: its parity checks and the generator that belongs to them.
use super::gf2;
use super::ldpc_decoder;
use super::ldpc_decoder::{ParityChecks, CODE_BITS, MESSAGE_BITS};
use super::osd;
use super::osd::PARITY_BITS;
use vstd::prelude::*;

verus! {

/// The tables of the code.
pub struct Code {
    pub checks: ParityChecks,
    /// The parity bits of each message bit.
    pub generator: Vec<Vec<u8>>,
}

impl Code {
    /// The tables have their shapes, and every row of the generator matrix
    /// meets every check.
    pub open spec fn wf(&self) -> bool {
        &&& self.checks.wf()
        &&& osd::is_generator(self.generator@)
        &&& forall|i: int|
            0 <= i < MESSAGE_BITS ==> self.checks.met_by(
                #[trigger] osd::generator_row(self.generator@, i),
            )
    }

    /// The code of two tables, if they are those of a code.
    pub fn new(checks: ParityChecks, generator: Vec<Vec<u8>>) -> (r: Option<Code>)
        ensures
            r is Some <==> (Code { checks, generator }).wf(),
            r is Some ==> r->0 == (Code { checks, generator }),
    {
        if !checks.is_wf() || !has_shape(&generator) {
            return None;
        }
        let mut i: usize = 0;
        while i < MESSAGE_BITS
            invariant
                i <= MESSAGE_BITS,
                checks.wf(),
                osd::is_generator(generator@),
                forall|t: int|
                    0 <= t < i ==> checks.met_by(#[trigger] osd::generator_row(generator@, t)),
            decreases MESSAGE_BITS - i,
        {
            let row = row_of(&generator, i);
            proof {
                ldpc_decoder::lemma_no_failures(
                    checks,
                    checks.rows@.len(),
                    osd::generator_row(generator@, i as int),
                );
            }
            if checks.count_failed(row.as_slice()) > 0 {
                assert(!checks.met_by(osd::generator_row(generator@, i as int)));
                return None;
            }
            i += 1;
        }
        Some(Code { checks, generator })
    }
}

/// Tells whether a table holds the parity bits of each message bit.
fn has_shape(generator: &Vec<Vec<u8>>) -> (r: bool)
    ensures
        r == osd::is_generator(generator@),
{
    if generator.len() != MESSAGE_BITS {
        return false;
    }
    let mut i: usize = 0;
    while i < MESSAGE_BITS
        invariant
            i <= MESSAGE_BITS,
            generator@.len() == MESSAGE_BITS,
            forall|t: int|
                0 <= t < i ==> (#[trigger] generator@[t])@.len() == PARITY_BITS
                    && ldpc_decoder::are_bits(generator@[t]@),
        decreases MESSAGE_BITS - i,
    {
        let row = &generator[i];
        if row.len() != PARITY_BITS {
            return false;
        }
        let mut j: usize = 0;
        while j < PARITY_BITS
            invariant
                i < MESSAGE_BITS,
                generator@.len() == MESSAGE_BITS,
                row@ == generator@[i as int]@,
                row@.len() == PARITY_BITS,
                j <= PARITY_BITS,
                forall|t: int| 0 <= t < j ==> #[trigger] row@[t] <= 1,
            decreases PARITY_BITS - j,
        {
            if row[j] > 1 {
                assert(!ldpc_decoder::are_bits(generator@[i as int]@));
                return false;
            }
            j += 1;
        }
        i += 1;
    }
    true
}

/// Row `i` of the generator matrix, a byte for each bit.
fn row_of(generator: &Vec<Vec<u8>>, i: usize) -> (row: Vec<u8>)
    requires
        osd::is_generator(generator@),
        i < MESSAGE_BITS,
    ensures
        row@.len() == CODE_BITS,
        ldpc_decoder::are_bits(row@),
        ldpc_decoder::parities(row@) == osd::generator_row(generator@, i as int),
{
    let mut row: Vec<u8> = Vec::new();
    let mut j: usize = 0;
    while j < CODE_BITS
        invariant
            osd::is_generator(generator@),
            i < MESSAGE_BITS,
            j <= CODE_BITS,
            row@.len() == j,
            ldpc_decoder::are_bits(row@),
            forall|t: int|
                0 <= t < j ==> (#[trigger] row@[t] % 2 == 1) == osd::generator_row(
                    generator@,
                    i as int,
                )[t],
        decreases CODE_BITS - j,
    {
        assert(generator@[i as int]@.len() == PARITY_BITS);
        let bit: u8 = if j >= MESSAGE_BITS {
            generator[i][j - MESSAGE_BITS]
        } else if j == i {
            1
        } else {
            0
        };
        row.push(bit);
        j += 1;
    }
    assert(ldpc_decoder::parities(row@) =~= osd::generator_row(generator@, i as int));
    row
}

/// Every codeword meets every check.
pub proof fn law_codewords_meet_checks(code: Code, w: Seq<bool>)
    requires
        code.wf(),
        osd::is_codeword(code.generator@, w),
    ensures
        code.checks.met_by(w),
{
    let rows = osd::generator(code.generator@);
    let c = choose|c: Seq<bool>|
        c.len() == rows.len() && #[trigger] gf2::combine(c, rows, CODE_BITS as nat) == w;
    assert forall|j: int| 0 <= j < code.checks.rows@.len() implies !#[trigger] code.checks.fails(
        j,
        w,
    ) by {
        let places = code.checks.rows@[j]@;
        let term = |k: int, i: int| c[i] && rows[i][places[k] as int];
        let by_place = |k: int| gf2::xsum(rows.len(), |i: int| term(k, i));
        let by_row = |i: int| gf2::xsum(places.len(), |k: int| term(k, i));
        let bit = |k: int| w[places[k] as int];
        assert forall|k: int| 0 <= k < places.len() implies #[trigger] bit(k) == by_place(k) by {
            assert(code.checks.rows@[j]@[k] < CODE_BITS);
            gf2::lemma_xsum_ext(
                rows.len(),
                |i: int| c[i] && rows[i][places[k] as int],
                |i: int| term(k, i),
            );
        }
        gf2::lemma_xsum_ext(places.len(), bit, by_place);
        gf2::lemma_xsum_swap(places.len(), rows.len(), term);
        assert forall|i: int| 0 <= i < rows.len() implies !#[trigger] by_row(i) by {
            let row = osd::generator_row(code.generator@, i);
            assert(code.checks.met_by(row));
            assert(!code.checks.fails(j, row));
            if c[i] {
                gf2::lemma_xsum_ext(
                    places.len(),
                    |k: int| row[code.checks.rows@[j]@[k] as int],
                    |k: int| term(k, i),
                );
            } else {
                gf2::lemma_xsum_none(places.len(), |k: int| term(k, i));
            }
        }
        gf2::lemma_xsum_none(rows.len(), by_row);
        gf2::lemma_xsum_ext(places.len(), |k: int| w[code.checks.rows@[j]@[k] as int], bit);
    }
}

} // verus!
