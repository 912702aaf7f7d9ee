//! Checks on FT8 codewords: the 14-bit CRC, the parity checks, and the
//! bookkeeping of the iterative decoder.
use super::code;
use super::code::Code;
use super::gf2;
use super::osd;
use vstd::prelude::*;

verus! {

/// The length of a codeword in bits.
pub const CODE_BITS: usize = 174;

/// The length of a message with its CRC in bits.
pub const MESSAGE_BITS: usize = 91;

/// The coefficients of the generator polynomial of the CRC, highest first.
pub const CRC_POLY: [u8; 15] = [1, 1, 0, 0, 1, 1, 1, 0, 1, 0, 1, 0, 1, 1, 1];

/// The bits that bytes stand for: a byte stands for its lowest bit.
pub open spec fn parities(s: Seq<u8>) -> Seq<bool> {
    Seq::new(s.len(), |i: int| s[i] % 2 == 1)
}

/// A coefficient of the generator polynomial.
pub open spec fn poly(i: int) -> bool {
    CRC_POLY@[i] == 1
}

/// A word with the generator polynomial added at its start.
pub open spec fn plus_poly(s: Seq<bool>) -> Seq<bool> {
    Seq::new(s.len(), |i: int| if i < 15 { s[i] != poly(i) } else { s[i] })
}

/// Whether the polynomial with the given coefficients, highest first, leaves
/// no remainder on division by the generator polynomial.
pub open spec fn divisible(s: Seq<bool>) -> bool
    decreases s.len(),
{
    if s.len() < 15 {
        gf2::is_zero(s)
    } else if s[0] {
        divisible(plus_poly(s).drop_first())
    } else {
        divisible(s.drop_first())
    }
}

/// Tells whether a message with its CRC leaves no remainder on division by
/// the generator polynomial.
pub fn check_crc14_wsjtx(mc: &[u8]) -> (r: bool)
    requires
        mc@.len() >= 15,
        forall|j: int| 0 <= j < 15 ==> #[trigger] mc@[j] + mc@[0] <= 255,
        forall|j: int| 15 <= j < mc@.len() ==> #[trigger] mc@[j] < 255,
    ensures
        r == divisible(parities(mc@)),
{
    let len = mc.len();
    let mut r: Vec<u8> = Vec::new();
    let mut k: usize = 0;
    while k < 15
        invariant
            k <= 15,
            mc@.len() >= 15,
            r@ == mc@.take(k as int),
        decreases 15 - k,
    {
        r.push(mc[k]);
        k += 1;
        assert(mc@.take(k as int) =~= mc@.take(k - 1).push(mc@[k - 1]));
    }
    let last: usize = len - 15;
    let mut i: usize = 0;
    // What is left to divide: the register, then the bits not yet shifted in.
    assert(parities(r@.take(14) + mc@.skip(14)) =~= parities(mc@));
    while i <= last
        invariant
            len == mc@.len(),
            last == len - 15,
            i <= last + 1,
            r@.len() == 15,
            i == 0 ==> r@ == mc@.take(15),
            i > 0 ==> forall|j: int| 0 <= j < 14 ==> #[trigger] r@[j] <= 1,
            forall|j: int| 0 <= j < 15 ==> #[trigger] mc@[j] + mc@[0] <= 255,
            forall|j: int| 15 <= j < mc@.len() ==> #[trigger] mc@[j] < 255,
            divisible(parities(r@.take(14) + mc@.skip(i + 14))) == divisible(parities(mc@)),
        decreases last + 1 - i,
    {
        let ghost before = r@;
        let ghost word = parities(before.take(14) + mc@.skip(i + 14));
        if i > 0 {
            r.set(14, mc[i + 14]);
        }
        let ghost loaded = r@;
        assert(loaded[14] == mc@[i + 14]);
        let r1: u8 = r[0];
        let ghost r1_odd = r1 % 2 == 1;
        let mut j: usize = 0;
        while j < 15
            invariant
                j <= 15,
                r@.len() == 15,
                loaded.len() == 15,
                r1 == loaded[0],
                forall|m: int| 0 <= m < 15 ==> #[trigger] loaded[m] + r1 <= 255,
                forall|m: int|
                    0 <= m < j ==> #[trigger] r@[m] <= 1 && (r@[m] % 2 == 1) == ((loaded[m] % 2
                        == 1) != (r1 % 2 == 1 && poly(m))),
                forall|m: int| j <= m < 15 ==> r@[m] == loaded[m],
            decreases 15 - j,
        {
            let p: u8 = CRC_POLY[j];
            assert(p == 0 || p == 1);
            assert(loaded[j as int] + r1 <= 255);
            assert(r1 * p == if p == 1 { r1 as int } else { 0 }) by (nonlinear_arith)
                requires
                    p == 0 || p == 1,
            ;
            let sum: u8 = r[j] + r1 * p;
            r.set(j, sum % 2);
            j += 1;
        }
        let ghost reduced = r@;
        let head: u8 = r[0];
        let mut m: usize = 0;
        while m < 14
            invariant
                m <= 14,
                r@.len() == 15,
                reduced.len() == 15,
                forall|t: int| 0 <= t < m ==> #[trigger] r@[t] == reduced[t + 1],
                forall|t: int| m <= t < 15 ==> #[trigger] r@[t] == reduced[t],
            decreases 14 - m,
        {
            let next: u8 = r[m + 1];
            r.set(m, next);
            m += 1;
        }
        r.set(14, head);
        proof {
            assert(word.len() == len - i);
            assert(word[0] == r1_odd);
            let rest = parities(r@.take(14) + mc@.skip(i + 15));
            if r1_odd {
                assert(plus_poly(word).drop_first() =~= rest) by {
                    assert forall|t: int| 0 <= t < rest.len() implies plus_poly(word)[t + 1]
                        == rest[t] by {
                        if t < 14 {
                            assert(r@[t] == reduced[t + 1]);
                        }
                    }
                }
            } else {
                assert(word.drop_first() =~= rest) by {
                    assert forall|t: int| 0 <= t < rest.len() implies word[t + 1] == rest[t] by {
                        if t < 14 {
                            assert(r@[t] == reduced[t + 1]);
                        }
                    }
                }
            }
            assert forall|t: int| 0 <= t < 14 implies #[trigger] r@[t] <= 1 by {
                assert(r@[t] == reduced[t + 1]);
            }
        }
        i += 1;
    }
    let ghost rem = parities(r@.take(14) + mc@.skip(i + 14));
    assert(rem.len() == 14);
    let mut n: usize = 0;
    while n < 14
        invariant
            n <= 14,
            r@.len() == 15,
            rem.len() == 14,
            forall|j: int| 0 <= j < 14 ==> #[trigger] r@[j] <= 1,
            forall|j: int| 0 <= j < 14 ==> #[trigger] rem[j] == (r@[j] % 2 == 1),
            forall|j: int| 0 <= j < n ==> !#[trigger] rem[j],
            divisible(rem) == divisible(parities(mc@)),
        decreases 14 - n,
    {
        if r[n] != 0 {
            assert(rem[n as int]);
            return false;
        }
        assert(r@[n as int] == 0);
        assert(!rem[n as int]);
        n += 1;
    }
    true
}

/// A word after one step of the division.
pub open spec fn reduced(s: Seq<bool>) -> Seq<bool> {
    if s[0] {
        plus_poly(s).drop_first()
    } else {
        s.drop_first()
    }
}

/// The sum of two multiples of the generator polynomial is a multiple.
pub proof fn lemma_divisible_xor(a: Seq<bool>, b: Seq<bool>)
    requires
        a.len() == b.len(),
        divisible(a),
        divisible(b),
    ensures
        divisible(gf2::xor(a, b)),
    decreases a.len(),
{
    let c = gf2::xor(a, b);
    if a.len() < 15 {
        assert forall|j: int| 0 <= j < c.len() implies !#[trigger] c[j] by {
            assert(!a[j] && !b[j]);
        }
    } else {
        assert(reduced(c) =~= gf2::xor(reduced(a), reduced(b)));
        lemma_divisible_xor(reduced(a), reduced(b));
    }
}

/// A zero bit at the end keeps a word a multiple of the generator polynomial
/// or not one.
proof fn lemma_divisible_shift(s: Seq<bool>)
    ensures
        divisible(s.push(false)) == divisible(s),
    decreases s.len(),
{
    let t = s.push(false);
    if s.len() < 14 {
        assert(gf2::is_zero(t) == gf2::is_zero(s)) by {
            if gf2::is_zero(t) {
                assert forall|j: int| 0 <= j < s.len() implies !#[trigger] s[j] by {
                    assert(t[j] == s[j]);
                }
            }
        }
    } else if s.len() == 14 {
        let u = reduced(t);
        assert(u.len() == 14);
        assert(divisible(t) == divisible(u));
        assert(divisible(u) == gf2::is_zero(u));
        if s[0] {
            assert(u[13] == (t[14] != poly(14)));
            assert(!gf2::is_zero(u));
            assert(!gf2::is_zero(s));
        } else {
            if gf2::is_zero(u) {
                assert forall|j: int| 0 <= j < s.len() implies !#[trigger] s[j] by {
                    if j > 0 {
                        assert(u[j - 1] == s[j]);
                    }
                }
            }
            if gf2::is_zero(s) {
                assert forall|j: int| 0 <= j < u.len() implies !#[trigger] u[j] by {
                    if j < 13 {
                        assert(u[j] == s[j + 1]);
                    }
                }
            }
        }
    } else {
        assert(reduced(t) =~= reduced(s).push(false));
        lemma_divisible_shift(reduced(s));
    }
}

/// Whether a word has a bit set, and none outside the 14 positions from `p` on.
pub open spec fn is_burst(e: Seq<bool>, p: int) -> bool {
    &&& 0 <= p
    &&& !gf2::is_zero(e)
    &&& forall|j: int| 0 <= j < e.len() && #[trigger] e[j] ==> p <= j < p + 14
}

/// A burst is no multiple of the generator polynomial.
proof fn lemma_burst(e: Seq<bool>, p: int)
    requires
        is_burst(e, p),
    ensures
        !divisible(e),
    decreases e.len(),
{
    let k = choose|k: int| 0 <= k < e.len() && #[trigger] e[k];
    if e.len() >= 15 {
        if p + 14 < e.len() {
            let rest = e.drop_last();
            assert(!e[e.len() - 1]);
            assert(e =~= rest.push(false));
            assert(rest[k]);
            lemma_burst(rest, p);
            lemma_divisible_shift(rest);
        } else {
            let rest = e.drop_first();
            assert(!e[0]);
            assert(rest[k - 1]);
            assert forall|j: int| 0 <= j < rest.len() && #[trigger] rest[j] implies p - 1 <= j < p
                - 1 + 14 by {
                assert(e[j + 1]);
            }
            lemma_burst(rest, p - 1);
        }
    }
}

/// The CRC notices every change of a good word that stays within 14
/// consecutive bits, a change of one bit among them.
pub proof fn law_crc_notices_bursts(w: Seq<bool>, e: Seq<bool>, p: int)
    requires
        w.len() == e.len(),
        divisible(w),
        is_burst(e, p),
    ensures
        !divisible(gf2::xor(w, e)),
{
    if divisible(gf2::xor(w, e)) {
        lemma_divisible_xor(w, gf2::xor(w, e));
        assert(gf2::xor(w, gf2::xor(w, e)) =~= e);
        lemma_burst(e, p);
    }
}

/// The message determines its CRC: two codewords with good CRCs and the same
/// message bits have the same CRC bits.
pub proof fn law_message_determines_crc(a: Seq<bool>, b: Seq<bool>)
    requires
        a.len() >= MESSAGE_BITS,
        b.len() >= MESSAGE_BITS,
        crc_holds(a),
        crc_holds(b),
        a.take(77) == b.take(77),
    ensures
        a.take(MESSAGE_BITS as int) == b.take(MESSAGE_BITS as int),
{
    let e = gf2::xor(spread_message(a), spread_message(b));
    assert forall|j: int| 0 <= j < 77 implies #[trigger] a[j] == b[j] by {
        assert(a[j] == a.take(77)[j] && b[j] == b.take(77)[j]);
    }
    lemma_divisible_xor(spread_message(a), spread_message(b));
    assert forall|j: int| 0 <= j < e.len() && #[trigger] e[j] implies 82 <= j < 96 by {
        if j < 77 {
            assert(a[j] == b[j]);
        }
    }
    if !gf2::is_zero(e) {
        lemma_burst(e, 82);
    }
    assert forall|j: int| 0 <= j < 91 implies a[j] == b[j] by {
        if j >= 77 {
            assert(!e[j + 5]);
        }
    }
    assert(a.take(91) =~= b.take(91));
}

/// The message and CRC bits of a codeword with five zero bits between them.
pub open spec fn spread_message(cw: Seq<bool>) -> Seq<bool> {
    Seq::new(
        96,
        |i: int|
            if i < 77 {
                cw[i]
            } else if i < 82 {
                false
            } else {
                cw[i - 5]
            },
    )
}

/// Whether the CRC of a codeword is that of its message.
pub open spec fn crc_holds(cw: Seq<bool>) -> bool {
    divisible(spread_message(cw))
}

/// Whether every byte is 0 or 1.
pub open spec fn are_bits(s: Seq<u8>) -> bool {
    forall|i: int| 0 <= i < s.len() ==> #[trigger] s[i] <= 1
}

/// Tells whether the CRC of a codeword is that of its message.
pub fn check_crc14_96(cw: &[u8]) -> (r: bool)
    requires
        cw@.len() >= MESSAGE_BITS,
        are_bits(cw@),
    ensures
        r == crc_holds(parities(cw@)),
{
    let mut m96: Vec<u8> = Vec::new();
    let mut i: usize = 0;
    while i < 96
        invariant
            i <= 96,
            m96@.len() == i,
            cw@.len() >= 91,
            are_bits(cw@),
            are_bits(m96@),
            forall|k: int|
                0 <= k < i ==> (#[trigger] m96@[k] % 2 == 1) == spread_message(parities(cw@))[k],
        decreases 96 - i,
    {
        if i < 77 {
            m96.push(cw[i]);
        } else if i < 82 {
            m96.push(0);
        } else {
            m96.push(cw[i - 5]);
        }
        i += 1;
    }
    assert(parities(m96@) =~= spread_message(parities(cw@)));
    check_crc14_wsjtx(m96.as_slice())
}

/// The parity checks of the code: each lists the positions whose bits add up
/// to zero in a codeword.
pub struct ParityChecks {
    pub rows: Vec<Vec<usize>>,
}

impl ParityChecks {
    /// Every check names positions of a codeword.
    pub open spec fn wf(&self) -> bool {
        forall|j: int, k: int|
            0 <= j < self.rows@.len() && 0 <= k < self.rows@[j]@.len() ==> #[trigger] self.rows@[j]@[k]
                < CODE_BITS
    }

    /// Tells whether every check names positions of a codeword.
    pub fn is_wf(&self) -> (r: bool)
        ensures
            r == self.wf(),
    {
        let mut j: usize = 0;
        while j < self.rows.len()
            invariant
                j <= self.rows@.len(),
                forall|t: int, k: int|
                    0 <= t < j && 0 <= k < self.rows@[t]@.len() ==> #[trigger] self.rows@[t]@[k]
                        < CODE_BITS,
            decreases self.rows@.len() - j,
        {
            let row = &self.rows[j];
            let mut k: usize = 0;
            while k < row.len()
                invariant
                    j < self.rows@.len(),
                    row@ == self.rows@[j as int]@,
                    k <= row@.len(),
                    forall|t: int| 0 <= t < k ==> #[trigger] row@[t] < CODE_BITS,
                decreases row@.len() - k,
            {
                if row[k] >= CODE_BITS {
                    assert(self.rows@[j as int]@[k as int] >= CODE_BITS);
                    return false;
                }
                k += 1;
            }
            j += 1;
        }
        true
    }

    /// Whether the bits that check `j` names do not add up to zero.
    pub open spec fn fails(&self, j: int, word: Seq<bool>) -> bool {
        gf2::xsum(self.rows@[j]@.len(), |k: int| word[self.rows@[j]@[k] as int])
    }

    /// The number of the first `n` checks that fail.
    pub open spec fn failures(&self, n: nat, word: Seq<bool>) -> nat
        decreases n,
    {
        if n == 0 {
            0
        } else if self.fails(n - 1, word) {
            self.failures((n - 1) as nat, word) + 1
        } else {
            self.failures((n - 1) as nat, word)
        }
    }

    /// Whether the word meets every check.
    pub open spec fn met_by(&self, word: Seq<bool>) -> bool {
        forall|j: int| 0 <= j < self.rows@.len() ==> !#[trigger] self.fails(j, word)
    }

    /// Counts the checks that a word fails.
    pub fn count_failed(&self, word: &[u8]) -> (r: usize)
        requires
            self.wf(),
            word@.len() == CODE_BITS,
            are_bits(word@),
        ensures
            r == self.failures(self.rows@.len(), parities(word@)),
            r <= self.rows@.len(),
    {
        let ghost bits = parities(word@);
        let mut ncheck: usize = 0;
        let mut j: usize = 0;
        while j < self.rows.len()
            invariant
                self.wf(),
                word@.len() == CODE_BITS,
                are_bits(word@),
                bits == parities(word@),
                j <= self.rows@.len(),
                ncheck <= j,
                ncheck == self.failures(j as nat, bits),
            decreases self.rows@.len() - j,
        {
            let row = &self.rows[j];
            let mut odd = false;
            let mut k: usize = 0;
            let ghost term = |k: int| bits[self.rows@[j as int]@[k] as int];
            while k < row.len()
                invariant
                    self.wf(),
                    word@.len() == CODE_BITS,
                    are_bits(word@),
                    bits == parities(word@),
                    j < self.rows@.len(),
                    row@ == self.rows@[j as int]@,
                    term == (|k: int| bits[self.rows@[j as int]@[k] as int]),
                    k <= row@.len(),
                    odd == gf2::xsum(k as nat, term),
                decreases row@.len() - k,
            {
                assert(self.rows@[j as int]@[k as int] < CODE_BITS);
                let at: usize = row[k];
                odd = odd != (word[at] == 1);
                assert(term(k as int) == (word@[at as int] == 1));
                k += 1;
            }
            if odd {
                ncheck += 1;
            }
            j += 1;
        }
        ncheck
    }
}

/// A word meets every check if and only if no check fails on it.
pub proof fn lemma_no_failures(checks: ParityChecks, n: nat, word: Seq<bool>)
    requires
        n <= checks.rows@.len(),
    ensures
        checks.failures(n, word) == 0 <==> forall|j: int|
            0 <= j < n ==> !#[trigger] checks.fails(j, word),
    decreases n,
{
    if n > 0 {
        lemma_no_failures(checks, (n - 1) as nat, word);
        assert(checks.failures(n, word) == 0 ==> !checks.fails(n - 1, word));
    }
}

/// What the iterative decoder does after an iteration.
#[derive(Clone, Copy, Debug, PartialEq, Eq, Structural)]
pub enum BpAction {
    /// The word of this iteration is a codeword with a good CRC.
    Accept,
    /// Another iteration follows.
    Continue,
    /// No further iteration follows.
    Stop,
}

/// The number of the last iteration.
pub const MAX_ITERATIONS: usize = 30;

/// The bookkeeping of the iterative decoder.
pub struct BpMonitor {
    /// The number of the iteration that comes next.
    pub iter: usize,
    /// The iterations in a row that did not fail fewer checks than the one before.
    pub ncnt: usize,
    /// The failed checks of the last iteration that was followed by another.
    pub nclast: usize,
}

impl BpMonitor {
    /// Whether another iteration may come: the last one has not been, and
    /// only iterations after the first were counted, each once.
    pub open spec fn ready(&self) -> bool {
        &&& self.iter <= MAX_ITERATIONS
        &&& self.ncnt == 0 || self.ncnt < self.iter
    }

    /// The stalled iterations in a row, this one with `ncheck` failed checks counted.
    pub open spec fn stalled(&self, ncheck: int) -> int {
        if self.iter == 0 {
            self.ncnt as int
        } else if ncheck < self.nclast {
            0
        } else {
            self.ncnt + 1
        }
    }

    /// Whether an iteration with `ncheck` failed checks gives the decoder up.
    pub open spec fn hopeless(&self, ncheck: int) -> bool {
        self.iter >= 10 && self.stalled(ncheck) >= 5 && ncheck > 15
    }

    /// The state before the first iteration.
    pub fn new() -> (r: BpMonitor)
        ensures
            r.ready(),
            r.iter == 0,
            r.ncnt == 0,
            r.nclast == 0,
    {
        BpMonitor { iter: 0, ncnt: 0, nclast: 0 }
    }

    /// Takes the hard decisions of an iteration and says what comes next.
    pub fn step(&mut self, checks: &ParityChecks, word: &[u8]) -> (r: BpAction)
        requires
            old(self).ready(),
            checks.wf(),
            word@.len() == CODE_BITS,
            are_bits(word@),
        ensures
            r == BpAction::Continue ==> final(self).ready(),
            ({
                let bits = parities(word@);
                let ncheck = checks.failures(checks.rows@.len(), bits) as int;
                if checks.met_by(bits) && crc_holds(bits) {
                    r == BpAction::Accept && *final(self) == *old(self)
                } else if old(self).hopeless(ncheck) {
                    &&& r == BpAction::Stop
                    &&& final(self).iter == old(self).iter
                    &&& final(self).nclast == old(self).nclast
                    &&& final(self).ncnt == old(self).stalled(ncheck)
                } else {
                    &&& r == if old(self).iter == MAX_ITERATIONS {
                        BpAction::Stop
                    } else {
                        BpAction::Continue
                    }
                    &&& final(self).iter == old(self).iter + 1
                    &&& final(self).nclast == ncheck
                    &&& final(self).ncnt == old(self).stalled(ncheck)
                }
            }),
    {
        let ncheck = checks.count_failed(word);
        proof {
            lemma_no_failures(*checks, checks.rows@.len(), parities(word@));
        }
        if ncheck == 0 {
            if check_crc14_96(word) {
                return BpAction::Accept;
            }
        }
        if self.iter > 0 {
            if ncheck < self.nclast {
                self.ncnt = 0;
            } else {
                self.ncnt = self.ncnt + 1;
            }
            if self.ncnt >= 5 && self.iter >= 10 && ncheck > 15 {
                return BpAction::Stop;
            }
        }
        self.nclast = ncheck;
        let last = self.iter == MAX_ITERATIONS;
        self.iter = self.iter + 1;
        if last {
            BpAction::Stop
        } else {
            BpAction::Continue
        }
    }
}

/// The number of saved reliability sums that ordered decoding is tried on.
pub open spec fn osd_tries(maxosd: int) -> int {
    if maxosd < 0 {
        0
    } else if maxosd > 3 {
        3
    } else {
        maxosd
    }
}

/// Says how many saved reliability sums ordered decoding is tried on.
pub fn osd_passes(maxosd: i32) -> (r: usize)
    ensures
        r == osd_tries(maxosd as int),
{
    if maxosd < 0 {
        0
    } else if maxosd > 3 {
        3
    } else {
        maxosd as usize
    }
}

/// Tells whether the reliability sum after iteration `iter` is one that
/// ordered decoding is tried on.
pub fn saves_sum(maxosd: i32, iter: usize) -> (r: bool)
    ensures
        r == (1 <= iter <= osd_tries(maxosd as int)),
{
    iter >= 1 && iter <= osd_passes(maxosd)
}

/// The positions below `n` on which two words differ.
pub open spec fn differences(a: Seq<u8>, b: Seq<u8>, n: nat) -> nat
    decreases n,
{
    if n == 0 {
        0
    } else if a[n - 1] != b[n - 1] {
        differences(a, b, (n - 1) as nat) + 1
    } else {
        differences(a, b, (n - 1) as nat)
    }
}

/// Counts the positions on which a codeword differs from the hard decisions
/// on the received bits.
pub fn count_hard_errors(received: &[u8], cw: &[u8]) -> (r: i32)
    requires
        received@.len() >= CODE_BITS,
        cw@.len() >= CODE_BITS,
    ensures
        r == differences(received@, cw@, CODE_BITS as nat),
        0 <= r <= CODE_BITS,
{
    let mut count: i32 = 0;
    let mut i: usize = 0;
    while i < CODE_BITS
        invariant
            received@.len() >= CODE_BITS,
            cw@.len() >= CODE_BITS,
            i <= CODE_BITS,
            0 <= count <= i,
            count == differences(received@, cw@, i as nat),
        decreases CODE_BITS - i,
    {
        if received[i] != cw[i] {
            count += 1;
        }
        i += 1;
    }
    count
}

/// What came of decoding a word.
pub struct DecodeResult {
    pub success: bool,
    /// The message bits with their CRC.
    pub message_bits: Vec<u8>,
    pub codeword: Vec<u8>,
    pub nharderror: i32,
    pub iter: usize,
    /// 1 after the iterative decoder, 2 after ordered decoding, 0 after neither.
    pub ntype: i32,
    pub ncheck: usize,
}

impl DecodeResult {
    /// What is reported of codeword `cw`, found as `ntype` in iteration `iter`.
    pub fn found(received: &[u8], cw: &[u8], iter: usize, ntype: i32) -> (r: DecodeResult)
        requires
            received@.len() >= CODE_BITS,
            cw@.len() == CODE_BITS,
        ensures
            is_found(r, received@, cw@, iter as int, ntype as int),
    {
        let mut message_bits: Vec<u8> = Vec::new();
        let mut codeword: Vec<u8> = Vec::new();
        let mut i: usize = 0;
        while i < CODE_BITS
            invariant
                cw@.len() == CODE_BITS,
                i <= CODE_BITS,
                codeword@ == cw@.take(i as int),
                message_bits@ == cw@.take(if i < MESSAGE_BITS { i as int } else { MESSAGE_BITS as int }),
            decreases CODE_BITS - i,
        {
            assert(cw@.take(i + 1) =~= cw@.take(i as int).push(cw@[i as int]));
            if i < MESSAGE_BITS {
                message_bits.push(cw[i]);
            }
            codeword.push(cw[i]);
            i += 1;
        }
        assert(cw@.take(CODE_BITS as int) =~= cw@);
        DecodeResult {
            success: true,
            message_bits,
            codeword,
            nharderror: count_hard_errors(received, cw),
            iter,
            ntype,
            ncheck: 0,
        }
    }

    /// What is reported when no codeword was found and the last iteration
    /// that was followed by another failed `ncheck` checks.
    pub fn not_found(ncheck: usize) -> (r: DecodeResult)
        ensures
            is_not_found(r, ncheck as int),
    {
        DecodeResult {
            success: false,
            message_bits: Vec::new(),
            codeword: Vec::new(),
            nharderror: -1,
            iter: MAX_ITERATIONS,
            ntype: 0,
            ncheck,
        }
    }
}

/// What is done next to decode a word.
pub enum NextStep {
    /// Messages are passed once more between bits and checks.
    Iterate,
    /// Ordered decoding is tried on the reliability sum after an iteration.
    Order(usize),
    /// The decoder is done.
    Finished(DecodeResult),
}

/// The course of decoding a word: iterations first, then ordered decoding on
/// the sums that were saved, until a codeword is found.
pub struct DecodeCourse<'a> {
    pub code: &'a Code,
    pub monitor: BpMonitor,
    pub maxosd: i32,
    /// The sums that ordered decoding was tried on in vain.
    pub tried: usize,
}

/// Whether a result is that of a codeword, found as `ntype` in iteration `iter`.
pub open spec fn is_found(
    r: DecodeResult,
    received: Seq<u8>,
    cw: Seq<u8>,
    iter: int,
    ntype: int,
) -> bool {
    &&& r.success
    &&& r.message_bits@ == cw.take(MESSAGE_BITS as int)
    &&& r.codeword@ == cw
    &&& r.nharderror == differences(received, cw, CODE_BITS as nat)
    &&& r.iter == iter
    &&& r.ntype == ntype
    &&& r.ncheck == 0
}

/// Whether a result says that no codeword was found.
pub open spec fn is_not_found(r: DecodeResult, ncheck: int) -> bool {
    &&& !r.success
    &&& r.message_bits@.len() == 0
    &&& r.codeword@.len() == 0
    &&& r.nharderror == -1
    &&& r.iter == MAX_ITERATIONS
    &&& r.ntype == 0
    &&& r.ncheck == ncheck
}

/// Whether a step is the next of ordered decoding, after `tried` sums were
/// tried in vain.
pub open spec fn is_next_order(r: NextStep, maxosd: int, tried: int, ncheck: int) -> bool {
    if tried < osd_tries(maxosd) {
        r matches NextStep::Order(i) && i == tried + 1
    } else {
        r matches NextStep::Finished(res) && is_not_found(res, ncheck)
    }
}

/// Whether bytes are the bits of a word of the right length that meets every
/// check and whose CRC holds.
pub open spec fn is_good(code: Code, cw: Seq<u8>) -> bool {
    &&& cw.len() == CODE_BITS
    &&& are_bits(cw)
    &&& code.checks.met_by(parities(cw))
    &&& crc_holds(parities(cw))
}

/// Whether a step ends decoding with success only on a good word.
pub open spec fn holds_good(code: Code, r: NextStep) -> bool {
    r matches NextStep::Finished(res) ==> res.success ==> is_good(code, res.codeword@)
}

/// Whether a course goes on from another by the hard decisions of an
/// iteration, with the step that comes next.
pub open spec fn takes_word(
    c0: DecodeCourse,
    c1: DecodeCourse,
    word: Seq<u8>,
    received: Seq<u8>,
    r: NextStep,
) -> bool {
    &&& holds_good(*c0.code, r)
    &&& c1.code == c0.code
    &&& c1.maxosd == c0.maxosd
    &&& c1.tried == 0
    &&& r is Iterate ==> c1.monitor.ready()
    &&& if c0.accepts(word) {
        r matches NextStep::Finished(res) && is_found(
            res,
            received,
            word,
            c0.monitor.iter as int,
            1,
        )
    } else if c0.gives_up(word) {
        is_next_order(r, c0.maxosd as int, 0, c1.monitor.nclast as int)
    } else {
        r is Iterate
    }
    &&& !c0.accepts(word) ==> {
        let ncheck = c0.failed(word);
        let hopeless = c0.monitor.hopeless(ncheck);
        &&& c1.monitor.ncnt == c0.monitor.stalled(ncheck)
        &&& c1.monitor.nclast == if hopeless {
            c0.monitor.nclast as int
        } else {
            ncheck
        }
        &&& c1.monitor.iter == c0.monitor.iter + if hopeless {
            0int
        } else {
            1int
        }
    }
}

/// Whether a course goes on from another by the codeword that ordered decoding
/// found, if it found one, with the step that comes next.
pub open spec fn takes_ordered(
    c0: DecodeCourse,
    c1: DecodeCourse,
    cw: Option<Seq<u8>>,
    received: Seq<u8>,
    r: NextStep,
) -> bool {
    &&& holds_good(*c0.code, r)
    &&& match cw {
        Some(found) => {
            &&& r matches NextStep::Finished(res) && is_found(res, received, found, 0, 2)
            &&& c1 == c0
        },
        None => {
            &&& is_next_order(r, c0.maxosd as int, c0.tried + 1, c0.monitor.nclast as int)
            &&& c1 == (DecodeCourse { tried: (c0.tried + 1) as usize, ..c0 })
        },
    }
}

impl<'a> DecodeCourse<'a> {
    /// The course before the first iteration.
    pub fn new(code: &'a Code, maxosd: i32) -> (r: DecodeCourse<'a>)
        ensures
            r.code == code,
            r.monitor.ready(),
            r.monitor.iter == 0,
            r.monitor.ncnt == 0,
            r.monitor.nclast == 0,
            r.maxosd == maxosd,
            r.tried == 0,
    {
        DecodeCourse { code, monitor: BpMonitor::new(), maxosd, tried: 0 }
    }

    /// Whether the word of an iteration is accepted.
    pub open spec fn accepts(&self, word: Seq<u8>) -> bool {
        self.code.checks.met_by(parities(word)) && crc_holds(parities(word))
    }

    /// The number of checks that a word fails.
    pub open spec fn failed(&self, word: Seq<u8>) -> int {
        self.code.checks.failures(self.code.checks.rows@.len(), parities(word)) as int
    }

    /// Whether no iteration follows one whose word is not accepted.
    pub open spec fn gives_up(&self, word: Seq<u8>) -> bool {
        self.monitor.hopeless(self.failed(word)) || self.monitor.iter == MAX_ITERATIONS
    }

    fn next_order(&self) -> (r: NextStep)
        ensures
            is_next_order(
                r,
                self.maxosd as int,
                self.tried as int,
                self.monitor.nclast as int,
            ),
    {
        if self.tried < osd_passes(self.maxosd) {
            NextStep::Order(self.tried + 1)
        } else {
            NextStep::Finished(DecodeResult::not_found(self.monitor.nclast))
        }
    }

    /// Takes the hard decisions of an iteration. `received` are the hard
    /// decisions on what was received.
    pub fn take_word(&mut self, word: &[u8], received: &[u8]) -> (r: NextStep)
        requires
            old(self).code.wf(),
            old(self).monitor.ready(),
            old(self).tried == 0,
            word@.len() == CODE_BITS,
            are_bits(word@),
            received@.len() >= CODE_BITS,
        ensures
            takes_word(*old(self), *final(self), word@, received@, r),
    {
        let iter = self.monitor.iter;
        match self.monitor.step(&self.code.checks, word) {
            BpAction::Accept => NextStep::Finished(DecodeResult::found(received, word, iter, 1)),
            BpAction::Continue => NextStep::Iterate,
            BpAction::Stop => self.next_order(),
        }
    }

    /// Takes the codeword that ordered decoding found, if it found one.
    pub fn take_ordered(&mut self, cw: &Option<Vec<u8>>, received: &[u8]) -> (r: NextStep)
        requires
            old(self).code.wf(),
            old(self).tried < osd_tries(old(self).maxosd as int),
            received@.len() >= CODE_BITS,
            cw is Some ==> osd::is_kept(old(self).code.generator@, (cw->0)@),
        ensures
            takes_ordered(
                *old(self),
                *final(self),
                match *cw {
                    Some(found) => Some(found@),
                    None => None,
                },
                received@,
                r,
            ),
    {
        match cw {
            Some(found) => {
                proof {
                    code::law_codewords_meet_checks(*self.code, parities(found@));
                }
                NextStep::Finished(DecodeResult::found(received, found.as_slice(), 0, 2))
            },
            None => {
                self.tried = self.tried + 1;
                self.next_order()
            },
        }
    }
}

/// The positions on which two words differ are counted: none on equal words,
/// and one more or less for each bit that is changed.
pub proof fn law_differences_are_counted(a: Seq<u8>, b: Seq<u8>, n: nat, k: int, x: u8)
    requires
        n <= a.len(),
        n <= b.len(),
    ensures
        differences(a, b, n) == 0 <==> forall|i: int| 0 <= i < n ==> #[trigger] a[i] == b[i],
        0 <= k < n && a[k] == b[k] && x != b[k] ==> differences(a.update(k, x), b, n)
            == differences(a, b, n) + 1,
        differences(a, b, n) == differences(b, a, n),
        differences(a, b, n) <= n,
    decreases n,
{
    if n > 0 {
        law_differences_are_counted(a, b, (n - 1) as nat, k, x);
        if k == n - 1 {
            lemma_differences_before(a, a.update(k, x), b, (n - 1) as nat);
        }
    }
}

proof fn lemma_differences_before(a: Seq<u8>, c: Seq<u8>, b: Seq<u8>, n: nat)
    requires
        forall|i: int| 0 <= i < n ==> a[i] == c[i],
    ensures
        differences(a, b, n) == differences(c, b, n),
    decreases n,
{
    if n > 0 {
        lemma_differences_before(a, c, b, (n - 1) as nat);
    }
}

/// A word that meets every check and has a good CRC ends decoding, in whichever
/// iteration it comes; what is reported is that word, its first bits as the
/// message, and on how many bits it differs from what was received.
pub proof fn law_good_word_ends_decoding(
    c0: DecodeCourse,
    c1: DecodeCourse,
    word: Seq<u8>,
    received: Seq<u8>,
    r: NextStep,
)
    requires
        takes_word(c0, c1, word, received, r),
        c0.code.checks.met_by(parities(word)),
        crc_holds(parities(word)),
        word.len() == 174,
    ensures
        r is Finished,
        ({
            let res = r->Finished_0;
            &&& res.success
            &&& res.codeword@ == word
            &&& res.message_bits@ == word.take(91)
            &&& res.ntype == 1
            &&& res.iter == c0.monitor.iter
            &&& res.ncheck == 0
            &&& res.nharderror == differences(received, word, 174)
        }),
{
}

/// A word that is not good does not end decoding with success. The iterations
/// go on to the thirtieth, unless from the tenth on more than fifteen checks
/// fail and five in a row did not bring fewer. Then ordered decoding follows, if
/// it is allowed.
pub proof fn law_when_iterations_end(
    c0: DecodeCourse,
    c1: DecodeCourse,
    word: Seq<u8>,
    received: Seq<u8>,
    r: NextStep,
)
    requires
        takes_word(c0, c1, word, received, r),
        !c0.code.checks.met_by(parities(word)) || !crc_holds(parities(word)),
    ensures
        ({
            let failed = c0.failed(word);
            let stalled = if c0.monitor.iter == 0 {
                c0.monitor.ncnt as int
            } else if failed < c0.monitor.nclast {
                0
            } else {
                c0.monitor.ncnt + 1
            };
            let lost = c0.monitor.iter >= 10 && stalled >= 5 && failed > 15;
            &&& c0.monitor.iter < 30 && !lost ==> r is Iterate
            &&& c0.monitor.iter < 10 ==> r is Iterate
            &&& c0.monitor.iter == 30 || lost ==> {
                &&& c0.maxosd > 0 ==> (r matches NextStep::Order(i) && i == 1)
                &&& c0.maxosd <= 0 ==> r is Finished && !(r->Finished_0).success
            }
            &&& r is Iterate ==> c1.monitor.iter == c0.monitor.iter + 1 && c1.monitor.nclast == failed
                && c1.monitor.ncnt == stalled
        }),
{
}

/// What ordered decoding finds ends decoding; where it finds nothing the next
/// of at most three saved sums is tried, and then decoding has failed.
pub proof fn law_course_of_ordered_decoding(
    c0: DecodeCourse,
    c1: DecodeCourse,
    cw: Option<Seq<u8>>,
    received: Seq<u8>,
    r: NextStep,
)
    requires
        takes_ordered(c0, c1, cw, received, r),
    ensures
        cw matches Some(w) ==> {
            &&& r is Finished
            &&& (r->Finished_0).success
            &&& (r->Finished_0).codeword@ == w
            &&& (r->Finished_0).message_bits@ == w.take(91)
            &&& (r->Finished_0).ntype == 2
            &&& (r->Finished_0).nharderror == differences(received, w, 174)
        },
        cw is None ==> {
            let last = if c0.maxosd > 3 {
                3
            } else {
                c0.maxosd as int
            };
            &&& c0.tried + 1 < last ==> (r matches NextStep::Order(i) && i == c0.tried + 2)
            &&& c0.tried + 1 >= last ==> {
                &&& r is Finished
                &&& !(r->Finished_0).success
                &&& (r->Finished_0).codeword@.len() == 0
                &&& (r->Finished_0).message_bits@.len() == 0
                &&& (r->Finished_0).nharderror == -1
                &&& (r->Finished_0).ntype == 0
            }
        },
{
}

} // verus!
