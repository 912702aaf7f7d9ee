//! The 79 tones of a transmission and the windows they are received in.
use super::ldpc_decoder;
use super::ldpc_decoder::CODE_BITS;
use vstd::prelude::*;

verus! {

/// The tones that mark the start, the middle and the end of a transmission.
pub const COSTAS: [u8; 7] = [3, 1, 4, 0, 6, 5, 2];

/// The tone for each value of three bits.
pub const GRAY_MAP: [u8; 8] = [0, 1, 3, 2, 5, 6, 4, 7];

/// The number of tones of a transmission.
pub const NN: usize = 79;

/// Whether a tone is one of the synchronisation tones, and which.
pub open spec fn sync_index(k: int) -> Option<int> {
    if 0 <= k < 7 {
        Some(k)
    } else if 36 <= k < 43 {
        Some(k - 36)
    } else if 72 <= k < 79 {
        Some(k - 72)
    } else {
        None
    }
}

/// The first of the three bits of the codeword that tone `k` carries.
pub open spec fn first_bit(k: int) -> int {
    if k < 36 {
        3 * (k - 7)
    } else {
        87 + 3 * (k - 43)
    }
}

/// The number that three bits of a word write.
pub open spec fn value3(cw: Seq<u8>, at: int) -> int {
    4 * cw[at] + 2 * cw[at + 1] + cw[at + 2]
}

/// Tone `k` of the transmission of a codeword.
pub open spec fn tone_of(cw: Seq<u8>, k: int) -> u8 {
    match sync_index(k) {
        Some(i) => COSTAS@[i],
        None => GRAY_MAP@[value3(cw, first_bit(k))],
    }
}

/// The tones of the transmission of a codeword.
pub fn get_tones_from_result(codeword: &[u8]) -> (tones: Vec<u8>)
    requires
        codeword@.len() == CODE_BITS,
        ldpc_decoder::are_bits(codeword@),
    ensures
        tones@ == Seq::new(NN as nat, |k: int| tone_of(codeword@, k)),
{
    let mut tones: Vec<u8> = Vec::new();
    let mut k: usize = 0;
    while k < NN
        invariant
            codeword@.len() == CODE_BITS,
            ldpc_decoder::are_bits(codeword@),
            k <= NN,
            tones@ == Seq::new(k as nat, |k: int| tone_of(codeword@, k)),
        decreases NN - k,
    {
        let tone: u8 = if k < 7 {
            COSTAS[k]
        } else if k >= 36 && k < 43 {
            COSTAS[k - 36]
        } else if k >= 72 {
            COSTAS[k - 72]
        } else {
            let at: usize = if k < 36 {
                3 * (k - 7)
            } else {
                87 + 3 * (k - 43)
            };
            assert(codeword@[at as int] <= 1 && codeword@[at + 1] <= 1 && codeword@[at + 2] <= 1);
            let val: u8 = 4 * codeword[at] + 2 * codeword[at + 1] + codeword[at + 2];
            GRAY_MAP[val as usize]
        };
        tones.push(tone);
        k += 1;
        assert(tones@ =~= Seq::new(k as nat, |k: int| tone_of(codeword@, k)));
    }
    tones
}

/// No two codewords have the same tones.
pub proof fn law_tones_determine_codeword(a: Seq<u8>, b: Seq<u8>)
    requires
        a.len() == CODE_BITS,
        b.len() == CODE_BITS,
        ldpc_decoder::are_bits(a),
        ldpc_decoder::are_bits(b),
        forall|k: int| 0 <= k < NN ==> #[trigger] tone_of(a, k) == tone_of(b, k),
    ensures
        a == b,
{
    assert forall|i: int| 0 <= i < CODE_BITS implies a[i] == b[i] by {
        let k = if i < 87 {
            7 + i / 3
        } else {
            43 + (i - 87) / 3
        };
        assert(tone_of(a, k) == tone_of(b, k));
        let at = first_bit(k);
        assert(at <= i < at + 3);
        assert(a[at] <= 1 && a[at + 1] <= 1 && a[at + 2] <= 1);
        assert(b[at] <= 1 && b[at + 1] <= 1 && b[at + 2] <= 1);
        assert(sync_index(k) is None);
        assert(value3(a, at) == value3(b, at));
    }
    assert(a =~= b);
}

/// The synchronisation tones below `n` that were received as sent.
pub open spec fn sync_matches(tones: Seq<u8>, n: nat) -> nat
    decreases n,
{
    if n == 0 {
        0
    } else {
        sync_matches(tones, (n - 1) as nat) + match sync_index(n - 1) {
            Some(i) => if tones[n - 1] == COSTAS@[i] {
                1nat
            } else {
                0nat
            },
            None => 0nat,
        }
    }
}

/// Counts the synchronisation tones that were received as sent.
pub fn count_sync(tones: &[u8]) -> (r: usize)
    requires
        tones@.len() == NN,
    ensures
        r == sync_matches(tones@, NN as nat),
        r <= 21,
{
    let mut nsync: usize = 0;
    let mut k: usize = 0;
    while k < NN
        invariant
            tones@.len() == NN,
            k <= NN,
            nsync == sync_matches(tones@, k as nat),
            k <= 7 ==> nsync <= k,
            7 <= k <= 36 ==> nsync <= 7,
            36 <= k <= 43 ==> nsync <= k - 29,
            43 <= k <= 72 ==> nsync <= 14,
            72 <= k ==> nsync <= k - 58,
        decreases NN - k,
    {
        let i: Option<usize> = if k < 7 {
            Some(k)
        } else if k >= 36 && k < 43 {
            Some(k - 36)
        } else if k >= 72 {
            Some(k - 72)
        } else {
            None
        };
        if let Some(i) = i {
            if tones[k] == COSTAS[i] {
                nsync += 1;
            }
        }
        k += 1;
    }
    nsync
}

/// The tones of a codeword match all 21 synchronisation tones.
pub proof fn law_sent_tones_match(cw: Seq<u8>)
    ensures
        sync_matches(Seq::new(NN as nat, |k: int| tone_of(cw, k)), NN as nat) == 21,
{
    let tones = Seq::new(NN as nat, |k: int| tone_of(cw, k));
    lemma_sent_tones(tones, cw, NN as nat);
}

proof fn lemma_sent_tones(tones: Seq<u8>, cw: Seq<u8>, n: nat)
    requires
        n <= NN,
        tones == Seq::new(NN as nat, |k: int| tone_of(cw, k)),
    ensures
        sync_matches(tones, n) == if n <= 7 {
            n as int
        } else if n <= 36 {
            7
        } else if n <= 43 {
            n - 29
        } else if n <= 72 {
            14
        } else {
            n - 58
        },
    decreases n,
{
    if n > 0 {
        lemma_sent_tones(tones, cw, (n - 1) as nat);
        assert(tones[n - 1] == tone_of(cw, n - 1));
    }
}

/// Tells whether enough synchronisation tones match to try a decode.
pub fn is_synchronised(nsync: usize) -> (r: bool)
    ensures
        r == (nsync > 4),
{
    nsync > 4
}

/// How far ordered decoding goes in decode attempt `pass`, from 1 on.
pub fn osd_depth(pass: usize, nsync: usize) -> (r: i32)
    ensures
        r == if pass != 1 && nsync > 12 {
            1int
        } else {
            0int
        },
{
    if pass == 1 {
        0
    } else if nsync > 12 {
        1
    } else {
        0
    }
}

/// The samples of one symbol.
pub const SYMBOL_SAMPLES: i32 = 32;

/// A number taken in 32 bits with a sign.
pub open spec fn wrapped32(n: int) -> int {
    (n + 0x8000_0000) % 0x1_0000_0000 - 0x8000_0000
}

/// Where the samples of symbol `k` begin for a transmission that begins at
/// sample `i0`, if all of them are among the `len` samples received. The
/// number of samples is taken in 32 bits.
pub fn symbol_window(i0: i32, k: i32, len: usize) -> (r: Option<usize>)
    requires
        0 <= k < NN,
        i0 + k * SYMBOL_SAMPLES + 31 <= i32::MAX,
    ensures
        ({
            let start = i0 + k * SYMBOL_SAMPLES;
            match r {
                Some(s) => s == start && 0 <= start && start + SYMBOL_SAMPLES <= wrapped32(
                    len as int,
                ) <= len,
                None => start < 0 || start + SYMBOL_SAMPLES > wrapped32(len as int),
            }
        }),
{
    let low: u64 = len as u64 % 0x1_0000_0000;
    let n: i64 = if low < 0x8000_0000 {
        low as i64
    } else {
        low as i64 - 0x1_0000_0000
    };
    assert(n == wrapped32(len as int));
    let start: i32 = i0 + k * SYMBOL_SAMPLES;
    if start >= 0 && ((start + 31) as i64) < n {
        Some(start as usize)
    } else {
        None
    }
}

/// The number of samples of a narrow band.
pub const BAND_SAMPLES: usize = 3200;

/// The spectrum bins from `ib` to `it` that exist among `len`, the first 3200
/// of them: the first and how many.
pub fn band_bins(ib: i32, it: i32, len: usize) -> (r: (usize, usize))
    ensures
        ({
            let first = if ib < 0 {
                0int
            } else {
                ib as int
            };
            let end = if it + 1 < len {
                it + 1
            } else {
                len as int
            };
            if first >= end {
                r == (0usize, 0usize)
            } else {
                r.0 == first && r.1 == if end - first > BAND_SAMPLES {
                    BAND_SAMPLES as int
                } else {
                    end - first
                }
            }
        }),
{
    let first: usize = if ib < 0 {
        0
    } else {
        ib as usize
    };
    if it < 0 || first > it as usize || first >= len {
        return (0, 0);
    }
    let last: usize = if (it as usize) < len {
        it as usize
    } else {
        len - 1
    };
    let count: usize = last - first + 1;
    if count > BAND_SAMPLES {
        (first, BAND_SAMPLES)
    } else {
        (first, count)
    }
}

/// How far the band is rotated so that bin `i0` comes first, where the band
/// begins at bin `ib`.
pub fn band_rotation(i0: i32, ib: i32) -> (r: usize)
    requires
        i32::MIN <= i0 - ib <= i32::MAX,
    ensures
        r < BAND_SAMPLES,
        (i0 - ib - r) % BAND_SAMPLES as int == 0,
{
    let d: i32 = i0 - ib;
    let m: i32 = d % 3200;
    let r: i32 = (m + 3200) % 3200;
    r as usize
}

/// Symbols that are demodulated together.
#[derive(Clone, Copy, Debug, PartialEq, Eq, Structural)]
pub struct SymbolGroup {
    /// The first of the symbols.
    pub symbol: usize,
    /// The first bit of the codeword that they carry.
    pub bit: usize,
}

/// The groups of `nsym` symbols in one half of a transmission.
pub open spec fn groups_per_half(nsym: int) -> int {
    28int / nsym + 1
}

/// Group `g` of the groups of `nsym` symbols.
pub open spec fn group_of(nsym: int, g: int) -> (int, int) {
    let n = groups_per_half(nsym);
    if g < n {
        (7 + g * nsym, 3 * (g * nsym))
    } else {
        (43 + (g - n) * nsym, 87 + 3 * ((g - n) * nsym))
    }
}

/// The groups of `nsym` symbols, those of the first half of the transmission
/// and those of the second. The last of a half may reach beyond it.
pub fn symbol_groups(nsym: usize) -> (r: Vec<SymbolGroup>)
    requires
        1 <= nsym <= 3,
    ensures
        r@.len() == 2 * groups_per_half(nsym as int),
        forall|g: int|
            0 <= g < r@.len() ==> ((#[trigger] r@[g]).symbol as int, r@[g].bit as int) == group_of(
                nsym as int,
                g,
            ),
{
    assert(9 <= 28int / (nsym as int) <= 28) by (nonlinear_arith)
        requires
            1 <= nsym <= 3,
    ;
    let n: usize = 28 / nsym + 1;
    let mut r: Vec<SymbolGroup> = Vec::new();
    let mut g: usize = 0;
    while g < 2 * n
        invariant
            1 <= nsym <= 3,
            n == groups_per_half(nsym as int),
            10 <= n <= 29,
            g <= 2 * n,
            r@.len() == g,
            forall|i: int|
                0 <= i < g ==> ((#[trigger] r@[i]).symbol as int, r@[i].bit as int) == group_of(
                    nsym as int,
                    i,
                ),
        decreases 2 * n - g,
    {
        let (first, bit, i): (usize, usize, usize) = if g < n {
            (7, 0, g)
        } else {
            (43, 87, g - n)
        };
        assert(i * nsym <= 87) by (nonlinear_arith)
            requires
                0 <= i < 29,
                1 <= nsym <= 3,
        ;
        r.push(SymbolGroup { symbol: first + i * nsym, bit: bit + 3 * (i * nsym) });
        g += 1;
    }
    r
}

/// Every bit of a codeword is carried by a group, which begins with a symbol
/// that carries the group's first bits.
pub proof fn law_groups_carry_all_bits(nsym: int, i: int)
    requires
        1 <= nsym <= 3,
        0 <= i < CODE_BITS,
    ensures
        exists|g: int|
            {
                let (symbol, bit) = #[trigger] group_of(nsym, g);
                &&& 0 <= g < 2 * groups_per_half(nsym)
                &&& bit <= i < bit + 3 * nsym
                &&& sync_index(symbol) is None
                &&& first_bit(symbol) == bit
            },
{
    let n = groups_per_half(nsym);
    let k = if i < 87 {
        i / 3
    } else {
        (i - 87) / 3
    };
    let q = k / nsym;
    assert(0 <= q <= 28int / nsym && q * nsym <= k < q * nsym + nsym && q * nsym <= 28)
        by (nonlinear_arith)
        requires
            q == k / nsym,
            0 <= k <= 28,
            1 <= nsym <= 3,
    ;
    let g = if i < 87 {
        q
    } else {
        n + q
    };
    let (symbol, bit) = group_of(nsym, g);
    assert(0 <= g < 2 * n);
    assert(first_bit(symbol) == bit);
}

/// How a codeword is sent: three bits in each of 58 tones, of which 29 follow
/// the first synchronisation and 29 the second. The tones 3, 1, 4, 0, 6, 5 and 2 open, halve and close it.
pub proof fn law_tones_by_bits(cw: Seq<u8>, j: int, i: int)
    requires
        cw.len() == CODE_BITS,
        ldpc_decoder::are_bits(cw),
        0 <= j < 29,
        0 <= i < 7,
    ensures
        tone_of(cw, 7 + j) == gray(cw[3 * j], cw[3 * j + 1], cw[3 * j + 2]),
        tone_of(cw, 43 + j) == gray(cw[87 + 3 * j], cw[87 + 3 * j + 1], cw[87 + 3 * j + 2]),
        tone_of(cw, i) == seq![3u8, 1, 4, 0, 6, 5, 2][i],
        tone_of(cw, 36 + i) == tone_of(cw, i),
        tone_of(cw, 72 + i) == tone_of(cw, i),
{
    assert(cw[3 * j] <= 1 && cw[3 * j + 1] <= 1 && cw[3 * j + 2] <= 1);
    assert(cw[87 + 3 * j] <= 1 && cw[87 + 3 * j + 1] <= 1 && cw[87 + 3 * j + 2] <= 1);
    assert(i == 0 || i == 1 || i == 2 || i == 3 || i == 4 || i == 5 || i == 6);
}

/// The tone for three bits: in turn 0, 1, 3, 2, 5, 6, 4 and 7.
pub open spec fn gray(a: u8, b: u8, c: u8) -> u8 {
    if a == 0 {
        if b == 0 {
            c
        } else if c == 0 {
            3
        } else {
            2
        }
    } else if b == 0 {
        if c == 0 {
            5
        } else {
            6
        }
    } else if c == 0 {
        4
    } else {
        7
    }
}

} // verus!
