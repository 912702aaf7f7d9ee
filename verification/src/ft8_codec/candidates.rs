//! The candidates that the search for transmissions hands on.
use super::ranking;
use super::ranking::rank_order;
use vstd::prelude::*;

verus! {

/// A place in time and frequency where a transmission may be.
#[derive(Clone, Copy, Debug, PartialEq, Eq, Structural)]
pub struct SyncCandidate {
    /// The frequency in bins of 3.125 Hz.
    pub bin: usize,
    /// The start in steps of 40 ms.
    pub step: i32,
    /// The strength; a higher key is a stronger candidate.
    pub key: u32,
}

/// The strongest starts in one frequency bin.
#[derive(Clone, Copy, Debug, PartialEq, Eq, Structural)]
pub struct BinPeak {
    pub bin: usize,
    /// The strongest start within ten steps, with a key if it is strong enough.
    pub near_step: i32,
    pub near_key: Option<u32>,
    /// The strongest start of all, with a key if it is strong enough.
    pub far_step: i32,
    pub far_key: Option<u32>,
}

impl BinPeak {
    /// The candidates of the bin: the near one, then the far one where it is another.
    pub open spec fn candidates(self) -> Seq<SyncCandidate> {
        let near = match self.near_key {
            Some(key) => seq![SyncCandidate { bin: self.bin, step: self.near_step, key }],
            None => Seq::empty(),
        };
        match self.far_key {
            Some(key) if self.far_step != self.near_step => near.push(
                SyncCandidate { bin: self.bin, step: self.far_step, key },
            ),
            _ => near,
        }
    }
}

/// The candidates of several bins in turn.
pub open spec fn all_candidates(peaks: Seq<BinPeak>) -> Seq<SyncCandidate>
    decreases peaks.len(),
{
    if peaks.len() == 0 {
        Seq::empty()
    } else {
        all_candidates(peaks.drop_last()) + peaks.last().candidates()
    }
}

/// The keys of candidates.
pub open spec fn keys_of(c: Seq<SyncCandidate>) -> Seq<u32> {
    c.map_values(|x: SyncCandidate| x.key)
}

/// Whether `r` is the strongest of `c`, at most `maxcand` of them, from the
/// strongest down.
pub open spec fn is_strongest(c: Seq<SyncCandidate>, maxcand: int, r: Seq<SyncCandidate>) -> bool {
    exists|order: Seq<usize>|
        {
            &&& #[trigger] ranking::covers(order, c.len() as int)
            &&& ranking::ranks(keys_of(c), order)
            &&& r == Seq::new(
                if c.len() < maxcand {
                    c.len()
                } else {
                    maxcand as nat
                },
                |i: int| c[order[i] as int],
            )
        }
}

/// Gathers the candidates of all bins and keeps the strongest.
pub fn collect_candidates(peaks: &Vec<BinPeak>, maxcand: usize) -> (r: Vec<SyncCandidate>)
    ensures
        is_strongest(all_candidates(peaks@), maxcand as int, r@),
{
    let mut all: Vec<SyncCandidate> = Vec::new();
    let mut i: usize = 0;
    assert(peaks@.take(0) =~= Seq::<BinPeak>::empty());
    while i < peaks.len()
        invariant
            i <= peaks@.len(),
            all@ == all_candidates(peaks@.take(i as int)),
        decreases peaks@.len() - i,
    {
        let ghost before = all@;
        let p = peaks[i];
        assert(peaks@.take(i + 1).drop_last() =~= peaks@.take(i as int));
        if let Some(key) = p.near_key {
            all.push(SyncCandidate { bin: p.bin, step: p.near_step, key });
        }
        if p.near_step != p.far_step {
            if let Some(key) = p.far_key {
                all.push(SyncCandidate { bin: p.bin, step: p.far_step, key });
            }
        }
        assert(all@ =~= before + p.candidates());
        i += 1;
    }
    assert(peaks@.take(i as int) =~= peaks@);
    let mut keys: Vec<u32> = Vec::new();
    let mut k: usize = 0;
    while k < all.len()
        invariant
            k <= all@.len(),
            keys@ =~= keys_of(all@.take(k as int)),
        decreases all@.len() - k,
    {
        keys.push(all[k].key);
        k += 1;
    }
    assert(all@.take(k as int) =~= all@);
    let order = rank_order(&keys);
    let mut out: Vec<SyncCandidate> = Vec::new();
    let mut n: usize = 0;
    while n < order.len() && n < maxcand
        invariant
            ranking::covers(order@, all@.len() as int),
            n <= order@.len(),
            n <= maxcand,
            out@ =~= Seq::new(n as nat, |i: int| all@[order@[i] as int]),
        decreases order@.len() - n,
    {
        out.push(all[order[n]]);
        n += 1;
    }
    assert(ranking::covers(order@, all@.len() as int));
    assert(out@ =~= Seq::new(
        if all@.len() < maxcand {
            all@.len()
        } else {
            maxcand as nat
        },
        |i: int| all@[order@[i] as int],
    ));
    out
}

/// Whether two candidates are close: less than `bin_tol` bins and at most one
/// step apart.
pub open spec fn close(a: SyncCandidate, b: SyncCandidate, bin_tol: int) -> bool {
    &&& -bin_tol < a.bin - b.bin < bin_tol
    &&& -1 <= a.step - b.step <= 1
}

/// Whether candidate `i` stays: it is close to no earlier one that stays.
pub open spec fn stays(c: Seq<SyncCandidate>, bin_tol: int, i: int) -> bool
    decreases i, 1int,
{
    !shadowed(c, bin_tol, i, i)
}

/// Whether one of the candidates below `n` stays and is close to candidate `i`.
pub open spec fn shadowed(c: Seq<SyncCandidate>, bin_tol: int, i: int, n: int) -> bool
    decreases n, 0int,
    when n <= i
{
    n > 0 && (shadowed(c, bin_tol, i, n - 1) || (stays(c, bin_tol, n - 1) && close(
        c[i],
        c[n - 1],
        bin_tol,
    )))
}

/// The candidates below `n` that stay.
pub open spec fn kept(c: Seq<SyncCandidate>, bin_tol: int, n: nat) -> Seq<SyncCandidate>
    decreases n,
{
    if n == 0 {
        Seq::empty()
    } else if stays(c, bin_tol, n - 1) {
        kept(c, bin_tol, (n - 1) as nat).push(c[n - 1])
    } else {
        kept(c, bin_tol, (n - 1) as nat)
    }
}

fn is_close(a: &SyncCandidate, b: &SyncCandidate, bin_tol: usize) -> (r: bool)
    ensures
        r == close(*a, *b, bin_tol as int),
{
    let bins: usize = if a.bin > b.bin {
        a.bin - b.bin
    } else {
        b.bin - a.bin
    };
    let apart: i64 = a.step as i64 - b.step as i64;
    bins < bin_tol && -1 <= apart && apart <= 1
}

/// Drops each candidate that is close to an earlier one that stays.
pub fn dedup_candidates(candidates: &Vec<SyncCandidate>, bin_tol: usize) -> (r: Vec<SyncCandidate>)
    ensures
        r@ == kept(candidates@, bin_tol as int, candidates@.len()),
{
    let mut result: Vec<SyncCandidate> = Vec::new();
    let mut from: Vec<usize> = Vec::new();
    let mut i: usize = 0;
    while i < candidates.len()
        invariant
            i <= candidates@.len(),
            result@ == kept(candidates@, bin_tol as int, i as nat),
            from@.len() == result@.len(),
            forall|k: int|
                0 <= k < from@.len() ==> #[trigger] from@[k] < i && stays(
                    candidates@,
                    bin_tol as int,
                    from@[k] as int,
                ) && result@[k] == candidates@[from@[k] as int],
            forall|j: int|
                0 <= j < i && #[trigger] stays(candidates@, bin_tol as int, j) ==> from@.contains(
                    j as usize,
                ),
        decreases candidates@.len() - i,
    {
        let mut hidden = false;
        let mut k: usize = 0;
        while k < result.len()
            invariant
                i < candidates@.len(),
                k <= result@.len(),
                hidden == exists|m: int|
                    0 <= m < k && close(candidates@[i as int], #[trigger] result@[m], bin_tol as int),
            decreases result@.len() - k,
        {
            if is_close(&candidates[i], &result[k], bin_tol) {
                assert(close(candidates@[i as int], result@[k as int], bin_tol as int));
                hidden = true;
            }
            k += 1;
        }
        proof {
            lemma_shadowed(candidates@, bin_tol as int, i as int, i as int);
            if hidden {
                let m = choose|m: int|
                    0 <= m < result@.len() && close(
                        candidates@[i as int],
                        #[trigger] result@[m],
                        bin_tol as int,
                    );
                let j = from@[m] as int;
                assert(stays(candidates@, bin_tol as int, j));
                assert(result@[m] == candidates@[j]);
            }
            if shadowed(candidates@, bin_tol as int, i as int, i as int) {
                let j = choose|j: int|
                    0 <= j < i && #[trigger] stays(candidates@, bin_tol as int, j) && close(
                        candidates@[i as int],
                        candidates@[j],
                        bin_tol as int,
                    );
                assert(from@.contains(j as usize));
                let m = choose|m: int| 0 <= m < from@.len() && from@[m] == j as usize;
                assert(result@[m] == candidates@[j]);
            }
            assert(stays(candidates@, bin_tol as int, i as int) == !hidden);
        }
        if !hidden {
            let ghost before = from@;
            result.push(candidates[i]);
            from.push(i);
            proof {
                assert forall|j: int|
                    0 <= j < i + 1 && #[trigger] stays(
                        candidates@,
                        bin_tol as int,
                        j,
                    ) implies from@.contains(j as usize) by {
                    if j < i {
                        assert(before.contains(j as usize));
                        let m = choose|m: int| 0 <= m < before.len() && before[m] == j as usize;
                        assert(from@[m] == j as usize);
                    } else {
                        assert(from@[before.len() as int] == j as usize);
                    }
                }
            }
        }
        i += 1;
    }
    result
}

proof fn lemma_shadowed(c: Seq<SyncCandidate>, bin_tol: int, i: int, n: int)
    requires
        0 <= n <= i,
    ensures
        shadowed(c, bin_tol, i, n) == exists|j: int|
            0 <= j < n && #[trigger] stays(c, bin_tol, j) && close(c[i], c[j], bin_tol),
    decreases n,
{
    if n > 0 {
        lemma_shadowed(c, bin_tol, i, n - 1);
        if shadowed(c, bin_tol, i, n) && !shadowed(c, bin_tol, i, n - 1) {
            assert(stays(c, bin_tol, n - 1));
        }
    }
}

/// No two candidates that stay are close to each other, and each that goes
/// is close to one that stays.
pub proof fn law_kept_are_apart(c: Seq<SyncCandidate>, bin_tol: int, i: int, j: int)
    requires
        0 <= j < i < c.len(),
    ensures
        stays(c, bin_tol, i) && stays(c, bin_tol, j) ==> !close(c[i], c[j], bin_tol),
        !stays(c, bin_tol, i) ==> exists|k: int|
            0 <= k < i && #[trigger] stays(c, bin_tol, k) && close(c[i], c[k], bin_tol),
{
    lemma_shadowed(c, bin_tol, i, i);
}

/// The spectra that the search goes through, four to a symbol.
pub const SEARCH_STEPS: i32 = 372;

/// The spectrum of symbol `symbol` of a transmission that begins `j` steps
/// after the middle of its first second, if there is one.
pub fn search_step(j: i32, symbol: i32) -> (r: Option<usize>)
    requires
        j + 12 <= i32::MAX,
        i32::MIN <= 4 * symbol <= i32::MAX,
        i32::MIN <= j + 12 + 4 * symbol <= i32::MAX,
    ensures
        ({
            let step = j + 12 + 4 * symbol;
            match r {
                Some(s) => s == step - 1 && 1 <= step <= SEARCH_STEPS,
                None => step < 1 || step > SEARCH_STEPS,
            }
        }),
{
    let step: i32 = j + 12 + 4 * symbol;
    if step >= 1 && step <= SEARCH_STEPS {
        Some((step - 1) as usize)
    } else {
        None
    }
}

/// The tenths of the bins from `ia` to `ib` in which the noise is measured:
/// the first and the last bin of each.
pub fn noise_segments(ia: usize, ib: usize) -> (r: Vec<(usize, usize)>)
    requires
        ia + 9 <= ib < usize::MAX,
    ensures
        r@.len() == 10,
        forall|n: int|
            0 <= n < 10 ==> {
                let len = (ib - ia + 1) / 10;
                &&& (#[trigger] r@[n]).0 == ia + n * len
                &&& r@[n].1 == ia + n * len + len - 1
                &&& r@[n].0 <= r@[n].1 <= ib
            },
{
    let len: usize = (ib - ia + 1) / 10;
    let mut r: Vec<(usize, usize)> = Vec::new();
    let mut n: usize = 0;
    while n < 10
        invariant
            ia + 9 <= ib < usize::MAX,
            len == (ib - ia + 1) / 10,
            n <= 10,
            r@.len() == n,
            forall|i: int|
                0 <= i < n ==> {
                    &&& (#[trigger] r@[i]).0 == ia + i * len
                    &&& r@[i].1 == ia + i * len + len - 1
                    &&& r@[i].0 <= r@[i].1 <= ib
                },
        decreases 10 - n,
    {
        assert(n * len + len <= 10 * len && 0 <= n * len) by (nonlinear_arith)
            requires
                n < 10,
                len >= 0,
        ;
        let first: usize = ia + n * len;
        r.push((first, first + (len - 1)));
        n += 1;
    }
    r
}

/// The place of the value that a tenth of `len` sorted values lie below.
pub fn noise_index(len: usize) -> (r: usize)
    requires
        len > 0,
    ensures
        r == len / 10,
        r < len,
{
    len / 10
}

/// Two candidates that stay are a number of bins or two steps apart, and one
/// that is so far from all before it stays.
pub proof fn law_distance_of_candidates(c: Seq<SyncCandidate>, bin_tol: int, i: int, j: int)
    requires
        0 <= j < i < c.len(),
    ensures
        stays(c, bin_tol, i) && stays(c, bin_tol, j) ==> {
            ||| c[i].bin - c[j].bin >= bin_tol
            ||| c[j].bin - c[i].bin >= bin_tol
            ||| c[i].step - c[j].step >= 2
            ||| c[j].step - c[i].step >= 2
        },
        (forall|k: int|
            0 <= k < i ==> {
                ||| (#[trigger] c[k]).bin - c[i].bin >= bin_tol
                ||| c[i].bin - c[k].bin >= bin_tol
                ||| c[k].step - c[i].step >= 2
                ||| c[i].step - c[k].step >= 2
            }) ==> stays(c, bin_tol, i),
        stays(c, bin_tol, 0),
{
    lemma_shadowed(c, bin_tol, i, i);
}

/// The candidates that are collected go from the strongest down; none is made
/// up, and none that is left out is stronger than one that is kept.
pub proof fn law_strongest_are_collected(c: Seq<SyncCandidate>, maxcand: int, r: Seq<SyncCandidate>)
    requires
        0 <= maxcand,
        is_strongest(c, maxcand, r),
    ensures
        r.len() == if c.len() < maxcand {
            c.len() as int
        } else {
            maxcand
        },
        forall|i: int, j: int| 0 <= i < j < r.len() ==> (#[trigger] r[i]).key >= (#[trigger] r[j]).key,
        forall|i: int| 0 <= i < r.len() ==> c.contains(#[trigger] r[i]),
        forall|k: int, i: int|
            0 <= k < c.len() && 0 <= i < r.len() ==> r.contains(#[trigger] c[k]) || c[k].key
                <= (#[trigger] r[i]).key,
{
    let order = choose|order: Seq<usize>|
        {
            &&& #[trigger] ranking::covers(order, c.len() as int)
            &&& ranking::ranks(keys_of(c), order)
            &&& r == Seq::new(
                if c.len() < maxcand {
                    c.len()
                } else {
                    maxcand as nat
                },
                |i: int| c[order[i] as int],
            )
        };
    assert forall|i: int| 0 <= i < r.len() implies c.contains(#[trigger] r[i]) by {
        assert(r[i] == c[order[i] as int]);
    }
    assert forall|i: int, j: int| 0 <= i < j < r.len() implies (#[trigger] r[i]).key >= (
    #[trigger] r[j]).key by {
        assert(keys_of(c)[order[i] as int] == r[i].key);
        assert(keys_of(c)[order[j] as int] == r[j].key);
    }
    assert forall|k: int, i: int| 0 <= k < c.len() && 0 <= i < r.len() implies r.contains(
        #[trigger] c[k],
    ) || c[k].key <= (#[trigger] r[i]).key by {
        assert(ranking::names(order, k));
        let n = choose|n: int| 0 <= n < order.len() && #[trigger] order[n] == k;
        if n < r.len() {
            assert(r[n] == c[k]);
        } else {
            assert(keys_of(c)[order[i] as int] == r[i].key);
            assert(keys_of(c)[order[n] as int] == c[k].key);
        }
    }
}

/// The candidates of a bin: its near start if that is strong enough, and its
/// far start if that is strong enough and another.
pub proof fn law_candidates_of_a_bin(p: BinPeak)
    ensures
        ({
            let near = p.near_key is Some;
            let far = p.far_key is Some && p.far_step != p.near_step;
            let c = p.candidates();
            &&& c.len() == (if near { 1int } else { 0 }) + (if far { 1int } else { 0 })
            &&& near ==> c[0] == (SyncCandidate { bin: p.bin, step: p.near_step, key: p.near_key->0 })
            &&& far ==> c.last() == (SyncCandidate {
                bin: p.bin,
                step: p.far_step,
                key: p.far_key->0,
            })
        }),
{
}

} // verus!
