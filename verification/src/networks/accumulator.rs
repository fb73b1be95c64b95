use vstd::prelude::*;

verus! {

/// A vector of `N` numbers.
#[derive(Clone, Copy)]
pub struct Accumulator<T: Copy, const N: usize>(pub [T; N]);

/// A vector of `N` numbers, for storage in rows.
#[derive(Clone, Copy)]
pub struct Align64<T: Copy, const N: usize>(pub [T; N]);

/// The number of elements that `add_multi` sums up at a time.
pub const PER: usize = 128;

/// The sum of the elements at `at` of the rows of `weights` named by the
/// first `n` of `adds`, on top of `base`.
pub open spec fn column_sum(base: int, weights: Seq<Seq<i16>>, adds: Seq<usize>, n: int, at: int) -> int
    decreases n,
{
    if n <= 0 {
        base
    } else {
        column_sum(base, weights, adds, n - 1, at) + weights[adds[n - 1] as int][at]
    }
}

/// Whether every sum of the elements at `at`, of the first row, the first
/// two, and so on, fits 16 bits.
pub open spec fn column_fits(base: int, weights: Seq<Seq<i16>>, adds: Seq<usize>, at: int) -> bool {
    forall|n: int|
        0 <= n <= adds.len() ==> i16::MIN <= #[trigger] column_sum(base, weights, adds, n, at)
            <= i16::MAX
}

/// The number of leading elements that `add_multi` works on: the whole
/// blocks of `PER` elements.
pub open spec fn blocked(n: int) -> int {
    (n / (PER as int)) * (PER as int)
}

/// The rows of weights as plain numbers.
pub open spec fn rows<const N: usize>(weights: Seq<Accumulator<i16, N>>) -> Seq<Seq<i16>> {
    weights.map_values(|w: Accumulator<i16, N>| w.0@)
}

/// The rows of weights as plain numbers.
pub open spec fn aligned_rows<const N: usize>(weights: Seq<Align64<i16, N>>) -> Seq<Seq<i16>> {
    weights.map_values(|w: Align64<i16, N>| w.0@)
}

/// Adds to the first whole blocks of `acc` the rows of `weights` that `adds`
/// names, one block at a time.
fn add_rows<const N: usize>(acc: &mut [i16; N], adds: &[usize], weights: Ghost<Seq<Seq<i16>>>, row: impl Fn(usize, usize) -> i16)
    requires
        forall|k: int| 0 <= k < adds@.len() ==> (#[trigger] adds@[k]) < weights@.len(),
        forall|k: int| 0 <= k < weights@.len() ==> (#[trigger] weights@[k]).len() == N,
        forall|at: int|
            0 <= at < blocked(N as int) ==> #[trigger] column_fits(
                old(acc)@[at] as int,
                weights@,
                adds@,
                at,
            ),
        forall|a: usize, at: usize| a < weights@.len() && at < N ==> call_requires(row, (a, at)),
        forall|a: usize, at: usize, v: i16|
            call_ensures(row, (a, at), v) ==> v == weights@[a as int][at as int],
    ensures
        forall|at: int|
            0 <= at < blocked(N as int) ==> #[trigger] final(acc)@[at] == column_sum(
                old(acc)@[at] as int,
                weights@,
                adds@,
                adds@.len() as int,
                at,
            ),
        forall|at: int| blocked(N as int) <= at < N ==> #[trigger] final(acc)@[at] == old(acc)@[at],
{
    let mut regs: [i16; 128] = [0i16; 128];
    let blocks = N / PER;
    let mut i: usize = 0;
    assert(blocked(N as int) == blocks * PER);
    assert(blocks * PER <= N) by (nonlinear_arith)
        requires
            blocks == N / PER,
    ;
    while i < blocks
        invariant
            i <= blocks == N / PER,
            blocks * PER <= N,
            blocked(N as int) == blocks * PER,
            forall|k: int| 0 <= k < adds@.len() ==> (#[trigger] adds@[k]) < weights@.len(),
            forall|k: int| 0 <= k < weights@.len() ==> (#[trigger] weights@[k]).len() == N,
            forall|at: int|
                0 <= at < blocked(N as int) ==> #[trigger] column_fits(
                    old(acc)@[at] as int,
                    weights@,
                    adds@,
                    at,
                ),
            forall|a: usize, at: usize|
                a < weights@.len() && at < N ==> call_requires(row, (a, at)),
            forall|a: usize, at: usize, v: i16|
                call_ensures(row, (a, at), v) ==> v == weights@[a as int][at as int],
            forall|at: int|
                0 <= at < i * PER ==> #[trigger] acc@[at] == column_sum(
                    old(acc)@[at] as int,
                    weights@,
                    adds@,
                    adds@.len() as int,
                    at,
                ),
            forall|at: int| i * PER <= at < N ==> #[trigger] acc@[at] == old(acc)@[at],
        decreases blocks - i,
    {
        let offset = PER * i;
        assert(offset + PER <= N) by (nonlinear_arith)
            requires
                offset == PER * i,
                i < blocks,
                blocks * PER <= N,
        ;
        let mut j: usize = 0;
        while j < PER
            invariant
                j <= PER,
                offset + PER <= N,
                forall|k: int| 0 <= k < j ==> #[trigger] regs@[k] == acc@[offset + k],
            decreases PER - j,
        {
            regs[j] = acc[offset + j];
            j = j + 1;
        }
        let mut a: usize = 0;
        while a < adds.len()
            invariant
                a <= adds@.len(),
                offset + PER <= N,
                offset == PER * i,
                i < blocks,
                blocked(N as int) == blocks * PER,
                blocks * PER <= N,
                forall|k: int| 0 <= k < adds@.len() ==> (#[trigger] adds@[k]) < weights@.len(),
                forall|k: int| 0 <= k < weights@.len() ==> (#[trigger] weights@[k]).len() == N,
                forall|at: int|
                    0 <= at < blocked(N as int) ==> #[trigger] column_fits(
                        old(acc)@[at] as int,
                        weights@,
                        adds@,
                        at,
                    ),
                forall|x: usize, at: usize|
                    x < weights@.len() && at < N ==> call_requires(row, (x, at)),
                forall|x: usize, at: usize, v: i16|
                    call_ensures(row, (x, at), v) ==> v == weights@[x as int][at as int],
                forall|k: int|
                    0 <= k < PER ==> #[trigger] regs@[k] == column_sum(
                        old(acc)@[offset + k] as int,
                        weights@,
                        adds@,
                        a as int,
                        offset + k,
                    ),
                forall|at: int| i * PER <= at < N ==> #[trigger] acc@[at] == old(acc)@[at],
            decreases adds@.len() - a,
        {
            let this = adds[a];
            let mut j: usize = 0;
            while j < PER
                invariant
                    j <= PER,
                    a < adds@.len(),
                    this == adds@[a as int],
                    this < weights@.len(),
                    offset + PER <= N,
                    offset == PER * i,
                    i < blocks,
                    blocked(N as int) == blocks * PER,
                    blocks * PER <= N,
                    forall|k: int| 0 <= k < weights@.len() ==> (#[trigger] weights@[k]).len() == N,
                    forall|at: int|
                        0 <= at < blocked(N as int) ==> #[trigger] column_fits(
                            old(acc)@[at] as int,
                            weights@,
                            adds@,
                            at,
                        ),
                    forall|x: usize, at: usize|
                        x < weights@.len() && at < N ==> call_requires(row, (x, at)),
                    forall|x: usize, at: usize, v: i16|
                        call_ensures(row, (x, at), v) ==> v == weights@[x as int][at as int],
                    forall|k: int|
                        0 <= k < j ==> #[trigger] regs@[k] == column_sum(
                            old(acc)@[offset + k] as int,
                            weights@,
                            adds@,
                            a + 1,
                            offset + k,
                        ),
                    forall|k: int|
                        j <= k < PER ==> #[trigger] regs@[k] == column_sum(
                            old(acc)@[offset + k] as int,
                            weights@,
                            adds@,
                            a as int,
                            offset + k,
                        ),
                decreases PER - j,
            {
                let w = row(this, offset + j);
                proof {
                    let at = offset + j;
                    assert(at < blocked(N as int)) by (nonlinear_arith)
                        requires
                            at == offset + j,
                            j < PER,
                            offset == PER * i,
                            i < blocks,
                            blocked(N as int) == blocks * PER,
                    ;
                    assert(column_fits(old(acc)@[at] as int, weights@, adds@, at));
                    assert(i16::MIN <= column_sum(
                        old(acc)@[at] as int,
                        weights@,
                        adds@,
                        a + 1,
                        at,
                    ) <= i16::MAX);
                }
                regs[j] = regs[j] + w;
                j = j + 1;
            }
            a = a + 1;
        }
        let mut j: usize = 0;
        while j < PER
            invariant
                j <= PER,
                offset + PER <= N,
                offset == PER * i,
                forall|k: int|
                    0 <= k < PER ==> #[trigger] regs@[k] == column_sum(
                        old(acc)@[offset + k] as int,
                        weights@,
                        adds@,
                        adds@.len() as int,
                        offset + k,
                    ),
                forall|at: int|
                    0 <= at < i * PER ==> #[trigger] acc@[at] == column_sum(
                        old(acc)@[at] as int,
                        weights@,
                        adds@,
                        adds@.len() as int,
                        at,
                    ),
                forall|k: int|
                    0 <= k < j ==> #[trigger] acc@[offset + k] == column_sum(
                        old(acc)@[offset + k] as int,
                        weights@,
                        adds@,
                        adds@.len() as int,
                        offset + k,
                    ),
                forall|at: int| offset + j <= at < N ==> #[trigger] acc@[at] == old(acc)@[at],
            decreases PER - j,
        {
            acc[offset + j] = regs[j];
            j = j + 1;
        }
        proof {
            assert forall|at: int| 0 <= at < (i + 1) * PER implies #[trigger] acc@[at]
                == column_sum(old(acc)@[at] as int, weights@, adds@, adds@.len() as int, at) by {
                if at >= i * PER {
                    let k = at - offset;
                    assert(acc@[offset + k] == column_sum(
                        old(acc)@[offset + k] as int,
                        weights@,
                        adds@,
                        adds@.len() as int,
                        offset + k,
                    ));
                }
            }
        }
        i = i + 1;
    }
}

impl<const N: usize> Accumulator<i16, N> {
    /// Adds another vector, element by element.
    pub fn add(&mut self, other: &Accumulator<i16, N>)
        requires
            forall|i: int|
                0 <= i < N ==> i16::MIN <= #[trigger] old(self).0@[i] + other.0@[i] <= i16::MAX,
        ensures
            forall|i: int|
                0 <= i < N ==> #[trigger] final(self).0@[i] == old(self).0@[i] + other.0@[i],
    {
        let mut i: usize = 0;
        while i < N
            invariant
                i <= N,
                forall|j: int|
                    0 <= j < N ==> i16::MIN <= #[trigger] old(self).0@[j] + other.0@[j]
                        <= i16::MAX,
                forall|j: int|
                    0 <= j < i ==> #[trigger] self.0@[j] == old(self).0@[j] + other.0@[j],
                forall|j: int| i <= j < N ==> #[trigger] self.0@[j] == old(self).0@[j],
            decreases N - i,
        {
            assert(i16::MIN <= old(self).0@[i as int] + other.0@[i as int] <= i16::MAX);
            self.0[i] = self.0[i] + other.0[i];
            i = i + 1;
        }
    }

    /// Adds a multiple of another vector, element by element.
    pub fn madd(&mut self, mul: i16, other: &Accumulator<i16, N>)
        requires
            forall|i: int|
                0 <= i < N ==> i16::MIN <= #[trigger] old(self).0@[i] + mul * other.0@[i]
                    <= i16::MAX && i16::MIN <= mul * other.0@[i] <= i16::MAX,
        ensures
            forall|i: int|
                0 <= i < N ==> #[trigger] final(self).0@[i] == old(self).0@[i] + mul
                    * other.0@[i],
    {
        let mut i: usize = 0;
        while i < N
            invariant
                i <= N,
                forall|j: int|
                    0 <= j < N ==> i16::MIN <= #[trigger] old(self).0@[j] + mul * other.0@[j]
                        <= i16::MAX && i16::MIN <= mul * other.0@[j] <= i16::MAX,
                forall|j: int|
                    0 <= j < i ==> #[trigger] self.0@[j] == old(self).0@[j] + mul * other.0@[j],
                forall|j: int| i <= j < N ==> #[trigger] self.0@[j] == old(self).0@[j],
            decreases N - i,
        {
            assert(i16::MIN <= old(self).0@[i as int] + mul * other.0@[i as int] <= i16::MAX
                && i16::MIN <= mul * other.0@[i as int] <= i16::MAX);
            self.0[i] = self.0[i] + mul * other.0[i];
            i = i + 1;
        }
    }

    /// Adds the rows of `weights` that `adds` names to the leading whole
    /// blocks of `PER` elements; the elements behind them stay.
    pub fn add_multi(&mut self, adds: &[usize], weights: &[Accumulator<i16, N>])
        requires
            forall|k: int| 0 <= k < adds@.len() ==> (#[trigger] adds@[k]) < weights@.len(),
            forall|at: int|
                0 <= at < blocked(N as int) ==> #[trigger] column_fits(
                    old(self).0@[at] as int,
                    rows(weights@),
                    adds@,
                    at,
                ),
        ensures
            forall|at: int|
                0 <= at < blocked(N as int) ==> #[trigger] final(self).0@[at] == column_sum(
                    old(self).0@[at] as int,
                    rows(weights@),
                    adds@,
                    adds@.len() as int,
                    at,
                ),
            forall|at: int|
                blocked(N as int) <= at < N ==> #[trigger] final(self).0@[at] == old(self).0@[at],
    {
        let row = |a: usize, at: usize| -> (v: i16)
            requires
                a < weights@.len(),
                at < N,
            ensures
                v == rows(weights@)[a as int][at as int],
            { weights[a].0[at] };
        add_rows(&mut self.0, adds, Ghost(rows(weights@)), row);
    }
}

impl<const N: usize> Align64<i16, N> {
    /// Adds the rows of `weights` that `adds` names to the leading whole
    /// blocks of `PER` elements; the elements behind them stay.
    pub fn add_multi(&mut self, adds: &[usize], weights: &[Align64<i16, N>])
        requires
            forall|k: int| 0 <= k < adds@.len() ==> (#[trigger] adds@[k]) < weights@.len(),
            forall|at: int|
                0 <= at < blocked(N as int) ==> #[trigger] column_fits(
                    old(self).0@[at] as int,
                    aligned_rows(weights@),
                    adds@,
                    at,
                ),
        ensures
            forall|at: int|
                0 <= at < blocked(N as int) ==> #[trigger] final(self).0@[at] == column_sum(
                    old(self).0@[at] as int,
                    aligned_rows(weights@),
                    adds@,
                    adds@.len() as int,
                    at,
                ),
            forall|at: int|
                blocked(N as int) <= at < N ==> #[trigger] final(self).0@[at] == old(self).0@[at],
    {
        let row = |a: usize, at: usize| -> (v: i16)
            requires
                a < weights@.len(),
                at < N,
            ensures
                v == aligned_rows(weights@)[a as int][at as int],
            { weights[a].0[at] };
        add_rows(&mut self.0, adds, Ghost(aligned_rows(weights@)), row);
    }
}

} // verus!
