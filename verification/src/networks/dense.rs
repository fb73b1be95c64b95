use vstd::prelude::*;

verus! {

/// The weights of a dense layer from `4 * groups` inputs to `outs` outputs
/// are stored by groups of four inputs: for each group, the four weights of
/// the first output, then those of the second, and so on. This is the place
/// of the weight from input `k` of group `i` to output `j`.
pub open spec fn weight_at(outs: int, i: int, j: int, k: int) -> int {
    4 * (outs * i + j) + k
}

/// The output `j` summed over the first `n` inputs: each input times its
/// weight.
pub open spec fn dot(w: Seq<i8>, l1: Seq<u8>, outs: int, j: int, n: int) -> int
    decreases n,
{
    if n <= 0 {
        0
    } else {
        dot(w, l1, outs, j, n - 1) + l1[n - 1] * w[weight_at(outs, (n - 1) / 4, j, (n - 1) % 4)]
    }
}

/// A sum of `n` products of a byte and a signed byte is no more than `n`
/// times 255 times 128, either way.
pub proof fn lemma_dot_bound(w: Seq<i8>, l1: Seq<u8>, outs: int, j: int, n: int)
    requires
        0 <= n,
    ensures
        -32640 * n <= dot(w, l1, outs, j, n) <= 32640 * n,
    decreases n,
{
    if n > 0 {
        lemma_dot_bound(w, l1, outs, j, n - 1);
        let a = l1[n - 1] as int;
        let b = w[weight_at(outs, (n - 1) / 4, j, (n - 1) % 4)] as int;
        assert(-32640 <= a * b <= 32640) by (nonlinear_arith)
            requires
                0 <= a <= 255,
                -128 <= b <= 127,
        ;
    }
}

/// The outputs of a dense layer of signed bytes for inputs of bytes: each
/// output is the sum of the inputs times their weights.
pub fn l2<const OUT: usize>(w: &[i8], l1: &[u8]) -> (out: [i32; OUT])
    requires
        l1@.len() % 4 == 0,
        l1@.len() <= 65536,
        w@.len() == l1@.len() * OUT,
    ensures
        forall|j: int|
            0 <= j < OUT ==> #[trigger] out@[j] == dot(w@, l1@, OUT as int, j, l1@.len() as int),
{
    let mut out: [i32; OUT] = [0i32; OUT];
    let groups = l1.len() / 4;
    let weights = w.len();
    let mut i: usize = 0;
    while i < groups
        invariant
            i <= groups,
            groups * 4 == l1@.len() <= 65536,
            w@.len() == l1@.len() * OUT,
            weights == w@.len(),
            forall|j: int|
                0 <= j < OUT ==> #[trigger] out@[j] == dot(w@, l1@, OUT as int, j, 4 * i),
        decreases groups - i,
    {
        let mut j: usize = 0;
        while j < OUT
            invariant
                j <= OUT,
                i < groups,
                groups * 4 == l1@.len() <= 65536,
                w@.len() == l1@.len() * OUT,
                weights == w@.len(),
                forall|x: int|
                    0 <= x < j ==> #[trigger] out@[x] == dot(w@, l1@, OUT as int, x, 4 * i + 4),
                forall|x: int|
                    j <= x < OUT ==> #[trigger] out@[x] == dot(w@, l1@, OUT as int, x, 4 * i),
            decreases OUT - j,
        {
            assert(0 <= OUT * i && OUT * i + j < OUT * groups && 4 * (OUT * groups) == w@.len())
                by (nonlinear_arith)
                requires
                    i < groups,
                    j < OUT,
                    w@.len() == groups * 4 * OUT,
            ;
            let base = 4 * (OUT * i + j);
            let mut k: usize = 0;
            while k < 4
                invariant
                    k <= 4,
                    j < OUT,
                    i < groups,
                    groups * 4 == l1@.len() <= 65536,
                    base == 4 * (OUT * i + j),
                    base + 3 < w@.len(),
                    out@[j as int] == dot(w@, l1@, OUT as int, j as int, 4 * i + k),
                    forall|x: int|
                        0 <= x < j ==> #[trigger] out@[x] == dot(
                            w@,
                            l1@,
                            OUT as int,
                            x,
                            4 * i + 4,
                        ),
                    forall|x: int|
                        j < x < OUT ==> #[trigger] out@[x] == dot(w@, l1@, OUT as int, x, 4 * i),
                decreases 4 - k,
            {
                let a = l1[4 * i + k] as i32;
                let b = w[base + k] as i32;
                proof {
                    lemma_dot_bound(w@, l1@, OUT as int, j as int, 4 * i + k);
                    lemma_dot_bound(w@, l1@, OUT as int, j as int, 4 * i + k + 1);
                    assert(-32640 <= a * b <= 32640) by (nonlinear_arith)
                        requires
                            0 <= a <= 255,
                            -128 <= b <= 127,
                    ;
                    assert((4 * i + k) / 4 == i && (4 * i + k) % 4 == k);
                }
                out[j] = out[j] + a * b;
                k = k + 1;
            }
            j = j + 1;
        }
        i = i + 1;
    }
    out
}

} // verus!
