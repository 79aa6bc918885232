//! Quant-mix solver: a multiple-choice knapsack by Lagrangian relaxation,
//! followed by greedy upgrades that spend the remaining slack.
//!
//! Errors are fixed-point numbers in a common unit. The price of a byte is a
//! multiple of 2^-64 of that unit, so costs compare exactly.

use vstd::arithmetic::power2::*;
use vstd::prelude::*;

use crate::ggml_type::GgmlType;

verus! {

/// One way to store a tensor.
#[derive(Debug, Clone, Copy, PartialEq, Eq, Structural)]
pub struct Candidate {
    pub ty: GgmlType,
    pub bytes: u64,
    /// Weighted squared error of storing the tensor as this type.
    pub err: u64,
}

/// The ways to store one tensor, sorted by bytes ascending.
pub struct TensorChoices {
    pub tensor_idx: usize,
    pub cands: Vec<Candidate>,
}

/// The number of price steps in one error unit per byte.
pub const UNIT: u128 = 0x1_0000_0000_0000_0000;

/// The candidates of each tensor.
pub open spec fn menu(ts: Seq<TensorChoices>) -> Seq<Seq<Candidate>> {
    Seq::new(ts.len(), |i: int| ts[i].cands@)
}

/// Every tensor has a candidate, and its first one is a smallest one.
pub open spec fn orderly(cs: Seq<Seq<Candidate>>) -> bool {
    forall|i: int|
        0 <= i < cs.len() ==> (#[trigger] cs[i]).len() > 0 && cs[i].len() <= usize::MAX && (forall|
            j: int,
            k: int,
        |
            0 <= j <= k < cs[i].len() ==> (#[trigger] cs[i][j]).bytes <= (#[trigger] cs[i][k]).bytes)
}

/// A selection names one candidate per tensor.
pub open spec fn valid(cs: Seq<Seq<Candidate>>, sel: Seq<usize>) -> bool {
    &&& sel.len() == cs.len()
    &&& forall|i: int| 0 <= i < cs.len() ==> (#[trigger] sel[i]) < cs[i].len()
}

/// The candidate that a selection names for a tensor.
pub open spec fn chosen(cs: Seq<Seq<Candidate>>, sel: Seq<usize>, i: int) -> Candidate {
    cs[i][sel[i] as int]
}

/// The size of the first `k` tensors under a selection.
pub open spec fn size_upto(cs: Seq<Seq<Candidate>>, sel: Seq<usize>, k: int) -> nat
    decreases k,
{
    if k <= 0 {
        0
    } else {
        size_upto(cs, sel, k - 1) + chosen(cs, sel, k - 1).bytes as nat
    }
}

/// The size of a selection.
pub open spec fn size(cs: Seq<Seq<Candidate>>, sel: Seq<usize>) -> nat {
    size_upto(cs, sel, cs.len() as int)
}

/// The error of the first `k` tensors under a selection.
pub open spec fn error_upto(cs: Seq<Seq<Candidate>>, sel: Seq<usize>, k: int) -> nat
    decreases k,
{
    if k <= 0 {
        0
    } else {
        error_upto(cs, sel, k - 1) + chosen(cs, sel, k - 1).err as nat
    }
}

/// The error of a selection.
pub open spec fn error(cs: Seq<Seq<Candidate>>, sel: Seq<usize>) -> nat {
    error_upto(cs, sel, cs.len() as int)
}

/// The selection of every tensor's first candidate.
pub open spec fn smallest(cs: Seq<Seq<Candidate>>) -> Seq<usize> {
    Seq::new(cs.len(), |i: int| 0usize)
}

/// What a candidate costs when a byte is priced at `n` steps.
pub open spec fn cost(c: Candidate, n: nat) -> nat {
    c.err as nat * UNIT as nat + n * c.bytes as nat
}

/// The first of the cheapest among the first `k` candidates.
pub open spec fn cheapest_upto(cs: Seq<Candidate>, n: nat, k: int) -> int
    decreases k,
{
    if k <= 1 {
        0
    } else {
        let b = cheapest_upto(cs, n, k - 1);
        if cost(cs[k - 1], n) < cost(cs[b], n) {
            k - 1
        } else {
            b
        }
    }
}

/// The cheapest candidate of every tensor at the price `n`.
pub open spec fn mix(cs: Seq<Seq<Candidate>>, n: nat) -> Seq<usize> {
    Seq::new(cs.len(), |i: int| cheapest_upto(cs[i], n, cs[i].len() as int) as usize)
}

/// Eight times the price, as far as prices go.
pub open spec fn raised(n: nat) -> nat {
    if n * 8 <= u128::MAX {
        n * 8
    } else {
        u128::MAX as nat
    }
}

/// The first of the prices `n`, `8 n`, `64 n`, .. whose mix fits.
pub open spec fn roof(cs: Seq<Seq<Candidate>>, budget: nat, n: nat) -> nat
    decreases u128::MAX - n,
{
    if size(cs, mix(cs, n)) <= budget || n >= u128::MAX || n == 0 {
        n
    } else {
        roof(cs, budget, raised(n))
    }
}

/// The upper end of the price range after halving it `steps` times, where the
/// mix at the upper end fits.
pub open spec fn bisected(
    cs: Seq<Seq<Candidate>>,
    budget: nat,
    lo: nat,
    hi: nat,
    steps: nat,
) -> nat
    decreases steps,
{
    if steps == 0 {
        hi
    } else {
        let mid = ((lo + hi) / 2) as nat;
        if size(cs, mix(cs, mid)) <= budget {
            bisected(cs, budget, lo, mid, (steps - 1) as nat)
        } else {
            bisected(cs, budget, mid, hi, (steps - 1) as nat)
        }
    }
}

/// The price that the mix is taken at: zero if the lowest-error mix fits.
pub open spec fn price(cs: Seq<Seq<Candidate>>, budget: nat) -> nat {
    if size(cs, mix(cs, 0)) <= budget {
        0
    } else {
        bisected(cs, budget, 0, roof(cs, budget, UNIT as nat), 64)
    }
}

/// Candidate `c` of tensor `t` lowers the error and costs at most `slack` bytes
/// more than the selected one.
pub open spec fn upgrade(
    cs: Seq<Seq<Candidate>>,
    sel: Seq<usize>,
    slack: int,
    t: int,
    c: int,
) -> bool {
    &&& 0 <= t < cs.len()
    &&& 0 <= c < cs[t].len()
    &&& cs[t][c].bytes > chosen(cs, sel, t).bytes
    &&& cs[t][c].err < chosen(cs, sel, t).err
    &&& cs[t][c].bytes - chosen(cs, sel, t).bytes <= slack
}

/// The error that an upgrade removes.
pub open spec fn relief(cs: Seq<Seq<Candidate>>, sel: Seq<usize>, m: (int, int)) -> int {
    chosen(cs, sel, m.0).err - cs[m.0][m.1].err
}

/// The bytes that an upgrade adds.
pub open spec fn extra(cs: Seq<Seq<Candidate>>, sel: Seq<usize>, m: (int, int)) -> int {
    cs[m.0][m.1].bytes - chosen(cs, sel, m.0).bytes
}

/// Upgrade `m` removes strictly more error per byte than `best`.
pub open spec fn outdoes(
    cs: Seq<Seq<Candidate>>,
    sel: Seq<usize>,
    best: Option<(int, int)>,
    m: (int, int),
) -> bool {
    match best {
        None => true,
        Some(b) => relief(cs, sel, m) * extra(cs, sel, b) > relief(cs, sel, b) * extra(cs, sel, m),
    }
}

/// The best upgrade after looking at the first `k` candidates of tensor `t`.
pub open spec fn scan_tensor(
    cs: Seq<Seq<Candidate>>,
    sel: Seq<usize>,
    slack: int,
    t: int,
    k: int,
    best: Option<(int, int)>,
) -> Option<(int, int)>
    decreases k,
{
    if k <= 0 {
        best
    } else {
        let b = scan_tensor(cs, sel, slack, t, k - 1, best);
        if upgrade(cs, sel, slack, t, k - 1) && outdoes(cs, sel, b, (t, k - 1)) {
            Some((t, k - 1))
        } else {
            b
        }
    }
}

/// The first of the upgrades with the most error removed per byte, among the
/// first `t` tensors.
pub open spec fn scan(
    cs: Seq<Seq<Candidate>>,
    sel: Seq<usize>,
    slack: int,
    t: int,
) -> Option<(int, int)>
    decreases t,
{
    if t <= 0 {
        None
    } else {
        scan_tensor(
            cs,
            sel,
            slack,
            t - 1,
            cs[t - 1].len() as int,
            scan(cs, sel, slack, t - 1),
        )
    }
}

/// The best upgrade that the budget still affords.
pub open spec fn best_upgrade(
    cs: Seq<Seq<Candidate>>,
    sel: Seq<usize>,
    budget: nat,
) -> Option<(int, int)> {
    scan(cs, sel, budget - size(cs, sel), cs.len() as int)
}

/// A selection after taking the best upgrade as often as the budget affords one.
pub open spec fn topped_up(
    cs: Seq<Seq<Candidate>>,
    sel: Seq<usize>,
    budget: nat,
) -> Seq<usize>
    decreases budget - size(cs, sel),
{
    if !valid(cs, sel) || size(cs, sel) > budget || !orderly(cs) {
        sel
    } else {
        match best_upgrade(cs, sel, budget) {
            None => sel,
            Some((t, c)) => {
                proof {
                    scan_is_upgrade(cs, sel, budget - size(cs, sel), cs.len() as int);
                    size_after(cs, sel, t, c as usize, cs.len() as int);
                }
                topped_up(cs, sel.update(t, c as usize), budget)
            },
        }
    }
}

/// The selection for a budget that holds the smallest mix.
pub open spec fn solution(cs: Seq<Seq<Candidate>>, budget: nat) -> Seq<usize> {
    topped_up(cs, mix(cs, price(cs, budget)), budget)
}

proof fn scan_tensor_is_upgrade(
    cs: Seq<Seq<Candidate>>,
    sel: Seq<usize>,
    slack: int,
    t: int,
    k: int,
    best: Option<(int, int)>,
)
    requires
        best matches Some(b) ==> upgrade(cs, sel, slack, b.0, b.1),
    ensures
        scan_tensor(cs, sel, slack, t, k, best) matches Some(b) ==> upgrade(
            cs,
            sel,
            slack,
            b.0,
            b.1,
        ),
    decreases k,
{
    if k > 0 {
        scan_tensor_is_upgrade(cs, sel, slack, t, k - 1, best);
    }
}

/// What the scan finds is an upgrade.
pub proof fn scan_is_upgrade(cs: Seq<Seq<Candidate>>, sel: Seq<usize>, slack: int, t: int)
    ensures
        scan(cs, sel, slack, t) matches Some(b) ==> upgrade(cs, sel, slack, b.0, b.1),
    decreases t,
{
    if t > 0 {
        scan_is_upgrade(cs, sel, slack, t - 1);
        scan_tensor_is_upgrade(
            cs,
            sel,
            slack,
            t - 1,
            cs[t - 1].len() as int,
            scan(cs, sel, slack, t - 1),
        );
    }
}

proof fn scan_tensor_finds(
    cs: Seq<Seq<Candidate>>,
    sel: Seq<usize>,
    slack: int,
    t: int,
    k: int,
    best: Option<(int, int)>,
    c: int,
)
    requires
        best is Some || (upgrade(cs, sel, slack, t, c) && c < k),
    ensures
        scan_tensor(cs, sel, slack, t, k, best) is Some,
    decreases k,
{
    if k > 0 {
        if best is Some || c < k - 1 {
            scan_tensor_finds(cs, sel, slack, t, k - 1, best, c);
        }
    }
}

proof fn scan_finds(
    cs: Seq<Seq<Candidate>>,
    sel: Seq<usize>,
    slack: int,
    n: int,
    t: int,
    c: int,
)
    requires
        upgrade(cs, sel, slack, t, c),
        t < n,
    ensures
        scan(cs, sel, slack, n) is Some,
    decreases n,
{
    if t < n - 1 {
        scan_finds(cs, sel, slack, n - 1, t, c);
    }
    scan_tensor_finds(
        cs,
        sel,
        slack,
        n - 1,
        cs[n - 1].len() as int,
        scan(cs, sel, slack, n - 1),
        c,
    );
}

/// A change of one tensor's candidate changes the size by the difference.
pub proof fn size_after(cs: Seq<Seq<Candidate>>, sel: Seq<usize>, t: int, c: usize, k: int)
    requires
        0 <= t < sel.len(),
        k <= sel.len(),
    ensures
        size_upto(cs, sel.update(t, c), k) == size_upto(cs, sel, k) + (if t < k {
            cs[t][c as int].bytes - chosen(cs, sel, t).bytes
        } else {
            0
        }),
    decreases k,
{
    if k > 0 {
        size_after(cs, sel, t, c, k - 1);
    }
}

proof fn error_after(cs: Seq<Seq<Candidate>>, sel: Seq<usize>, t: int, c: usize, k: int)
    requires
        0 <= t < sel.len(),
        k <= sel.len(),
    ensures
        error_upto(cs, sel.update(t, c), k) == error_upto(cs, sel, k) + (if t < k {
            cs[t][c as int].err - chosen(cs, sel, t).err
        } else {
            0
        }),
    decreases k,
{
    if k > 0 {
        error_after(cs, sel, t, c, k - 1);
    }
}

/// The cheapest candidate costs no more than any other, and less than any
/// before it.
proof fn cheapest_is_cheapest(cs: Seq<Candidate>, n: nat, k: int)
    requires
        1 <= k <= cs.len(),
    ensures
        0 <= cheapest_upto(cs, n, k) < k,
        forall|j: int|
            0 <= j < k ==> cost(cs[cheapest_upto(cs, n, k)], n) <= cost(#[trigger] cs[j], n),
        forall|j: int|
            0 <= j < cheapest_upto(cs, n, k) ==> cost(cs[cheapest_upto(cs, n, k)], n) < cost(
                #[trigger] cs[j],
                n,
            ),
    decreases k,
{
    if k > 1 {
        cheapest_is_cheapest(cs, n, k - 1);
    }
}

proof fn mix_is_valid(cs: Seq<Seq<Candidate>>, n: nat)
    requires
        orderly(cs),
    ensures
        valid(cs, mix(cs, n)),
{
    assert forall|i: int| 0 <= i < cs.len() implies (#[trigger] mix(cs, n)[i]) < cs[i].len() by {
        cheapest_is_cheapest(cs[i], n, cs[i].len() as int);
    }
}

/// At the highest price the mix is no larger than the smallest selection.
proof fn highest_price_fits(cs: Seq<Seq<Candidate>>, k: int)
    requires
        orderly(cs),
        k <= cs.len(),
    ensures
        size_upto(cs, mix(cs, u128::MAX as nat), k) <= size_upto(cs, smallest(cs), k),
    decreases k,
{
    if k > 0 {
        highest_price_fits(cs, k - 1);
        let n = u128::MAX as nat;
        let c = cs[k - 1];
        cheapest_is_cheapest(c, n, c.len() as int);
        let b = c[cheapest_upto(c, n, c.len() as int)];
        assert(cost(b, n) <= cost(c[0], n));
        let (x, y) = (b.bytes as nat, c[0].bytes as nat);
        if x > y {
            let e = c[0].err as nat;
            assert(n * x >= n * y + n) by (nonlinear_arith)
                requires
                    x >= y + 1,
            ;
            assert(e * UNIT as nat <= (u64::MAX as nat) * UNIT as nat) by (nonlinear_arith)
                requires
                    e <= u64::MAX,
            ;
            assert(n > (u64::MAX as nat) * UNIT as nat);
        }
        assert(chosen(cs, mix(cs, n), k - 1) == b);
    }
}

proof fn roof_fits(cs: Seq<Seq<Candidate>>, budget: nat, n: nat)
    requires
        orderly(cs),
        size(cs, smallest(cs)) <= budget,
        0 < n <= u128::MAX,
    ensures
        n <= roof(cs, budget, n) <= u128::MAX,
        size(cs, mix(cs, roof(cs, budget, n))) <= budget,
    decreases u128::MAX - n,
{
    if size(cs, mix(cs, n)) <= budget {
    } else if n == u128::MAX {
        highest_price_fits(cs, cs.len() as int);
    } else {
        roof_fits(cs, budget, raised(n));
    }
}

proof fn bisected_fits(cs: Seq<Seq<Candidate>>, budget: nat, lo: nat, hi: nat, steps: nat)
    requires
        lo <= hi,
        size(cs, mix(cs, hi)) <= budget,
    ensures
        lo <= bisected(cs, budget, lo, hi, steps) <= hi,
        size(cs, mix(cs, bisected(cs, budget, lo, hi, steps))) <= budget,
    decreases steps,
{
    if steps > 0 {
        let mid = ((lo + hi) / 2) as nat;
        if size(cs, mix(cs, mid)) <= budget {
            bisected_fits(cs, budget, lo, mid, (steps - 1) as nat);
        } else {
            bisected_fits(cs, budget, mid, hi, (steps - 1) as nat);
        }
    }
}

proof fn price_fits(cs: Seq<Seq<Candidate>>, budget: nat)
    requires
        orderly(cs),
        size(cs, smallest(cs)) <= budget,
    ensures
        price(cs, budget) <= u128::MAX,
        valid(cs, mix(cs, price(cs, budget))),
        size(cs, mix(cs, price(cs, budget))) <= budget,
{
    mix_is_valid(cs, price(cs, budget));
    if size(cs, mix(cs, 0)) > budget {
        roof_fits(cs, budget, UNIT as nat);
        bisected_fits(cs, budget, 0, roof(cs, budget, UNIT as nat), 64);
    }
}

proof fn topped_up_facts(cs: Seq<Seq<Candidate>>, sel: Seq<usize>, budget: nat)
    requires
        orderly(cs),
        valid(cs, sel),
        size(cs, sel) <= budget,
    ensures
        valid(cs, topped_up(cs, sel, budget)),
        size(cs, sel) <= size(cs, topped_up(cs, sel, budget)) <= budget,
        error(cs, topped_up(cs, sel, budget)) <= error(cs, sel),
        best_upgrade(cs, topped_up(cs, sel, budget), budget) is None,
    decreases budget - size(cs, sel),
{
    scan_is_upgrade(cs, sel, budget - size(cs, sel), cs.len() as int);
    match best_upgrade(cs, sel, budget) {
        None => {},
        Some((t, c)) => {
            size_after(cs, sel, t, c as usize, cs.len() as int);
            error_after(cs, sel, t, c as usize, cs.len() as int);
            topped_up_facts(cs, sel.update(t, c as usize), budget);
        },
    }
}

/// The solution names a candidate of every tensor and stays within the budget.
pub proof fn solution_fits(cs: Seq<Seq<Candidate>>, budget: nat)
    requires
        orderly(cs),
        size(cs, smallest(cs)) <= budget,
    ensures
        valid(cs, solution(cs, budget)),
        size(cs, solution(cs, budget)) <= budget,
{
    price_fits(cs, budget);
    topped_up_facts(cs, mix(cs, price(cs, budget)), budget);
}

/// No single change of the solution lowers the error within the budget.
pub proof fn no_upgrade_is_left(cs: Seq<Seq<Candidate>>, budget: nat, t: int, c: int)
    requires
        orderly(cs),
        size(cs, smallest(cs)) <= budget,
    ensures
        !upgrade(
            cs,
            solution(cs, budget),
            budget - size(cs, solution(cs, budget)),
            t,
            c,
        ),
{
    price_fits(cs, budget);
    topped_up_facts(cs, mix(cs, price(cs, budget)), budget);
    let s = solution(cs, budget);
    let slack = budget - size(cs, s);
    if upgrade(cs, s, slack, t, c) {
        scan_finds(cs, s, slack, cs.len() as int, t, c);
    }
}

/// Where the lowest-error mix fits, it is the solution: every tensor gets the
/// first of its candidates with the least error.
pub proof fn max_quality_when_it_fits(cs: Seq<Seq<Candidate>>, budget: nat, t: int)
    requires
        orderly(cs),
        size(cs, mix(cs, 0)) <= budget,
        0 <= t < cs.len(),
    ensures
        solution(cs, budget) == mix(cs, 0),
        forall|j: int|
            0 <= j < cs[t].len() ==> chosen(cs, solution(cs, budget), t).err <= (
            #[trigger] cs[t][j]).err,
        forall|j: int|
            0 <= j < solution(cs, budget)[t] ==> chosen(cs, solution(cs, budget), t).err < (
            #[trigger] cs[t][j]).err,
{
    let s = mix(cs, 0);
    mix_is_valid(cs, 0);
    scan_is_upgrade(cs, s, budget - size(cs, s), cs.len() as int);
    match best_upgrade(cs, s, budget) {
        None => {},
        Some((u, c)) => {
            least_error(cs, u);
        },
    }
    least_error(cs, t);
}

proof fn least_error(cs: Seq<Seq<Candidate>>, t: int)
    requires
        orderly(cs),
        0 <= t < cs.len(),
    ensures
        forall|j: int|
            0 <= j < cs[t].len() ==> chosen(cs, mix(cs, 0), t).err <= (#[trigger] cs[t][j]).err,
        forall|j: int|
            0 <= j < mix(cs, 0)[t] ==> chosen(cs, mix(cs, 0), t).err < (#[trigger] cs[t][j]).err,
{
    let c = cs[t];
    cheapest_is_cheapest(c, 0, c.len() as int);
    let b = cheapest_upto(c, 0, c.len() as int);
    assert forall|j: int| 0 <= j < c.len() implies cost(c[j], 0) == (#[trigger] c[j]).err
        * UNIT as nat by {
        assert(0nat * c[j].bytes as nat == 0) by (nonlinear_arith);
    }
    assert(cost(c[b], 0) == c[b].err * UNIT as nat);
}

proof fn mix_minimises(cs: Seq<Seq<Candidate>>, n: nat, other: Seq<usize>, k: int)
    requires
        orderly(cs),
        valid(cs, other),
        0 <= k <= cs.len(),
    ensures
        error_upto(cs, mix(cs, n), k) * UNIT as nat + n * size_upto(cs, mix(cs, n), k)
            <= error_upto(cs, other, k) * UNIT as nat + n * size_upto(cs, other, k),
    decreases k,
{
    if k > 0 {
        mix_minimises(cs, n, other, k - 1);
        let c = cs[k - 1];
        cheapest_is_cheapest(c, n, c.len() as int);
        let m = mix(cs, n);
        let x = chosen(cs, m, k - 1);
        let y = chosen(cs, other, k - 1);
        assert(cost(x, n) <= cost(y, n));
        let (e1, e2) = (error_upto(cs, m, k - 1), error_upto(cs, other, k - 1));
        let (s1, s2) = (size_upto(cs, m, k - 1), size_upto(cs, other, k - 1));
        assert(n * (s1 + x.bytes as nat) == n * s1 + n * x.bytes as nat) by (nonlinear_arith);
        assert(n * (s2 + y.bytes as nat) == n * s2 + n * y.bytes as nat) by (nonlinear_arith);
        assert((e1 + x.err as nat) * UNIT as nat == e1 * UNIT as nat + x.err as nat * UNIT as nat);
        assert((e2 + y.err as nat) * UNIT as nat == e2 * UNIT as nat + y.err as nat * UNIT as nat);
    }
}

/// The solution is at least as good as every selection that is no larger than
/// the mix it was topped up from.
pub proof fn no_smaller_selection_is_better(
    cs: Seq<Seq<Candidate>>,
    budget: nat,
    other: Seq<usize>,
)
    requires
        orderly(cs),
        size(cs, smallest(cs)) <= budget,
        valid(cs, other),
        size(cs, other) <= size(cs, mix(cs, price(cs, budget))),
    ensures
        error(cs, solution(cs, budget)) <= error(cs, other),
{
    let n = price(cs, budget);
    let m = mix(cs, n);
    price_fits(cs, budget);
    topped_up_facts(cs, m, budget);
    mix_minimises(cs, n, other, cs.len() as int);
    let (a, b) = (size(cs, other), size(cs, m));
    assert(n * a <= n * b) by (nonlinear_arith)
        requires
            a <= b,
    ;
}

proof fn sums_are_folds(cs: Seq<Seq<Candidate>>, sel: Seq<usize>, k: int)
    requires
        0 <= k,
    ensures
        size_upto(cs, sel, k) == Seq::new(
            k as nat,
            |i: int| cs[i][sel[i] as int].bytes as int,
        ).fold_left(0int, |a: int, b: int| a + b),
        error_upto(cs, sel, k) == Seq::new(
            k as nat,
            |i: int| cs[i][sel[i] as int].err as int,
        ).fold_left(0int, |a: int, b: int| a + b),
    decreases k,
{
    let add = |a: int, b: int| a + b;
    let s = Seq::new(k as nat, |i: int| cs[i][sel[i] as int].bytes as int);
    let e = Seq::new(k as nat, |i: int| cs[i][sel[i] as int].err as int);
    if k > 0 {
        sums_are_folds(cs, sel, k - 1);
        assert(s.drop_last() =~= Seq::new(
            (k - 1) as nat,
            |i: int| cs[i][sel[i] as int].bytes as int,
        ));
        assert(e.drop_last() =~= Seq::new(
            (k - 1) as nat,
            |i: int| cs[i][sel[i] as int].err as int,
        ));
        reveal_with_fuel(Seq::fold_left, 2);
        assert(s.last() == chosen(cs, sel, k - 1).bytes);
        assert(e.last() == chosen(cs, sel, k - 1).err);
    }
}

/// The size and the error of a selection are the sums over the tensors of the
/// bytes and the errors of the candidates that it names; the smallest selection
/// names the first candidates.
pub proof fn sizes_and_errors_are_sums(cs: Seq<Seq<Candidate>>, sel: Seq<usize>)
    ensures
        size(cs, sel) == Seq::new(
            cs.len(),
            |i: int| cs[i][sel[i] as int].bytes as int,
        ).fold_left(0int, |a: int, b: int| a + b),
        error(cs, sel) == Seq::new(
            cs.len(),
            |i: int| cs[i][sel[i] as int].err as int,
        ).fold_left(0int, |a: int, b: int| a + b),
        size(cs, smallest(cs)) == Seq::new(cs.len(), |i: int| cs[i][0].bytes as int).fold_left(
            0int,
            |a: int, b: int| a + b,
        ),
{
    sums_are_folds(cs, sel, cs.len() as int);
    sums_are_folds(cs, smallest(cs), cs.len() as int);
    assert(Seq::new(cs.len(), |i: int| cs[i][smallest(cs)[i] as int].bytes as int) =~= Seq::new(
        cs.len(),
        |i: int| cs[i][0].bytes as int,
    ));
}

/// Tensors with at least one candidate each, the candidates in the order of their
/// bytes, can be solved for; a selection of one candidate each is one of them.
pub proof fn sorted_candidates_are_taken(cs: Seq<Seq<Candidate>>, sel: Seq<usize>)
    requires
        forall|i: int| 0 <= i < cs.len() ==> 0 < (#[trigger] cs[i]).len() <= usize::MAX,
        forall|i: int, j: int, k: int|
            0 <= i < cs.len() && 0 <= j <= k < cs[i].len() ==> (#[trigger] cs[i][j]).bytes <= (
            #[trigger] cs[i][k]).bytes,
        sel.len() == cs.len(),
        forall|i: int| 0 <= i < cs.len() ==> (#[trigger] sel[i]) < cs[i].len(),
    ensures
        orderly(cs),
        valid(cs, sel),
{
}

proof fn scan_tensor_is_best(
    cs: Seq<Seq<Candidate>>,
    sel: Seq<usize>,
    slack: int,
    t: int,
    k: int,
    best: Option<(int, int)>,
)
    requires
        0 <= t < cs.len(),
        0 <= k <= cs[t].len(),
        best matches Some(b) ==> upgrade(cs, sel, slack, b.0, b.1) && b.0 < t,
        forall|t2: int, c2: int|
            t2 < t && #[trigger] upgrade(cs, sel, slack, t2, c2) ==> (best matches Some(b)
                && no_worse(cs, sel, b, (t2, c2))),
    ensures
        scan_tensor(cs, sel, slack, t, k, best) matches Some(b) ==> upgrade(
            cs,
            sel,
            slack,
            b.0,
            b.1,
        ) && (b.0 < t || (b.0 == t && b.1 < k)),
        forall|t2: int, c2: int|
            (t2 < t || (t2 == t && c2 < k)) && #[trigger] upgrade(cs, sel, slack, t2, c2) ==> (
            scan_tensor(cs, sel, slack, t, k, best) matches Some(b) && no_worse(
                cs,
                sel,
                b,
                (t2, c2),
            )),
    decreases k,
{
    if k > 0 {
        scan_tensor_is_best(cs, sel, slack, t, k - 1, best);
        let b = scan_tensor(cs, sel, slack, t, k - 1, best);
        let m = (t, k - 1);
        if upgrade(cs, sel, slack, t, k - 1) {
            if outdoes(cs, sel, b, m) {
                assert forall|t2: int, c2: int|
                    (t2 < t || (t2 == t && c2 < k)) && #[trigger] upgrade(
                        cs,
                        sel,
                        slack,
                        t2,
                        c2,
                    ) implies no_worse(cs, sel, m, (t2, c2)) by {
                    if (t2, c2) != m {
                        rate_carries_over(
                            relief(cs, sel, m),
                            extra(cs, sel, m),
                            relief(cs, sel, b->0),
                            extra(cs, sel, b->0),
                            relief(cs, sel, (t2, c2)),
                            extra(cs, sel, (t2, c2)),
                        );
                    }
                }
            }
        }
    }
}

proof fn rate_carries_over(r1: int, e1: int, r2: int, e2: int, r3: int, e3: int)
    requires
        e1 > 0,
        e2 > 0,
        e3 > 0,
        r1 * e2 > r2 * e1,
        r2 * e3 >= r3 * e2,
    ensures
        r1 * e3 > r3 * e1,
{
    assert(r1 * e3 > r3 * e1) by (nonlinear_arith)
        requires
            e1 > 0,
            e2 > 0,
            e3 > 0,
            r1 * e2 > r2 * e1,
            r2 * e3 >= r3 * e2,
    {
        assert((r1 * e2) * e3 > (r2 * e1) * e3);
        assert((r2 * e3) * e1 >= (r3 * e2) * e1);
        assert((r1 * e3) * e2 > (r3 * e1) * e2);
    }
}

/// Upgrade `b` removes at least as much error per byte as `m`, and more where `m`
/// comes before it.
spec fn no_worse(
    cs: Seq<Seq<Candidate>>,
    sel: Seq<usize>,
    b: (int, int),
    m: (int, int),
) -> bool {
    let x = (cs[b.0][sel[b.0] as int].err - cs[b.0][b.1].err) * (cs[m.0][m.1].bytes
        - cs[m.0][sel[m.0] as int].bytes);
    let y = (cs[m.0][sel[m.0] as int].err - cs[m.0][m.1].err) * (cs[b.0][b.1].bytes
        - cs[b.0][sel[b.0] as int].bytes);
    x >= y && ((m.0 < b.0 || (m.0 == b.0 && m.1 < b.1)) ==> x > y)
}

proof fn scan_is_best(cs: Seq<Seq<Candidate>>, sel: Seq<usize>, slack: int, t: int)
    requires
        0 <= t <= cs.len(),
    ensures
        scan(cs, sel, slack, t) matches Some(b) ==> upgrade(cs, sel, slack, b.0, b.1) && b.0 < t,
        forall|t2: int, c2: int|
            t2 < t && #[trigger] upgrade(cs, sel, slack, t2, c2) ==> (scan(
                cs,
                sel,
                slack,
                t,
            ) matches Some(b) && no_worse(cs, sel, b, (t2, c2))),
    decreases t,
{
    if t > 0 {
        scan_is_best(cs, sel, slack, t - 1);
        scan_tensor_is_best(
            cs,
            sel,
            slack,
            t - 1,
            cs[t - 1].len() as int,
            scan(cs, sel, slack, t - 1),
        );
    }
}

/// A step of the top-up: where a candidate with more bytes and less error than
/// the selected one fits in the bytes that are left, one is taken that removes the
/// most error per byte of all of these, the first of equal ones, and the top-up
/// goes on from there. Where none fits, the top-up ends.
pub proof fn every_step_is_the_best(cs: Seq<Seq<Candidate>>, sel: Seq<usize>, budget: nat)
    requires
        orderly(cs),
        valid(cs, sel),
        size(cs, sel) <= budget,
    ensures
        match best_upgrade(cs, sel, budget) {
            None => {
                &&& topped_up(cs, sel, budget) == sel
                &&& forall|t2: int, c2: int|
                    0 <= t2 < cs.len() && 0 <= c2 < cs[t2].len() && (#[trigger] cs[t2][c2]).bytes
                        > cs[t2][sel[t2] as int].bytes && cs[t2][c2].err
                        < cs[t2][sel[t2] as int].err ==> size(cs, sel) + cs[t2][c2].bytes
                        - cs[t2][sel[t2] as int].bytes > budget
            },
            Some((t, c)) => {
                let cur = cs[t][sel[t] as int];
                &&& 0 <= t < cs.len()
                &&& 0 <= c < cs[t].len()
                &&& cs[t][c].bytes > cur.bytes
                &&& cs[t][c].err < cur.err
                &&& size(cs, sel) + cs[t][c].bytes - cur.bytes <= budget
                &&& topped_up(cs, sel, budget) == topped_up(
                    cs,
                    sel.update(t, c as usize),
                    budget,
                )
                &&& forall|t2: int, c2: int|
                    0 <= t2 < cs.len() && 0 <= c2 < cs[t2].len() && (#[trigger] cs[t2][c2]).bytes
                        > cs[t2][sel[t2] as int].bytes && cs[t2][c2].err
                        < cs[t2][sel[t2] as int].err && size(cs, sel) + cs[t2][c2].bytes
                        - cs[t2][sel[t2] as int].bytes <= budget ==> {
                        let x = (cur.err - cs[t][c].err) * (cs[t2][c2].bytes
                            - cs[t2][sel[t2] as int].bytes);
                        let y = (cs[t2][sel[t2] as int].err - cs[t2][c2].err) * (cs[t][c].bytes
                            - cur.bytes);
                        x >= y && ((t2 < t || (t2 == t && c2 < c)) ==> x > y)
                    }
            },
        },
{
    let slack = budget - size(cs, sel);
    scan_is_best(cs, sel, slack, cs.len() as int);
    assert forall|t2: int, c2: int|
        0 <= t2 < cs.len() && 0 <= c2 < cs[t2].len() && (#[trigger] cs[t2][c2]).bytes
            > cs[t2][sel[t2] as int].bytes && cs[t2][c2].err < cs[t2][sel[t2] as int].err
            && size(cs, sel) + cs[t2][c2].bytes - cs[t2][sel[t2] as int].bytes
            <= budget implies best_upgrade(cs, sel, budget) matches Some(b) && no_worse(
        cs,
        sel,
        b,
        (t2, c2),
    ) by {
        assert(upgrade(cs, sel, slack, t2, c2));
    }
}

/// No candidate of the solution can be exchanged for one with more bytes and less
/// error within the budget.
pub proof fn no_slack_is_left_unspent(cs: Seq<Seq<Candidate>>, budget: nat, t: int, c: int)
    requires
        orderly(cs),
        size(cs, smallest(cs)) <= budget,
        0 <= t < cs.len(),
        0 <= c < cs[t].len(),
    ensures
        ({
            let s = solution(cs, budget);
            let cur = cs[t][s[t] as int];
            cs[t][c].bytes > cur.bytes && cs[t][c].err < cur.err ==> size(cs, s) - cur.bytes
                + cs[t][c].bytes > budget
        }),
{
    no_upgrade_is_left(cs, budget, t, c);
}

proof fn bisected_is_tight(
    cs: Seq<Seq<Candidate>>,
    budget: nat,
    lo: nat,
    hi: nat,
    steps: nat,
    gap: nat,
)
    requires
        lo < hi,
        size(cs, mix(cs, lo)) > budget,
        size(cs, mix(cs, hi)) <= budget,
        hi - lo <= gap * pow2(steps),
    ensures
        exists|low: nat|
            size(cs, #[trigger] mix(cs, low)) > budget && low < bisected(
                cs,
                budget,
                lo,
                hi,
                steps,
            ) <= low + gap,
    decreases steps,
{
    if steps == 0 {
        lemma2_to64();
        assert(gap * pow2(0) == gap) by (nonlinear_arith)
            requires
                pow2(0) == 1,
        ;
        assert(size(cs, mix(cs, lo)) > budget && lo < hi <= lo + gap);
    } else {
        let mid = ((lo + hi) / 2) as nat;
        let half = pow2((steps - 1) as nat);
        lemma_pow2_unfold(steps);
        assert(gap * (2 * half) == 2 * (gap * half)) by (nonlinear_arith);
        if size(cs, mix(cs, mid)) <= budget {
            assert(lo != mid);
            bisected_is_tight(cs, budget, lo, mid, (steps - 1) as nat, gap);
        } else {
            assert(hi != mid);
            bisected_is_tight(cs, budget, mid, hi, (steps - 1) as nat, gap);
        }
    }
}

proof fn roof_is_low(cs: Seq<Seq<Candidate>>, budget: nat, n: nat)
    requires
        0 < n <= u128::MAX,
    ensures
        roof(cs, budget, n) == n || exists|p: nat|
            size(cs, #[trigger] mix(cs, p)) > budget && roof(cs, budget, n) <= 8 * p,
    decreases u128::MAX - n,
{
    if size(cs, mix(cs, n)) <= budget || n >= u128::MAX {
    } else {
        roof_is_low(cs, budget, raised(n));
        if roof(cs, budget, n) == raised(n) {
            assert(size(cs, mix(cs, n)) > budget && roof(cs, budget, n) <= 8 * n);
        }
    }
}

/// The solution is the top-up of a mix that some price of a byte makes: every
/// tensor has the first of the candidates that cost least when a byte costs `n`
/// steps of an error, a step being the 2^64th part of its unit. Where the mix of
/// least error fits, the price is zero; else the price is the least at which the
/// mix fits, up to a step and the 2^61th part of a price at which it does not.
pub proof fn solution_starts_from_a_priced_mix(cs: Seq<Seq<Candidate>>, budget: nat) -> (r: (
    nat,
    Seq<usize>,
))
    requires
        orderly(cs),
        size(cs, smallest(cs)) <= budget,
    ensures
        ({
            let (n, m) = r;
            &&& solution(cs, budget) == topped_up(cs, m, budget)
            &&& m.len() == cs.len()
            &&& size(cs, m) <= budget
            &&& forall|i: int| 0 <= i < cs.len() ==> (#[trigger] m[i]) < cs[i].len()
            &&& forall|i: int, j: int|
                0 <= i < cs.len() && 0 <= j < cs[i].len() ==> {
                    let own = cs[i][m[i] as int];
                    let x = own.err * 0x1_0000_0000_0000_0000 + n * own.bytes;
                    let y = (#[trigger] cs[i][j]).err * 0x1_0000_0000_0000_0000 + n
                        * cs[i][j].bytes;
                    x <= y && (j < m[i] ==> x < y)
                }
            &&& n == 0 || exists|low: nat, p: nat|
                size(cs, #[trigger] mix(cs, low)) > budget && low < n && size(
                    cs,
                    #[trigger] mix(cs, p),
                ) > budget && (n - low - 1) * 0x2000_0000_0000_0000 <= p
        }),
{
    let n = price(cs, budget);
    let m = mix(cs, n);
    price_fits(cs, budget);
    assert forall|i: int, j: int| 0 <= i < cs.len() && 0 <= j < cs[i].len() implies ({
        let own = cs[i][m[i] as int];
        let x = own.err * 0x1_0000_0000_0000_0000 + n * own.bytes;
        let y = (#[trigger] cs[i][j]).err * 0x1_0000_0000_0000_0000 + n * cs[i][j].bytes;
        x <= y && (j < m[i] ==> x < y)
    }) by {
        cheapest_is_cheapest(cs[i], n, cs[i].len() as int);
        let b = cheapest_upto(cs[i], n, cs[i].len() as int);
        assert(m[i] == b);
        assert(cost(cs[i][b], n) <= cost(cs[i][j], n));
    }
    if size(cs, mix(cs, 0)) > budget {
        let top = roof(cs, budget, UNIT as nat);
        roof_fits(cs, budget, UNIT as nat);
        roof_is_low(cs, budget, UNIT as nat);
        lemma2_to64();
        let unit = 0x1_0000_0000_0000_0000nat;
        assert(pow2(64) == unit);
        let gap = if top == UNIT {
            1nat
        } else {
            (top / unit + 1) as nat
        };
        assert(top <= gap * unit);
        bisected_is_tight(cs, budget, 0, top, 64, gap);
        let low = choose|low: nat|
            size(cs, #[trigger] mix(cs, low)) > budget && low < n <= low + gap;
        if top == UNIT {
            assert(size(cs, mix(cs, low)) > budget && low < n && size(cs, mix(cs, 0)) > budget && (n
                - low - 1) * 0x2000_0000_0000_0000 <= 0);
        } else {
            let p = choose|p: nat| size(cs, #[trigger] mix(cs, p)) > budget && top <= 8 * p;
            assert((n - low - 1) * 0x2000_0000_0000_0000 <= p);
        }
    }
    (n, m)
}

/// The cost of a candidate, as its multiple of 2^64 and the rest.
fn cost_parts(c: &Candidate, n: u128) -> (r: (u128, u64))
    ensures
        r.0 * UNIT + r.1 == cost(*c, n as nat),
{
    let nh: u128 = n / UNIT;
    let nl: u128 = n % UNIT;
    let b: u128 = c.bytes as u128;
    proof {
        assert(nl * b <= (u64::MAX as int) * (u64::MAX as int)) by (nonlinear_arith)
            requires
                0 <= nl <= u64::MAX,
                0 <= b <= u64::MAX,
        ;
        assert(nh * b <= (u64::MAX as int) * (u64::MAX as int)) by (nonlinear_arith)
            requires
                0 <= nh <= u64::MAX,
                0 <= b <= u64::MAX,
        ;
        assert(n * b == (nh * b) * UNIT + nl * b) by (nonlinear_arith)
            requires
                n == nh * UNIT + nl,
        ;
    }
    let p: u128 = nl * b;
    let lo: u64 = (p % UNIT) as u64;
    let hi: u128 = nh * b + p / UNIT + c.err as u128;
    (hi, lo)
}

fn cheaper(a: &Candidate, b: &Candidate, n: u128) -> (r: bool)
    ensures
        r == (cost(*a, n as nat) < cost(*b, n as nat)),
{
    let x = cost_parts(a, n);
    let y = cost_parts(b, n);
    x.0 < y.0 || (x.0 == y.0 && x.1 < y.1)
}

/// The mix at the price `n`, with its size.
fn pick(ts: &[TensorChoices], n: u128) -> (r: (Vec<usize>, u128))
    requires
        orderly(menu(ts@)),
    ensures
        r.0@ == mix(menu(ts@), n as nat),
        r.1 == size(menu(ts@), r.0@),
{
    let ghost cs = menu(ts@);
    let ghost m = mix(cs, n as nat);
    let mut sel: Vec<usize> = Vec::new();
    let mut total: u128 = 0;
    let mut i: usize = 0;
    while i < ts.len()
        invariant
            i <= ts.len(),
            cs == menu(ts@),
            m == mix(cs, n as nat),
            orderly(cs),
            sel@ == m.subrange(0, i as int),
            total == size_upto(cs, m, i as int),
            total <= i * u64::MAX,
        decreases ts.len() - i,
    {
        let cands = &ts[i].cands;
        assert(cands@ == cs[i as int]);
        let mut best: usize = 0;
        let mut j: usize = 1;
        while j < cands.len()
            invariant
                1 <= j <= cands.len(),
                cands@.len() > 0,
                best == cheapest_upto(cands@, n as nat, j as int),
                best < j,
            decreases cands.len() - j,
        {
            if cheaper(&cands[j], &cands[best], n) {
                best = j;
            }
            j += 1;
        }
        assert(m[i as int] == best);
        assert((i + 1) * u64::MAX == i * u64::MAX + u64::MAX) by (nonlinear_arith);
        assert(i * u64::MAX <= usize::MAX * u64::MAX) by (nonlinear_arith)
            requires
                i <= usize::MAX,
        ;
        total += cands[best].bytes as u128;
        sel.push(best);
        i += 1;
    }
    (sel, total)
}

/// The size of the smallest selection.
fn smallest_size(ts: &[TensorChoices]) -> (r: u128)
    requires
        orderly(menu(ts@)),
    ensures
        r == size(menu(ts@), smallest(menu(ts@))),
{
    let ghost cs = menu(ts@);
    let mut total: u128 = 0;
    let mut i: usize = 0;
    while i < ts.len()
        invariant
            i <= ts.len(),
            cs == menu(ts@),
            orderly(cs),
            total == size_upto(cs, smallest(cs), i as int),
            total <= i * u64::MAX,
        decreases ts.len() - i,
    {
        let cands = &ts[i].cands;
        assert(cands@ == cs[i as int]);
        assert((i + 1) * u64::MAX == i * u64::MAX + u64::MAX) by (nonlinear_arith);
        assert(i * u64::MAX <= usize::MAX * u64::MAX) by (nonlinear_arith)
            requires
                i <= usize::MAX,
        ;
        total += cands[0].bytes as u128;
        i += 1;
    }
    total
}

/// The best upgrade of a selection within `slack` bytes.
fn find_upgrade(ts: &[TensorChoices], sel: &Vec<usize>, slack: u64) -> (r: Option<(usize, usize)>)
    requires
        orderly(menu(ts@)),
        valid(menu(ts@), sel@),
    ensures
        match r {
            None => scan(menu(ts@), sel@, slack as int, ts@.len() as int) is None,
            Some(m) => scan(menu(ts@), sel@, slack as int, ts@.len() as int) == Some(
                (m.0 as int, m.1 as int),
            ),
        },
{
    let ghost cs = menu(ts@);
    let ghost sl = slack as int;
    let mut best: Option<(usize, usize)> = None;
    let mut gain: u64 = 0;
    let mut bytes: u64 = 0;
    let mut t: usize = 0;
    while t < ts.len()
        invariant
            t <= ts.len(),
            cs == menu(ts@),
            sl == slack as int,
            orderly(cs),
            valid(cs, sel@),
            match best {
                None => scan(cs, sel@, sl, t as int) is None,
                Some(m) => {
                    &&& scan(cs, sel@, sl, t as int) == Some((m.0 as int, m.1 as int))
                    &&& gain == relief(cs, sel@, (m.0 as int, m.1 as int))
                    &&& bytes == extra(cs, sel@, (m.0 as int, m.1 as int))
                },
            },
        decreases ts.len() - t,
    {
        let cands = &ts[t].cands;
        assert(cands@ == cs[t as int]);
        let ghost prior = scan(cs, sel@, sl, t as int);
        let cur = &cands[sel[t]];
        assert(*cur == chosen(cs, sel@, t as int));
        let mut c: usize = 0;
        while c < cands.len()
            invariant
                c <= cands.len(),
                t < ts.len(),
                cs == menu(ts@),
                sl == slack as int,
                cands@ == cs[t as int],
                *cur == chosen(cs, sel@, t as int),
                match best {
                    None => scan_tensor(cs, sel@, sl, t as int, c as int, prior) is None,
                    Some(m) => {
                        &&& scan_tensor(cs, sel@, sl, t as int, c as int, prior) == Some(
                            (m.0 as int, m.1 as int),
                        )
                        &&& gain == relief(cs, sel@, (m.0 as int, m.1 as int))
                        &&& bytes == extra(cs, sel@, (m.0 as int, m.1 as int))
                    },
                },
            decreases cands.len() - c,
        {
            let cand = &cands[c];
            if cand.bytes > cur.bytes && cand.err < cur.err && cand.bytes - cur.bytes <= slack {
                let g: u64 = cur.err - cand.err;
                let b: u64 = cand.bytes - cur.bytes;
                proof {
                    assert((g as u128) * (bytes as u128) <= (u64::MAX as int) * (u64::MAX as int))
                        by (nonlinear_arith)
                        requires
                            0 <= g <= u64::MAX,
                            0 <= bytes <= u64::MAX,
                    ;
                    assert((gain as u128) * (b as u128) <= (u64::MAX as int) * (u64::MAX as int))
                        by (nonlinear_arith)
                        requires
                            0 <= gain <= u64::MAX,
                            0 <= b <= u64::MAX,
                    ;
                }
                if best.is_none() || (g as u128) * (bytes as u128) > (gain as u128) * (b as u128) {
                    best = Some((t, c));
                    gain = g;
                    bytes = b;
                }
            }
            c += 1;
        }
        t += 1;
    }
    best
}

/// Returns the chosen candidate index per entry, or `None` if even the smallest
/// mix exceeds the budget.
pub fn solve(tensors: &[TensorChoices], budget: u64) -> (r: Option<Vec<usize>>)
    requires
        orderly(menu(tensors@)),
    ensures
        r is None <==> size(menu(tensors@), smallest(menu(tensors@))) > budget,
        r matches Some(sel) ==> sel@ == solution(menu(tensors@), budget as nat),
        r matches Some(sel) ==> valid(menu(tensors@), sel@) && size(menu(tensors@), sel@) <= budget,
{
    let ghost cs = menu(tensors@);
    let ghost bud = budget as nat;
    if smallest_size(tensors) > budget as u128 {
        return None;
    }
    proof {
        price_fits(cs, bud);
        solution_fits(cs, bud);
    }
    let first = pick(tensors, 0);
    let mut best: (Vec<usize>, u128) = first;
    if best.1 > budget as u128 {
        let mut hi: u128 = UNIT;
        proof {
            roof_fits(cs, bud, UNIT as nat);
            assert(raised(UNIT as nat) == 8 * UNIT);
        }
        best = pick(tensors, hi);
        while best.1 > budget as u128
            invariant
                cs == menu(tensors@),
                bud == budget as nat,
                orderly(cs),
                size(cs, smallest(cs)) <= budget,
                0 < hi,
                best.0@ == mix(cs, hi as nat),
                best.1 == size(cs, best.0@),
                roof(cs, bud, hi as nat) == roof(cs, bud, UNIT as nat),
            decreases u128::MAX - hi,
        {
            proof {
                roof_fits(cs, bud, hi as nat);
            }
            hi = if hi <= u128::MAX / 8 {
                hi * 8
            } else {
                u128::MAX
            };
            best = pick(tensors, hi);
        }
        let mut lo: u128 = 0;
        let mut left: u64 = 64;
        while left > 0
            invariant
                cs == menu(tensors@),
                bud == budget as nat,
                orderly(cs),
                lo <= hi,
                best.0@ == mix(cs, hi as nat),
                best.1 == size(cs, best.0@),
                best.1 <= budget,
                bisected(cs, bud, lo as nat, hi as nat, left as nat) == bisected(
                    cs,
                    bud,
                    0,
                    roof(cs, bud, UNIT as nat),
                    64,
                ),
            decreases left,
        {
            let mid: u128 = lo + (hi - lo) / 2;
            let at = pick(tensors, mid);
            if at.1 <= budget as u128 {
                hi = mid;
                best = at;
            } else {
                lo = mid;
            }
            left -= 1;
        }
    }
    let mut sel: Vec<usize> = best.0;
    let mut total: u64 = best.1 as u64;
    let mut next = find_upgrade(tensors, &sel, budget - total);
    while next.is_some()
        invariant
            cs == menu(tensors@),
            bud == budget as nat,
            orderly(cs),
            valid(cs, sel@),
            total == size(cs, sel@),
            total <= budget,
            topped_up(cs, sel@, bud) == solution(cs, bud),
            match next {
                None => best_upgrade(cs, sel@, bud) is None,
                Some(m) => best_upgrade(cs, sel@, bud) == Some((m.0 as int, m.1 as int)),
            },
        decreases budget - total,
    {
        let (t, c) = next.unwrap();
        proof {
            scan_is_upgrade(cs, sel@, budget - total, cs.len() as int);
            size_after(cs, sel@, t as int, c, cs.len() as int);
        }
        let cands = &tensors[t].cands;
        assert(cands@ == cs[t as int]);
        total = total + (cands[c].bytes - cands[sel[t]].bytes);
        sel.set(t, c);
        next = find_upgrade(tensors, &sel, budget - total);
    }
    Some(sel)
}

/// The candidates that are taken are sorted by size, and a valid selection names one of
/// them for every tensor.
pub proof fn taken_candidates_are_sorted(
    cs: Seq<Seq<Candidate>>,
    sel: Seq<usize>,
    i: int,
    j: int,
    k: int,
)
    requires
        orderly(cs),
        valid(cs, sel),
        0 <= i < cs.len(),
        0 <= j <= k < cs[i].len(),
    ensures
        cs[i].len() > 0,
        cs[i][j].bytes <= cs[i][k].bytes,
        sel.len() == cs.len(),
        sel[i] < cs[i].len(),
{
}

/// At every price of a byte each tensor has the candidate that costs least, the first
/// of them where several do.
pub proof fn mixes_cost_least(cs: Seq<Seq<Candidate>>, n: nat, i: int, j: int)
    requires
        orderly(cs),
        0 <= i < cs.len(),
        0 <= j < cs[i].len(),
    ensures
        ({
            let m = mix(cs, n)[i] as int;
            let x = cs[i][m].err * 0x1_0000_0000_0000_0000 + n * cs[i][m].bytes;
            let y = cs[i][j].err * 0x1_0000_0000_0000_0000 + n * cs[i][j].bytes;
            &&& mix(cs, n).len() == cs.len()
            &&& m < cs[i].len()
            &&& x <= y
            &&& j < m ==> x < y
        }),
{
    first_cheapest(cs[i], n, cs[i].len() as int, j);
}

proof fn first_cheapest(c: Seq<Candidate>, n: nat, k: int, j: int)
    requires
        0 <= j < k <= c.len() <= usize::MAX,
    ensures
        0 <= cheapest_upto(c, n, k) < k,
        cost(c[cheapest_upto(c, n, k)], n) <= cost(c[j], n),
        j < cheapest_upto(c, n, k) ==> cost(c[cheapest_upto(c, n, k)], n) < cost(c[j], n),
    decreases k,
{
    if k > 1 {
        if j < k - 1 {
            first_cheapest(c, n, k - 1, j);
        } else {
            first_cheapest(c, n, k - 1, 0);
        }
    }
}

} // verus!
