//! Planning a quantized model: which tensors keep a fixed type, which types the
//! others may have, and the plan that the solver's choice makes.

use vstd::prelude::*;

use crate::budget::Budget;
use crate::ggml_type::GgmlType;
use crate::gguf::{kv_views, lookup, tensor_views, TensorInfo, TensorSpec, Value};
use crate::solver::{
    chosen, menu, orderly, size, size_upto, smallest, solution, solution_fits, solve, valid,
    Candidate, TensorChoices,
};
use crate::sort::{order_is_stable_sort, order_of, precedes, stable_order};
use crate::text::{begins, chars_of, ends, finishes, occurs_at, same_str, starts};
use crate::value::Val;

verus! {

/// What is planned for a tensor.
#[derive(Debug, PartialEq, Eq)]
pub enum Disposition {
    /// Copy or convert to this type (norms, biases, non-weight tensors).
    Fixed(GgmlType),
    /// The solver picks among these types, smallest first.
    Solve(Vec<GgmlType>),
}

/// The tensor is a weight matrix with rows of whole blocks.
pub open spec fn quantizable(t: TensorSpec) -> bool {
    t.dims.len() >= 2 && ends(t.name, ".weight"@) && t.dims[0] % 32 == 0
}

/// Embeddings and the output head: these two keep at least four bits.
pub open spec fn sensitive(t: TensorSpec) -> bool {
    t.name == "token_embd.weight"@ || t.name == "output.weight"@
}

/// The type of a tensor that is not quantized: full precision for the float
/// types, its own for all others.
pub open spec fn fixed_type(ty: GgmlType) -> GgmlType {
    match ty {
        GgmlType::F16 | GgmlType::Bf16 | GgmlType::F32 => GgmlType::F32,
        _ => ty,
    }
}

/// The types that a tensor with rows of `ne0` elements may have, by the length
/// of a row, where types with rows of equal length keep their order.
pub open spec fn ladder(ne0: u64, sensitive: bool) -> Seq<GgmlType> {
    if ne0 % 256 != 0 {
        seq![
            GgmlType::Iq4Nl,
            GgmlType::Q4_0,
            GgmlType::Q4_1,
            GgmlType::Q5_0,
            GgmlType::Q5_1,
            GgmlType::Q8_0,
            GgmlType::F16,
        ]
    } else if sensitive {
        seq![
            GgmlType::Iq4Xs,
            GgmlType::Q4K,
            GgmlType::Q5K,
            GgmlType::Q6K,
            GgmlType::Q8_0,
            GgmlType::F16,
        ]
    } else if ne0 == 0 {
        seq![
            GgmlType::Iq4Xs,
            GgmlType::Q4K,
            GgmlType::Q5K,
            GgmlType::Q6K,
            GgmlType::Q8_0,
            GgmlType::Iq2Xxs,
            GgmlType::Iq2Xs,
            GgmlType::Iq2S,
            GgmlType::Iq3Xxs,
            GgmlType::Iq3S,
            GgmlType::F16,
        ]
    } else {
        seq![
            GgmlType::Iq2Xxs,
            GgmlType::Iq2Xs,
            GgmlType::Iq2S,
            GgmlType::Iq3Xxs,
            GgmlType::Iq3S,
            GgmlType::Iq4Xs,
            GgmlType::Q4K,
            GgmlType::Q5K,
            GgmlType::Q6K,
            GgmlType::Q8_0,
            GgmlType::F16,
        ]
    }
}

/// What is planned for a tensor, with the types as a sequence.
pub ghost enum DispositionSpec {
    Fixed(GgmlType),
    Solve(Seq<GgmlType>),
}

impl View for Disposition {
    type V = DispositionSpec;

    open spec fn view(&self) -> DispositionSpec {
        match *self {
            Disposition::Fixed(ty) => DispositionSpec::Fixed(ty),
            Disposition::Solve(v) => DispositionSpec::Solve(v@),
        }
    }
}

/// What is planned for a tensor.
pub open spec fn disposition_of(t: TensorSpec) -> DispositionSpec {
    if quantizable(t) {
        DispositionSpec::Solve(ladder(t.dims[0], sensitive(t)))
    } else {
        DispositionSpec::Fixed(fixed_type(t.ty))
    }
}

/// The types on a ladder hold rows of whole blocks, and their rows do not get
/// shorter.
pub proof fn ladder_is_sorted(ne0: u64, sensitive: bool, i: int, j: int)
    requires
        ne0 % 32 == 0,
        0 <= i <= j < ladder(ne0, sensitive).len(),
    ensures
        ladder(ne0, sensitive)[i].divides(ne0 as nat),
        ladder(ne0, sensitive)[j].divides(ne0 as nat),
        ladder(ne0, sensitive)[i].row_size(ne0 as nat) <= ladder(ne0, sensitive)[j].row_size(
            ne0 as nat,
        ),
{
    let n = ne0 as nat;
    let k = n / 32;
    assert(n == 32 * k);
    if ne0 % 256 == 0 {
        let m = n / 256;
        assert(n == 256 * m);
        assert(k == 8 * m);
        assert(GgmlType::Iq2Xxs.row_size(n) == 66 * m);
        assert(GgmlType::Iq2Xs.row_size(n) == 74 * m);
        assert(GgmlType::Iq2S.row_size(n) == 82 * m);
        assert(GgmlType::Iq3Xxs.row_size(n) == 98 * m);
        assert(GgmlType::Iq3S.row_size(n) == 110 * m);
        assert(GgmlType::Iq4Xs.row_size(n) == 136 * m);
        assert(GgmlType::Q4K.row_size(n) == 144 * m);
        assert(GgmlType::Q5K.row_size(n) == 176 * m);
        assert(GgmlType::Q6K.row_size(n) == 210 * m);
        assert(GgmlType::Q8_0.row_size(n) == 272 * m);
        assert(GgmlType::F16.row_size(n) == 512 * m);
    } else {
        assert(GgmlType::Iq4Nl.row_size(n) == 18 * k);
        assert(GgmlType::Q4_0.row_size(n) == 18 * k);
        assert(GgmlType::Q4_1.row_size(n) == 20 * k);
        assert(GgmlType::Q5_0.row_size(n) == 22 * k);
        assert(GgmlType::Q5_1.row_size(n) == 24 * k);
        assert(GgmlType::Q8_0.row_size(n) == 34 * k);
        assert(GgmlType::F16.row_size(n) == 64 * k);
    }
}

/// Embeddings and the output head keep at least four bits per element.
pub proof fn sensitive_tensors_keep_four_bits(t: TensorSpec, i: int)
    requires
        sensitive(t),
        disposition_of(t) matches DispositionSpec::Solve(v) && 0 <= i < v.len(),
    ensures
        ({
            let ty = disposition_of(t)->Solve_0[i];
            ty.row_size(t.dims[0] as nat) * 8 >= 4 * t.dims[0]
        }),
{
    let n = t.dims[0] as nat;
    if n % 256 == 0 {
        let m = n / 256;
        assert(n == 256 * m);
        assert(GgmlType::Iq4Xs.block_elems() == 256 && GgmlType::Iq4Xs.block_bytes() == 136);
        assert(GgmlType::Iq4Xs.row_size(n) == 136 * m);
    } else {
        let k = n / 32;
        assert(n == 32 * k);
        assert(GgmlType::Iq4Nl.block_elems() == 32 && GgmlType::Iq4Nl.block_bytes() == 18);
        assert(GgmlType::Iq4Nl.row_size(n) == 18 * k);
    }
    ladder_is_sorted(t.dims[0], true, 0, i);
}

/// Vectors, biases, and all else that is no matrix of weights is stored in full
/// precision, or as it was.
pub proof fn other_tensors_keep_their_precision(t: TensorSpec)
    requires
        t.dims.len() < 2 || !ends(t.name, ".weight"@),
    ensures
        disposition_of(t) == DispositionSpec::Fixed(GgmlType::F32) || disposition_of(t)
            == DispositionSpec::Fixed(t.ty),
{
}

/// Decides what is planned for a tensor.
pub fn dispose(t: &TensorInfo) -> (r: Disposition)
    ensures
        r@ == disposition_of(t@),
{
    let suffix = chars_of(".weight");
    let name = chars_of(t.name.as_str());
    let candidate: bool = t.dims.len() >= 2 && finishes(name.as_slice(), suffix.as_slice())
        && t.dims[0] % 32 == 0;
    if !candidate {
        let ty: GgmlType = match t.ty {
            GgmlType::F16 | GgmlType::Bf16 | GgmlType::F32 => GgmlType::F32,
            other => other,
        };
        return Disposition::Fixed(ty);
    }
    let ne0: u64 = t.ne0();
    let floored: bool = same_str(t.name.as_str(), "token_embd.weight") || same_str(
        t.name.as_str(),
        "output.weight",
    );
    let mut v: Vec<GgmlType> = Vec::new();
    if ne0 % 256 != 0 {
        v.push(GgmlType::Iq4Nl);
        v.push(GgmlType::Q4_0);
        v.push(GgmlType::Q4_1);
        v.push(GgmlType::Q5_0);
        v.push(GgmlType::Q5_1);
        v.push(GgmlType::Q8_0);
    } else {
        if !floored && ne0 != 0 {
            push_low(&mut v);
        }
        v.push(GgmlType::Iq4Xs);
        v.push(GgmlType::Q4K);
        v.push(GgmlType::Q5K);
        v.push(GgmlType::Q6K);
        v.push(GgmlType::Q8_0);
        if !floored && ne0 == 0 {
            push_low(&mut v);
        }
    }
    v.push(GgmlType::F16);
    assert(v@ =~= ladder(ne0, floored));
    Disposition::Solve(v)
}

fn push_low(v: &mut Vec<GgmlType>)
    ensures
        final(v)@ == old(v)@ + seq![
            GgmlType::Iq2Xxs,
            GgmlType::Iq2Xs,
            GgmlType::Iq2S,
            GgmlType::Iq3Xxs,
            GgmlType::Iq3S,
        ],
{
    v.push(GgmlType::Iq2Xxs);
    v.push(GgmlType::Iq2Xs);
    v.push(GgmlType::Iq2S);
    v.push(GgmlType::Iq3Xxs);
    v.push(GgmlType::Iq3S);
}

/// The tensors of a model, divided.
#[derive(Debug)]
pub struct Partition {
    /// The tensors with a fixed type.
    pub fixed: Vec<(usize, GgmlType)>,
    /// The tensors to solve, with the types they may have.
    pub to_solve: Vec<(usize, Vec<GgmlType>)>,
    /// The size of the tensors with a fixed type.
    pub fixed_bytes: u64,
}

/// Why there is no plan.
#[derive(Debug, Clone, Copy, PartialEq, Eq, Structural)]
pub enum PlanError {
    /// The tensor has no size as one of the types planned for it.
    NoSize { tensor: usize },
    /// The fixed tensors alone take the weight budget.
    FixedExceedBudget,
    /// Even the smallest mix exceeds what is left of the weight budget.
    MixExceedsBudget,
    /// The measured needs leave no room for the weights.
    MeasuredExceedMemory,
}

/// The fixed tensors among the first `n`.
pub open spec fn fixed_upto(ts: Seq<TensorSpec>, n: int) -> Seq<(usize, GgmlType)>
    decreases n,
{
    if n <= 0 {
        seq![]
    } else {
        match disposition_of(ts[n - 1]) {
            DispositionSpec::Fixed(ty) => fixed_upto(ts, n - 1).push(((n - 1) as usize, ty)),
            DispositionSpec::Solve(_) => fixed_upto(ts, n - 1),
        }
    }
}

/// The tensors to solve among the first `n`.
pub open spec fn solve_upto(ts: Seq<TensorSpec>, n: int) -> Seq<(usize, Seq<GgmlType>)>
    decreases n,
{
    if n <= 0 {
        seq![]
    } else {
        match disposition_of(ts[n - 1]) {
            DispositionSpec::Fixed(_) => solve_upto(ts, n - 1),
            DispositionSpec::Solve(v) => solve_upto(ts, n - 1).push(((n - 1) as usize, v)),
        }
    }
}

/// The size of the fixed tensors among the first `n`.
pub open spec fn fixed_size_upto(ts: Seq<TensorSpec>, n: int) -> nat
    decreases n,
{
    if n <= 0 {
        0
    } else {
        fixed_size_upto(ts, n - 1) + (match disposition_of(ts[n - 1]) {
            DispositionSpec::Fixed(ty) => ts[n - 1].size_as(ty),
            DispositionSpec::Solve(_) => 0,
        })
    }
}

/// The tensor has a size as each of the types.
pub open spec fn sized_as_all(t: TensorSpec, v: Seq<GgmlType>) -> bool {
    forall|i: int| 0 <= i < v.len() ==> t.sized_as(#[trigger] v[i])
}

/// The tensor has a size as every type planned for it.
pub open spec fn plannable(t: TensorSpec) -> bool {
    match disposition_of(t) {
        DispositionSpec::Fixed(ty) => t.sized_as(ty),
        DispositionSpec::Solve(v) => sized_as_all(t, v),
    }
}

/// The first of the tensors from `i` on that cannot be planned.
pub open spec fn first_unplannable(ts: Seq<TensorSpec>, i: int) -> Option<int>
    decreases ts.len() - i,
{
    if i >= ts.len() {
        None
    } else if !plannable(ts[i]) {
        Some(i)
    } else {
        first_unplannable(ts, i + 1)
    }
}

/// What the types of tensors to solve are.
pub open spec fn solve_views(v: Seq<(usize, Vec<GgmlType>)>) -> Seq<(usize, Seq<GgmlType>)> {
    Seq::new(v.len(), |i: int| (v[i].0, v[i].1@))
}

fn all_sized(t: &TensorInfo, v: &Vec<GgmlType>) -> (r: bool)
    ensures
        r == sized_as_all(t@, v@),
{
    for i in 0..v.len()
        invariant
            forall|j: int| 0 <= j < i ==> t@.sized_as(#[trigger] v@[j]),
    {
        if t.checked_byte_size_as(v[i]).is_none() {
            return false;
        }
    }
    true
}

/// Divides the tensors of a model into those with a fixed type and those to
/// solve. The fixed ones must leave room in the weight budget.
pub fn partition(tensors: &[TensorInfo], model_budget: u64) -> (r: Result<Partition, PlanError>)
    ensures
        match first_unplannable(tensor_views(tensors@), 0) {
            Some(i) => r matches Err(e) && e == (PlanError::NoSize { tensor: i as usize }),
            None => {
                let ts = tensor_views(tensors@);
                let n = ts.len() as int;
                if fixed_size_upto(ts, n) >= model_budget {
                    r matches Err(e) && e == PlanError::FixedExceedBudget
                } else {
                    &&& r matches Ok(p)
                    &&& p.fixed@ == fixed_upto(ts, n)
                    &&& solve_views(p.to_solve@) == solve_upto(ts, n)
                    &&& p.fixed_bytes == fixed_size_upto(ts, n)
                }
            },
        },
{
    let ghost ts = tensor_views(tensors@);
    let mut fixed: Vec<(usize, GgmlType)> = Vec::new();
    let mut to_solve: Vec<(usize, Vec<GgmlType>)> = Vec::new();
    let mut total: u128 = 0;
    assert(solve_views(to_solve@) =~= seq![]);
    for i in 0..tensors.len()
        invariant
            ts == tensor_views(tensors@),
            first_unplannable(ts, 0) == first_unplannable(ts, i as int),
            fixed@ == fixed_upto(ts, i as int),
            solve_views(to_solve@) == solve_upto(ts, i as int),
            total == fixed_size_upto(ts, i as int),
            total <= i * u64::MAX,
    {
        let t = &tensors[i];
        assert(ts[i as int] == t@);
        assert((i + 1) * u64::MAX == i * u64::MAX + u64::MAX) by (nonlinear_arith);
        assert(i * u64::MAX <= usize::MAX * u64::MAX) by (nonlinear_arith)
            requires
                i <= usize::MAX,
        ;
        match dispose(t) {
            Disposition::Fixed(ty) => {
                match t.checked_byte_size_as(ty) {
                    None => {
                        return Err(PlanError::NoSize { tensor: i });
                    },
                    Some(b) => {
                        total = total + b as u128;
                        fixed.push((i, ty));
                    },
                }
            },
            Disposition::Solve(v) => {
                if !all_sized(t, &v) {
                    return Err(PlanError::NoSize { tensor: i });
                }
                let ghost before = to_solve@;
                to_solve.push((i, v));
                assert(solve_views(to_solve@) =~= solve_views(before).push((i, v@)));
            },
        }
    }
    if total >= model_budget as u128 {
        return Err(PlanError::FixedExceedBudget);
    }
    Ok(Partition { fixed, to_solve, fixed_bytes: total as u64 })
}

/// Every tensor is either fixed or to solve.
pub proof fn partition_is_complete(ts: Seq<TensorSpec>, n: int)
    requires
        0 <= n <= ts.len(),
    ensures
        fixed_upto(ts, n).len() + solve_upto(ts, n).len() == n,
    decreases n,
{
    if n > 0 {
        partition_is_complete(ts, n - 1);
    }
}

/// How far apart the sampled rows of a tensor are.
pub open spec fn step_for(n_rows: nat, exact: bool) -> nat {
    if exact {
        1
    } else {
        (n_rows + 127) / 128
    }
}

/// Which rows of a tensor are measured: every `step`th, which makes `sampled`
/// rows. Either all rows, or at most 128, evenly spaced.
pub fn sampling(n_rows: u64, exact: bool) -> (r: (u64, u64))
    requires
        n_rows > 0,
    ensures
        r.0 == step_for(n_rows as nat, exact),
        r.0 >= 1,
        r.1 as int == (n_rows + r.0 - 1) / r.0 as int,
        exact || n_rows <= 128 ==> r.1 == n_rows,
        !exact ==> r.1 <= 128,
{
    let step: u64 = if exact {
        1
    } else {
        n_rows / 128 + (if n_rows % 128 != 0 {
            1
        } else {
            0
        })
    };
    let ghost (n, s) = (n_rows as int, step as int);
    let ghost q = n / s;
    proof {
        vstd::arithmetic::div_mod::lemma_fundamental_div_mod(n, s);
        vstd::arithmetic::mul::lemma_mul_is_commutative(s, q);
        assert(s == 1 ==> q * s == q) by (nonlinear_arith);
        assert(s >= 2 ==> q <= u64::MAX / 2) by (nonlinear_arith)
            requires
                n == q * s + n % s,
                0 <= n % s,
                n <= u64::MAX,
        ;
        if !exact {
            assert(q < 128 || (q == 128 && n % s == 0)) by (nonlinear_arith)
                requires
                    n == q * s + n % s,
                    0 <= n % s,
                    s >= 1,
                    n <= 128 * s,
            ;
        }
    }
    let sampled: u64 = n_rows / step + (if n_rows % step != 0 {
        1
    } else {
        0
    });
    proof {
        let m = n % s;
        if m == 0 {
            assert(n + s - 1 == q * s + (s - 1));
            vstd::arithmetic::div_mod::lemma_fundamental_div_mod_converse(n + s - 1, s, q, s - 1);
        } else {
            assert((q + 1) * s == q * s + s) by (nonlinear_arith);
            vstd::arithmetic::div_mod::lemma_fundamental_div_mod_converse(
                n + s - 1,
                s,
                q + 1,
                m - 1,
            );
        }
    }
    (step, sampled)
}

/// The candidates of a tensor: each type with the tensor's size as that type and
/// the measured error.
pub open spec fn candidates_of(t: TensorSpec, v: Seq<GgmlType>, errs: Seq<u64>) -> Seq<Candidate> {
    Seq::new(
        v.len(),
        |i: int| Candidate { ty: v[i], bytes: t.size_as(v[i]) as u64, err: errs[i] },
    )
}

/// The choices for a tensor.
pub fn choices_for(
    tensors: &[TensorInfo],
    tensor_idx: usize,
    types: &Vec<GgmlType>,
    errs: &[u64],
) -> (r: TensorChoices)
    requires
        tensor_idx < tensors@.len(),
        types@.len() == errs@.len(),
        forall|i: int|
            0 <= i < types@.len() ==> tensors@[tensor_idx as int]@.sized_as(#[trigger] types@[i]),
    ensures
        r.tensor_idx == tensor_idx,
        r.cands@ == candidates_of(tensors@[tensor_idx as int]@, types@, errs@),
{
    let t = &tensors[tensor_idx];
    let ghost all = candidates_of(t@, types@, errs@);
    let mut cands: Vec<Candidate> = Vec::new();
    for i in 0..types.len()
        invariant
            types@.len() == errs@.len(),
            forall|i: int| 0 <= i < types@.len() ==> t@.sized_as(#[trigger] types@[i]),
            all == candidates_of(t@, types@, errs@),
            cands@ == all.subrange(0, i as int),
    {
        assert(t@.sized_as(types@[i as int]));
        let c = Candidate { ty: types[i], bytes: t.byte_size_as(types[i]), err: errs[i] };
        cands.push(c);
        assert(all.subrange(0, i + 1) =~= all.subrange(0, i as int).push(c));
    }
    assert(all.subrange(0, types@.len() as int) =~= all);
    TensorChoices { tensor_idx, cands }
}

/// The candidates of a tensor on its ladder are sorted by size.
pub proof fn candidates_are_sorted(t: TensorSpec, errs: Seq<u64>, i: int, j: int)
    requires
        plannable(t),
        disposition_of(t) matches DispositionSpec::Solve(v) && 0 <= i <= j < v.len(),
    ensures
        ({
            let v = disposition_of(t)->Solve_0;
            candidates_of(t, v, errs)[i].bytes <= candidates_of(t, v, errs)[j].bytes
        }),
{
    let v = disposition_of(t)->Solve_0;
    ladder_is_sorted(t.dims[0], sensitive(t), i, j);
    assert(t.sized_as(v[i]) && t.sized_as(v[j]));
    let (a, b, n) = (t.row_size_as(v[i]), t.row_size_as(v[j]), t.rows());
    assert(a * n <= b * n) by (nonlinear_arith)
        requires
            a <= b,
    ;
}

/// What is planned for one tensor.
#[derive(Debug, Clone, Copy, PartialEq, Eq, Structural)]
pub struct PlanEntry {
    pub tensor_idx: usize,
    pub ty: GgmlType,
    pub bytes: u64,
    pub solved: bool,
}

/// The entries of the fixed tensors.
pub open spec fn fixed_entries(ts: Seq<TensorSpec>, fixed: Seq<(usize, GgmlType)>) -> Seq<
    PlanEntry,
> {
    Seq::new(
        fixed.len(),
        |i: int|
            PlanEntry {
                tensor_idx: fixed[i].0,
                ty: fixed[i].1,
                bytes: ts[fixed[i].0 as int].size_as(fixed[i].1) as u64,
                solved: false,
            },
    )
}

/// The entries of the solved tensors.
pub open spec fn solved_entries(choices: Seq<TensorChoices>, sel: Seq<usize>) -> Seq<PlanEntry> {
    Seq::new(
        choices.len(),
        |i: int|
            PlanEntry {
                tensor_idx: choices[i].tensor_idx,
                ty: choices[i].cands@[sel[i] as int].ty,
                bytes: choices[i].cands@[sel[i] as int].bytes,
                solved: true,
            },
    )
}

/// The tensor indices of entries.
pub open spec fn entry_keys(v: Seq<PlanEntry>) -> Seq<u64> {
    Seq::new(v.len(), |i: int| v[i].tensor_idx as u64)
}

/// Entries in the order of their tensors.
pub open spec fn by_tensor(v: Seq<PlanEntry>) -> Seq<PlanEntry> {
    Seq::new(v.len(), |i: int| v[order_of(entry_keys(v))[i] as int])
}

/// The entries of a plan, in the order of their tensors.
pub open spec fn entries_of(
    ts: Seq<TensorSpec>,
    fixed: Seq<(usize, GgmlType)>,
    choices: Seq<TensorChoices>,
    sel: Seq<usize>,
) -> Seq<PlanEntry> {
    by_tensor(fixed_entries(ts, fixed) + solved_entries(choices, sel))
}

/// The fixed tensors are tensors of the model and have sizes.
pub open spec fn fixed_sized(ts: Seq<TensorSpec>, fixed: Seq<(usize, GgmlType)>) -> bool {
    forall|i: int|
        0 <= i < fixed.len() ==> (#[trigger] fixed[i]).0 < ts.len()
            && ts[fixed[i].0 as int].sized_as(fixed[i].1)
}

/// Puts the entries of a plan together.
pub fn assemble_entries(
    tensors: &[TensorInfo],
    fixed: &[(usize, GgmlType)],
    choices: &[TensorChoices],
    sel: &[usize],
) -> (r: Vec<PlanEntry>)
    requires
        fixed_sized(tensor_views(tensors@), fixed@),
        valid(menu(choices@), sel@),
        fixed@.len() + choices@.len() <= usize::MAX,
    ensures
        r@ == entries_of(tensor_views(tensors@), fixed@, choices@, sel@),
{
    let ghost ts = tensor_views(tensors@);
    let ghost all = fixed_entries(ts, fixed@) + solved_entries(choices@, sel@);
    let mut v: Vec<PlanEntry> = Vec::new();
    let mut keys: Vec<u64> = Vec::new();
    for i in 0..fixed.len()
        invariant
            ts == tensor_views(tensors@),
            fixed_sized(ts, fixed@),
            all == fixed_entries(ts, fixed@) + solved_entries(choices@, sel@),
            v@ == all.subrange(0, i as int),
            keys@ == entry_keys(v@),
    {
        let (k, ty) = fixed[i];
        assert(fixed@[i as int].0 < ts.len());
        assert(ts[k as int] == tensors@[k as int]@);
        let e = PlanEntry {
            tensor_idx: k,
            ty,
            bytes: tensors[k].byte_size_as(ty),
            solved: false,
        };
        assert(all[i as int] == e);
        v.push(e);
        keys.push(k as u64);
        assert(all.subrange(0, i + 1) =~= all.subrange(0, i as int).push(e));
        assert(keys@ =~= entry_keys(v@));
    }
    for i in 0..choices.len()
        invariant
            ts == tensor_views(tensors@),
            valid(menu(choices@), sel@),
            all == fixed_entries(ts, fixed@) + solved_entries(choices@, sel@),
            v@ == all.subrange(0, fixed@.len() + i),
            keys@ == entry_keys(v@),
    {
        let c = &choices[i];
        assert(menu(choices@)[i as int] == c.cands@);
        assert(sel@[i as int] < menu(choices@)[i as int].len());
        let cand = &c.cands[sel[i]];
        let e = PlanEntry {
            tensor_idx: c.tensor_idx,
            ty: cand.ty,
            bytes: cand.bytes,
            solved: true,
        };
        assert(all[fixed@.len() + i] == e);
        v.push(e);
        keys.push(c.tensor_idx as u64);
        assert(all.subrange(0, fixed@.len() + i + 1) =~= all.subrange(0, fixed@.len() + i).push(
            e,
        ));
        assert(keys@ =~= entry_keys(v@));
    }
    assert(v@ =~= all);
    let order = stable_order(keys.as_slice());
    let mut r: Vec<PlanEntry> = Vec::new();
    for i in 0..order.len()
        invariant
            v@ == all,
            keys@ == entry_keys(v@),
            order@ == order_of(keys@),
            order@.len() == v@.len(),
            forall|j: int| 0 <= j < v@.len() ==> (#[trigger] order@[j]) < v@.len(),
            r@ == by_tensor(all).subrange(0, i as int),
    {
        let e = v[order[i]];
        r.push(e);
        assert(by_tensor(all)[i as int] == e);
        assert(by_tensor(all).subrange(0, i + 1) =~= by_tensor(all).subrange(0, i as int).push(e));
    }
    assert(by_tensor(all).subrange(0, all.len() as int) =~= by_tensor(all));
    r
}

proof fn fixed_facts(ts: Seq<TensorSpec>, n: int)
    requires
        0 <= n <= ts.len() <= usize::MAX,
    ensures
        forall|i: int|
            0 <= i < fixed_upto(ts, n).len() ==> (#[trigger] fixed_upto(ts, n)[i]).0 < n
                && disposition_of(ts[fixed_upto(ts, n)[i].0 as int]) is Fixed,
        forall|i: int, j: int|
            0 <= i < j < fixed_upto(ts, n).len() ==> (#[trigger] fixed_upto(ts, n)[i]).0 < (
            #[trigger] fixed_upto(ts, n)[j]).0,
    decreases n,
{
    if n > 0 {
        fixed_facts(ts, n - 1);
    }
}

proof fn solve_facts(ts: Seq<TensorSpec>, n: int)
    requires
        0 <= n <= ts.len() <= usize::MAX,
    ensures
        forall|i: int|
            0 <= i < solve_upto(ts, n).len() ==> (#[trigger] solve_upto(ts, n)[i]).0 < n
                && disposition_of(ts[solve_upto(ts, n)[i].0 as int]) is Solve,
        forall|i: int, j: int|
            0 <= i < j < solve_upto(ts, n).len() ==> (#[trigger] solve_upto(ts, n)[i]).0 < (
            #[trigger] solve_upto(ts, n)[j]).0,
    decreases n,
{
    if n > 0 {
        solve_facts(ts, n - 1);
    }
}

proof fn at_least(s: Seq<int>, i: int)
    requires
        0 <= i < s.len(),
        forall|a: int, b: int| 0 <= a < b < s.len() ==> s[a] < s[b],
        forall|a: int| 0 <= a < s.len() ==> 0 <= #[trigger] s[a] < s.len(),
    ensures
        s[i] >= i,
    decreases i,
{
    if i > 0 {
        at_least(s, i - 1);
    }
}

proof fn at_most(s: Seq<int>, i: int)
    requires
        0 <= i < s.len(),
        forall|a: int, b: int| 0 <= a < b < s.len() ==> s[a] < s[b],
        forall|a: int| 0 <= a < s.len() ==> 0 <= #[trigger] s[a] < s.len(),
    ensures
        s[i] <= i,
    decreases s.len() - i,
{
    if i < s.len() - 1 {
        at_most(s, i + 1);
    }
}

/// A plan for a divided model has one entry per tensor, in the order of the
/// tensors.
pub proof fn plan_covers_every_tensor(
    ts: Seq<TensorSpec>,
    choices: Seq<TensorChoices>,
    sel: Seq<usize>,
    i: int,
)
    requires
        ts.len() <= usize::MAX,
        choices.len() == solve_upto(ts, ts.len() as int).len(),
        forall|k: int|
            0 <= k < choices.len() ==> (#[trigger] choices[k]).tensor_idx == solve_upto(
                ts,
                ts.len() as int,
            )[k].0,
        0 <= i < ts.len(),
    ensures
        ({
            let entries = entries_of(ts, fixed_upto(ts, ts.len() as int), choices, sel);
            entries.len() == ts.len() && entries[i].tensor_idx == i
        }),
{
    let n = ts.len() as int;
    let fixed = fixed_upto(ts, n);
    let solve = solve_upto(ts, n);
    fixed_facts(ts, n);
    solve_facts(ts, n);
    partition_is_complete(ts, n);
    let all = fixed_entries(ts, fixed) + solved_entries(choices, sel);
    let keys = entry_keys(all);
    let f = fixed.len() as int;
    assert forall|a: int| 0 <= a < n implies (#[trigger] keys[a]) < n && keys[a] == (if a < f {
        fixed[a].0
    } else {
        solve[a - f].0
    }) by {
        if a >= f {
            assert(choices[a - f].tensor_idx == solve[a - f].0);
        }
    }
    assert forall|a: int, b: int| 0 <= a < n && 0 <= b < n && a != b implies keys[a] != keys[b] by {
        if a < f && b < f {
            if a < b {
                assert(fixed[a].0 < fixed[b].0);
            } else {
                assert(fixed[b].0 < fixed[a].0);
            }
        } else if a >= f && b >= f {
            if a < b {
                assert(solve[a - f].0 < solve[b - f].0);
            } else {
                assert(solve[b - f].0 < solve[a - f].0);
            }
        } else if a < f {
            assert(disposition_of(ts[fixed[a].0 as int]) is Fixed);
            assert(disposition_of(ts[solve[b - f].0 as int]) is Solve);
        } else {
            assert(disposition_of(ts[fixed[b].0 as int]) is Fixed);
            assert(disposition_of(ts[solve[a - f].0 as int]) is Solve);
        }
    }
    order_is_stable_sort(keys);
    let o = order_of(keys);
    let s = Seq::new(n as nat, |k: int| keys[o[k] as int] as int);
    assert forall|a: int, b: int| 0 <= a < b < n implies s[a] < s[b] by {
        assert(precedes(keys, o[a] as int, o[b] as int));
        assert(o[a] != o[b]);
    }
    assert forall|a: int| 0 <= a < n implies 0 <= #[trigger] s[a] < n by {
        assert(keys[o[a] as int] < n);
    }
    at_least(s, i);
    at_most(s, i);
    assert(by_tensor(all)[i] == all[o[i] as int]);
    assert(keys[o[i] as int] == all[o[i] as int].tensor_idx as u64);
}

/// A plan: what every tensor becomes, and what it was solved from.
pub struct Plan {
    pub entries: Vec<PlanEntry>,
    pub budget: Budget,
    pub total_bytes: u64,
    pub choices: Vec<TensorChoices>,
    pub fixed: Vec<(usize, GgmlType)>,
    pub fixed_bytes: u64,
}

impl Plan {
    /// The plan is the one that the solver's selection makes.
    pub open spec fn follows(self, ts: Seq<TensorSpec>, sel: Seq<usize>) -> bool {
        &&& self.entries@ == entries_of(ts, self.fixed@, self.choices@, sel)
        &&& self.total_bytes == self.fixed_bytes + size(menu(self.choices@), sel)
    }

    /// The weight budget holds the fixed tensors and the smallest mix.
    pub open spec fn feasible(self) -> bool {
        let cs = menu(self.choices@);
        &&& self.fixed_bytes < self.budget.model_budget
        &&& self.fixed_bytes + size(cs, smallest(cs)) <= self.budget.model_budget
    }

    /// The measured memory needs leave room for the fixed tensors and the smallest
    /// mix.
    pub open spec fn bears(self, kv: u64, compute: u64, reserve: u64) -> bool {
        let cs = menu(self.choices@);
        let room = measured_room(self.budget, kv, compute, reserve, self.fixed_bytes);
        room > 0 && size(cs, smallest(cs)) <= room
    }

    /// The plan can be solved anew for another budget.
    pub open spec fn resolvable(self, ts: Seq<TensorSpec>) -> bool {
        &&& fixed_sized(ts, self.fixed@)
        &&& orderly(menu(self.choices@))
        &&& self.fixed@.len() + self.choices@.len() <= usize::MAX
    }
}

/// Solves for the types of the tensors within the weight budget.
pub fn finish_plan(
    tensors: &[TensorInfo],
    budget: Budget,
    fixed: Vec<(usize, GgmlType)>,
    fixed_bytes: u64,
    choices: Vec<TensorChoices>,
) -> (r: Result<Plan, PlanError>)
    requires
        fixed_sized(tensor_views(tensors@), fixed@),
        orderly(menu(choices@)),
        fixed_bytes < budget.model_budget,
        fixed@.len() + choices@.len() <= usize::MAX,
    ensures
        ({
            let cs = menu(choices@);
            let room = (budget.model_budget - fixed_bytes) as nat;
            match r {
                Err(e) => e == PlanError::MixExceedsBudget && size(cs, smallest(cs)) > room,
                Ok(p) => {
                    &&& size(cs, smallest(cs)) <= room
                    &&& p.follows(tensor_views(tensors@), solution(cs, room))
                    &&& p.budget == budget
                    &&& p.choices@ == choices@
                    &&& p.fixed@ == fixed@
                    &&& p.fixed_bytes == fixed_bytes
                    &&& p.total_bytes <= budget.model_budget
                },
            }
        }),
{
    let room: u64 = budget.model_budget - fixed_bytes;
    match solve(choices.as_slice(), room) {
        None => Err(PlanError::MixExceedsBudget),
        Some(sel) => {
            let entries = assemble_entries(
                tensors,
                fixed.as_slice(),
                choices.as_slice(),
                sel.as_slice(),
            );
            let solved = selected_size(choices.as_slice(), sel.as_slice(), room);
            Ok(
                Plan {
                    entries,
                    budget,
                    total_bytes: fixed_bytes + solved,
                    choices,
                    fixed,
                    fixed_bytes,
                },
            )
        },
    }
}

/// The errors of all candidates.
pub open spec fn error_views(errs: Seq<Vec<u64>>) -> Seq<Seq<u64>> {
    Seq::new(errs.len(), |i: int| errs[i]@)
}

/// There is one error for every candidate of every tensor to solve.
pub open spec fn errors_match(ts: Seq<TensorSpec>, errs: Seq<Seq<u64>>) -> bool {
    let v = solve_upto(ts, ts.len() as int);
    &&& errs.len() == v.len()
    &&& forall|k: int| 0 <= k < v.len() ==> (#[trigger] errs[k]).len() == v[k].1.len()
}

/// The candidates of all tensors to solve.
pub open spec fn menu_of(ts: Seq<TensorSpec>, errs: Seq<Seq<u64>>) -> Seq<Seq<Candidate>> {
    let v = solve_upto(ts, ts.len() as int);
    Seq::new(v.len(), |k: int| candidates_of(ts[v[k].0 as int], v[k].1, errs[k]))
}

/// The choices are those of the tensors to solve.
pub open spec fn choices_are(
    c: Seq<TensorChoices>,
    ts: Seq<TensorSpec>,
    errs: Seq<Seq<u64>>,
) -> bool {
    let v = solve_upto(ts, ts.len() as int);
    &&& c.len() == v.len()
    &&& forall|k: int|
        0 <= k < v.len() ==> (#[trigger] c[k]).tensor_idx == v[k].0 && c[k].cands@ == menu_of(
            ts,
            errs,
        )[k]
}

proof fn all_plannable(ts: Seq<TensorSpec>, i: int)
    requires
        first_unplannable(ts, i) is None,
        0 <= i,
    ensures
        forall|j: int| i <= j < ts.len() ==> plannable(#[trigger] ts[j]),
    decreases ts.len() - i,
{
    if i < ts.len() {
        all_plannable(ts, i + 1);
    }
}

proof fn divided_types(ts: Seq<TensorSpec>, n: int)
    requires
        0 <= n <= ts.len() <= usize::MAX,
    ensures
        forall|i: int|
            0 <= i < fixed_upto(ts, n).len() ==> disposition_of(
                ts[(#[trigger] fixed_upto(ts, n)[i]).0 as int],
            ) == DispositionSpec::Fixed(fixed_upto(ts, n)[i].1),
        forall|i: int|
            0 <= i < solve_upto(ts, n).len() ==> disposition_of(
                ts[(#[trigger] solve_upto(ts, n)[i]).0 as int],
            ) == DispositionSpec::Solve(solve_upto(ts, n)[i].1),
    decreases n,
{
    if n > 0 {
        divided_types(ts, n - 1);
    }
}

proof fn menu_is_orderly(ts: Seq<TensorSpec>, errs: Seq<Seq<u64>>)
    requires
        ts.len() <= usize::MAX,
        first_unplannable(ts, 0) is None,
        errors_match(ts, errs),
    ensures
        orderly(menu_of(ts, errs)),
        fixed_sized(ts, fixed_upto(ts, ts.len() as int)),
{
    let n = ts.len() as int;
    let v = solve_upto(ts, n);
    let f = fixed_upto(ts, n);
    let cs = menu_of(ts, errs);
    all_plannable(ts, 0);
    divided_types(ts, n);
    solve_facts(ts, n);
    fixed_facts(ts, n);
    assert forall|k: int| 0 <= k < cs.len() implies (#[trigger] cs[k]).len() > 0 && cs[k].len()
        <= usize::MAX && (forall|i: int, j: int|
        0 <= i <= j < cs[k].len() ==> (#[trigger] cs[k][i]).bytes <= (#[trigger] cs[k][j]).bytes) by {
        let t = ts[v[k].0 as int];
        assert(disposition_of(t) == DispositionSpec::Solve(v[k].1));
        assert(v[k].1 == ladder(t.dims[0], sensitive(t)));
        assert forall|i: int, j: int| 0 <= i <= j < cs[k].len() implies (#[trigger] cs[k][i]).bytes
            <= (#[trigger] cs[k][j]).bytes by {
            candidates_are_sorted(t, errs[k], i, j);
        }
    }
    assert forall|i: int| 0 <= i < f.len() implies (#[trigger] f[i]).0 < ts.len()
        && ts[f[i].0 as int].sized_as(f[i].1) by {
        assert(plannable(ts[f[i].0 as int]));
    }
}

/// The size of the first `n` entries.
pub open spec fn bytes_upto(v: Seq<PlanEntry>, n: int) -> nat
    decreases n,
{
    if n <= 0 {
        0
    } else {
        bytes_upto(v, n - 1) + v[n - 1].bytes as nat
    }
}

/// The entry is for a tensor of that disposition: the fixed type, or one of those
/// to choose from.
pub open spec fn allows(d: DispositionSpec, e: PlanEntry) -> bool {
    match d {
        DispositionSpec::Fixed(ty) => !e.solved && e.ty == ty,
        DispositionSpec::Solve(v) => e.solved && v.contains(e.ty),
    }
}

proof fn place_among_solved(ts: Seq<TensorSpec>, i: int, n: int)
    requires
        0 <= i < n <= ts.len() <= usize::MAX,
        disposition_of(ts[i]) is Solve,
    ensures
        solve_upto(ts, i).len() < solve_upto(ts, n).len(),
        solve_upto(ts, n)[solve_upto(ts, i).len() as int].0 == i,
    decreases n,
{
    if i < n - 1 {
        place_among_solved(ts, i, n - 1);
    }
}

/// Every entry of a plan is what is allowed for its tensor, and has the size that
/// its tensor has as its type.
pub proof fn planned_entries_are_allowed(
    ts: Seq<TensorSpec>,
    errs: Seq<Seq<u64>>,
    choices: Seq<TensorChoices>,
    sel: Seq<usize>,
    i: int,
)
    requires
        ts.len() <= usize::MAX,
        first_unplannable(ts, 0) is None,
        errors_match(ts, errs),
        choices_are(choices, ts, errs),
        valid(menu_of(ts, errs), sel),
        0 <= i < ts.len(),
    ensures
        ({
            let e = entries_of(ts, fixed_upto(ts, ts.len() as int), choices, sel)[i];
            &&& allows(disposition_of(ts[i]), e)
            &&& e.bytes == ts[i].size_as(e.ty)
            &&& disposition_of(ts[i]) is Solve ==> e.bytes == chosen(
                menu_of(ts, errs),
                sel,
                solve_upto(ts, i).len() as int,
            ).bytes
        }),
{
    let n = ts.len() as int;
    let fixed = fixed_upto(ts, n);
    let v = solve_upto(ts, n);
    plan_covers_every_tensor(ts, choices, sel, i);
    partition_is_complete(ts, n);
    divided_types(ts, n);
    solve_facts(ts, n);
    all_plannable(ts, 0);
    menu_is_orderly(ts, errs);
    let all = fixed_entries(ts, fixed) + solved_entries(choices, sel);
    order_is_stable_sort(entry_keys(all));
    let a = order_of(entry_keys(all))[i] as int;
    let e = all[a];
    assert(entries_of(ts, fixed, choices, sel)[i] == e);
    let f = fixed.len() as int;
    if a < f {
        assert(fixed[a].0 == i);
    } else {
        let k = a - f;
        let t = ts[v[k].0 as int];
        assert(choices[k].tensor_idx == v[k].0);
        assert(plannable(t) && disposition_of(t) == DispositionSpec::Solve(v[k].1));
        assert(sized_as_all(t, v[k].1));
        let c = menu_of(ts, errs)[k][sel[k] as int];
        assert(sel[k] < menu_of(ts, errs)[k].len());
        assert(t.sized_as(v[k].1[sel[k] as int]));
        assert(c.bytes == t.size_as(c.ty));
        assert(v[k].1[sel[k] as int] == e.ty);
        place_among_solved(ts, i, n);
        let at = solve_upto(ts, i).len() as int;
        if at < k {
            assert(v[at].0 < v[k].0);
        } else if k < at {
            assert(v[k].0 < v[at].0);
        }
    }
}

proof fn planned_sizes_add_up(
    ts: Seq<TensorSpec>,
    errs: Seq<Seq<u64>>,
    choices: Seq<TensorChoices>,
    sel: Seq<usize>,
    m: int,
)
    requires
        ts.len() <= usize::MAX,
        first_unplannable(ts, 0) is None,
        errors_match(ts, errs),
        choices_are(choices, ts, errs),
        valid(menu_of(ts, errs), sel),
        0 <= m <= ts.len(),
    ensures
        bytes_upto(entries_of(ts, fixed_upto(ts, ts.len() as int), choices, sel), m)
            == fixed_size_upto(ts, m) + size_upto(
            menu_of(ts, errs),
            sel,
            solve_upto(ts, m).len() as int,
        ),
    decreases m,
{
    if m > 0 {
        planned_sizes_add_up(ts, errs, choices, sel, m - 1);
        planned_entries_are_allowed(ts, errs, choices, sel, m - 1);
    }
}

/// Plans a mix for the tensors of a model from the measured errors of their
/// candidates.
pub fn build_plan(tensors: &[TensorInfo], budget: Budget, errs: &[Vec<u64>]) -> (r: Result<
    Plan,
    PlanError,
>)
    requires
        first_unplannable(tensor_views(tensors@), 0) is None ==> errors_match(
            tensor_views(tensors@),
            error_views(errs@),
        ),
    ensures
        ({
            let ts = tensor_views(tensors@);
            let n = ts.len() as int;
            let cs = menu_of(ts, error_views(errs@));
            let room = budget.model_budget - fixed_size_upto(ts, n);
            match first_unplannable(ts, 0) {
                Some(i) => r matches Err(e) && e == (PlanError::NoSize { tensor: i as usize }),
                None => if room <= 0 {
                    r matches Err(e) && e == PlanError::FixedExceedBudget
                } else if size(cs, smallest(cs)) > room {
                    r matches Err(e) && e == PlanError::MixExceedsBudget
                } else {
                    &&& r matches Ok(p)
                    &&& p.follows(ts, solution(cs, room as nat))
                    &&& p.budget == budget
                    &&& choices_are(p.choices@, ts, error_views(errs@))
                    &&& p.fixed@ == fixed_upto(ts, n)
                    &&& p.fixed_bytes == fixed_size_upto(ts, n)
                    &&& p.resolvable(ts)
                    &&& p.feasible()
                    &&& p.total_bytes <= budget.model_budget
                    &&& p.entries@.len() == n
                    &&& forall|i: int|
                        0 <= i < n ==> (#[trigger] p.entries@[i]).tensor_idx == i
                            && p.entries@[i].bytes == ts[i].size_as(p.entries@[i].ty) && allows(
                            disposition_of(ts[i]),
                            p.entries@[i],
                        )
                    &&& p.total_bytes == bytes_upto(p.entries@, n)
                },
            }
        }),
{
    let ghost ts = tensor_views(tensors@);
    let ghost n = ts.len() as int;
    let ghost es = error_views(errs@);
    assert(tensors@.len() == tensors.len());
    let parts = partition(tensors, budget.model_budget)?;
    let ghost v = solve_upto(ts, n);
    proof {
        all_plannable(ts, 0);
        divided_types(ts, n);
        solve_facts(ts, n);
        partition_is_complete(ts, n);
        menu_is_orderly(ts, es);
    }
    let mut choices: Vec<TensorChoices> = Vec::new();
    for k in 0..parts.to_solve.len()
        invariant
            ts == tensor_views(tensors@),
            n == ts.len(),
            es == error_views(errs@),
            errors_match(ts, es),
            v == solve_upto(ts, n),
            solve_views(parts.to_solve@) == v,
            forall|j: int| 0 <= j < n ==> plannable(#[trigger] ts[j]),
            forall|i: int|
                0 <= i < v.len() ==> (#[trigger] v[i]).0 < n && disposition_of(ts[v[i].0 as int])
                    == DispositionSpec::Solve(v[i].1),
            choices@.len() == k,
            forall|j: int|
                0 <= j < k ==> (#[trigger] choices@[j]).tensor_idx == v[j].0 && choices@[j].cands@
                    == menu_of(ts, es)[j],
    {
        let (i, types) = &parts.to_solve[k];
        assert(v[k as int] == (*i, types@));
        assert(plannable(ts[*i as int]));
        assert(sized_as_all(ts[*i as int], types@));
        assert(es[k as int].len() == v[k as int].1.len());
        assert(ts[*i as int] == tensors@[*i as int]@);
        choices.push(choices_for(tensors, *i, types, errs[k].as_slice()));
    }
    proof {
        assert(menu(choices@) =~= menu_of(ts, es));
    }
    let plan = finish_plan(tensors, budget, parts.fixed, parts.fixed_bytes, choices)?;
    proof {
        let cs = menu_of(ts, es);
        let room = (budget.model_budget - fixed_size_upto(ts, n)) as nat;
        solution_fits(cs, room);
        let sel = solution(cs, room);
        assert forall|i: int| 0 <= i < n implies (#[trigger] plan.entries@[i]).tensor_idx == i
            && plan.entries@[i].bytes == ts[i].size_as(plan.entries@[i].ty) && allows(
            disposition_of(ts[i]),
            plan.entries@[i],
        ) by {
            plan_covers_every_tensor(ts, plan.choices@, sel, i);
            planned_entries_are_allowed(ts, es, plan.choices@, sel, i);
        }
        planned_sizes_add_up(ts, es, plan.choices@, sel, n);
        assert(plan.entries@.len() == fixed_upto(ts, n).len() + plan.choices@.len());
    }
    Ok(plan)
}

proof fn size_grows(choices: Seq<TensorChoices>, sel: Seq<usize>, a: int, b: int)
    requires
        0 <= a <= b,
    ensures
        size_upto(menu(choices), sel, a) <= size_upto(menu(choices), sel, b),
    decreases b,
{
    if a < b {
        size_grows(choices, sel, a, b - 1);
    }
}

/// The size of a selection that is known to be within bounds.
fn selected_size(choices: &[TensorChoices], sel: &[usize], room: u64) -> (r: u64)
    requires
        valid(menu(choices@), sel@),
        size(menu(choices@), sel@) <= room,
    ensures
        r == size(menu(choices@), sel@),
{
    let ghost cs = menu(choices@);
    let mut total: u64 = 0;
    for i in 0..choices.len()
        invariant
            cs == menu(choices@),
            valid(cs, sel@),
            size(cs, sel@) <= room,
            total == size_upto(cs, sel@, i as int),
    {
        assert(cs[i as int] == choices@[i as int].cands@);
        assert(sel@[i as int] < cs[i as int].len());
        proof {
            size_grows(choices@, sel@, i + 1, cs.len() as int);
        }
        total = total + choices[i].cands[sel[i]].bytes;
    }
    total
}

/// The entries whose types differ, among the first `n`.
pub open spec fn changed_upto(a: Seq<PlanEntry>, b: Seq<PlanEntry>, n: int) -> nat
    decreases n,
{
    if n <= 0 {
        0
    } else {
        changed_upto(a, b, n - 1) + (if a[n - 1].ty != b[n - 1].ty {
            1nat
        } else {
            0nat
        })
    }
}

/// What the measured memory needs leave for the weights.
pub open spec fn measured_room(
    budget: Budget,
    kv: u64,
    compute: u64,
    reserve: u64,
    fixed_bytes: u64,
) -> int {
    budget.usable_vram - kv - compute - reserve - fixed_bytes
}

/// Solves again with measured memory needs. Returns the new plan and how many
/// tensors change their types.
pub fn recalibrate(
    plan: &Plan,
    tensors: &[TensorInfo],
    kv_bytes: u64,
    compute_bytes: u64,
    reserve: u64,
) -> (r: Result<(Plan, usize), PlanError>)
    requires
        plan.resolvable(tensor_views(tensors@)),
    ensures
        r is Ok <==> plan.bears(kv_bytes, compute_bytes, reserve),
        ({
            let cs = menu(plan.choices@);
            let room = measured_room(
                plan.budget,
                kv_bytes,
                compute_bytes,
                reserve,
                plan.fixed_bytes,
            );
            match r {
                Err(e) => if room <= 0 {
                    e == PlanError::MeasuredExceedMemory
                } else {
                    e == PlanError::MixExceedsBudget && size(cs, smallest(cs)) > room
                },
                Ok((p, n)) => {
                    let sel = solution(cs, room as nat);
                    let least = if p.entries@.len() < plan.entries@.len() {
                        p.entries@.len() as int
                    } else {
                        plan.entries@.len() as int
                    };
                    &&& room > 0
                    &&& size(cs, smallest(cs)) <= room
                    &&& p.entries@ == entries_of(
                        tensor_views(tensors@),
                        plan.fixed@,
                        plan.choices@,
                        sel,
                    )
                    &&& p.total_bytes == plan.fixed_bytes + size(cs, sel)
                    &&& p.total_bytes <= p.budget.model_budget
                    &&& p.budget == (Budget {
                        usable_vram: plan.budget.usable_vram,
                        kv_bytes,
                        compute_bytes,
                        reserve,
                        model_budget: (room + plan.fixed_bytes) as u64,
                    })
                    &&& p.choices@.len() == 0
                    &&& p.fixed@ == plan.fixed@
                    &&& p.fixed_bytes == plan.fixed_bytes
                    &&& n == changed_upto(p.entries@, plan.entries@, least)
                },
            }
        }),
{
    let needs: u128 = kv_bytes as u128 + compute_bytes as u128 + reserve as u128
        + plan.fixed_bytes as u128;
    if needs >= plan.budget.usable_vram as u128 {
        return Err(PlanError::MeasuredExceedMemory);
    }
    let room: u64 = plan.budget.usable_vram - needs as u64;
    match solve(plan.choices.as_slice(), room) {
        None => Err(PlanError::MixExceedsBudget),
        Some(sel) => {
            let entries = assemble_entries(
                tensors,
                plan.fixed.as_slice(),
                plan.choices.as_slice(),
                sel.as_slice(),
            );
            let solved = selected_size(plan.choices.as_slice(), sel.as_slice(), room);
            let least: usize = if entries.len() < plan.entries.len() {
                entries.len()
            } else {
                plan.entries.len()
            };
            let mut changed: usize = 0;
            for i in 0..least
                invariant
                    least <= entries@.len(),
                    least <= plan.entries@.len(),
                    changed <= i,
                    changed == changed_upto(entries@, plan.entries@, i as int),
            {
                if entries[i].ty != plan.entries[i].ty {
                    changed += 1;
                }
            }
            let mut fixed: Vec<(usize, GgmlType)> = Vec::new();
            for i in 0..plan.fixed.len()
                invariant
                    fixed@ == plan.fixed@.subrange(0, i as int),
            {
                fixed.push(plan.fixed[i]);
                assert(plan.fixed@.subrange(0, i + 1) =~= plan.fixed@.subrange(0, i as int).push(
                    plan.fixed@[i as int],
                ));
            }
            assert(fixed@ =~= plan.fixed@);
            let budget = Budget {
                usable_vram: plan.budget.usable_vram,
                kv_bytes,
                compute_bytes,
                reserve,
                model_budget: room + plan.fixed_bytes,
            };
            Ok(
                (
                    Plan {
                        entries,
                        budget,
                        total_bytes: plan.fixed_bytes + solved,
                        choices: Vec::new(),
                        fixed,
                        fixed_bytes: plan.fixed_bytes,
                    },
                    changed,
                ),
            )
        },
    }
}

/// Measured memory needs that do not exceed the estimated ones can always be
/// borne: a plan within its budget is solved again.
pub proof fn lower_needs_are_borne(plan: Plan, kv: u64, compute: u64, reserve: u64)
    requires
        plan.feasible(),
        plan.budget.adds_up(),
        kv + compute + reserve <= plan.budget.kv_bytes + plan.budget.compute_bytes
            + plan.budget.reserve,
    ensures
        plan.bears(kv, compute, reserve),
{
}

proof fn nothing_changes(v: Seq<PlanEntry>, n: int)
    ensures
        changed_upto(v, v, n) == 0,
    decreases n,
{
    if n > 0 {
        nothing_changes(v, n - 1);
    }
}

/// Memory needs that were estimated right change nothing: the plan is solved to
/// the same entries.
pub proof fn same_needs_keep_the_plan(
    plan: Plan,
    ts: Seq<TensorSpec>,
    kv: u64,
    compute: u64,
    reserve: u64,
)
    requires
        plan.feasible(),
        plan.budget.adds_up(),
        plan.follows(
            ts,
            solution(
                menu(plan.choices@),
                (plan.budget.model_budget - plan.fixed_bytes) as nat,
            ),
        ),
        kv + compute + reserve == plan.budget.kv_bytes + plan.budget.compute_bytes
            + plan.budget.reserve,
    ensures
        ({
            let room = measured_room(plan.budget, kv, compute, reserve, plan.fixed_bytes);
            let entries = entries_of(
                ts,
                plan.fixed@,
                plan.choices@,
                solution(menu(plan.choices@), room as nat),
            );
            &&& plan.bears(kv, compute, reserve)
            &&& entries == plan.entries@
            &&& changed_upto(entries, plan.entries@, plan.entries@.len() as int) == 0
        }),
{
    nothing_changes(plan.entries@, plan.entries@.len() as int);
}

/// The file type that stands for a tensor type.
pub open spec fn type_mark(ty: GgmlType) -> u32 {
    match ty {
        GgmlType::F16 => 1,
        GgmlType::Q4_0 => 2,
        GgmlType::Q4_1 => 3,
        GgmlType::Q5_0 => 8,
        GgmlType::Q5_1 => 9,
        GgmlType::Q8_0 => 7,
        GgmlType::Q4K => 15,
        GgmlType::Q5K => 17,
        GgmlType::Q6K => 18,
        GgmlType::Iq2Xxs => 19,
        GgmlType::Iq2Xs => 20,
        GgmlType::Iq3Xxs => 23,
        GgmlType::Iq4Nl => 25,
        GgmlType::Iq3S => 26,
        GgmlType::Iq2S => 28,
        GgmlType::Iq4Xs => 30,
        _ => 1,
    }
}

/// The size of those of the first `n` entries that were solved to a type.
pub open spec fn solved_bytes(v: Seq<PlanEntry>, ty: GgmlType, n: int) -> nat
    decreases n,
{
    if n <= 0 {
        0
    } else if v[n - 1].solved && v[n - 1].ty == ty {
        solved_bytes(v, ty, n - 1) + v[n - 1].bytes as nat
    } else {
        solved_bytes(v, ty, n - 1)
    }
}

/// Of the types that the first `n` entries were solved to, the one that takes the
/// most bytes in all, of several the first: those bytes and the file type.
pub open spec fn dominant(v: Seq<PlanEntry>, n: int) -> (nat, u32)
    decreases n,
{
    if n <= 0 {
        (0, 1)
    } else {
        let best = dominant(v, n - 1);
        let bytes = solved_bytes(v, v[n - 1].ty, v.len() as int);
        if v[n - 1].solved && bytes > best.0 {
            (bytes, type_mark(v[n - 1].ty))
        } else {
            best
        }
    }
}

fn mark_of(ty: GgmlType) -> (r: u32)
    ensures
        r == type_mark(ty),
{
    match ty {
        GgmlType::F16 => 1,
        GgmlType::Q4_0 => 2,
        GgmlType::Q4_1 => 3,
        GgmlType::Q5_0 => 8,
        GgmlType::Q5_1 => 9,
        GgmlType::Q8_0 => 7,
        GgmlType::Q4K => 15,
        GgmlType::Q5K => 17,
        GgmlType::Q6K => 18,
        GgmlType::Iq2Xxs => 19,
        GgmlType::Iq2Xs => 20,
        GgmlType::Iq3Xxs => 23,
        GgmlType::Iq4Nl => 25,
        GgmlType::Iq3S => 26,
        GgmlType::Iq2S => 28,
        GgmlType::Iq4Xs => 30,
        _ => 1,
    }
}

proof fn solved_bytes_bound(v: Seq<PlanEntry>, ty: GgmlType, n: int)
    requires
        0 <= n,
    ensures
        solved_bytes(v, ty, n) <= n * u64::MAX,
    decreases n,
{
    if n > 0 {
        solved_bytes_bound(v, ty, n - 1);
    }
}

fn sum_solved(v: &[PlanEntry], ty: GgmlType) -> (r: u128)
    ensures
        r == solved_bytes(v@, ty, v@.len() as int),
{
    let mut total: u128 = 0;
    for i in 0..v.len()
        invariant
            total == solved_bytes(v@, ty, i as int),
    {
        proof {
            solved_bytes_bound(v@, ty, i as int);
        }
        if v[i].solved && v[i].ty == ty {
            total = total + v[i].bytes as u128;
        }
    }
    total
}

/// The file type of the dominant type: the one that the solved tensors take the
/// most bytes in.
pub fn file_type_code(entries: &[PlanEntry]) -> (r: u32)
    ensures
        r == dominant(entries@, entries@.len() as int).1,
{
    let mut most: u128 = 0;
    let mut code: u32 = 1;
    for i in 0..entries.len()
        invariant
            (most as nat, code) == dominant(entries@, i as int),
    {
        if entries[i].solved {
            let bytes: u128 = sum_solved(entries, entries[i].ty);
            if bytes > most {
                most = bytes;
                code = mark_of(entries[i].ty);
            }
        }
    }
    code
}

proof fn dominant_facts(v: Seq<PlanEntry>, n: int)
    requires
        0 <= n <= v.len(),
    ensures
        forall|j: int|
            0 <= j < n && (#[trigger] v[j]).solved ==> solved_bytes(v, v[j].ty, v.len() as int)
                <= dominant(v, n).0,
        dominant(v, n).0 > 0 ==> exists|j: int|
            0 <= j < n && (#[trigger] v[j]).solved && dominant(v, n) == (
                solved_bytes(v, v[j].ty, v.len() as int),
                type_mark(v[j].ty),
            ),
    decreases n,
{
    if n > 0 {
        dominant_facts(v, n - 1);
        let bytes = solved_bytes(v, v[n - 1].ty, v.len() as int);
        if !(v[n - 1].solved && bytes > dominant(v, n - 1).0) {
            if dominant(v, n).0 > 0 {
                let j = choose|j: int|
                    0 <= j < n - 1 && (#[trigger] v[j]).solved && dominant(v, n - 1) == (
                        solved_bytes(v, v[j].ty, v.len() as int),
                        type_mark(v[j].ty),
                    );
                assert(v[j].solved);
            }
        } else {
            assert(v[n - 1].solved);
        }
    }
}

/// The file type is that of a solved type that takes no fewer bytes than any
/// other, where the solved tensors take bytes at all.
pub proof fn file_type_is_the_dominant_one(v: Seq<PlanEntry>, i: int)
    requires
        0 <= i < v.len(),
        v[i].solved,
        v[i].bytes > 0,
    ensures
        exists|j: int|
            0 <= j < v.len() && (#[trigger] v[j]).solved && dominant(v, v.len() as int).1
                == type_mark(v[j].ty) && forall|k: int|
                0 <= k < v.len() && (#[trigger] v[k]).solved ==> solved_bytes(
                    v,
                    v[k].ty,
                    v.len() as int,
                ) <= solved_bytes(v, v[j].ty, v.len() as int),
{
    let n = v.len() as int;
    dominant_facts(v, n);
    solved_bytes_counts(v, i, n);
    let j = choose|j: int|
        0 <= j < n && (#[trigger] v[j]).solved && dominant(v, n) == (
            solved_bytes(v, v[j].ty, n),
            type_mark(v[j].ty),
        );
    assert(v[j].solved);
}

proof fn solved_bytes_counts(v: Seq<PlanEntry>, i: int, n: int)
    requires
        0 <= i < n <= v.len(),
        v[i].solved,
    ensures
        solved_bytes(v, v[i].ty, n) >= v[i].bytes,
    decreases n,
{
    if i < n - 1 {
        solved_bytes_counts(v, i, n - 1);
    }
}

/// The key is replaced or dropped in the output: the file type and the
/// quantization version are written anew, and the output is not split.
pub open spec fn dropped(key: Seq<char>) -> bool {
    key == "general.file_type"@ || key == "general.quantization_version"@ || begins(
        key,
        "split."@,
    )
}

/// The first `n` metadata without those that are dropped.
pub open spec fn kept_upto(kvs: Seq<(Seq<char>, Val)>, n: int) -> Seq<(Seq<char>, Val)>
    decreases n,
{
    if n <= 0 {
        seq![]
    } else if dropped(kvs[n - 1].0) {
        kept_upto(kvs, n - 1)
    } else {
        kept_upto(kvs, n - 1).push(kvs[n - 1])
    }
}

/// The metadata of the output: those of the source, the file type, and the
/// quantization version.
pub open spec fn output_kvs_of(kvs: Seq<(Seq<char>, Val)>, file_type: u32) -> Seq<
    (Seq<char>, Val),
> {
    kept_upto(kvs, kvs.len() as int).push(("general.file_type"@, Val::U32(file_type))).push(
        ("general.quantization_version"@, Val::U32(2)),
    )
}

/// The metadata of the output.
pub fn output_kvs(kvs: &[(String, Value)], file_type: u32) -> (r: Vec<(String, Value)>)
    ensures
        kv_views(r@) == output_kvs_of(kv_views(kvs@), file_type),
{
    let ghost all = kv_views(kvs@);
    let mut r: Vec<(String, Value)> = Vec::new();
    assert(kv_views(r@) =~= seq![]);
    let split = chars_of("split.");
    for i in 0..kvs.len()
        invariant
            all == kv_views(kvs@),
            split@ == "split."@,
            kv_views(r@) == kept_upto(all, i as int),
    {
        let (k, v) = &kvs[i];
        assert(all[i as int] == (k@, v@));
        let key = chars_of(k.as_str());
        let gone: bool = same_str(k.as_str(), "general.file_type") || same_str(
            k.as_str(),
            "general.quantization_version",
        ) || starts(key.as_slice(), split.as_slice());
        if !gone {
            let ghost before = r@;
            r.push((k.clone(), v.clone()));
            assert(kv_views(r@) =~= kv_views(before).push((k@, v@)));
        }
    }
    let ghost before = r@;
    r.push(("general.file_type".to_owned(), Value::U32(file_type)));
    r.push(("general.quantization_version".to_owned(), Value::U32(2)));
    assert(kv_views(r@) =~= kv_views(before).push(
        ("general.file_type"@, Val::U32(file_type)),
    ).push(("general.quantization_version"@, Val::U32(2))));
    r
}

/// Every key of the source that is not dropped keeps its values, in their order.
pub proof fn kept_keys_pass_through(kvs: Seq<(Seq<char>, Val)>, file_type: u32, key: Seq<char>)
    requires
        !dropped(key),
    ensures
        lookup(output_kvs_of(kvs, file_type), key) == lookup(kvs, key),
{
    let n = kvs.len() as int;
    kept_lookup(kvs, key, n);
    let k = kept_upto(kvs, n);
    lookup_push(k, ("general.file_type"@, Val::U32(file_type)), key);
    lookup_push(
        k.push(("general.file_type"@, Val::U32(file_type))),
        ("general.quantization_version"@, Val::U32(2)),
        key,
    );
    assert(kvs.subrange(0, n) =~= kvs);
}

/// The output is one file: it has no key of a split model.
pub proof fn output_is_not_split(kvs: Seq<(Seq<char>, Val)>, file_type: u32, key: Seq<char>)
    requires
        begins(key, "split."@),
    ensures
        lookup(output_kvs_of(kvs, file_type), key) is None,
{
    let n = kvs.len() as int;
    let k = kept_upto(kvs, n);
    let kv = ("general.file_type"@, Val::U32(file_type));
    dropped_lookup(kvs, key, n);
    lookup_push(k, kv, key);
    lookup_push(k.push(kv), ("general.quantization_version"@, Val::U32(2)), key);
    reveal_strlit("split.");
    reveal_strlit("general.file_type");
    reveal_strlit("general.quantization_version");
    assert(occurs_at(key, "split."@, 0));
    assert(key[0] == "split."@[0]);
}

/// The output names its file type and quantization version, whatever the source
/// names.
pub proof fn output_names_its_type(kvs: Seq<(Seq<char>, Val)>, file_type: u32)
    ensures
        lookup(output_kvs_of(kvs, file_type), "general.file_type"@) == Some(Val::U32(file_type)),
        lookup(output_kvs_of(kvs, file_type), "general.quantization_version"@) == Some(
            Val::U32(2),
        ),
{
    let n = kvs.len() as int;
    let k = kept_upto(kvs, n);
    let kv = ("general.file_type"@, Val::U32(file_type));
    let last = ("general.quantization_version"@, Val::U32(2));
    dropped_lookup(kvs, kv.0, n);
    dropped_lookup(kvs, last.0, n);
    lookup_push(k, kv, kv.0);
    lookup_push(k, kv, last.0);
    lookup_push(k.push(kv), last, kv.0);
    lookup_push(k.push(kv), last, last.0);
    reveal_strlit("general.file_type");
    reveal_strlit("general.quantization_version");
    assert(kv.0.len() != last.0.len());
}

proof fn dropped_lookup(kvs: Seq<(Seq<char>, Val)>, key: Seq<char>, n: int)
    requires
        dropped(key),
        0 <= n <= kvs.len(),
    ensures
        lookup(kept_upto(kvs, n), key) is None,
    decreases n,
{
    if n > 0 {
        dropped_lookup(kvs, key, n - 1);
        lookup_push(kept_upto(kvs, n - 1), kvs[n - 1], key);
    }
}

proof fn lookup_push(kvs: Seq<(Seq<char>, Val)>, kv: (Seq<char>, Val), key: Seq<char>)
    ensures
        lookup(kvs.push(kv), key) == (match lookup(kvs, key) {
            Some(v) => Some(v),
            None => if kv.0 == key {
                Some(kv.1)
            } else {
                None
            },
        }),
    decreases kvs.len(),
{
    reveal_with_fuel(lookup, 2);
    let all = kvs.push(kv);
    if kvs.len() == 0 {
        assert(all.subrange(1, 1) =~= seq![]);
    } else {
        let rest = kvs.subrange(1, kvs.len() as int);
        lookup_push(rest, kv, key);
        assert(all.subrange(1, all.len() as int) =~= rest.push(kv));
    }
}

proof fn kept_lookup(kvs: Seq<(Seq<char>, Val)>, key: Seq<char>, n: int)
    requires
        !dropped(key),
        0 <= n <= kvs.len(),
    ensures
        lookup(kept_upto(kvs, n), key) == lookup(
            kvs.subrange(0, n),
            key,
        ),
    decreases n,
{
    if n > 0 {
        kept_lookup(kvs, key, n - 1);
        let head = kvs.subrange(0, n - 1);
        assert(kvs.subrange(0, n) =~= head.push(kvs[n - 1]));
        lookup_push(head, kvs[n - 1], key);
        lookup_push(kept_upto(kvs, n - 1), kvs[n - 1], key);
    } else {
        assert(kvs.subrange(0, 0) =~= seq![]);
    }
}

/// The description of a tensor in the output, before it has a place.
pub open spec fn output_info(t: TensorSpec, ty: GgmlType) -> TensorSpec {
    TensorSpec { name: t.name, dims: t.dims, ty, offset: 0, shard: 0 }
}

/// The descriptions of the tensors in the output.
pub open spec fn output_infos_of(ts: Seq<TensorSpec>, entries: Seq<PlanEntry>) -> Seq<TensorSpec> {
    Seq::new(
        entries.len(),
        |i: int| output_info(ts[entries[i].tensor_idx as int], entries[i].ty),
    )
}

/// The descriptions of the tensors in the output.
pub fn output_infos(tensors: &[TensorInfo], entries: &[PlanEntry]) -> (r: Vec<TensorInfo>)
    requires
        forall|i: int|
            0 <= i < entries@.len() ==> (#[trigger] entries@[i]).tensor_idx < tensors@.len(),
    ensures
        tensor_views(r@) == output_infos_of(tensor_views(tensors@), entries@),
{
    let ghost ts = tensor_views(tensors@);
    let ghost all = output_infos_of(ts, entries@);
    let mut r: Vec<TensorInfo> = Vec::new();
    for i in 0..entries.len()
        invariant
            ts == tensor_views(tensors@),
            all == output_infos_of(ts, entries@),
            forall|i: int|
                0 <= i < entries@.len() ==> (#[trigger] entries@[i]).tensor_idx < tensors@.len(),
            tensor_views(r@) == all.subrange(0, i as int),
    {
        let e = &entries[i];
        assert(entries@[i as int].tensor_idx < tensors@.len());
        let t = tensors[e.tensor_idx].clone();
        assert(ts[e.tensor_idx as int] == t@);
        let info = TensorInfo { name: t.name, dims: t.dims, ty: e.ty, offset: 0, shard: 0 };
        let ghost before = r@;
        r.push(info);
        assert(tensor_views(r@) =~= tensor_views(before).push(info@));
        assert(all[i as int] == info@);
        assert(all.subrange(0, i + 1) =~= all.subrange(0, i as int).push(info@));
    }
    assert(all.subrange(0, entries@.len() as int) =~= all);
    r
}

/// Where the data of a tensor in the output come from.
#[derive(Debug, Clone, Copy, PartialEq, Eq, Structural)]
pub enum DataSource {
    /// The output of the pass before.
    Previous,
    /// The source model, as they are.
    Source,
    /// The source model, encoded anew.
    Encoded,
}

/// Where the data of entry `i` come from: a tensor whose type is unchanged is
/// copied from the pass before, or from the source.
pub open spec fn source_of(
    entries: Seq<PlanEntry>,
    i: int,
    own: GgmlType,
    before: Option<Seq<PlanEntry>>,
) -> DataSource {
    if before matches Some(b) && i < b.len() && b[i].ty == entries[i].ty {
        DataSource::Previous
    } else if entries[i].ty == own {
        DataSource::Source
    } else {
        DataSource::Encoded
    }
}

/// Where the data of entry `i` come from. `own` is the type of its tensor in the
/// source, and `before` the entries of the pass before.
pub fn data_source(
    entries: &[PlanEntry],
    i: usize,
    own: GgmlType,
    before: Option<&[PlanEntry]>,
) -> (r: DataSource)
    requires
        i < entries@.len(),
    ensures
        r == source_of(
            entries@,
            i as int,
            own,
            match before {
                Some(b) => Some(b@),
                None => None,
            },
        ),
{
    match before {
        Some(b) => {
            if i < b.len() && b[i].ty == entries[i].ty {
                return DataSource::Previous;
            }
        },
        None => {},
    }
    if entries[i].ty == own {
        DataSource::Source
    } else {
        DataSource::Encoded
    }
}

/// Every tensor with two or more dimensions whose name ends in ".weight" and whose
/// rows are of whole blocks of 32 is to be solved for, whatever its other
/// dimensions. Rows of whole blocks of 256 may have the types with blocks of that
/// length, those below four bits unless the tensor is the token embedding or the
/// output head; other rows may have the types with blocks of 32. Both may have Q8_0
/// and F16. No type is offered twice.
pub proof fn weight_matrices_are_solved(t: TensorSpec, ty: GgmlType)
    requires
        t.dims.len() >= 2,
        t.name.len() >= 7,
        t.name.subrange(t.name.len() - 7, t.name.len() as int) == ".weight"@,
        t.dims[0] % 32 == 0,
    ensures
        disposition_of(t) is Solve,
        ({
            let v = disposition_of(t)->Solve_0;
            let kept = t.name == "token_embd.weight"@ || t.name == "output.weight"@;
            &&& v.no_duplicates()
            &&& v.len() > 0
            &&& v.contains(ty) <==> {
                ||| ty == GgmlType::Q8_0
                ||| ty == GgmlType::F16
                ||| t.dims[0] % 256 == 0 && (ty == GgmlType::Iq4Xs || ty == GgmlType::Q4K || ty
                    == GgmlType::Q5K || ty == GgmlType::Q6K)
                ||| t.dims[0] % 256 == 0 && !kept && (ty == GgmlType::Iq2Xxs || ty
                    == GgmlType::Iq2Xs || ty == GgmlType::Iq2S || ty == GgmlType::Iq3Xxs || ty
                    == GgmlType::Iq3S)
                ||| t.dims[0] % 256 != 0 && (ty == GgmlType::Iq4Nl || ty == GgmlType::Q4_0 || ty
                    == GgmlType::Q4_1 || ty == GgmlType::Q5_0 || ty == GgmlType::Q5_1)
            }
        }),
{
    reveal_strlit(".weight");
    assert(ends(t.name, ".weight"@));
    let v = disposition_of(t)->Solve_0;
    assert(v == ladder(t.dims[0], sensitive(t)));
    assert forall|a: int, b: int| 0 <= a < v.len() && 0 <= b < v.len() && a != b implies v[a]
        != v[b] by {}
    if v.contains(ty) {
        let i = choose|i: int| 0 <= i < v.len() && v[i] == ty;
        assert(v[i] == ty);
    } else {
        assert forall|i: int| 0 <= i < v.len() implies #[trigger] v[i] != ty by {
            assert(v.contains(v[i]));
        }
        assert(v[0] != ty && v[1] != ty && v[2] != ty && v[3] != ty && v[4] != ty && v[5] != ty);
        if v.len() > 6 {
            assert(v[6] != ty);
        }
        if v.len() > 7 {
            assert(v[7] != ty && v[8] != ty && v[9] != ty && v[10] != ty);
        }
    }
}

/// Every other tensor is fixed: as F32 where it is stored as F32, F16 or BF16, and
/// as it is otherwise.
pub proof fn all_else_is_fixed(t: TensorSpec)
    requires
        t.dims.len() < 2 || t.name.len() < 7 || t.name.subrange(
            t.name.len() - 7,
            t.name.len() as int,
        ) != ".weight"@ || t.dims[0] % 32 != 0,
    ensures
        t.ty == GgmlType::F32 || t.ty == GgmlType::F16 || t.ty == GgmlType::Bf16
            ==> disposition_of(t) == DispositionSpec::Fixed(GgmlType::F32),
        t.ty != GgmlType::F32 && t.ty != GgmlType::F16 && t.ty != GgmlType::Bf16
            ==> disposition_of(t) == DispositionSpec::Fixed(t.ty),
{
    reveal_strlit(".weight");
}

/// Rows are sampled so that at most 128 are measured, and no more of them are left
/// out than that takes; an exact measure leaves none out.
pub proof fn samples_are_as_dense_as_allowed(n_rows: nat)
    requires
        n_rows > 0,
    ensures
        step_for(n_rows, true) == 1,
        128 * (step_for(n_rows, false) - 1) < n_rows <= 128 * step_for(n_rows, false),
{
}

/// A tensor stands, with its index, among the fixed ones or among those to solve, as
/// it is disposed of, and those stand in the order of the tensors.
pub proof fn tensors_are_divided_by_disposition(ts: Seq<TensorSpec>, i: int)
    requires
        0 <= i < ts.len() <= usize::MAX,
    ensures
        ({
            let (f, s) = (fixed_upto(ts, ts.len() as int), solve_upto(ts, ts.len() as int));
            &&& f.len() + s.len() == ts.len()
            &&& (match disposition_of(ts[i]) {
                DispositionSpec::Fixed(ty) => exists|k: int|
                    0 <= k < f.len() && #[trigger] f[k] == (i as usize, ty),
                DispositionSpec::Solve(v) => exists|k: int|
                    0 <= k < s.len() && #[trigger] s[k] == (i as usize, v),
            })
            &&& forall|a: int, b: int|
                0 <= a < b < f.len() ==> (#[trigger] f[a]).0 < (#[trigger] f[b]).0
            &&& forall|a: int, b: int|
                0 <= a < b < s.len() ==> (#[trigger] s[a]).0 < (#[trigger] s[b]).0
        }),
{
    let n = ts.len() as int;
    partition_is_complete(ts, n);
    fixed_facts(ts, n);
    solve_facts(ts, n);
    divided_has(ts, i, n);
}

proof fn divided_has(ts: Seq<TensorSpec>, i: int, n: int)
    requires
        0 <= i < n <= ts.len() <= usize::MAX,
    ensures
        match disposition_of(ts[i]) {
            DispositionSpec::Fixed(ty) => exists|k: int|
                0 <= k < fixed_upto(ts, n).len() && #[trigger] fixed_upto(ts, n)[k] == (
                    i as usize,
                    ty,
                ),
            DispositionSpec::Solve(v) => exists|k: int|
                0 <= k < solve_upto(ts, n).len() && #[trigger] solve_upto(ts, n)[k] == (
                    i as usize,
                    v,
                ),
        },
    decreases n,
{
    let (f, s) = (fixed_upto(ts, n), solve_upto(ts, n));
    let (g, z) = (fixed_upto(ts, n - 1), solve_upto(ts, n - 1));
    if i < n - 1 {
        divided_has(ts, i, n - 1);
        match disposition_of(ts[i]) {
            DispositionSpec::Fixed(ty) => {
                let k = choose|k: int| 0 <= k < g.len() && #[trigger] g[k] == (i as usize, ty);
                assert(f[k] == g[k]);
            },
            DispositionSpec::Solve(v) => {
                let k = choose|k: int| 0 <= k < z.len() && #[trigger] z[k] == (i as usize, v);
                assert(s[k] == z[k]);
            },
        }
    } else {
        match disposition_of(ts[i]) {
            DispositionSpec::Fixed(ty) => {
                assert(f[f.len() - 1] == (i as usize, ty));
            },
            DispositionSpec::Solve(v) => {
                assert(s[s.len() - 1] == (i as usize, v));
            },
        }
    }
}

/// A candidate has its type, the size of the tensor as that type, and the error that
/// was measured for it.
pub proof fn candidates_have_their_sizes(
    t: TensorSpec,
    v: Seq<GgmlType>,
    errs: Seq<u64>,
    i: int,
)
    requires
        0 <= i < v.len(),
        errs.len() == v.len(),
        t.size_as(v[i]) <= u64::MAX,
    ensures
        candidates_of(t, v, errs).len() == v.len(),
        candidates_of(t, v, errs)[i].ty == v[i],
        candidates_of(t, v, errs)[i].bytes == t.size_as(v[i]),
        candidates_of(t, v, errs)[i].err == errs[i],
{
}

/// The tensors that cannot be planned: the first one is named that has no size as
/// the type that is fixed for it or as one of those to choose from.
pub proof fn the_first_unsized_tensor_is_named(ts: Seq<TensorSpec>)
    ensures
        match first_unplannable(ts, 0) {
            Some(i) => {
                &&& 0 <= i < ts.len()
                &&& !(match disposition_of(ts[i]) {
                    DispositionSpec::Fixed(ty) => ts[i].sized_as(ty),
                    DispositionSpec::Solve(v) => forall|k: int|
                        0 <= k < v.len() ==> ts[i].sized_as(#[trigger] v[k]),
                })
                &&& forall|j: int| 0 <= j < i ==> plannable(#[trigger] ts[j])
            },
            None => forall|j: int| 0 <= j < ts.len() ==> plannable(#[trigger] ts[j]),
        },
        forall|j: int|
            0 <= j < ts.len() && plannable(#[trigger] ts[j]) ==> (match disposition_of(ts[j]) {
                DispositionSpec::Fixed(ty) => ts[j].sized_as(ty),
                DispositionSpec::Solve(v) => forall|k: int|
                    0 <= k < v.len() ==> ts[j].sized_as(#[trigger] v[k]),
            }),
{
    first_unplannable_facts(ts, 0);
    if let Some(i) = first_unplannable(ts, 0) {
        match disposition_of(ts[i]) {
            DispositionSpec::Fixed(_) => {},
            DispositionSpec::Solve(v) => {
                assert(!sized_as_all(ts[i], v));
            },
        }
    }
    assert forall|j: int| 0 <= j < ts.len() && plannable(#[trigger] ts[j]) implies (
    match disposition_of(ts[j]) {
        DispositionSpec::Fixed(ty) => ts[j].sized_as(ty),
        DispositionSpec::Solve(v) => forall|k: int|
            0 <= k < v.len() ==> ts[j].sized_as(#[trigger] v[k]),
    }) by {
        match disposition_of(ts[j]) {
            DispositionSpec::Fixed(_) => {},
            DispositionSpec::Solve(v) => {
                assert(sized_as_all(ts[j], v));
            },
        }
    }
}

proof fn first_unplannable_facts(ts: Seq<TensorSpec>, i: int)
    requires
        0 <= i,
    ensures
        match first_unplannable(ts, i) {
            Some(k) => i <= k < ts.len() && !plannable(ts[k]) && forall|j: int|
                i <= j < k ==> plannable(#[trigger] ts[j]),
            None => forall|j: int| i <= j < ts.len() ==> plannable(#[trigger] ts[j]),
        },
    decreases ts.len() - i,
{
    if i < ts.len() {
        first_unplannable_facts(ts, i + 1);
    }
}

/// What the weights may take after a measurement is the memory without what was
/// measured, the reserve and the fixed tensors; a byte more of any of these is a byte
/// less for the weights.
pub proof fn measured_needs_are_taken_off(
    budget: Budget,
    kv: u64,
    compute: u64,
    reserve: u64,
    fixed_bytes: u64,
)
    ensures
        measured_room(budget, kv, compute, reserve, fixed_bytes) + kv + compute + reserve
            + fixed_bytes == budget.usable_vram,
{
}

/// The tensors that change are counted one by one: those whose types differ.
pub proof fn changes_are_counted(a: Seq<PlanEntry>, b: Seq<PlanEntry>, n: int)
    requires
        0 <= n,
    ensures
        changed_upto(a, b, 0) == 0,
        changed_upto(a, b, n + 1) - changed_upto(a, b, n) == (if a[n].ty == b[n].ty {
            0int
        } else {
            1
        }),
{
}

/// The numbers under which readers know the types of a file.
pub proof fn file_types_have_their_numbers()
    ensures
        type_mark(GgmlType::F16) == 1,
        type_mark(GgmlType::Q4_0) == 2,
        type_mark(GgmlType::Q4_1) == 3,
        type_mark(GgmlType::Q8_0) == 7,
        type_mark(GgmlType::Q5_0) == 8,
        type_mark(GgmlType::Q5_1) == 9,
        type_mark(GgmlType::Q4K) == 15,
        type_mark(GgmlType::Q5K) == 17,
        type_mark(GgmlType::Q6K) == 18,
        type_mark(GgmlType::Iq2Xxs) == 19,
        type_mark(GgmlType::Iq2Xs) == 20,
        type_mark(GgmlType::Iq3Xxs) == 23,
        type_mark(GgmlType::Iq4Nl) == 25,
        type_mark(GgmlType::Iq3S) == 26,
        type_mark(GgmlType::Iq2S) == 28,
        type_mark(GgmlType::Iq4Xs) == 30,
{
}

/// The bytes that a type takes are those of the solved tensors of that type: a
/// further tensor adds its bytes to its type and to no other, if it was solved.
pub proof fn solved_bytes_add_up(v: Seq<PlanEntry>, ty: GgmlType, n: int)
    requires
        0 <= n,
    ensures
        solved_bytes(v, ty, 0) == 0,
        solved_bytes(v, ty, n + 1) - solved_bytes(v, ty, n) == (if v[n].solved && v[n].ty == ty {
            v[n].bytes as int
        } else {
            0
        }),
{
}

/// All metadata of the source are in the output, under the same keys, but for the
/// file type, the quantization version and the keys of a split model.
pub proof fn metadata_are_preserved(kvs: Seq<(Seq<char>, Val)>, file_type: u32, key: Seq<char>)
    requires
        key != "general.file_type"@,
        key != "general.quantization_version"@,
        key.len() < 6 || key.subrange(0, 6) != "split."@,
    ensures
        lookup(output_kvs_of(kvs, file_type), key) == lookup(kvs, key),
{
    reveal_strlit("split.");
    assert(!begins(key, "split."@));
    kept_keys_pass_through(kvs, file_type, key);
}

/// Every tensor of the output has the name and the dimensions of its source and the
/// planned type.
pub proof fn output_tensors_keep_their_shape(
    ts: Seq<TensorSpec>,
    entries: Seq<PlanEntry>,
    i: int,
)
    requires
        0 <= i < entries.len(),
        entries[i].tensor_idx < ts.len(),
    ensures
        output_infos_of(ts, entries).len() == entries.len(),
        output_infos_of(ts, entries)[i].name == ts[entries[i].tensor_idx as int].name,
        output_infos_of(ts, entries)[i].dims == ts[entries[i].tensor_idx as int].dims,
        output_infos_of(ts, entries)[i].ty == entries[i].ty,
{
}

/// Data are copied only where they have the planned type already, in the output of
/// the pass before or in the source; they are encoded only where neither has it.
pub proof fn copied_data_have_the_planned_type(
    entries: Seq<PlanEntry>,
    i: int,
    own: GgmlType,
    before: Option<Seq<PlanEntry>>,
)
    requires
        0 <= i < entries.len(),
    ensures
        match source_of(entries, i, own, before) {
            DataSource::Previous => before matches Some(b) && i < b.len() && b[i].ty
                == entries[i].ty,
            DataSource::Source => own == entries[i].ty && !(before matches Some(b) && i < b.len()
                && b[i].ty == entries[i].ty),
            DataSource::Encoded => own != entries[i].ty && !(before matches Some(b) && i < b.len()
                && b[i].ty == entries[i].ty),
        },
{
}

/// A plan is feasible if the fixed tensors leave something of the weight budget, and the
/// smallest candidates of all others together are no more than what they leave.
pub proof fn plans_are_feasible_up_to_the_budget(p: Plan)
    ensures
        ({
            let least = Seq::new(
                p.choices@.len(),
                |i: int| p.choices@[i].cands@[0].bytes as int,
            ).fold_left(0int, |a: int, b: int| a + b);
            let left = p.budget.model_budget - p.fixed_bytes;
            p.feasible() <==> left > 0 && least <= left
        }),
{
    let cs = menu(p.choices@);
    crate::solver::sizes_and_errors_are_sums(cs, smallest(cs));
    assert(Seq::new(cs.len(), |i: int| cs[i][0].bytes as int) =~= Seq::new(
        p.choices@.len(),
        |i: int| p.choices@[i].cands@[0].bytes as int,
    ));
}

/// Measured needs are borne if they and the fixed tensors leave something of the memory
/// that can be used, and the smallest candidates of all others are no more than that.
pub proof fn measured_needs_are_borne_up_to_the_memory(
    p: Plan,
    kv: u64,
    compute: u64,
    reserve: u64,
)
    ensures
        ({
            let least = Seq::new(
                p.choices@.len(),
                |i: int| p.choices@[i].cands@[0].bytes as int,
            ).fold_left(0int, |a: int, b: int| a + b);
            let left = p.budget.usable_vram - kv - compute - reserve - p.fixed_bytes;
            p.bears(kv, compute, reserve) <==> left > 0 && least <= left
        }),
{
    let cs = menu(p.choices@);
    crate::solver::sizes_and_errors_are_sums(cs, smallest(cs));
    assert(Seq::new(cs.len(), |i: int| cs[i][0].bytes as int) =~= Seq::new(
        p.choices@.len(),
        |i: int| p.choices@[i].cands@[0].bytes as int,
    ));
}

} // verus!
