//! How much memory a model's weights may take: the model's dimensions, the
//! size of the KV cache, and what is left of the memory.

use vstd::prelude::*;

use crate::ggml_type::GgmlType;
use crate::gguf::{find_kv, kv_views, lookup, Value};
use crate::text::{push_text, same_str};
use crate::value::{array_view, Val};

verus! {

/// The dimensions of a model that its memory needs depend on.
#[derive(Debug, PartialEq, Eq)]
pub struct Hyper {
    pub arch: String,
    pub n_layer: u64,
    pub n_kv_head: u64,
    pub key_len: u64,
    pub val_len: u64,
    pub n_embd: u64,
    pub n_vocab: u64,
}

/// What dimensions are.
pub ghost struct HyperSpec {
    pub arch: Seq<char>,
    pub n_layer: u64,
    pub n_kv_head: u64,
    pub key_len: u64,
    pub val_len: u64,
    pub n_embd: u64,
    pub n_vocab: u64,
}

impl View for Hyper {
    type V = HyperSpec;

    open spec fn view(&self) -> HyperSpec {
        HyperSpec {
            arch: self.arch@,
            n_layer: self.n_layer,
            n_kv_head: self.n_kv_head,
            key_len: self.key_len,
            val_len: self.val_len,
            n_embd: self.n_embd,
            n_vocab: self.n_vocab,
        }
    }
}

/// What a model's metadata lack.
#[derive(Debug, Clone, Copy, PartialEq, Eq, Structural)]
pub enum HyperError {
    MissingArchitecture,
    MissingBlockCount,
}

/// The number under `<arch>.<key>`.
pub open spec fn arch_number(
    kvs: Seq<(Seq<char>, Val)>,
    arch: Seq<char>,
    key: Seq<char>,
) -> Option<u64> {
    match lookup(kvs, arch + "."@ + key) {
        Some(v) => v.unsigned(),
        None => None,
    }
}

/// The number, or another where there is none.
pub open spec fn or_else(n: Option<u64>, other: u64) -> u64 {
    match n {
        Some(v) => v,
        None => other,
    }
}

/// The number of attention heads: one, where it is not given or zero.
pub open spec fn head_count(kvs: Seq<(Seq<char>, Val)>, arch: Seq<char>) -> u64 {
    let n = or_else(arch_number(kvs, arch, "attention.head_count"@), 1);
    if n > 1 {
        n
    } else {
        1
    }
}

/// The number of tokens: as given, or the length of the token list, or a
/// common one.
pub open spec fn vocabulary(kvs: Seq<(Seq<char>, Val)>, arch: Seq<char>) -> u64 {
    match arch_number(kvs, arch, "vocab_size"@) {
        Some(n) => n,
        None => match lookup(kvs, "tokenizer.ggml.tokens"@) {
            Some(Val::Arr(_, vs)) => vs.len() as u64,
            _ => 32000,
        },
    }
}

/// The dimensions in a model's metadata.
pub open spec fn hyper_of(kvs: Seq<(Seq<char>, Val)>) -> Result<HyperSpec, HyperError> {
    match lookup(kvs, "general.architecture"@) {
        Some(Val::Str(arch)) => match arch_number(kvs, arch, "block_count"@) {
            None => Err(HyperError::MissingBlockCount),
            Some(n_layer) => {
                let n_embd = or_else(arch_number(kvs, arch, "embedding_length"@), 0);
                let n_head = head_count(kvs, arch);
                let key_len = or_else(
                    arch_number(kvs, arch, "attention.key_length"@),
                    n_embd / n_head,
                );
                Ok(
                    HyperSpec {
                        arch,
                        n_layer,
                        n_kv_head: or_else(
                            arch_number(kvs, arch, "attention.head_count_kv"@),
                            n_head,
                        ),
                        key_len,
                        val_len: or_else(
                            arch_number(kvs, arch, "attention.value_length"@),
                            key_len,
                        ),
                        n_embd,
                        n_vocab: vocabulary(kvs, arch),
                    },
                )
            },
        },
        _ => Err(HyperError::MissingArchitecture),
    }
}

fn get_number(kvs: &[(String, Value)], arch: &str, key: &str) -> (r: Option<u64>)
    ensures
        r == arch_number(kv_views(kvs@), arch@, key@),
{
    let mut full = String::new();
    push_text(&mut full, arch);
    push_text(&mut full, ".");
    push_text(&mut full, key);
    assert(full@ =~= arch@ + "."@ + key@);
    match find_kv(kvs, full.as_str()) {
        Some(v) => v.as_u64(),
        None => None,
    }
}

fn choose_number(n: Option<u64>, other: u64) -> (r: u64)
    ensures
        r == or_else(n, other),
{
    match n {
        Some(v) => v,
        None => other,
    }
}

/// Reads the dimensions from a model's metadata.
pub fn hyperparams(kvs: &[(String, Value)]) -> (r: Result<Hyper, HyperError>)
    ensures
        match (r, hyper_of(kv_views(kvs@))) {
            (Ok(h), Ok(s)) => h@ == s,
            (Err(e), Err(f)) => e == f,
            _ => false,
        },
{
    let arch: String = match find_kv(kvs, "general.architecture") {
        Some(v) => match v.as_str() {
            Some(s) => s.to_owned(),
            None => {
                return Err(HyperError::MissingArchitecture);
            },
        },
        None => {
            return Err(HyperError::MissingArchitecture);
        },
    };
    let a = arch.as_str();
    let n_layer: u64 = match get_number(kvs, a, "block_count") {
        Some(n) => n,
        None => {
            return Err(HyperError::MissingBlockCount);
        },
    };
    let n_embd = choose_number(get_number(kvs, a, "embedding_length"), 0);
    let given = choose_number(get_number(kvs, a, "attention.head_count"), 1);
    let n_head: u64 = if given > 1 {
        given
    } else {
        1
    };
    let n_kv_head = choose_number(get_number(kvs, a, "attention.head_count_kv"), n_head);
    let key_len = choose_number(get_number(kvs, a, "attention.key_length"), n_embd / n_head);
    let val_len = choose_number(get_number(kvs, a, "attention.value_length"), key_len);
    let n_vocab: u64 = match get_number(kvs, a, "vocab_size") {
        Some(n) => n,
        None => match find_kv(kvs, "tokenizer.ggml.tokens") {
            Some(Value::Arr(t, vs)) => {
                proof {
                    array_view(*t, *vs);
                }
                vs.len() as u64
            },
            _ => 32000,
        },
    };
    Ok(Hyper { arch, n_layer, n_kv_head, key_len, val_len, n_embd, n_vocab })
}

/// The bytes that 32 elements of the KV cache take as type `kv`.
pub open spec fn kv_unit(kv: Seq<char>) -> Option<nat> {
    if kv == "f16"@ {
        Some(64)
    } else if kv == "q8_0"@ {
        Some(34)
    } else if kv == "q4_0"@ {
        Some(18)
    } else {
        None
    }
}

/// The bytes that 32 elements of the KV cache take; `None` for a type that the
/// cache cannot have.
pub fn kv_bytes_per_32(kv: &str) -> (r: Option<u64>)
    ensures
        match (r, kv_unit(kv@)) {
            (Some(n), Some(m)) => n == m && n <= 64,
            (None, None) => true,
            _ => false,
        },
{
    if same_str(kv, "f16") {
        Some(64)
    } else if same_str(kv, "q8_0") {
        Some(34)
    } else if same_str(kv, "q4_0") {
        Some(18)
    } else {
        None
    }
}

/// The size of the KV cache for `ctx` tokens.
pub open spec fn kv_size(h: HyperSpec, ctx: nat, unit: nat) -> nat {
    (h.n_layer as nat * ctx * h.n_kv_head as nat * (h.key_len + h.val_len) as nat * unit / 32)
}

/// The tokens that are processed at a time.
pub open spec fn batch(ctx: nat) -> nat {
    if ctx < 512 {
        ctx
    } else {
        512
    }
}

/// The estimated size of the compute buffers.
pub open spec fn compute_size(h: HyperSpec, ctx: nat) -> nat {
    batch(ctx) * h.n_vocab as nat * 4 + batch(ctx) * h.n_embd as nat * 32
}

/// A number, or the largest that fits in 64 bits.
pub open spec fn capped(n: nat) -> u64 {
    if n <= u64::MAX {
        n as u64
    } else {
        u64::MAX
    }
}

/// How the memory is divided.
#[derive(Debug, Clone, Copy, PartialEq, Eq, Structural)]
pub struct Budget {
    pub usable_vram: u64,
    pub kv_bytes: u64,
    pub compute_bytes: u64,
    pub reserve: u64,
    pub model_budget: u64,
}

impl Budget {
    /// The parts make up the memory.
    pub open spec fn adds_up(self) -> bool {
        self.kv_bytes + self.compute_bytes + self.reserve + self.model_budget == self.usable_vram
    }
}

/// The memory leaves no room for weights. The sizes stop at the largest number
/// that fits in 64 bits.
#[derive(Debug, Clone, Copy, PartialEq, Eq, Structural)]
pub struct NoRoom {
    pub kv_bytes: u64,
    pub compute_bytes: u64,
}

/// Divides the memory: what the KV cache, the compute buffers and the reserve
/// leave is for the weights.
pub open spec fn budget_of(
    h: HyperSpec,
    usable: u64,
    ctx: u64,
    unit: nat,
    reserve: u64,
) -> Result<Budget, NoRoom> {
    let kv = kv_size(h, ctx as nat, unit);
    let compute = compute_size(h, ctx as nat);
    if kv + compute + reserve >= usable {
        Err(NoRoom { kv_bytes: capped(kv), compute_bytes: capped(compute) })
    } else {
        Ok(
            Budget {
                usable_vram: usable,
                kv_bytes: kv as u64,
                compute_bytes: compute as u64,
                reserve,
                model_budget: (usable - kv - compute - reserve) as u64,
            },
        )
    }
}

/// The product, or the largest number that fits where it does not.
fn capped_mul(a: u128, b: u128) -> (r: u128)
    ensures
        r as nat == (if a as nat * b as nat <= u128::MAX {
            a as nat * b as nat
        } else {
            u128::MAX as nat
        }),
{
    match a.checked_mul(b) {
        Some(p) => p,
        None => u128::MAX,
    }
}

spec fn capped_at(n: nat) -> nat {
    if n <= u128::MAX {
        n
    } else {
        u128::MAX as nat
    }
}

proof fn capped_product(p: nat, b: nat)
    ensures
        capped_at(capped_at(p) * b) == capped_at(p * b),
{
    if p > u128::MAX {
        if b == 0 {
            assert(p * b == 0 && capped_at(p) * b == 0) by (nonlinear_arith)
                requires
                    b == 0,
            ;
        } else {
            let m = u128::MAX as nat;
            assert(p * b >= p && m * b >= m) by (nonlinear_arith)
                requires
                    b >= 1,
            ;
        }
    }
}

fn kv_total(h: &Hyper, ctx: u64, unit: u64) -> (r: u64)
    requires
        unit <= 64,
    ensures
        r == capped(kv_size(h@, ctx as nat, unit as nat)),
{
    let sum: u128 = h.key_len as u128 + h.val_len as u128;
    let a: u128 = capped_mul(h.n_layer as u128, ctx as u128);
    let b: u128 = capped_mul(a, h.n_kv_head as u128);
    let c: u128 = capped_mul(b, sum);
    let d: u128 = capped_mul(c, unit as u128);
    proof {
        let p1 = h.n_layer as nat * ctx as nat;
        let p2 = p1 * h.n_kv_head as nat;
        let p3 = p2 * (h.key_len + h.val_len) as nat;
        let p4 = p3 * unit as nat;
        capped_product(p1, h.n_kv_head as nat);
        capped_product(p2, (h.key_len + h.val_len) as nat);
        capped_product(p3, unit as nat);
        assert(d as nat == capped_at(p4));
    }
    let q: u128 = d / 32;
    if q <= u64::MAX as u128 {
        q as u64
    } else {
        u64::MAX
    }
}

fn compute_total(h: &Hyper, ctx: u64) -> (r: u128)
    ensures
        r == compute_size(h@, ctx as nat),
        r <= 0x1_0000_0000_0000_0000_0000,
{
    let ubatch: u128 = if ctx < 512 {
        ctx as u128
    } else {
        512
    };
    let v: u128 = h.n_vocab as u128;
    let e: u128 = h.n_embd as u128;
    assert(ubatch * v <= 512 * 0xffff_ffff_ffff_ffff) by (nonlinear_arith)
        requires
            ubatch <= 512,
            v <= 0xffff_ffff_ffff_ffff,
    ;
    assert(ubatch * e <= 512 * 0xffff_ffff_ffff_ffff) by (nonlinear_arith)
        requires
            ubatch <= 512,
            e <= 0xffff_ffff_ffff_ffff,
    ;
    ubatch * v * 4 + ubatch * e * 32
}

/// Divides the memory.
pub fn compute_budget(h: &Hyper, usable: u64, ctx: u64, kv_unit: u64, reserve: u64) -> (r: Result<
    Budget,
    NoRoom,
>)
    requires
        kv_unit <= 64,
    ensures
        r == budget_of(h@, usable, ctx, kv_unit as nat, reserve),
{
    let kv = kv_total(h, ctx, kv_unit);
    let compute = compute_total(h, ctx);
    let overhead: u128 = kv as u128 + compute + reserve as u128;
    if overhead >= usable as u128 {
        let compute_bytes: u64 = if compute <= u64::MAX as u128 {
            compute as u64
        } else {
            u64::MAX
        };
        return Err(NoRoom { kv_bytes: kv, compute_bytes });
    }
    Ok(
        Budget {
            usable_vram: usable,
            kv_bytes: kv,
            compute_bytes: compute as u64,
            reserve,
            model_budget: usable - overhead as u64,
        },
    )
}

/// The parts of a budget make up the memory.
pub proof fn budget_adds_up(h: HyperSpec, usable: u64, ctx: u64, unit: nat, reserve: u64)
    ensures
        budget_of(h, usable, ctx, unit, reserve) matches Ok(b) ==> {
            &&& b.adds_up()
            &&& b.usable_vram == usable
            &&& b.model_budget > 0
        },
{
}

/// A longer context never leaves more for the weights.
pub proof fn longer_context_leaves_less(
    h: HyperSpec,
    usable: u64,
    ctx: u64,
    longer: u64,
    unit: nat,
    reserve: u64,
)
    requires
        ctx <= longer,
    ensures
        budget_of(h, usable, longer, unit, reserve) matches Ok(b) ==> (budget_of(
            h,
            usable,
            ctx,
            unit,
            reserve,
        ) matches Ok(c) && c.model_budget >= b.model_budget),
{
    let (l, a, k, s) = (
        h.n_layer as nat,
        h.n_kv_head as nat,
        (h.key_len + h.val_len) as nat,
        unit,
    );
    let (x, y) = (ctx as nat, longer as nat);
    assert(l * x * a * k * s <= l * y * a * k * s) by {
        assert(l * x <= l * y) by (nonlinear_arith)
            requires
                x <= y,
        ;
        assert((l * x) * a <= (l * y) * a) by (nonlinear_arith)
            requires
                l * x <= l * y,
        ;
        assert((l * x * a) * k <= (l * y * a) * k) by (nonlinear_arith)
            requires
                l * x * a <= l * y * a,
        ;
        assert((l * x * a * k) * s <= (l * y * a * k) * s) by (nonlinear_arith)
            requires
                l * x * a * k <= l * y * a * k,
        ;
    }
    let (p, q) = (batch(x), batch(y));
    let (v, e) = (h.n_vocab as nat, h.n_embd as nat);
    assert(p * v <= q * v && p * e <= q * e) by (nonlinear_arith)
        requires
            p <= q,
    ;
}

/// The part of a machine's memory that its GPU may use.
pub open spec fn gpu_share(ram: nat) -> nat {
    ram * 74 / 100
}

/// The part of a machine's memory that its GPU may use, as macOS sets it: 74 of
/// 100.
pub fn working_set(ram: u64) -> (r: u64)
    ensures
        r as nat == gpu_share(ram as nat),
        r as nat == ram as nat * 74 / 100,
{
    (ram as u128 * 74 / 100) as u64
}

/// The safety margin where none is given.
pub open spec fn margin(calibrate: bool) -> nat {
    if calibrate {
        160 * 1024 * 1024
    } else {
        512 * 1024 * 1024
    }
}

/// The safety margin where none is given: smaller where the model is calibrated.
pub fn default_reserve(calibrate: bool) -> (r: u64)
    ensures
        r == margin(calibrate),
        r == (if calibrate {
            160 * 1024 * 1024
        } else {
            512 * 1024 * 1024
        }),
{
    if calibrate {
        167_772_160
    } else {
        536_870_912
    }
}

/// The KV cache of a context takes, to the byte, what its elements take: for every
/// layer, token and KV head a key and a value, at `unit` bytes per 32 elements. The
/// compute buffers take four bytes per vocabulary entry and 32 per embedding
/// element for every token of a batch, which is of 512 tokens at most. What these
/// and the reserve leave of the memory is for the weights, and where they leave
/// nothing there is no budget.
pub proof fn memory_is_divided_exactly(
    h: HyperSpec,
    usable: u64,
    ctx: u64,
    unit: nat,
    reserve: u64,
    kv: nat,
    compute: nat,
)
    requires
        32 * kv <= h.n_layer * ctx * h.n_kv_head * (h.key_len + h.val_len) * unit < 32 * kv + 32,
        ctx <= 512 ==> compute == 4 * (ctx * h.n_vocab) + 32 * (ctx * h.n_embd),
        ctx >= 512 ==> compute == 4 * (512 * h.n_vocab) + 32 * (512 * h.n_embd),
    ensures
        match budget_of(h, usable, ctx, unit, reserve) {
            Ok(b) => {
                &&& kv + compute + reserve < usable
                &&& b.kv_bytes == kv
                &&& b.compute_bytes == compute
                &&& b.reserve == reserve
                &&& b.usable_vram == usable
                &&& b.model_budget == usable - kv - compute - reserve
            },
            Err(e) => {
                &&& kv + compute + reserve >= usable
                &&& kv <= u64::MAX ==> e.kv_bytes == kv
                &&& kv > u64::MAX ==> e.kv_bytes == u64::MAX
                &&& compute <= u64::MAX ==> e.compute_bytes == compute
                &&& compute > u64::MAX ==> e.compute_bytes == u64::MAX
            },
        },
{
    let total = h.n_layer as nat * ctx as nat * h.n_kv_head as nat * (h.key_len + h.val_len) as nat
        * unit;
    assert(total / 32 == kv);
    assert(kv_size(h, ctx as nat, unit) == kv);
    let (u, v, e) = (batch(ctx as nat), h.n_vocab as nat, h.n_embd as nat);
    assert(u * v * 4 == 4 * (u * v) && u * e * 32 == 32 * (u * e));
    assert(compute_size(h, ctx as nat) == compute);
}

/// The KV cache grows with the context at one rate: that of twice the context is
/// twice that of the context, up to a byte that is not filled, and a longer context
/// needs more wherever a token takes a byte or more.
pub proof fn kv_cache_grows_at_one_rate(
    h: HyperSpec,
    usable: u64,
    ctx: u64,
    longer: u64,
    unit: nat,
    reserve: u64,
)
    requires
        ctx < longer,
        budget_of(h, usable, longer, unit, reserve) is Ok,
    ensures
        budget_of(h, usable, ctx, unit, reserve) is Ok,
        ({
            let a = budget_of(h, usable, ctx, unit, reserve)->Ok_0.kv_bytes;
            let b = budget_of(h, usable, longer, unit, reserve)->Ok_0.kv_bytes;
            let per_token = h.n_layer * (h.n_kv_head * (h.key_len + h.val_len)) * unit;
            &&& longer == 2 * ctx ==> 2 * a <= b <= 2 * a + 1
            &&& 32 * (b - a) < (longer - ctx) * per_token + 32
            &&& 32 * (b - a) > (longer - ctx) * per_token - 32
            &&& per_token >= 32 ==> b > a
        }),
{
    longer_context_leaves_less(h, usable, ctx, longer, unit, reserve);
    let (l, k, s) = (h.n_layer as int, h.n_kv_head as int, (h.key_len + h.val_len) as int);
    let (x, y, u) = (ctx as int, longer as int, unit as int);
    let p = l * (k * s) * u;
    assert(l * x * k * s * u == x * p) by (nonlinear_arith)
        requires
            p == l * (k * s) * u,
    ;
    assert(l * y * k * s * u == y * p) by (nonlinear_arith)
        requires
            p == l * (k * s) * u,
    ;
    assert(y * p - x * p == (y - x) * p) by (nonlinear_arith);
    assert(0 <= p) by (nonlinear_arith)
        requires
            p == l * (k * s) * u,
            0 <= l,
            0 <= k,
            0 <= s,
            0 <= u,
    ;
    if p >= 32 {
        assert((y - x) * p >= 32) by (nonlinear_arith)
            requires
                y - x >= 1,
                p >= 32,
        ;
        assert(y * p >= x * p + 32);
    }
    if y == 2 * x {
        assert((2 * x) * p == 2 * (x * p)) by (nonlinear_arith);
    }
    let (i, j) = (kv_size(h, ctx as nat, unit), kv_size(h, longer as nat, unit));
    assert(i == (x * p) / 32 && j == (y * p) / 32);
    assert(i <= j);
}

/// An element of the cache takes what one of the type of that name takes.
pub proof fn cache_types_have_their_sizes(kv: Seq<char>)
    ensures
        kv_unit("f16"@) == Some(GgmlType::F16.row_size(32)),
        kv_unit("q8_0"@) == Some(GgmlType::Q8_0.row_size(32)),
        kv_unit("q4_0"@) == Some(GgmlType::Q4_0.row_size(32)),
        kv != "f16"@ && kv != "q8_0"@ && kv != "q4_0"@ ==> kv_unit(kv) is None,
{
    reveal_strlit("f16");
    reveal_strlit("q8_0");
    reveal_strlit("q4_0");
    assert("f16"@.len() == 3 && "q8_0"@.len() == 4 && "q4_0"@.len() == 4);
    assert("q8_0"@[1] == '8' && "q4_0"@[1] == '4');
}

/// Each dimension is read from the key of the model's architecture that names it;
/// where that is missing, or is no whole number, another dimension or a common value
/// stands in.
pub proof fn dimensions_come_from_their_keys(kvs: Seq<(Seq<char>, Val)>)
    ensures
        hyper_of(kvs) matches Ok(h) ==> {
            let number = |key: Seq<char>| -> Option<u64> {
                match lookup(kvs, h.arch + "."@ + key) {
                    Some(v) => v.unsigned(),
                    None => None,
                }
            };
            &&& lookup(kvs, "general.architecture"@) == Some(Val::Str(h.arch))
            &&& number("block_count"@) == Some(h.n_layer)
            &&& (match number("embedding_length"@) {
                Some(n) => h.n_embd == n,
                None => h.n_embd == 0,
            })
            &&& (match (number("attention.head_count_kv"@), number("attention.head_count"@)) {
                (Some(n), _) => h.n_kv_head == n,
                (None, Some(n)) => h.n_kv_head == n || (n == 0 && h.n_kv_head == 1),
                (None, None) => h.n_kv_head == 1,
            })
            &&& (match (number("attention.key_length"@), number("attention.head_count"@)) {
                (Some(n), _) => h.key_len == n,
                (None, Some(n)) => if n > 0 {
                    n * h.key_len <= h.n_embd < n * h.key_len + n
                } else {
                    h.key_len == h.n_embd
                },
                (None, None) => h.key_len == h.n_embd,
            })
            &&& (match number("attention.value_length"@) {
                Some(n) => h.val_len == n,
                None => h.val_len == h.key_len,
            })
            &&& (match (number("vocab_size"@), lookup(kvs, "tokenizer.ggml.tokens"@)) {
                (Some(n), _) => h.n_vocab == n,
                (None, Some(Val::Arr(_, vs))) => h.n_vocab == vs.len() as u64,
                (None, _) => h.n_vocab == 32000,
            })
        },
        hyper_of(kvs) is Err <==> !(lookup(kvs, "general.architecture"@) matches Some(
            Val::Str(arch),
        ) && (lookup(kvs, arch + "."@ + "block_count"@) matches Some(v) && v.unsigned() is Some)),
{
    if let Ok(h) = hyper_of(kvs) {
        let (e, n, k) = (h.n_embd as int, head_count(kvs, h.arch) as int, h.key_len as int);
        vstd::arithmetic::div_mod::lemma_fundamental_div_mod(e, n);
        vstd::arithmetic::div_mod::lemma_mod_bound(e, n);
        if n == 1 {
            assert(e / 1 == e);
        }
    }
}

/// The GPU may use 74 hundredths of the memory, rounded down.
pub proof fn gpus_share_the_memory(ram: nat)
    ensures
        100 * gpu_share(ram) <= 74 * ram < 100 * gpu_share(ram) + 100,
{
}

/// Without calibration the margin is half a gibibyte; with it, five sixteenths of that.
pub proof fn calibration_narrows_the_margin()
    ensures
        2 * margin(false) == 0x4000_0000,
        16 * margin(true) == 5 * margin(false),
{
}

} // verus!
