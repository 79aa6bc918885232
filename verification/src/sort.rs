//! Stable sorting by integer keys, as a permutation of indices.

use vstd::prelude::*;

verus! {

/// How many of the first `n` indices in `o` have a key at most `key`, counted up
/// to the first that has a greater one.
pub open spec fn rank_of(keys: Seq<u64>, o: Seq<usize>, key: u64, n: int) -> int
    decreases o.len() - n,
{
    if n >= o.len() || keys[o[n] as int] > key {
        n
    } else {
        rank_of(keys, o, key, n + 1)
    }
}

/// The indices of the first `n` keys, each inserted behind all that have a key
/// at most its own.
pub open spec fn order_upto(keys: Seq<u64>, n: int) -> Seq<usize>
    decreases n,
{
    if n <= 0 {
        seq![]
    } else {
        let o = order_upto(keys, n - 1);
        o.insert(rank_of(keys, o, keys[n - 1], 0), (n - 1) as usize)
    }
}

/// The indices of the keys in the order of a stable sort.
pub open spec fn order_of(keys: Seq<u64>) -> Seq<usize> {
    order_upto(keys, keys.len() as int)
}

/// Index `a` comes before index `b`: by the key, and by the index where the keys
/// are equal.
pub open spec fn precedes(keys: Seq<u64>, a: int, b: int) -> bool {
    keys[a] < keys[b] || (keys[a] == keys[b] && a < b)
}

proof fn rank_facts(keys: Seq<u64>, o: Seq<usize>, key: u64, n: int)
    requires
        0 <= n <= o.len(),
    ensures
        n <= rank_of(keys, o, key, n) <= o.len(),
        forall|j: int| n <= j < rank_of(keys, o, key, n) ==> keys[(#[trigger] o[j]) as int] <= key,
        rank_of(keys, o, key, n) < o.len() ==> keys[o[rank_of(keys, o, key, n)] as int] > key,
    decreases o.len() - n,
{
    if n < o.len() && keys[o[n] as int] <= key {
        rank_facts(keys, o, key, n + 1);
    }
}

proof fn order_upto_facts(keys: Seq<u64>, n: int)
    requires
        0 <= n <= keys.len() <= usize::MAX,
    ensures
        order_upto(keys, n).len() == n,
        forall|j: int| 0 <= j < n ==> (#[trigger] order_upto(keys, n)[j]) < n,
        forall|i: int| 0 <= i < n ==> #[trigger] order_upto(keys, n).contains(i as usize),
        forall|a: int, b: int|
            0 <= a < b < n ==> precedes(
                keys,
                #[trigger] order_upto(keys, n)[a] as int,
                #[trigger] order_upto(keys, n)[b] as int,
            ),
    decreases n,
{
    if n > 0 {
        order_upto_facts(keys, n - 1);
        let o = order_upto(keys, n - 1);
        let key = keys[n - 1];
        let r = rank_of(keys, o, key, 0);
        rank_facts(keys, o, key, 0);
        let p = order_upto(keys, n);
        assert(p == o.insert(r, (n - 1) as usize));
        assert forall|j: int| 0 <= j < n implies (#[trigger] p[j]) < n by {
            if j < r {
                assert(p[j] == o[j]);
            } else if j > r {
                assert(p[j] == o[j - 1]);
            }
        }
        assert forall|i: int| 0 <= i < n implies #[trigger] p.contains(i as usize) by {
            if i == n - 1 {
                assert(p[r] == i as usize);
            } else {
                assert(o.contains(i as usize));
                let k = choose|k: int| 0 <= k < o.len() && o[k] == i as usize;
                assert(p[if k < r {
                    k
                } else {
                    k + 1
                }] == i as usize);
            }
        }
        assert forall|a: int, b: int| 0 <= a < b < n implies precedes(
            keys,
            #[trigger] p[a] as int,
            #[trigger] p[b] as int,
        ) by {
            if b < r {
                assert(p[a] == o[a] && p[b] == o[b]);
            } else if b == r {
                assert(p[a] == o[a]);
                assert(o[a] < n - 1);
            } else if a > r {
                assert(p[a] == o[a - 1] && p[b] == o[b - 1]);
            } else if a < r {
                assert(p[a] == o[a] && p[b] == o[b - 1]);
            } else {
                assert(p[b] == o[b - 1]);
                if b - 1 > r {
                    assert(precedes(keys, o[r] as int, o[b - 1] as int));
                }
            }
        }
    }
}

/// The order of a stable sort names every index once and follows the keys, and
/// the indices where keys are equal.
pub proof fn order_is_stable_sort(keys: Seq<u64>)
    requires
        keys.len() <= usize::MAX,
    ensures
        order_of(keys).len() == keys.len(),
        forall|j: int| 0 <= j < keys.len() ==> (#[trigger] order_of(keys)[j]) < keys.len(),
        forall|i: int| 0 <= i < keys.len() ==> #[trigger] order_of(keys).contains(i as usize),
        order_of(keys).no_duplicates(),
        forall|a: int, b: int|
            0 <= a < b < keys.len() ==> precedes(
                keys,
                #[trigger] order_of(keys)[a] as int,
                #[trigger] order_of(keys)[b] as int,
            ),
{
    order_upto_facts(keys, keys.len() as int);
    let o = order_of(keys);
    assert forall|a: int, b: int| 0 <= a < o.len() && 0 <= b < o.len() && a != b implies o[a]
        != o[b] by {
        if a < b {
            assert(precedes(keys, o[a] as int, o[b] as int));
        } else {
            assert(precedes(keys, o[b] as int, o[a] as int));
        }
    }
}

proof fn order_upto_holds(keys: Seq<u64>, n: int, j: int)
    requires
        0 <= j < n <= keys.len() <= usize::MAX,
    ensures
        order_upto(keys, n).contains(j as usize),
    decreases n,
{
    let o = order_upto(keys, n - 1);
    let r = rank_of(keys, o, keys[n - 1], 0);
    rank_facts(keys, o, keys[n - 1], 0);
    let p = order_upto(keys, n);
    assert(p == o.insert(r, (n - 1) as usize));
    if j == n - 1 {
        assert(p[r] == j as usize);
    } else {
        order_upto_holds(keys, n - 1, j);
        let k = choose|k: int| 0 <= k < o.len() && o[k] == j as usize;
        if k < r {
            assert(p[k] == j as usize);
        } else {
            assert(p[k + 1] == j as usize);
        }
    }
}

/// Every index stands in the order.
pub proof fn order_holds_every_index(keys: Seq<u64>, j: int)
    requires
        0 <= j < keys.len() <= usize::MAX,
    ensures
        order_of(keys).contains(j as usize),
{
    order_upto_holds(keys, keys.len() as int, j);
}

/// The indices of the keys in the order of a stable sort.
pub fn stable_order(keys: &[u64]) -> (r: Vec<usize>)
    ensures
        r@ == order_of(keys@),
        r@.len() == keys@.len(),
        forall|j: int| 0 <= j < keys@.len() ==> (#[trigger] r@[j]) < keys@.len(),
{
    let mut r: Vec<usize> = Vec::new();
    for i in 0..keys.len()
        invariant
            keys@.len() <= usize::MAX,
            r@ == order_upto(keys@, i as int),
    {
        proof {
            order_upto_facts(keys@, i as int);
        }
        let key: u64 = keys[i];
        let ghost o = r@;
        let mut at: usize = 0;
        while at < r.len() && keys[r[at]] <= key
            invariant
                at <= r@.len(),
                r@ == o,
                r@.len() == i,
                i < keys@.len(),
                key == keys@[i as int],
                forall|j: int| 0 <= j < i ==> (#[trigger] r@[j]) < i,
                rank_of(keys@, o, key, 0) == rank_of(keys@, o, key, at as int),
            decreases r@.len() - at,
        {
            at += 1;
        }
        r.insert(at, i);
    }
    proof {
        order_upto_facts(keys@, keys@.len() as int);
    }
    r
}

/// Text `a` comes before text `b` in the order of their characters.
pub open spec fn text_before(a: Seq<char>, b: Seq<char>) -> bool
    decreases a.len(),
{
    if b.len() == 0 {
        false
    } else if a.len() == 0 {
        true
    } else if a[0] != b[0] {
        a[0] < b[0]
    } else {
        text_before(a.subrange(1, a.len() as int), b.subrange(1, b.len() as int))
    }
}

/// Whether a text comes before another.
pub fn comes_before(a: &[char], b: &[char]) -> (r: bool)
    ensures
        r == text_before(a@, b@),
{
    let mut i: usize = 0;
    assert(a@.subrange(0, a@.len() as int) =~= a@);
    assert(b@.subrange(0, b@.len() as int) =~= b@);
    while i < a.len() && i < b.len()
        invariant
            i <= a@.len(),
            i <= b@.len(),
            text_before(a@, b@) == text_before(
                a@.subrange(i as int, a@.len() as int),
                b@.subrange(i as int, b@.len() as int),
            ),
        decreases a@.len() - i,
    {
        let ghost x = a@.subrange(i as int, a@.len() as int);
        let ghost y = b@.subrange(i as int, b@.len() as int);
        assert(x.subrange(1, x.len() as int) =~= a@.subrange(i + 1, a@.len() as int));
        assert(y.subrange(1, y.len() as int) =~= b@.subrange(i + 1, b@.len() as int));
        if a[i] != b[i] {
            return a[i] < b[i];
        }
        i += 1;
    }
    i < b.len()
}

/// How many of the first `n` texts come before `t`.
pub open spec fn texts_before(v: Seq<Seq<char>>, t: Seq<char>, n: int) -> nat
    decreases n,
{
    if n <= 0 {
        0
    } else {
        texts_before(v, t, n - 1) + (if text_before(v[n - 1], t) {
            1nat
        } else {
            0nat
        })
    }
}

/// For each text how many of the texts come before it.
pub open spec fn text_ranks(v: Seq<Seq<char>>) -> Seq<u64> {
    Seq::new(v.len(), |i: int| texts_before(v, v[i], v.len() as int) as u64)
}

proof fn before_is_bounded(v: Seq<Seq<char>>, t: Seq<char>, n: int)
    requires
        0 <= n,
    ensures
        texts_before(v, t, n) <= n,
    decreases n,
{
    if n > 0 {
        before_is_bounded(v, t, n - 1);
    }
}

/// The order of texts is transitive.
pub proof fn before_is_transitive(a: Seq<char>, b: Seq<char>, c: Seq<char>)
    requires
        text_before(a, b),
        text_before(b, c),
    ensures
        text_before(a, c),
    decreases a.len(),
{
    if a.len() > 0 {
        if a[0] == b[0] && b[0] == c[0] {
            before_is_transitive(
                a.subrange(1, a.len() as int),
                b.subrange(1, b.len() as int),
                c.subrange(1, c.len() as int),
            );
        }
    }
}

proof fn before_is_total(a: Seq<char>, b: Seq<char>)
    ensures
        text_before(a, b) || text_before(b, a) || a == b,
        !(text_before(a, b) && text_before(b, a)),
        a == b ==> !text_before(a, b),
    decreases a.len(),
{
    if a.len() == 0 && b.len() == 0 {
        assert(a =~= b);
    } else if a.len() > 0 && b.len() > 0 && a[0] == b[0] {
        let x = a.subrange(1, a.len() as int);
        let y = b.subrange(1, b.len() as int);
        before_is_total(x, y);
        if x == y {
            assert(seq![a[0]] + x =~= a);
            assert(seq![b[0]] + y =~= b);
        }
    }
}

proof fn ranks_follow(v: Seq<Seq<char>>, a: Seq<char>, b: Seq<char>, n: int)
    requires
        0 <= n <= v.len(),
        text_before(a, b),
    ensures
        texts_before(v, a, n) <= texts_before(v, b, n),
        (exists|i: int| 0 <= i < n && v[i] == a) ==> texts_before(v, a, n) < texts_before(v, b, n),
    decreases n,
{
    if n > 0 {
        ranks_follow(v, a, b, n - 1);
        if text_before(v[n - 1], a) {
            before_is_transitive(v[n - 1], a, b);
        }
        before_is_total(a, a);
        if exists|i: int| 0 <= i < n && v[i] == a {
            let i = choose|i: int| 0 <= i < n && v[i] == a;
            if i < n - 1 {
                assert(0 <= i < n - 1 && v[i] == a);
            }
        }
    }
}

/// The ranks of texts order as the texts do.
pub proof fn ranks_order_as_texts(v: Seq<Seq<char>>, i: int, j: int)
    requires
        0 <= i < v.len(),
        0 <= j < v.len(),
        v.len() <= u64::MAX,
    ensures
        text_ranks(v)[i] < text_ranks(v)[j] <==> text_before(v[i], v[j]),
        text_ranks(v)[i] == text_ranks(v)[j] <==> v[i] == v[j],
{
    let n = v.len() as int;
    before_is_bounded(v, v[i], n);
    before_is_bounded(v, v[j], n);
    before_is_total(v[i], v[j]);
    if text_before(v[i], v[j]) {
        ranks_follow(v, v[i], v[j], n);
    } else if text_before(v[j], v[i]) {
        ranks_follow(v, v[j], v[i], n);
    }
}

/// For each text how many of the texts come before it.
pub fn ranks(v: &Vec<Vec<char>>) -> (r: Vec<u64>)
    ensures
        r@ == text_ranks(Seq::new(v@.len(), |i: int| v@[i]@)),
{
    let ghost vs = Seq::new(v@.len(), |i: int| v@[i]@);
    let ghost all = text_ranks(vs);
    let mut r: Vec<u64> = Vec::new();
    for i in 0..v.len()
        invariant
            vs == Seq::new(v@.len(), |i: int| v@[i]@),
            all == text_ranks(vs),
            r@ == all.subrange(0, i as int),
    {
        let mut n: u64 = 0;
        for j in 0..v.len()
            invariant
                i < v@.len(),
                vs == Seq::new(v@.len(), |i: int| v@[i]@),
                n == texts_before(vs, vs[i as int], j as int),
                n <= j,
        {
            if comes_before(v[j].as_slice(), v[i].as_slice()) {
                n += 1;
            }
        }
        r.push(n);
        assert(all.subrange(0, i + 1) =~= all.subrange(0, i as int).push(n));
    }
    assert(all.subrange(0, v@.len() as int) =~= all);
    r
}

} // verus!
