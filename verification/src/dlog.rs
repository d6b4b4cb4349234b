use vstd::prelude::*;
use vstd::arithmetic::div_mod::{
    lemma_add_mod_noop,
    lemma_add_mod_noop_right,
    lemma_small_mod,
    lemma_sub_mod_noop_right,
    lemma_fundamental_div_mod,
};
use std::collections::HashMap;
use crate::engine::GroupOps;
use crate::types::SheError;

verus! {

broadcast use vstd::std_specs::hash::group_hash_axioms;

/// The largest plaintext bound a table can be built for.
pub const MAX_BOUND: u64 = 0x2000_0000_0000_0000;

/// Whether the integer `m` is a plaintext of the element with logarithm `l`
/// in a group of order `q`.
pub open spec fn encodes(m: int, l: int, q: int) -> bool {
    m % q == l
}

/// Whether `m` lies in `[-bound, bound]`.
pub open spec fn in_range(m: int, bound: int) -> bool {
    -bound <= m <= bound
}

/// Whether `m` lies in `[-bound, bound]`.
pub fn within(m: i64, bound: u64) -> (r: bool)
    ensures
        r == in_range(m as int, bound as int),
{
    if m >= 0 {
        m as u64 <= bound
    } else {
        let below: u64 = (-(m + 1)) as u64;
        below < bound
    }
}

/// What a search for the plaintext of the element with logarithm `l` owes:
/// the plaintext within the bound if there is one, and the error if there is
/// none.
pub open spec fn recovered(outcome: Result<i64, SheError>, l: int, bound: int, q: int) -> bool {
    match outcome {
        Ok(m) => in_range(m as int, bound) && encodes(m as int, l, q),
        Err(e) => e == SheError::PlaintextOutOfRange && forall|m: int|
            in_range(m, bound) ==> !#[trigger] encodes(m, l, q),
    }
}

/// A search for the plaintext of `m` times the base returns `m`, where `m`
/// lies within the bound and the order exceeds twice the bound.
pub proof fn lemma_recovered_exact(outcome: Result<i64, SheError>, m: int, l: int, bound: int, q: int)
    requires
        recovered(outcome, l, bound, q),
        2 * bound < q,
        in_range(m, bound),
        l == m % q,
    ensures
        outcome matches Ok(v) && v == m,
{
    assert(encodes(m, l, q));
    match outcome {
        Ok(v) => {
            lemma_plaintext_unique(v as int, m, l, bound, q);
        },
        Err(_) => {},
    }
}

/// A search for the plaintext of `m` times the base fails, where `m` lies
/// beyond the bound and less than the order minus the bound from zero.
pub proof fn lemma_recovered_beyond(outcome: Result<i64, SheError>, m: int, l: int, bound: int, q: int)
    requires
        recovered(outcome, l, bound, q),
        0 <= bound,
        l == m % q,
        bound < m < q - bound || bound < -m < q - bound,
    ensures
        outcome == Err::<i64, SheError>(SheError::PlaintextOutOfRange),
{
    match outcome {
        Ok(v) => {
            let v = v as int;
            lemma_fundamental_div_mod(m, q);
            lemma_fundamental_div_mod(v, q);
            let d = m / q - v / q;
            assert(m - v == q * d) by (nonlinear_arith)
                requires
                    m == q * (m / q) + l,
                    v == q * (v / q) + l,
                    d == m / q - v / q,
            ;
            assert(false) by (nonlinear_arith)
                requires
                    m - v == q * d,
                    -bound <= v <= bound,
                    bound < m < q - bound || bound < -m < q - bound,
                    0 <= bound,
            ;
        },
        Err(_) => {},
    }
}

/// Whether `n` is the least positive integer whose square reaches `2 * bound`.
pub open spec fn is_stride(n: int, bound: int) -> bool {
    &&& n >= 1
    &&& n * n >= 2 * bound
    &&& (n == 1 || (n - 1) * (n - 1) < 2 * bound)
}

/// Whether `t` occurs in `spill`.
pub open spec fn spilled(spill: Seq<usize>, t: int) -> bool {
    exists|s: int| 0 <= s < spill.len() && #[trigger] spill[s] == t
}

/// Reducing a summand first does not change the residue of a sum.
pub proof fn lemma_shift_residue(x: int, y: int, q: int)
    requires
        q > 0,
    ensures
        ((x % q) + y) % q == (x + y) % q,
{
    lemma_add_mod_noop(x, y, q);
    lemma_add_mod_noop_right(x % q, y, q);
}

/// Adding the negation of a reduced value subtracts the value.
pub proof fn lemma_add_negated(t: int, p: int, q: int)
    requires
        q > 0,
    ensures
        (t + (-(p % q)) % q) % q == (t - p) % q,
{
    lemma_add_mod_noop_right(t, -(p % q), q);
    lemma_sub_mod_noop_right(t, p, q);
}

/// Two plaintexts of one element within the bound are equal, where the
/// order exceeds twice the bound.
pub proof fn lemma_plaintext_unique(m1: int, m2: int, l: int, bound: int, q: int)
    requires
        2 * bound < q,
        in_range(m1, bound),
        in_range(m2, bound),
        encodes(m1, l, q),
        encodes(m2, l, q),
    ensures
        m1 == m2,
{
    lemma_fundamental_div_mod(m1, q);
    lemma_fundamental_div_mod(m2, q);
    let d = m1 / q - m2 / q;
    assert(m1 - m2 == q * d) by (nonlinear_arith)
        requires
            m1 == q * (m1 / q) + l,
            m2 == q * (m2 / q) + l,
            d == m1 / q - m2 / q,
    ;
    assert(d == 0) by (nonlinear_arith)
        requires
            m1 - m2 == q * d,
            -q < m1 - m2 < q,
            q > 0,
    ;
}

/// The least positive `n` with `n * n >= 2 * bound`.
pub fn stride_for(bound: u64) -> (n: u64)
    requires
        bound <= MAX_BOUND,
    ensures
        is_stride(n as int, bound as int),
        n <= 0x8000_0000,
{
    let target: u128 = 2 * (bound as u128);
    let mut n: u64 = 1;
    let mut square: u128 = 1;
    while square < target
        invariant
            1 <= n <= 0x8000_0000,
            target == 2 * bound,
            bound <= MAX_BOUND,
            square == n * n,
            n == 1 || (n - 1) * (n - 1) < 2 * bound,
        decreases 0x8000_0000 - n,
    {
        assert(n < 0x8000_0000) by (nonlinear_arith)
            requires
                n * n < 0x4000_0000_0000_0000,
                n >= 1,
        ;
        assert((n + 1) * (n + 1) == n * n + 2 * n + 1) by (nonlinear_arith);
        square = square + 2 * (n as u128) + 1;
        n = n + 1;
    }
    n
}

/// The baby steps of a group: the first `stride` multiples of its base, found
/// again by fingerprint, and the giant step that follows them.
pub struct DlogTable<G> {
    bound: u64,
    stride: u64,
    babies: Vec<G>,
    index: HashMap<u64, usize>,
    spill: Vec<usize>,
    giant: G,
    giant_back: G,
    origin: G,
}

impl<G> DlogTable<G> {
    /// The plaintext bound the table serves.
    pub closed spec fn spec_bound(&self) -> int {
        self.bound as int
    }

    /// The number of baby steps.
    pub closed spec fn spec_stride(&self) -> int {
        self.stride as int
    }

    /// Whether every baby step can be found: under its fingerprint, or among
    /// those whose fingerprint was taken when they came.
    pub closed spec fn indexed<E: GroupOps<G>>(&self, engine: &E, upto: int) -> bool {
        &&& forall|t: int|
            0 <= t < upto ==> (self.index@.contains_key(#[trigger] engine.digest(t))
                && self.index@[engine.digest(t)] == t) || spilled(self.spill@, t)
        &&& forall|k: u64| #[trigger] self.index@.contains_key(k) ==> self.index@[k] < upto
        &&& forall|s: int| 0 <= s < self.spill@.len() ==> #[trigger] self.spill@[s] < upto
    }

    /// Whether the baby steps are the multiples of the base, in order.
    pub closed spec fn stepped<E: GroupOps<G>>(&self, engine: &E) -> bool {
        forall|t: int|
            0 <= t < self.babies@.len() ==> engine.valid(&#[trigger] self.babies@[t]) && engine.log(
                &self.babies@[t],
            ) == t
    }

    /// Whether the table is the one of `engine`'s group for its bound.
    pub closed spec fn wf<E: GroupOps<G>>(&self, engine: &E) -> bool {
        &&& self.bound <= MAX_BOUND
        &&& is_stride(self.stride as int, self.bound as int)
        &&& self.stride <= 0x8000_0000
        &&& self.stride <= engine.order()
        &&& self.babies@.len() == self.stride
        &&& self.stepped(engine)
        &&& self.indexed(engine, self.stride as int)
        &&& engine.valid(&self.giant)
        &&& engine.log(&self.giant) == (self.stride as int) % engine.order()
        &&& engine.valid(&self.giant_back)
        &&& engine.log(&self.giant_back) == (-((self.stride as int) % engine.order()))
            % engine.order()
        &&& engine.valid(&self.origin)
        &&& engine.log(&self.origin) == 0
    }

    pub fn bound(&self) -> (b: u64)
        ensures
            b == self.spec_bound(),
    {
        self.bound
    }

    pub fn stride(&self) -> (n: u64)
        ensures
            n == self.spec_stride(),
    {
        self.stride
    }

    /// Builds the table of `engine`'s group for plaintexts in `[-bound, bound]`.
    pub fn build<E: GroupOps<G>>(engine: &E, bound: u64) -> (t: DlogTable<G>)
        requires
            bound <= MAX_BOUND,
            2 * bound < engine.order(),
        ensures
            t.wf(engine),
            t.spec_bound() == bound,
            is_stride(t.spec_stride(), bound as int),
    {
        let n = stride_for(bound);
        let ghost q = engine.order();
        proof {
            engine.lemma_order();
            if n > 1 {
                assert(n - 1 < 2 * bound) by (nonlinear_arith)
                    requires
                        (n - 1) * (n - 1) < 2 * bound,
                        n - 1 >= 1,
                ;
            }
        }
        let base: G = engine.base();
        let nothing = engine.scalar_from_i64(0);
        let origin: G = engine.mul(&base, &nothing);
        let first: G = engine.mul(&base, &nothing);
        proof {
            lemma_small_mod(0, q as nat);
        }
        let mut babies: Vec<G> = Vec::new();
        babies.push(first);
        let mut j: usize = 1;
        while j < n as usize
            invariant
                1 <= j <= n,
                n <= 0x8000_0000,
                n <= q,
                q == engine.order(),
                babies@.len() == j,
                engine.valid(&base),
                engine.log(&base) == 1,
                forall|t: int|
                    0 <= t < j ==> engine.valid(&#[trigger] babies@[t]) && engine.log(&babies@[t])
                        == t,
            decreases n - j,
        {
            let next: G = engine.add(&babies[j - 1], &base);
            proof {
                lemma_small_mod(j as nat, q as nat);
            }
            babies.push(next);
            j = j + 1;
        }
        let giant: G = engine.add(&babies[j - 1], &base);
        let giant_back: G = engine.neg(&giant);
        let mut table = DlogTable {
            bound,
            stride: n,
            babies,
            index: HashMap::new(),
            spill: Vec::new(),
            giant,
            giant_back,
            origin,
        };
        let mut i: usize = 0;
        while i < n as usize
            invariant
                0 <= i <= n,
                n <= 0x8000_0000,
                table.babies@.len() == n,
                table.stepped(engine),
                table.indexed(engine, i as int),
                table.bound == bound,
                table.stride == n,
                engine.valid(&table.giant),
                engine.log(&table.giant) == (n as int) % engine.order(),
                engine.valid(&table.giant_back),
                engine.log(&table.giant_back) == (-((n as int) % engine.order())) % engine.order(),
                engine.valid(&table.origin),
                engine.log(&table.origin) == 0,
            decreases n - i,
        {
            let d = engine.fingerprint(&table.babies[i]);
            let ghost before = table;
            if table.index.contains_key(&d) {
                table.spill.push(i);
                proof {
                    assert(table.spill@[before.spill@.len() as int] == i);
                    assert forall|t: int| 0 <= t < i + 1 implies (table.index@.contains_key(
                        #[trigger] engine.digest(t),
                    ) && table.index@[engine.digest(t)] == t) || spilled(table.spill@, t) by {
                        if t < i && spilled(before.spill@, t) {
                            let s = choose|s: int|
                                0 <= s < before.spill@.len() && #[trigger] before.spill@[s] == t;
                            assert(table.spill@[s] == t);
                        }
                    }
                }
            } else {
                table.index.insert(d, i);
                proof {
                    assert forall|t: int| 0 <= t < i + 1 implies (table.index@.contains_key(
                        #[trigger] engine.digest(t),
                    ) && table.index@[engine.digest(t)] == t) || spilled(table.spill@, t) by {
                        if t < i && !spilled(before.spill@, t) {
                            assert(before.index@.contains_key(engine.digest(t)));
                            assert(engine.digest(t) != d);
                        }
                    }
                }
            }
            i = i + 1;
        }
        table
    }

    /// Builds the table for `bound` where a table can serve it: where the
    /// bound is at most [`MAX_BOUND`] and less than half the order.
    pub fn try_build<E: GroupOps<G>>(engine: &E, bound: u64) -> (r: Option<DlogTable<G>>)
        ensures
            match r {
                Some(t) => t.wf(engine) && t.spec_bound() == bound && is_stride(
                    t.spec_stride(),
                    bound as int,
                ),
                None => bound > MAX_BOUND || 2 * bound >= engine.order(),
            },
    {
        if bound <= MAX_BOUND && engine.order_exceeds(2 * bound) {
            Some(DlogTable::build(engine, bound))
        } else {
            None
        }
    }

    /// The baby step that `a` is, if it is one.
    pub fn lookup<E: GroupOps<G>>(&self, engine: &E, a: &G) -> (r: Option<u64>)
        requires
            self.wf(engine),
            engine.valid(a),
        ensures
            match r {
                Some(j) => j < self.spec_stride() && j == engine.log(a),
                None => engine.log(a) >= self.spec_stride(),
            },
    {
        proof {
            engine.lemma_log_range(a);
        }
        let d = engine.fingerprint(a);
        match self.index.get(&d) {
            Some(j) => {
                if engine.same(a, &self.babies[*j]) {
                    return Some(*j as u64);
                }
            },
            None => {},
        }
        let mut s: usize = 0;
        while s < self.spill.len()
            invariant
                0 <= s <= self.spill@.len(),
                self.wf(engine),
                engine.valid(a),
                forall|u: int| 0 <= u < s ==> #[trigger] self.spill@[u] != engine.log(a),
            decreases self.spill@.len() - s,
        {
            let j = self.spill[s];
            if engine.same(a, &self.babies[j]) {
                return Some(j as u64);
            }
            s = s + 1;
        }
        proof {
            let l = engine.log(a);
            if l < self.stride {
                assert(engine.log(&self.babies@[l]) == l);
                if spilled(self.spill@, l) {
                    let u = choose|u: int| 0 <= u < self.spill@.len() && #[trigger] self.spill@[u] == l;
                    assert(self.spill@[u] != l);
                } else {
                    assert(self.index@.contains_key(engine.digest(l)));
                }
            }
        }
        None
    }

    /// Recovers the plaintext of `v` by baby steps and giant steps: the
    /// integer in `[-bound, bound]` of which `v` is that multiple of the base.
    pub fn recover<E: GroupOps<G>>(&self, engine: &E, v: &G) -> (r: Result<i64, SheError>)
        requires
            self.wf(engine),
            engine.valid(v),
        ensures
            recovered(r, engine.log(v), self.spec_bound(), engine.order()),
    {
        let ghost q = engine.order();
        let ghost l = engine.log(v);
        let n = self.stride;
        let bound = self.bound;
        proof {
            engine.lemma_order();
            engine.lemma_log_range(v);
            lemma_small_mod(l as nat, q as nat);
            lemma_add_mod_noop_right(l, n as int, q);
        }
        let mut fore: G = engine.add(v, &self.origin);
        let mut back: G = engine.add(v, &self.giant);
        let mut lo: u64 = 0;
        while lo <= bound
            invariant
                self.wf(engine),
                q == engine.order(),
                q >= 2,
                l == engine.log(v),
                0 <= l < q,
                n == self.stride,
                bound == self.bound,
                1 <= n <= 0x8000_0000,
                n <= q,
                bound <= MAX_BOUND,
                lo <= bound + n,
                engine.valid(&fore),
                engine.log(&fore) == (l - lo) % q,
                engine.valid(&back),
                engine.log(&back) == (l + lo + n) % q,
                forall|m: int| 0 <= m <= bound && m < lo ==> !#[trigger] encodes(m, l, q),
                forall|m: int| -(bound as int) <= m < 0 && m >= -(lo as int) ==> !#[trigger] encodes(m, l, q),
            decreases bound + n - lo,
        {
            let hit = self.lookup(engine, &fore);
            match hit {
                Some(j) => {
                    if lo + j <= bound {
                        proof {
                            lemma_shift_residue(l - lo, lo as int, q);
                            lemma_small_mod(l as nat, q as nat);
                        }
                        return Ok((lo + j) as i64);
                    }
                },
                None => {},
            }
            let hit_back = self.lookup(engine, &back);
            match hit_back {
                Some(j) => {
                    let mag: u64 = lo + n - j;
                    if mag <= bound {
                        proof {
                            lemma_shift_residue(l + lo + n, -(lo + n), q);
                            lemma_small_mod(l as nat, q as nat);
                        }
                        return Ok(-(mag as i64));
                    }
                },
                None => {},
            }
            proof {
                assert forall|m: int| 0 <= m <= bound && m < lo + n implies !#[trigger] encodes(
                    m,
                    l,
                    q,
                ) by {
                    if m >= lo && encodes(m, l, q) {
                        lemma_shift_residue(m, -(lo as int), q);
                        lemma_small_mod((m - lo) as nat, q as nat);
                    }
                }
                assert forall|m: int| -(bound as int) <= m < 0 && m >= -(lo + n) implies !#[trigger] encodes(
                    m,
                    l,
                    q,
                ) by {
                    if m < -(lo as int) && encodes(m, l, q) {
                        lemma_shift_residue(m, lo + n, q);
                        lemma_small_mod((m + lo + n) as nat, q as nat);
                    }
                }
                lemma_add_negated((l - lo) % q, n as int, q);
                lemma_shift_residue(l - lo, -(n as int), q);
                lemma_add_mod_noop(l + lo + n, n as int, q);
            }
            fore = engine.add(&fore, &self.giant_back);
            back = engine.add(&back, &self.giant);
            lo = lo + n;
        }
        Err(SheError::PlaintextOutOfRange)
    }
}

} // verus!
