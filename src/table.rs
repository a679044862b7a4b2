//! Fixed-size lookup tables indexed by a key modulo a prime size, keeping a
//! truncated copy of each key to tell most colliding keys apart.
use vstd::prelude::*;

verus! {

pub open spec fn is_prime(p: int) -> bool {
    p >= 2 && forall|d: int| 2 <= d < p ==> #[trigger] (p % d) != 0
}

/// Some `d` with `lo <= d < hi` and `d * d <= n` divides `n`.
pub open spec fn small_factor_in(n: int, lo: int, hi: int) -> bool {
    exists|d: int| lo <= d < hi && d * d <= n && #[trigger] (n % d) == 0
}

/// Whether a divisor `d` of `n` with `min <= d < max` and `d * d <= n`
/// exists, found by splitting the range in halves.
pub fn has_factor(n: usize, min: usize, max: usize) -> (r: bool)
    requires
        min >= 1,
    ensures
        r == small_factor_in(n as int, min as int, max as int),
    decreases max - min,
{
    if min > n / min {
        proof {
            assert forall|d: int| min <= d < max && d * d <= n implies #[trigger] (n as int % d) != 0 by {
                assert(min * min > n) by (nonlinear_arith)
                    requires min > n / min, min >= 1;
                assert(d * d >= min * min) by (nonlinear_arith)
                    requires d >= min, min >= 1;
            }
        }
        return false;
    }
    if min >= max || max - min == 1 {
        proof {
            assert(min * min <= n) by (nonlinear_arith)
                requires min <= n / min, min >= 1;
            if n % min == 0 {
                assert(min < max ==> small_factor_in(n as int, min as int, max as int)) by {
                    if min < max {
                        let d = min as int;
                        assert(d * d <= n && (n as int % d) == 0);
                    }
                };
            }
            assert forall|d: int| min <= d < max && d * d <= n implies #[trigger] (n as int % d) == (n
                % min) as int by {
                assert(d == min);
            }
        }
        return min < max && n % min == 0;
    }
    let mid = min + (max - min) / 2;
    let left = has_factor(n, min, mid);
    let right = has_factor(n, mid, max);
    proof {
        if left {
            let d = choose|d: int| min <= d < mid && d * d <= n && #[trigger] (n as int % d) == 0;
            assert(min <= d < max);
        }
        if right {
            let d = choose|d: int| mid <= d < max && d * d <= n && #[trigger] (n as int % d) == 0;
            assert(min <= d < max);
        }
        if small_factor_in(n as int, min as int, max as int) {
            let d = choose|d: int| min <= d < max && d * d <= n && #[trigger] (n as int % d) == 0;
            if d < mid {
                assert(small_factor_in(n as int, min as int, mid as int));
            } else {
                assert(small_factor_in(n as int, mid as int, max as int));
            }
        }
    }
    left || right
}

/// A number of at least two has a factor of at most its square root
/// exactly when it is not prime.
proof fn lemma_prime_factor(n: int)
    requires
        n >= 2,
    ensures
        small_factor_in(n, 2, n) == !is_prime(n),
{
    if small_factor_in(n, 2, n) {
        let d = choose|d: int| 2 <= d < n && d * d <= n && #[trigger] (n % d) == 0;
        assert(!is_prime(n));
    }
    if !is_prime(n) {
        let d = choose|d: int| 2 <= d < n && #[trigger] (n % d) != 0 == false;
        let e = n / d;
        assert(d * e == n) by (nonlinear_arith)
            requires n % d == 0, d >= 2, e == n / d;
        assert(e >= 1) by (nonlinear_arith)
            requires d * e == n, d >= 2, n >= 2;
        assert(e >= 2) by (nonlinear_arith)
            requires d * e == n, d < n, e >= 1;
        assert(e < n) by (nonlinear_arith)
            requires d * e == n, d >= 2, e >= 2;
        assert(n % e == 0) by (nonlinear_arith)
            requires d * e == n, e >= 2;
        if d <= e {
            assert(d * d <= d * e) by (nonlinear_arith)
                requires d <= e, d >= 2;
            assert(2 <= d < n && d * d <= n && (n % d) == 0);
        } else {
            assert(e * e <= d * e) by (nonlinear_arith)
                requires e < d, e >= 2;
            assert(2 <= e < n && e * e <= n && (n % e) == 0);
        }
    }
}

/// The least prime `p` with `n <= p <= 2 * n`, or `None` when that range
/// holds no prime.
pub fn next_prime(n: usize) -> (r: Option<usize>)
    requires
        1 <= n <= (usize::MAX - 1) / 2,
    ensures
        r matches Some(p) ==> n <= p <= 2 * n && is_prime(p as int) && forall|q: int|
            n <= q < p ==> !#[trigger] is_prime(q),
        r is None ==> forall|q: int| n <= q <= 2 * n ==> !#[trigger] is_prime(q),
{
    let mut p = if n < 2 {
        2
    } else {
        n
    };
    while p <= 2 * n
        invariant
            1 <= n <= (usize::MAX - 1) / 2,
            n <= p <= 2 * n + 1,
            p >= 2,
            forall|q: int| n <= q < p ==> !#[trigger] is_prime(q),
        decreases 2 * n + 1 - p,
    {
        let composite = has_factor(p, 2, p);
        proof {
            lemma_prime_factor(p as int);
        }
        if !composite {
            return Some(p);
        }
        p = p + 1;
    }
    None
}

/// Number of slots of a table asked to hold about `n`: the least prime from
/// `n` to `2 * n`, or else the least odd number from `n`.
pub open spec fn table_size(n: int) -> int {
    if exists|p: int|
        n <= p <= 2 * n && #[trigger] is_prime(p) && forall|q: int| n <= q < p ==> !#[trigger] is_prime(q) {
        choose|p: int|
            n <= p <= 2 * n && #[trigger] is_prime(p) && forall|q: int| n <= q < p ==> !#[trigger] is_prime(q)
    } else if n % 2 == 0 {
        n + 1
    } else {
        n
    }
}

/// A table asked to hold `n` has at least `n` slots.
pub proof fn lemma_table_size_at_least(n: int)
    ensures
        table_size(n) >= n,
{
}

/// The slots of a prime size near `n`.
pub fn slot_count(n: usize) -> (r: usize)
    requires
        1 <= n <= (usize::MAX - 1) / 2,
    ensures
        r == table_size(n as int),
        n <= r <= 2 * n,
        r % 2 == 1 || r == 2,
{
    match next_prime(n) {
        Some(p) => {
            proof {
                let q = choose|q: int|
                    n <= q <= 2 * n && #[trigger] is_prime(q) && forall|x: int| n <= x < q ==> !#[trigger] is_prime(x);
                if q < p {
                    assert(!is_prime(q));
                } else if p < q {
                    assert(!is_prime(p as int));
                }
                if p % 2 == 0 && p != 2 {
                    assert((p as int) % 2 == 0);
                }
            }
            p
        },
        None => if n % 2 == 0 {
            n + 1
        } else {
            n
        },
    }
}

pub open spec fn two_pow(n: nat) -> int
    decreases n,
{
    if n == 0 {
        1
    } else {
        2 * two_pow((n - 1) as nat)
    }
}

/// An odd number that divides `2^n * t` divides `t`.
proof fn lemma_odd_divides(p: int, n: nat, t: int, s: int) -> (w: int)
    requires
        p >= 3,
        p % 2 == 1,
        two_pow(n) * t == p * s,
    ensures
        t == p * w,
    decreases n,
{
    if n == 0 {
        s
    } else {
        let u = two_pow((n - 1) as nat) * t;
        assert(two_pow(n) * t == 2 * u) by (nonlinear_arith)
            requires two_pow(n) == 2 * two_pow((n - 1) as nat), u == two_pow((n - 1) as nat) * t;
        let h = (p + 1) / 2;
        let v = h * s - u;
        assert(u == p * v) by (nonlinear_arith)
            requires 2 * u == p * s, 2 * h == p + 1, v == h * s - u;
        lemma_odd_divides(p, (n - 1) as nat, t, v)
    }
}

/// Keys below `2^49` that meet in the same slot of an odd table of at least
/// `2^17` slots, with the same low 32 bits, are equal.
pub proof fn lemma_keys_apart(p: int, k1: int, k2: int)
    requires
        p >= 0x2_0000,
        p % 2 == 1,
        0 <= k1 < 0x2_0000_0000_0000,
        0 <= k2 < 0x2_0000_0000_0000,
        k1 % p == k2 % p,
        k1 % 0x1_0000_0000 == k2 % 0x1_0000_0000,
    ensures
        k1 == k2,
{
    let s = k1 / p - k2 / p;
    let t = k1 / 0x1_0000_0000 - k2 / 0x1_0000_0000;
    assert(k1 - k2 == p * s) by (nonlinear_arith)
        requires p > 0, k1 % p == k2 % p, s == k1 / p - k2 / p;
    assert(k1 - k2 == 0x1_0000_0000 * t) by (nonlinear_arith)
        requires k1 % 0x1_0000_0000 == k2 % 0x1_0000_0000, t == k1 / 0x1_0000_0000 - k2 / 0x1_0000_0000;
    reveal_with_fuel(two_pow, 33);
    assert(two_pow(32) == 0x1_0000_0000);
    let w = lemma_odd_divides(p, 32, t, s);
    assert(-0x2_0000 < t < 0x2_0000) by (nonlinear_arith)
        requires k1 - k2 == 0x1_0000_0000 * t, 0 <= k1 < 0x2_0000_0000_0000, 0 <= k2 < 0x2_0000_0000_0000;
    assert(w == 0) by (nonlinear_arith)
        requires t == p * w, -0x2_0000 < t < 0x2_0000, p >= 0x2_0000;
}

/// The part of a key that a table keeps: its low 16 bits when `narrow`,
/// else its low 32 bits.
pub open spec fn partial_key(key: u64, narrow: bool) -> u32 {
    if narrow {
        (key as u16) as u32
    } else {
        key as u32
    }
}

/// Truncated key kept in a slot.
pub open spec fn slot_key(s: Option<(u32, u8)>) -> u32 {
    match s {
        Some((k, _)) => k,
        None => 0,
    }
}

/// Value kept in a slot.
pub open spec fn slot_value(s: Option<(u32, u8)>) -> u8 {
    match s {
        Some((_, v)) => v,
        None => 0,
    }
}

/// A table of `size()` slots. Key `k` goes to slot `k % size()`, which keeps
/// the truncated key and a value; a later key for the same slot replaces it.
pub struct MRUTable {
    keys: Vec<u32>,
    values: Vec<u8>,
    used: Vec<bool>,
    narrow: bool,
}

impl MRUTable {
    /// Each slot: empty, or the truncated key and the value stored there.
    pub closed spec fn slots(self) -> Seq<Option<(u32, u8)>> {
        Seq::new(
            self.keys@.len(),
            |i: int|
                if self.used@[i] {
                    Some((self.keys@[i], self.values@[i]))
                } else {
                    None
                },
        )
    }

    pub closed spec fn narrow_keys(self) -> bool {
        self.narrow
    }

    pub closed spec fn wf(self) -> bool {
        &&& self.keys@.len() >= 1
        &&& self.values@.len() == self.keys@.len()
        &&& self.used@.len() == self.keys@.len()
    }

    pub open spec fn slot_of(self, key: u64) -> int {
        key as int % self.slots().len() as int
    }

    pub proof fn lemma_slot_in_range(self, key: u64)
        requires
            self.wf(),
        ensures
            0 <= self.slot_of(key) < self.slots().len(),
    {
    }

    /// What `get(key)` returns.
    pub open spec fn lookup(self, key: u64) -> Option<u8> {
        match self.slots()[self.slot_of(key)] {
            Some((k, v)) => if k == partial_key(key, self.narrow_keys()) {
                Some(v)
            } else {
                None
            },
            None => None,
        }
    }

    /// An empty table of about `2^log_size` slots keeping 32 bits of each key.
    pub fn new(log_size: usize) -> (r: MRUTable)
        requires
            log_size < 63,
            (1u64 << log_size as u64) <= (usize::MAX - 1) / 2,
        ensures
            r.wf(),
            r.slots().len() == table_size((1u64 << log_size as u64) as int),
            r.slots().len() >= (1u64 << log_size as u64),
            r.slots().len() % 2 == 1 || r.slots().len() == 2,
            forall|i: int| 0 <= i < r.slots().len() ==> #[trigger] r.slots()[i] is None,
            !r.narrow_keys(),
    {
        let ls = log_size as u64;
        proof {
            assert(ls < 63 ==> 1 <= (1u64 << ls)) by (bit_vector);
        }
        let size = slot_count((1u64 << ls) as usize);
        let r = MRUTable {
            keys: vec![0u32; size],
            values: vec![0u8; size],
            used: vec![false; size],
            narrow: false,
        };
        proof {
            assert forall|i: int| 0 <= i < r.slots().len() implies #[trigger] r.slots()[i] is None by {
                assert(cloned(false, r.used@[i]));
            }
        }
        r
    }

    /// A table whose slot `i` keeps `keys[i]` and `values[i]`.
    pub fn from_entries(keys: Vec<u32>, values: Vec<u8>, narrow: bool) -> (r: MRUTable)
        requires
            keys@.len() >= 1,
            values@.len() == keys@.len(),
        ensures
            r.wf(),
            r.slots() == Seq::new(keys@.len(), |i: int| Some((keys@[i], values@[i]))),
            r.narrow_keys() == narrow,
    {
        let used = vec![true; keys.len()];
        let r = MRUTable { keys, values, used, narrow };
        proof {
            assert forall|i: int| 0 <= i < r.keys@.len() implies #[trigger] r.used@[i] by {
                assert(cloned(true, r.used@[i]));
            }
            assert(r.slots() =~= Seq::new(r.keys@.len(), |i: int| Some((r.keys@[i], r.values@[i]))));
        }
        r
    }

    fn k_to_pk(&self, key: u64) -> (r: u32)
        ensures
            r == partial_key(key, self.narrow),
    {
        if self.narrow {
            (key as u16) as u32
        } else {
            key as u32
        }
    }

    fn index(&self, key: u64) -> (r: usize)
        requires
            self.wf(),
        ensures
            r == self.slot_of(key),
            r < self.slots().len(),
    {
        (key % (self.keys.len() as u64)) as usize
    }

    /// Number of slots.
    pub fn size(&self) -> (r: usize)
        requires
            self.wf(),
        ensures
            r == self.slots().len(),
    {
        self.keys.len()
    }

    /// Stores `value` for `key`, replacing whatever its slot held.
    pub fn put(&mut self, key: u64, value: u8)
        requires
            old(self).wf(),
        ensures
            final(self).wf(),
            final(self).narrow_keys() == old(self).narrow_keys(),
            final(self).slots() == old(self).slots().update(
                old(self).slot_of(key),
                Some((partial_key(key, old(self).narrow_keys()), value)),
            ),
    {
        let idx = self.index(key);
        let pk = self.k_to_pk(key);
        self.keys.set(idx, pk);
        self.values.set(idx, value);
        self.used.set(idx, true);
        proof {
            assert(self.slots() =~= old(self).slots().update(
                old(self).slot_of(key),
                Some((partial_key(key, old(self).narrow_keys()), value)),
            ));
        }
    }

    /// The value of the slot of `key`, if that slot holds the same truncated key.
    pub fn get(&self, key: u64) -> (r: Option<u8>)
        requires
            self.wf(),
        ensures
            r == self.lookup(key),
    {
        let idx = self.index(key);
        if self.used[idx] && self.keys[idx] == self.k_to_pk(key) {
            Some(self.values[idx])
        } else {
            None
        }
    }
}

impl Default for MRUTable {
    /// An empty table of about `2^23` slots keeping 32 bits of each key.
    fn default() -> (r: MRUTable)
        ensures
            r.wf(),
            forall|i: int| 0 <= i < r.slots().len() ==> #[trigger] r.slots()[i] is None,
    {
        proof {
            assert((1u64 << 23u64) == 0x80_0000) by (bit_vector);
            assert(usize::MAX >= 0xffff_ffff);
        }
        MRUTable::new(23)
    }
}

} // verus!
