//! Cache for computed Ni constant values.
//!
//! Computing η_ν is expensive (arbitrary-precision arithmetic), so each
//! precision level is computed at most once. Keys are `precision_bits` rounded
//! up to multiples of 64, so a request for 100 bits reuses a cached 128-bit
//! result.

use vstd::prelude::*;
use std::collections::BTreeMap;
use vstd::std_specs::btree::{spec_keys_iter, increasing_seq};
use vstd::std_specs::iter::IteratorSpec;
use crate::float_value::{FloatValue, float_sane};
use crate::backend::dashu_backend::DashuFloat;
use crate::compute::{compute, ni_value, compute_precision_ok, ni_accurate};

verus! {

broadcast use vstd::laws_cmp::group_laws_cmp;

/// `n` rounded up to the nearest multiple of `step`.
pub open spec fn round_up_value(n: nat, step: nat) -> nat {
    ((n + step - 1) as nat / step) * step
}

/// Round `n` up to the nearest multiple of `step`.
pub fn round_up(n: u32, step: u32) -> (r: u32)
    requires
        step > 0,
        n + step <= u32::MAX,
    ensures
        r as nat == round_up_value(n as nat, step as nat),
        r % step == 0,
        n <= r < n + step,
{
    let q = (n + step - 1) / step;
    proof {
        let a = (n + step - 1) as int;
        let d = step as int;
        vstd::arithmetic::div_mod::lemma_fundamental_div_mod(a, d);
        assert(q == a / d);
        assert(q * d <= a) by (nonlinear_arith)
            requires a == d * q + a % d, a % d >= 0;
        assert(q * d >= a - d + 1) by (nonlinear_arith)
            requires a == d * q + a % d, a % d < d;
        vstd::arithmetic::div_mod::lemma_mod_multiples_basic(q as int, d);
    }
    q * step
}

/// The cache key for a request of `bits`: `bits` rounded up to a multiple of 64.
pub open spec fn cache_key(bits: nat) -> nat {
    round_up_value(bits, 64)
}

/// The precisions the cache accepts: their key fits the precisions `compute`
/// accepts.
pub open spec fn cache_precision_ok(bits: nat) -> bool {
    &&& bits + 191 <= u32::MAX
    &&& bits + 255 <= usize::MAX
}

/// The smallest key of `m` at or above `key`, if any.
pub open spec fn serving_key(m: Map<u32, FloatValue>, key: u32) -> Option<u32> {
    if exists|k: u32| m.contains_key(k) && k >= key {
        Some(choose|k: u32| m.contains_key(k) && k >= key && forall|j: u32| m.contains_key(j) && j >= key ==> k <= j)
    } else {
        None
    }
}

/// The key a request for `key` is answered from: the smallest cached key at
/// or above it, or `key` itself when there is none.
pub open spec fn served_key(m: Map<u32, FloatValue>, key: u32) -> u32 {
    match serving_key(m, key) {
        Some(k) => k,
        None => key,
    }
}

/// Proof that references to `u32` keys are ordered as the keys are.
proof fn lemma_key_refs_ordered()
    ensures
        vstd::laws_cmp::obeys_cmp::<&u32>(),
{
    broadcast use vstd::laws_eq::group_laws_eq;
    reveal(vstd::laws_eq::obeys_eq_spec_properties);
    reveal(vstd::laws_cmp::obeys_partial_cmp_spec_properties);
    reveal(vstd::laws_cmp::obeys_cmp_partial_ord);
    reveal(vstd::laws_cmp::obeys_cmp_ord);
    assert(vstd::laws_cmp::obeys_cmp::<u32>());
}

/// The smallest key of `m` at or above `key`, found by walking the keys in
/// increasing order.
fn smallest_key_at_least(m: &BTreeMap<u32, DashuFloat>, key: u32) -> (r: Option<u32>)
    ensures
        match r {
            Some(k) => m@.contains_key(k) && k >= key
                && forall|j: u32| m@.contains_key(j) && j >= key ==> k <= j,
            None => forall|j: u32| m@.contains_key(j) ==> j < key,
        },
{
    let mut found: Option<u32> = None;
    for k in it: m.keys()
        invariant
            it.seq() == IteratorSpec::remaining(&spec_keys_iter(m)),
            found is None ==> forall|i: int| 0 <= i < it.index() ==> *it.seq()[i] < key,
            found matches Some(f) ==> m@.contains_key(f) && f >= key
                && forall|j: u32| m@.contains_key(j) && j >= key ==> f <= j,
    {
        proof {
            let s = it.seq();
            assert(s.unref().to_set() == m@.dom());
            assert(increasing_seq(s));
            lemma_key_refs_ordered();
            assert forall|a: int, b: int| 0 <= a < b < s.len() implies *s[a] < *s[b] by {
                assert(vstd::std_specs::cmp::OrdSpec::cmp_spec(&s[a], &s[b]) is Less);
            }
        }
        if found.is_none() && *k >= key {
            found = Some(*k);
        }
    }
    found
}

/// Cache for η_ν values at different precisions.
pub struct NiCache {
    /// Maps `rounded_bits` → computed value.
    map: BTreeMap<u32, DashuFloat>,
}

impl View for NiCache {
    type V = Map<u32, FloatValue>;

    /// The cached values by key.
    closed spec fn view(&self) -> Map<u32, FloatValue> {
        self.map@.map_values(|v: DashuFloat| v@)
    }
}

impl NiCache {
    /// Every cached value is η_ν as computed at its key, a multiple of 64.
    pub closed spec fn wf(&self) -> bool {
        forall|k: u32| #[trigger] self.map@.contains_key(k) ==> {
            &&& k % 64 == 0
            &&& compute_precision_ok(k as nat)
            &&& self.map@[k]@ == ni_value(k as nat)
            &&& ni_accurate(self.map@[k]@, k as nat)
            &&& float_sane(self.map@[k]@)
        }
    }

    /// Create a new, empty cache.
    pub fn new() -> (r: NiCache)
        ensures
            r.wf(),
            r@ == Map::<u32, FloatValue>::empty(),
    {
        let r = NiCache { map: BTreeMap::new() };
        assert(r@ =~= Map::<u32, FloatValue>::empty());
        r
    }

    /// Return a cached value at a precision at least that of `precision_bits`
    /// if there is one, otherwise compute it and store it.
    ///
    /// The key is `precision_bits` rounded up to the nearest 64, so nearby
    /// precisions share results. A request is answered from the smallest
    /// cached key at or above its key, leaving the cache unchanged; when there
    /// is none, the value is computed at the key and stored under it.
    pub fn get_or_compute(&mut self, precision_bits: u32) -> (r: DashuFloat)
        requires
            old(self).wf(),
            cache_precision_ok(precision_bits as nat),
        ensures
            final(self).wf(),
            r@ == ni_value(served_key(old(self)@, cache_key(precision_bits as nat) as u32) as nat),
            served_key(old(self)@, cache_key(precision_bits as nat) as u32) >= cache_key(precision_bits as nat),
            float_sane(r@),
            ni_accurate(r@, served_key(old(self)@, cache_key(precision_bits as nat) as u32) as nat),
            serving_key(old(self)@, cache_key(precision_bits as nat) as u32) is Some ==> final(self)@ == old(self)@,
            serving_key(old(self)@, cache_key(precision_bits as nat) as u32) is None
                ==> final(self)@ == old(self)@.insert(cache_key(precision_bits as nat) as u32, r@),
    {
        let key = round_up(precision_bits, 64);
        let ghost before = self@;
        proof {
            assert forall|k: u32| self.map@.contains_key(k) <==> before.contains_key(k) by {}
        }
        match smallest_key_at_least(&self.map, key) {
            Some(k) => {
                proof {
                    let c = choose|c: u32| before.contains_key(c) && c >= key
                        && forall|j: u32| before.contains_key(j) && j >= key ==> c <= j;
                    assert(before.contains_key(k) && k >= key);
                    assert(serving_key(before, key) == Some(c));
                    assert(c <= k && k <= c);
                }
                match self.map.get(&k) {
                    Some(cached) => {
                        return cached.copy();
                    },
                    None => {
                        proof {
                            assert(false);
                        }
                    },
                }
            },
            None => {},
        }
        let value = compute(key);
        let stored = value.copy();
        self.map.insert(key, stored);
        proof {
            assert(serving_key(before, key) is None);
            assert(self@ =~= before.insert(key, value@));
        }
        value
    }

    /// Clear all cached values.
    pub fn clear(&mut self)
        ensures
            final(self).wf(),
            final(self)@ == Map::<u32, FloatValue>::empty(),
    {
        self.map.clear();
        assert(self@ =~= Map::<u32, FloatValue>::empty());
    }
}

} // verus!
