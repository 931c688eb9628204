//! The catalog of candidate pools, kept sorted by name, and the choice of
//! the best-yielding one.
use vstd::prelude::*;
use crate::order::{name_lt, name_less, lemma_name_lt_total, lemma_name_lt_transitive, lemma_name_lt_asymmetric};

verus! {

/// A liquidity pool that can hold the vault's capital.
#[derive(Clone, Debug)]
pub struct Pool {
    pub provider_id: String,
    /// The unique key of the pool.
    pub name: String,
    pub token0: String,
    pub token1: String,
    /// Reported annual yield, in hundredths of a percent (basis points).
    pub apy: u64,
}

/// Every name sorts strictly before the names that follow it.
pub open spec fn sorted_by_name(s: Seq<Pool>) -> bool {
    forall|i: int, j: int| 0 <= i < j < s.len() ==> name_lt(#[trigger] s[i].name@, #[trigger] s[j].name@)
}

/// Some pool of `s` is named `n`.
pub open spec fn has_pool(s: Seq<Pool>, n: Seq<char>) -> bool {
    exists|i: int| 0 <= i < s.len() && #[trigger] s[i].name@ == n
}

/// Pool `b` has the highest yield of `s`, and among the pools of equal
/// yield the name that sorts first.
pub open spec fn is_best(s: Seq<Pool>, b: int) -> bool {
    &&& 0 <= b < s.len()
    &&& forall|k: int| 0 <= k < s.len() ==> #[trigger] s[k].apy <= s[b].apy
    &&& forall|k: int|
        0 <= k < s.len() && k != b && #[trigger] s[k].apy == s[b].apy ==> name_lt(s[b].name@, s[k].name@)
}

/// The name of the pool that rebalancing selects in `s`.
pub open spec fn best_name(s: Seq<Pool>) -> Seq<char> {
    s[choose|b: int| is_best(s, b)].name@
}

/// At most one pool of a registry is the best one.
pub proof fn lemma_best_unique(s: Seq<Pool>, a: int, b: int)
    requires
        is_best(s, a),
        is_best(s, b),
    ensures
        a == b,
{
    if a != b {
        assert(s[a].apy == s[b].apy);
        assert(name_lt(s[a].name@, s[b].name@));
        lemma_name_lt_asymmetric(s[a].name@, s[b].name@);
    }
}

/// The selected pool is the best one, whichever run selects it.
pub proof fn lemma_best_name(s: Seq<Pool>, b: int)
    requires
        is_best(s, b),
    ensures
        best_name(s) == s[b].name@,
{
    let c = choose|c: int| is_best(s, c);
    lemma_best_unique(s, b, c);
}

/// Between two pools of equal, highest yield, the one whose name sorts
/// first is selected; the other never is.
pub proof fn lemma_tie_break(s: Seq<Pool>, i: int, j: int, b: int)
    requires
        0 <= i < s.len(),
        0 <= j < s.len(),
        forall|k: int| 0 <= k < s.len() ==> #[trigger] s[k].apy <= s[i].apy,
        s[i].apy == s[j].apy,
        name_lt(s[i].name@, s[j].name@),
        is_best(s, b),
    ensures
        b != j,
        s[b].apy == s[i].apy,
{
    if b == j {
        assert(i != j) by {
            crate::order::lemma_name_lt_irreflexive(s[i].name@);
        }
        lemma_name_lt_asymmetric(s[i].name@, s[j].name@);
    }
}

/// The pools, sorted by name, with unique names.
pub struct PoolRegistry {
    pools: Vec<Pool>,
}

impl View for PoolRegistry {
    type V = Seq<Pool>;

    closed spec fn view(&self) -> Seq<Pool> {
        self.pools@
    }
}

impl PoolRegistry {
    pub closed spec fn wf(&self) -> bool {
        sorted_by_name(self.pools@)
    }

    /// A valid registry lists its pools sorted by name.
    pub proof fn lemma_sorted(&self)
        requires
            self.wf(),
        ensures
            sorted_by_name(self@),
    {
    }

    /// An empty registry.
    pub fn new() -> (r: Self)
        ensures
            r.wf(),
            r@ == Seq::<Pool>::empty(),
    {
        PoolRegistry { pools: Vec::new() }
    }

    /// Adds `pool` in its place by name. Refused, with no change, when a
    /// pool of that name is already listed.
    pub fn add_pool(&mut self, pool: Pool) -> (added: bool)
        requires
            old(self).wf(),
        ensures
            final(self).wf(),
            added == !has_pool(old(self)@, pool.name@),
            !added ==> final(self)@ == old(self)@,
            added ==> exists|p: int| 0 <= p <= old(self)@.len() && final(self)@ == old(self)@.insert(p, pool),
    {
        let mut i: usize = 0;
        let mut placed = false;
        while !placed && i < self.pools.len()
            invariant
                self.pools@ == old(self).pools@,
                sorted_by_name(self.pools@),
                i <= self.pools@.len(),
                forall|k: int| 0 <= k < i ==> name_lt(#[trigger] self.pools@[k].name@, pool.name@),
                placed ==> i < self.pools@.len() && name_lt(pool.name@, self.pools@[i as int].name@),
            decreases self.pools@.len() - i + (if placed { 0int } else { 1int }),
        {
            if self.pools[i].name == pool.name {
                assert(has_pool(self.pools@, pool.name@));
                return false;
            }
            if name_less(&pool.name, &self.pools[i].name) {
                placed = true;
            } else {
                proof {
                    lemma_name_lt_total(self.pools@[i as int].name@, pool.name@);
                }
                i += 1;
            }
        }
        let ghost s = self.pools@;
        proof {
            assert forall|k: int| i <= k < s.len() implies name_lt(pool.name@, #[trigger] s[k].name@) by {
                if k > i {
                    lemma_name_lt_transitive(pool.name@, s[i as int].name@, s[k].name@);
                }
            }
            assert forall|k: int| 0 <= k < s.len() implies #[trigger] s[k].name@ != pool.name@ by {
                crate::order::lemma_name_lt_irreflexive(pool.name@);
            }
        }
        let ghost pg = pool;
        self.pools.insert(i, pool);
        proof {
            assert(self.pools@ == s.insert(i as int, pg));
            assert(self@ == old(self)@.insert(i as int, pg));
            let t = self.pools@;
            assert forall|a: int, b: int| 0 <= a < b < t.len() implies name_lt(#[trigger] t[a].name@, #[trigger] t[b].name@) by {
                if b < i {
                    assert(t[a] == s[a] && t[b] == s[b]);
                } else if b == i {
                    assert(t[a] == s[a]);
                } else if a == i {
                    assert(t[b] == s[b - 1]);
                } else if a < i {
                    assert(t[a] == s[a] && t[b] == s[b - 1]);
                } else {
                    assert(t[a] == s[a - 1] && t[b] == s[b - 1]);
                }
            }
        }
        true
    }

    /// The pools, sorted by name.
    pub fn list_pools(&self) -> (r: &Vec<Pool>)
        ensures
            r@ == self@,
            self.wf() ==> sorted_by_name(r@),
    {
        &self.pools
    }

    /// The position of the pool named `name`, if listed.
    fn position(&self, name: &String) -> (r: Option<usize>)
        ensures
            r is None ==> !has_pool(self@, name@),
            r matches Some(i) ==> i < self@.len() && self@[i as int].name@ == name@,
    {
        let mut i: usize = 0;
        while i < self.pools.len()
            invariant
                i <= self.pools@.len(),
                forall|k: int| 0 <= k < i ==> #[trigger] self.pools@[k].name@ != name@,
            decreases self.pools@.len() - i,
        {
            if self.pools[i].name == *name {
                return Some(i);
            }
            i += 1;
        }
        None
    }

    /// The pool named `name`, if listed.
    pub fn pool_named(&self, name: &String) -> (r: Option<&Pool>)
        ensures
            r is None <==> !has_pool(self@, name@),
            r matches Some(p) ==> p.name@ == name@ && exists|i: int| 0 <= i < self@.len() && self@[i] == *p,
    {
        match self.position(name) {
            Some(i) => Some(&self.pools[i]),
            None => None,
        }
    }

    /// The reported yield of the pool named `name`, if listed.
    pub fn apy_of(&self, name: &String) -> (r: Option<u64>)
        ensures
            r is None <==> !has_pool(self@, name@),
            r matches Some(a) ==> exists|i: int| 0 <= i < self@.len() && self@[i].name@ == name@ && self@[i].apy == a,
    {
        match self.position(name) {
            Some(i) => Some(self.pools[i].apy),
            None => None,
        }
    }

    /// Records a new reported yield for the pool named `name`; false, with
    /// no change, when no such pool is listed.
    pub fn set_apy(&mut self, name: &String, apy: u64) -> (updated: bool)
        requires
            old(self).wf(),
        ensures
            final(self).wf(),
            updated == has_pool(old(self)@, name@),
            !updated ==> final(self)@ == old(self)@,
            updated ==> exists|i: int|
                0 <= i < old(self)@.len() && old(self)@[i].name@ == name@
                    && final(self)@ == old(self)@.update(i, Pool { apy, ..old(self)@[i] }),
    {
        match self.position(name) {
            Some(i) => {
                let old_pool = self.pools.remove(i);
                let p = Pool { apy, ..old_pool };
                self.pools.insert(i, p);
                proof {
                    assert(self.pools@ =~= old(self)@.update(i as int, p));
                }
                true
            },
            None => false,
        }
    }

    /// The position of the best pool: highest yield, ties going to the
    /// name that sorts first. None when the registry is empty.
    pub fn best_pool(&self) -> (r: Option<usize>)
        requires
            self.wf(),
        ensures
            r is None <==> self@.len() == 0,
            r matches Some(b) ==> is_best(self@, b as int),
    {
        if self.pools.len() == 0 {
            return None;
        }
        let mut b: usize = 0;
        let mut i: usize = 1;
        while i < self.pools.len()
            invariant
                sorted_by_name(self.pools@),
                b < i <= self.pools@.len(),
                forall|k: int| 0 <= k < i ==> #[trigger] self.pools@[k].apy <= self.pools@[b as int].apy,
                forall|k: int|
                    0 <= k < i && #[trigger] self.pools@[k].apy == self.pools@[b as int].apy ==> b <= k,
            decreases self.pools@.len() - i,
        {
            if self.pools[i].apy > self.pools[b].apy {
                b = i;
            }
            i += 1;
        }
        proof {
            let s = self.pools@;
            assert forall|k: int|
                0 <= k < s.len() && k != b && #[trigger] s[k].apy == s[b as int].apy implies name_lt(s[b as int].name@, s[k].name@) by {
                assert(b < k);
            }
        }
        Some(b)
    }
}

} // verus!
