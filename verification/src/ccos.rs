//! CCOS elastic KV-cache: Soft-Paging of SLHA v2 tiles.
//!
//! Every slot of the arena is HOT (latent + residual live, 128 bytes), WARM
//! (residual masked and `lambda = 0`, 96 bytes) or COLD (evicted, slot free
//! for recycling). `page_out` turns a HOT tile WARM in place, `evict` frees a
//! slot onto a free list that `insert` recycles, and `enforce_budget` bounds
//! the logical footprint by a byte budget: first it pages HOT tiles out in the
//! paging order of the policy, then, if that is not enough, it evicts live
//! tiles in the eviction order of the policy.
use vstd::prelude::*;
use crate::attention::slha_v2::{SciRustSlhaTile, FLAG_WARM, RESIDUAL_WORDS};
use crate::metrics::total_key;

verus! {

/// Logical footprint of a HOT tile, in bytes.
pub const HOT_BYTES: usize = 128;

/// Logical footprint of a WARM tile (residual bitmap released), in bytes.
pub const WARM_BYTES: usize = 96;

/// Soft-Paging state of a cache slot.
#[derive(Clone, Copy, Debug, PartialEq, Eq, Structural)]
pub enum TileState {
    /// Latent and residual live.
    Hot,
    /// Residual released: the score uses the latent only.
    Warm,
    /// Evicted: the slot is free for recycling.
    Cold,
}

/// Which tiles `enforce_budget` pages out and evicts first.
#[derive(Clone, Copy, Debug, PartialEq, Eq, Structural)]
pub enum PageOutPolicy {
    /// Page out and evict the lowest residual energy sigma_E first (ties: oldest).
    LowestImpactFirst,
    /// Page out and evict the oldest insertion first.
    OldestFirst,
    /// Page out the lowest sigma_E first, evict the oldest first.
    Hybrid,
}

impl Default for PageOutPolicy {
    /// The hybrid policy.
    fn default() -> (r: Self)
        ensures
            r == PageOutPolicy::Hybrid,
    {
        PageOutPolicy::Hybrid
    }
}

/// Number of slots in state `t`.
pub open spec fn count_state(s: Seq<TileState>, t: TileState) -> nat
    decreases s.len(),
{
    if s.len() == 0 {
        0
    } else {
        count_state(s.drop_last(), t) + if s.last() == t {
            1nat
        } else {
            0nat
        }
    }
}

/// Logical footprint of a cache whose slots are in the given states.
pub open spec fn live_bytes_of(s: Seq<TileState>) -> nat {
    HOT_BYTES as nat * count_state(s, TileState::Hot) + WARM_BYTES as nat * count_state(
        s,
        TileState::Warm,
    )
}

/// The non-COLD slots among the first `m`, in increasing order.
pub open spec fn live_slots_upto(s: Seq<TileState>, m: int) -> Seq<usize>
    decreases m,
{
    if m <= 0 {
        Seq::empty()
    } else if s[m - 1] != TileState::Cold {
        live_slots_upto(s, m - 1).push((m - 1) as usize)
    } else {
        live_slots_upto(s, m - 1)
    }
}

/// The tile as stored once paged out: WARM flag set, residual bitmap zeroed,
/// `lambda` set to `+0.0`; everything else kept.
pub open spec fn paged_tile(t: SciRustSlhaTile) -> SciRustSlhaTile {
    SciRustSlhaTile {
        residual_bitmap: [0u64; RESIDUAL_WORDS],
        dynamic_lambda_bits: 0,
        flags: t.flags | FLAG_WARM,
        ..t
    }
}

/// The tile as the cache stores it on insertion: a tile already flagged WARM
/// is stored paged out, any other as given.
pub open spec fn stored_tile(t: SciRustSlhaTile) -> SciRustSlhaTile {
    if t.warm() {
        paged_tile(t)
    } else {
        t
    }
}

/// Lexicographic order on (first key, second key, slot index).
pub open spec fn key_before(a0: int, a1: int, i: int, b0: int, b1: int, j: int) -> bool {
    a0 < b0 || (a0 == b0 && (a1 < b1 || (a1 == b1 && i < j)))
}

/// Soft-Paging elastic KV-cache over an arena of tile slots.
pub struct ElasticKvCache {
    tiles: Vec<SciRustSlhaTile>,
    states: Vec<TileState>,
    ages: Vec<u64>,
    free: Vec<usize>,
    budget: usize,
    policy: PageOutPolicy,
    clock: u64,
    hot: usize,
    warm: usize,
}

impl ElasticKvCache {
    /// The stored tiles, one per slot.
    pub closed spec fn tiles(&self) -> Seq<SciRustSlhaTile> {
        self.tiles@
    }

    /// The state of each slot.
    pub closed spec fn states(&self) -> Seq<TileState> {
        self.states@
    }

    /// The insertion time of the tile in each slot.
    pub closed spec fn ages(&self) -> Seq<u64> {
        self.ages@
    }

    /// The free list of COLD slots; `insert` recycles its last entry first.
    pub closed spec fn free_slots(&self) -> Seq<usize> {
        self.free@
    }

    /// The byte budget.
    pub closed spec fn budget_spec(&self) -> nat {
        self.budget as nat
    }

    /// The page-out / eviction policy.
    pub closed spec fn policy_spec(&self) -> PageOutPolicy {
        self.policy
    }

    /// The insertion clock: the age the next inserted tile gets.
    pub closed spec fn clock(&self) -> u64 {
        self.clock
    }

    /// Number of slots in the arena.
    pub open spec fn slot_count(&self) -> nat {
        self.states().len()
    }

    /// The logical footprint in bytes.
    pub open spec fn live(&self) -> nat {
        live_bytes_of(self.states())
    }

    /// The paging-order key of slot `i` under the cache's policy.
    pub open spec fn page_key(&self, i: int) -> (int, int) {
        match self.policy_spec() {
            PageOutPolicy::OldestFirst => (self.ages()[i] as int, 0),
            _ => (total_key(self.tiles()[i].residual_sigma_bits), self.ages()[i] as int),
        }
    }

    /// The eviction-order key of slot `i` under the cache's policy.
    pub open spec fn evict_key(&self, i: int) -> (int, int) {
        match self.policy_spec() {
            PageOutPolicy::LowestImpactFirst => (
                total_key(self.tiles()[i].residual_sigma_bits),
                self.ages()[i] as int,
            ),
            _ => (self.ages()[i] as int, 0),
        }
    }

    /// Slot `i` is paged out before slot `j`.
    pub open spec fn pages_before(&self, i: int, j: int) -> bool {
        key_before(self.page_key(i).0, self.page_key(i).1, i, self.page_key(j).0, self.page_key(j).1, j)
    }

    /// Slot `i` is evicted before slot `j`.
    pub open spec fn evicts_before(&self, i: int, j: int) -> bool {
        key_before(
            self.evict_key(i).0,
            self.evict_key(i).1,
            i,
            self.evict_key(j).0,
            self.evict_key(j).1,
            j,
        )
    }

    /// Internal consistency: parallel arrays, byte counters, free list.
    pub closed spec fn wf(&self) -> bool {
        let n = self.states@.len();
        &&& self.tiles@.len() == n
        &&& self.ages@.len() == n
        &&& n < usize::MAX / HOT_BYTES
        &&& self.hot == count_state(self.states@, TileState::Hot)
        &&& self.warm == count_state(self.states@, TileState::Warm)
        &&& forall|i: int| 0 <= i < n ==> #[trigger] self.ages@[i] < self.clock
        &&& forall|i: int, j: int|
            0 <= i < n && 0 <= j < n && i != j ==> #[trigger] self.ages@[i] != #[trigger] self.ages@[j]
        &&& self.free@.no_duplicates()
        &&& forall|p: int|
            0 <= p < self.free@.len() ==> self.free@[p] < n && self.states@[self.free@[p] as int]
                == TileState::Cold
        &&& forall|i: int|
            0 <= i < n && self.states@[i] == TileState::Cold ==> #[trigger] self.free@.contains(
                i as usize,
            )
        &&& forall|i: int|
            0 <= i < n && self.states@[i] == TileState::Warm ==> #[trigger] self.tiles@[i].warm()
        &&& forall|i: int|
            0 <= i < n && self.states@[i] == TileState::Hot ==> !#[trigger] self.tiles@[i].warm()
    }

    /// An empty cache with the given byte budget and policy.
    pub fn new(budget: usize, policy: PageOutPolicy) -> (c: Self)
        ensures
            c.wf(),
            c.slot_count() == 0,
            c.free_slots().len() == 0,
            c.budget_spec() == budget,
            c.policy_spec() == policy,
            c.clock() == 0,
    {
        ElasticKvCache {
            tiles: Vec::new(),
            states: Vec::new(),
            ages: Vec::new(),
            free: Vec::new(),
            budget,
            policy,
            clock: 0,
            hot: 0,
            warm: 0,
        }
    }

    /// An empty cache with the given byte budget and the default (hybrid) policy.
    pub fn with_budget(budget: usize) -> (c: Self)
        ensures
            c.wf(),
            c.slot_count() == 0,
            c.free_slots().len() == 0,
            c.budget_spec() == budget,
            c.policy_spec() == PageOutPolicy::Hybrid,
            c.clock() == 0,
    {
        Self::new(budget, PageOutPolicy::default())
    }

    /// Number of slots in the arena (live or COLD).
    pub fn len(&self) -> (r: usize)
        requires
            self.wf(),
        ensures
            r == self.slot_count(),
    {
        self.states.len()
    }

    /// The byte budget.
    pub fn budget(&self) -> (r: usize)
        ensures
            r == self.budget_spec(),
    {
        self.budget
    }

    /// The policy.
    pub fn policy(&self) -> (r: PageOutPolicy)
        ensures
            r == self.policy_spec(),
    {
        self.policy
    }

    /// The age the next inserted tile gets (the number of insertions so far).
    pub fn next_age(&self) -> (r: u64)
        ensures
            r == self.clock(),
    {
        self.clock
    }

    /// The number of COLD slots waiting on the free list.
    pub fn free_len(&self) -> (r: usize)
        ensures
            r == self.free_slots().len(),
    {
        self.free.len()
    }

    /// The state of a slot.
    pub fn state(&self, slot: usize) -> (r: TileState)
        requires
            self.wf(),
            slot < self.slot_count(),
        ensures
            r == self.states()[slot as int],
    {
        self.states[slot]
    }

    /// The tile in a slot, or `None` if the slot is COLD.
    pub fn get(&self, slot: usize) -> (r: Option<&SciRustSlhaTile>)
        requires
            self.wf(),
            slot < self.slot_count(),
        ensures
            self.states()[slot as int] == TileState::Cold ==> r is None,
            self.states()[slot as int] != TileState::Cold ==> r == Some(&self.tiles()[slot as int]),
    {
        if self.states[slot] == TileState::Cold {
            None
        } else {
            Some(&self.tiles[slot])
        }
    }

    /// The logical footprint: 128 bytes per HOT slot, 96 per WARM slot.
    pub fn live_bytes(&self) -> (r: usize)
        requires
            self.wf(),
        ensures
            r == self.live(),
    {
        proof {
            lemma_count_total(self.states@);
        }
        HOT_BYTES * self.hot + WARM_BYTES * self.warm
    }

    /// The number of (HOT, WARM, COLD) slots.
    pub fn counts(&self) -> (r: (usize, usize, usize))
        requires
            self.wf(),
        ensures
            r.0 == count_state(self.states(), TileState::Hot),
            r.1 == count_state(self.states(), TileState::Warm),
            r.2 == count_state(self.states(), TileState::Cold),
            r.0 + r.1 + r.2 == self.slot_count(),
    {
        proof {
            lemma_count_total(self.states@);
        }
        (self.hot, self.warm, self.states.len() - self.hot - self.warm)
    }

    /// Insert a tile, recycling the most recently freed COLD slot if any,
    /// else appending a slot. A tile flagged WARM is stored paged out and
    /// counted WARM; any other tile is HOT. Returns the slot.
    pub fn insert(&mut self, tile: SciRustSlhaTile) -> (slot: usize)
        requires
            old(self).wf(),
            old(self).free_slots().len() > 0 || old(self).slot_count() + 1 < usize::MAX / HOT_BYTES,
            old(self).clock() < u64::MAX,
        ensures
            final(self).wf(),
            inserted(*old(self), *final(self), tile, slot),
    {
        let warm = tile.is_warm();
        let st = if warm {
            TileState::Warm
        } else {
            TileState::Hot
        };
        let stored = if warm {
            page_tile(tile)
        } else {
            tile
        };
        let age = self.clock;
        let ghost s0 = self.states@;
        proof {
            lemma_count_total(s0);
        }
        let slot;
        if self.free.len() > 0 {
            let s = self.free.pop().unwrap();
            proof {
                assert(old(self).free@.contains(s));
                assert(s0[s as int] == TileState::Cold);
                lemma_count_update(s0, s as int, st, TileState::Hot);
                lemma_count_update(s0, s as int, st, TileState::Warm);
            }
            self.states.set(s, st);
            self.tiles.set(s, stored);
            self.ages.set(s, age);
            slot = s;
        } else {
            proof {
                lemma_count_push(s0, st, TileState::Hot);
                lemma_count_push(s0, st, TileState::Warm);
            }
            slot = self.states.len();
            self.states.push(st);
            self.tiles.push(stored);
            self.ages.push(age);
        }
        if warm {
            self.warm = self.warm + 1;
        } else {
            self.hot = self.hot + 1;
        }
        self.clock = self.clock + 1;
        proof {
            let n = self.states@.len();
            let f0 = old(self).free@;
            assert forall|p: int| 0 <= p < self.free@.len() implies self.free@[p] < n
                && self.states@[self.free@[p] as int] == TileState::Cold by {
                assert(self.free@[p] == f0[p]);
                if old(self).free@.len() > 0 {
                    assert(f0[p] != f0[f0.len() - 1]);
                }
            }
            assert forall|i: int| 0 <= i < n && self.states@[i] == TileState::Cold implies #[trigger] self.free@.contains(
                i as usize,
            ) by {
                assert(i != slot);
                assert(s0[i] == TileState::Cold);
                assert(f0.contains(i as usize));
                let q = choose|q: int| 0 <= q < f0.len() && f0[q] == i as usize;
                if f0.len() > 0 {
                    assert(q != f0.len() - 1);
                }
                assert(self.free@[q] == i as usize);
            }
        }
        slot
    }

    /// Page a HOT slot out to WARM: set the WARM flag, zero the residual
    /// bitmap, zero `lambda`. WARM and COLD slots are left as they are.
    pub fn page_out(&mut self, slot: usize)
        requires
            old(self).wf(),
            slot < old(self).slot_count(),
        ensures
            final(self).wf(),
            paged_out(*old(self), *final(self), slot),
    {
        if self.states[slot] == TileState::Hot {
            let ghost s0 = self.states@;
            proof {
                lemma_count_update(s0, slot as int, TileState::Warm, TileState::Hot);
                lemma_count_update(s0, slot as int, TileState::Warm, TileState::Warm);
                lemma_count_total(s0);
            }
            let t = page_tile(self.tiles[slot]);
            self.tiles.set(slot, t);
            self.states.set(slot, TileState::Warm);
            self.hot = self.hot - 1;
            self.warm = self.warm + 1;
        }
    }

    /// Evict a slot to COLD and put it on the free list. COLD slots are left
    /// as they are.
    pub fn evict(&mut self, slot: usize)
        requires
            old(self).wf(),
            slot < old(self).slot_count(),
        ensures
            final(self).wf(),
            evicted(*old(self), *final(self), slot),
    {
        let st = self.states[slot];
        if st != TileState::Cold {
            let ghost s0 = self.states@;
            proof {
                lemma_count_update(s0, slot as int, TileState::Cold, TileState::Hot);
                lemma_count_update(s0, slot as int, TileState::Cold, TileState::Warm);
                lemma_count_total(s0);
                assert(!self.free@.contains(slot));
            }
            self.states.set(slot, TileState::Cold);
            self.free.push(slot);
            if st == TileState::Hot {
                self.hot = self.hot - 1;
            } else {
                self.warm = self.warm - 1;
            }
            proof {
                let f = self.free@;
                assert forall|i: int| 0 <= i < self.states@.len() && self.states@[i] == TileState::Cold implies #[trigger] f.contains(
                    i as usize,
                ) by {
                    if i == slot {
                        assert(f[f.len() - 1] == slot);
                    } else {
                        assert(old(self).free@.contains(i as usize));
                        let q = choose|q: int| 0 <= q < old(self).free@.len() && old(self).free@[q] == i as usize;
                        assert(f[q] == i as usize);
                    }
                }
            }
        }
    }

    fn pages_before_exec(&self, i: usize, j: usize) -> (r: bool)
        requires
            self.wf(),
            i < self.slot_count(),
            j < self.slot_count(),
        ensures
            r == self.pages_before(i as int, j as int),
    {
        let ai = self.ages[i];
        let aj = self.ages[j];
        match self.policy {
            PageOutPolicy::OldestFirst => ai < aj || (ai == aj && i < j),
            _ => {
                let ki = self.tiles[i].impact_key();
                let kj = self.tiles[j].impact_key();
                ki < kj || (ki == kj && (ai < aj || (ai == aj && i < j)))
            },
        }
    }

    fn evicts_before_exec(&self, i: usize, j: usize) -> (r: bool)
        requires
            self.wf(),
            i < self.slot_count(),
            j < self.slot_count(),
        ensures
            r == self.evicts_before(i as int, j as int),
    {
        let ai = self.ages[i];
        let aj = self.ages[j];
        match self.policy {
            PageOutPolicy::LowestImpactFirst => {
                let ki = self.tiles[i].impact_key();
                let kj = self.tiles[j].impact_key();
                ki < kj || (ki == kj && (ai < aj || (ai == aj && i < j)))
            },
            _ => ai < aj || (ai == aj && i < j),
        }
    }

    /// The HOT slot that comes first in the paging order, if any.
    fn page_victim(&self) -> (r: Option<usize>)
        requires
            self.wf(),
        ensures
            r is None ==> forall|i: int|
                0 <= i < self.slot_count() ==> self.states()[i] != TileState::Hot,
            r matches Some(v) ==> {
                &&& v < self.slot_count()
                &&& self.states()[v as int] == TileState::Hot
                &&& forall|j: int|
                    0 <= j < self.slot_count() && j != v && self.states()[j] == TileState::Hot
                        ==> self.pages_before(v as int, j)
            },
    {
        let n = self.states.len();
        let mut best: Option<usize> = None;
        let mut i: usize = 0;
        while i < n
            invariant
                self.wf(),
                n == self.slot_count(),
                i <= n,
                best is None ==> forall|j: int| 0 <= j < i ==> self.states()[j] != TileState::Hot,
                best matches Some(b) ==> {
                    &&& b < i
                    &&& self.states()[b as int] == TileState::Hot
                    &&& forall|j: int|
                        0 <= j < i && j != b && self.states()[j] == TileState::Hot
                            ==> self.pages_before(b as int, j)
                },
            decreases n - i,
        {
            if self.states[i] == TileState::Hot {
                match best {
                    None => {
                        best = Some(i);
                    },
                    Some(b) => {
                        if self.pages_before_exec(i, b) {
                            best = Some(i);
                        }
                    },
                }
            }
            i = i + 1;
        }
        best
    }

    /// The live slot that comes first in the eviction order, if any.
    fn evict_victim(&self) -> (r: Option<usize>)
        requires
            self.wf(),
        ensures
            r is None ==> forall|i: int|
                0 <= i < self.slot_count() ==> self.states()[i] == TileState::Cold,
            r matches Some(v) ==> {
                &&& v < self.slot_count()
                &&& self.states()[v as int] != TileState::Cold
                &&& forall|j: int|
                    0 <= j < self.slot_count() && j != v && self.states()[j] != TileState::Cold
                        ==> self.evicts_before(v as int, j)
            },
    {
        let n = self.states.len();
        let mut best: Option<usize> = None;
        let mut i: usize = 0;
        while i < n
            invariant
                self.wf(),
                n == self.slot_count(),
                i <= n,
                best is None ==> forall|j: int| 0 <= j < i ==> self.states()[j] == TileState::Cold,
                best matches Some(b) ==> {
                    &&& b < i
                    &&& self.states()[b as int] != TileState::Cold
                    &&& forall|j: int|
                        0 <= j < i && j != b && self.states()[j] != TileState::Cold
                            ==> self.evicts_before(b as int, j)
                },
            decreases n - i,
        {
            if self.states[i] != TileState::Cold {
                match best {
                    None => {
                        best = Some(i);
                    },
                    Some(b) => {
                        if self.evicts_before_exec(i, b) {
                            best = Some(i);
                        }
                    },
                }
            }
            i = i + 1;
        }
        best
    }

    /// Bound the logical footprint by the budget. While over budget, page out
    /// the HOT slot first in the paging order; once no HOT slot is left and the
    /// cache is still over budget, evict the live slot first in the eviction
    /// order. Nothing changes when the cache is within budget.
    pub fn enforce_budget(&mut self)
        requires
            old(self).wf(),
        ensures
            final(self).wf(),
            final(self).live() <= final(self).budget_spec(),
            budget_enforced(*old(self), *final(self)),
    {
        let ghost o = *old(self);
        let n = self.states.len();
        proof {
            lemma_count_total(o.states());
        }
        // Phase 1: page out HOT tiles in paging order.
        let mut done = false;
        while !done && self.live_bytes() > self.budget
            invariant
                self.wf(),
                o.wf(),
                n == o.slot_count(),
                self.slot_count() == n,
                self.ages() == o.ages(),
                self.clock() == o.clock(),
                self.budget_spec() == o.budget_spec(),
                self.policy_spec() == o.policy_spec(),
                self.free_slots() == o.free_slots(),
                self.live() <= o.live(),
                o.live() <= o.budget_spec() ==> self.states() == o.states() && self.tiles()
                    == o.tiles(),
                done ==> count_state(self.states(), TileState::Hot) == 0,
                count_state(self.states(), TileState::Cold) == count_state(o.states(), TileState::Cold),
                forall|i: int|
                    0 <= i < n ==> {
                        let a = o.states()[i];
                        let b = #[trigger] self.states()[i];
                        b == a || (a == TileState::Hot && b == TileState::Warm)
                    },
                forall|i: int|
                    0 <= i < n ==> #[trigger] self.tiles()[i] == if o.states()[i] == TileState::Hot
                        && self.states()[i] != TileState::Hot {
                        paged_tile(o.tiles()[i])
                    } else {
                        o.tiles()[i]
                    },
                forall|i: int, j: int|
                    0 <= i < n && 0 <= j < n && o.states()[i] == TileState::Hot && self.states()[i]
                        != TileState::Hot && self.states()[j] == TileState::Hot ==> o.pages_before(
                        i,
                        j,
                    ),
                count_state(self.states(), TileState::Hot) < count_state(o.states(), TileState::Hot)
                    ==> self.live() + (HOT_BYTES - WARM_BYTES) > self.budget_spec(),
            decreases count_state(self.states(), TileState::Hot) + if done {
                0int
            } else {
                1int
            },
        {
            match self.page_victim() {
                None => {
                    proof {
                        lemma_count_zero(self.states(), TileState::Hot);
                    }
                    done = true;
                },
                Some(v) => {
                    let ghost before = *self;
                    proof {
                        lemma_count_update(before.states(), v as int, TileState::Warm, TileState::Hot);
                        lemma_count_update(before.states(), v as int, TileState::Warm, TileState::Warm);
                        lemma_count_update(before.states(), v as int, TileState::Warm, TileState::Cold);
                    }
                    self.page_out(v);
                    proof {
                        assert forall|i: int, j: int|
                            0 <= i < n && 0 <= j < n && o.states()[i] == TileState::Hot
                                && self.states()[i] != TileState::Hot && self.states()[j]
                                == TileState::Hot implies o.pages_before(i, j) by {
                            if i == v {
                                assert(j != v);
                                assert(before.pages_before(v as int, j));
                                assert(before.tiles()[i].residual_sigma_bits
                                    == o.tiles()[i].residual_sigma_bits);
                                assert(before.tiles()[j].residual_sigma_bits
                                    == o.tiles()[j].residual_sigma_bits);
                            } else {
                                assert(before.states()[i] != TileState::Hot);
                                assert(before.states()[j] == TileState::Hot);
                            }
                        }
                        assert forall|i: int| 0 <= i < n implies #[trigger] self.tiles()[i] == if o.states()[i]
                            == TileState::Hot && self.states()[i] != TileState::Hot {
                            paged_tile(o.tiles()[i])
                        } else {
                            o.tiles()[i]
                        } by {
                            if i == v {
                                assert(before.states()[i] == TileState::Hot);
                                assert(before.tiles()[i] == o.tiles()[i]);
                            } else {
                                assert(self.tiles()[i] == before.tiles()[i]);
                                assert(self.states()[i] == before.states()[i]);
                            }
                        }
                    }
                },
            }
        }
        // Phase 2: evict live tiles in eviction order.
        let ghost mid = *self;
        let mut done = false;
        while !done && self.live_bytes() > self.budget
            invariant
                self.wf(),
                o.wf(),
                mid.wf(),
                n == o.slot_count(),
                self.slot_count() == n,
                mid.slot_count() == n,
                mid.budget_spec() == o.budget_spec(),
                mid.policy_spec() == o.policy_spec(),
                mid.ages() == o.ages(),
                count_state(self.states(), TileState::Cold) <= n,
                count_state(self.states(), TileState::Cold) >= count_state(mid.states(), TileState::Cold),
                count_state(self.states(), TileState::Cold) == count_state(mid.states(), TileState::Cold)
                    ==> self.states() == mid.states(),
                mid.free_slots().len() <= self.free_slots().len(),
                self.ages() == o.ages(),
                self.clock() == o.clock(),
                self.budget_spec() == o.budget_spec(),
                self.policy_spec() == o.policy_spec(),
                self.tiles() == mid.tiles(),
                mid.free_slots() == o.free_slots(),
                self.live() <= mid.live(),
                mid.live() <= o.live(),
                o.live() <= o.budget_spec() ==> mid.states() == o.states() && mid.tiles()
                    == o.tiles(),
                mid.live() <= o.budget_spec() ==> self.states() == mid.states() && self.free_slots()
                    == mid.free_slots(),
                mid.live() > mid.budget_spec() ==> count_state(mid.states(), TileState::Hot) == 0,
                count_state(mid.states(), TileState::Cold) == count_state(o.states(), TileState::Cold),
                forall|i: int|
                    0 <= i < n ==> {
                        let a = o.states()[i];
                        let b = #[trigger] mid.states()[i];
                        b == a || (a == TileState::Hot && b == TileState::Warm)
                    },
                forall|i: int|
                    0 <= i < n ==> #[trigger] mid.tiles()[i] == if o.states()[i] == TileState::Hot
                        && mid.states()[i] != TileState::Hot {
                        paged_tile(o.tiles()[i])
                    } else {
                        o.tiles()[i]
                    },
                forall|i: int, j: int|
                    0 <= i < n && 0 <= j < n && o.states()[i] == TileState::Hot && mid.states()[i]
                        != TileState::Hot && mid.states()[j] == TileState::Hot ==> o.pages_before(
                        i,
                        j,
                    ),
                count_state(mid.states(), TileState::Hot) < count_state(o.states(), TileState::Hot)
                    ==> mid.live() + (HOT_BYTES - WARM_BYTES) > mid.budget_spec(),
                forall|i: int|
                    0 <= i < n ==> {
                        let a = mid.states()[i];
                        let b = #[trigger] self.states()[i];
                        b == a || (a != TileState::Cold && b == TileState::Cold)
                    },
                forall|i: int|
                    0 <= i < n ==> (#[trigger] self.states()[i] == TileState::Hot <==> mid.states()[i]
                        == TileState::Hot),
                done ==> forall|i: int| 0 <= i < n ==> #[trigger] self.states()[i] == TileState::Cold,
                count_state(self.states(), TileState::Cold) > count_state(mid.states(), TileState::Cold)
                    ==> count_state(self.states(), TileState::Hot) == 0 && self.live() + WARM_BYTES
                    > self.budget_spec(),
                forall|i: int, j: int|
                    0 <= i < n && 0 <= j < n && mid.states()[i] != TileState::Cold && self.states()[i]
                        == TileState::Cold && self.states()[j] == TileState::Warm ==> o.evicts_before(
                        i,
                        j,
                    ),
                self.free_slots().subrange(0, mid.free_slots().len() as int) == mid.free_slots(),
                forall|p: int|
                    mid.free_slots().len() <= p < self.free_slots().len() ==> mid.states()[#[trigger] self.free_slots()[p] as int]
                        != TileState::Cold,
                forall|p: int, q: int|
                    mid.free_slots().len() <= p < q < self.free_slots().len() ==> o.evicts_before(
                        self.free_slots()[p] as int,
                        self.free_slots()[q] as int,
                    ),
            decreases n - count_state(self.states(), TileState::Cold) + if done {
                0int
            } else {
                1int
            },
        {
            match self.evict_victim() {
                None => {
                    done = true;
                },
                Some(v) => {
                    let ghost before = *self;
                    proof {
                        lemma_count_total(before.states());
                        lemma_count_total(mid.states());
                        lemma_count_zero(before.states(), TileState::Hot);
                        lemma_count_update(before.states(), v as int, TileState::Cold, TileState::Hot);
                        lemma_count_update(before.states(), v as int, TileState::Cold, TileState::Warm);
                        lemma_count_update(before.states(), v as int, TileState::Cold, TileState::Cold);
                        assert(mid.live() > mid.budget_spec());
                        lemma_count_zero(mid.states(), TileState::Hot);
                        assert(before.states()[v as int] == TileState::Warm);
                    }
                    self.evict(v);
                    proof {
                        lemma_count_total(self.states());
                        lemma_count_zero(self.states(), TileState::Hot);
                        assert forall|i: int, j: int|
                            0 <= i < n && 0 <= j < n && mid.states()[i] != TileState::Cold
                                && self.states()[i] == TileState::Cold && self.states()[j]
                                == TileState::Warm implies o.evicts_before(i, j) by {
                            if i == v {
                                assert(j != v);
                                assert(before.evicts_before(v as int, j));
                            } else {
                                assert(before.states()[i] == TileState::Cold);
                                assert(before.states()[j] == TileState::Warm);
                            }
                        }
                        let f = self.free_slots();
                        let m0 = mid.free_slots().len() as int;
                        assert(f.subrange(0, m0) =~= mid.free_slots());
                        assert forall|p: int|
                            m0 <= p < f.len() implies mid.states()[#[trigger] f[p] as int]
                            != TileState::Cold by {
                            if p < f.len() - 1 {
                                assert(f[p] == before.free_slots()[p]);
                            }
                        }
                        assert forall|p: int, q: int|
                            m0 <= p < q < f.len() implies o.evicts_before(f[p] as int, f[q] as int) by {
                            assert(f[p] == before.free_slots()[p]);
                            if q == f.len() - 1 {
                                assert(f[q] == v);
                                assert(before.states()[f[p] as int] == TileState::Cold);
                                assert(mid.states()[f[p] as int] != TileState::Cold);
                                assert(before.states()[v as int] == TileState::Warm);
                            } else {
                                assert(f[q] == before.free_slots()[q]);
                            }
                        }
                    }
                },
            }
        }
        proof {
            lemma_count_total(self.states());
            if done {
                lemma_count_zero(self.states(), TileState::Hot);
                lemma_count_zero(self.states(), TileState::Warm);
            }
            let f = self.free_slots();
            let m0 = o.free_slots().len() as int;
            assert forall|i: int|
                0 <= i < n && o.states()[i] != TileState::Cold && self.states()[i]
                    == TileState::Cold implies #[trigger] f.subrange(m0, f.len() as int).contains(
                i as usize,
            ) by {
                assert(f.contains(i as usize));
                let p = choose|p: int| 0 <= p < f.len() && f[p] == i as usize;
                if p < m0 {
                    assert(f[p] == o.free_slots()[p]);
                }
                assert(f.subrange(m0, f.len() as int)[p - m0] == i as usize);
            }
        }
    }

    /// Score every live (HOT or WARM) slot with `score`, in slot order; COLD
    /// slots are skipped. Returns `(slot, score)` pairs.
    pub fn score_all<R, F: Fn(&SciRustSlhaTile) -> R>(&self, score: F) -> (out: Vec<(usize, R)>)
        requires
            self.wf(),
            forall|t: SciRustSlhaTile| #[trigger] score.requires((&t,)),
        ensures
            out@.len() == live_slots_upto(self.states(), self.slot_count() as int).len(),
            out@.len() == self.slot_count() - count_state(self.states(), TileState::Cold),
            forall|k: int|
                0 <= k < out@.len() ==> #[trigger] out@[k].0 == live_slots_upto(
                    self.states(),
                    self.slot_count() as int,
                )[k],
            forall|k: int|
                0 <= k < out@.len() ==> score.ensures((&self.tiles()[out@[k].0 as int],), #[trigger] out@[k].1),
            forall|k: int|
                0 <= k < out@.len() ==> out@[k].0 < self.slot_count() && self.states()[#[trigger] out@[k].0 as int]
                    != TileState::Cold,
            forall|k: int, l: int| 0 <= k < l < out@.len() ==> out@[k].0 < out@[l].0,
            forall|i: int|
                0 <= i < self.slot_count() && self.states()[i] != TileState::Cold ==> exists|k: int|
                    0 <= k < out@.len() && #[trigger] out@[k].0 == i,
    {
        let n = self.states.len();
        let mut out: Vec<(usize, R)> = Vec::new();
        let mut i: usize = 0;
        while i < n
            invariant
                self.wf(),
                n == self.slot_count(),
                i <= n,
                forall|t: SciRustSlhaTile| #[trigger] score.requires((&t,)),
                out@.len() == live_slots_upto(self.states(), i as int).len(),
                forall|k: int| 0 <= k < out@.len() ==> #[trigger] out@[k].0 < i,
                forall|k: int|
                    0 <= k < out@.len() ==> #[trigger] out@[k].0 == live_slots_upto(self.states(), i as int)[k],
                forall|k: int|
                    0 <= k < out@.len() ==> score.ensures((&self.tiles()[out@[k].0 as int],), #[trigger] out@[k].1),
            decreases n - i,
        {
            let ghost before = out@;
            if self.states[i] != TileState::Cold {
                let r = score(&self.tiles[i]);
                assert(live_slots_upto(self.states(), i + 1) == live_slots_upto(self.states(), i as int).push(i));
                out.push((i, r));
                proof {
                    assert forall|k: int| 0 <= k < out@.len() implies #[trigger] out@[k].0 == live_slots_upto(
                        self.states(),
                        i + 1,
                    )[k] && score.ensures((&self.tiles()[out@[k].0 as int],), out@[k].1) by {
                        if k < before.len() {
                            assert(out@[k] == before[k]);
                            assert(before[k].0 == live_slots_upto(self.states(), i as int)[k]);
                            assert(score.ensures((&self.tiles()[before[k].0 as int],), before[k].1));
                        }
                    }
                }
            }
            i = i + 1;
        }
        proof {
            lemma_live_slots(self.states(), n as int);
            assert(self.states().subrange(0, n as int) =~= self.states());
            let ls = live_slots_upto(self.states(), n as int);
            assert forall|i: int|
                0 <= i < n && self.states()[i] != TileState::Cold implies exists|k: int|
                0 <= k < out@.len() && #[trigger] out@[k].0 == i by {
                assert(ls.contains(i as usize));
                let k = choose|k: int| 0 <= k < ls.len() && ls[k] == i as usize;
                assert(out@[k].0 == i);
            }
        }
        out
    }
}

/// The paged-out form of a tile: WARM flag set, residual bitmap zeroed,
/// `lambda` set to `+0.0`.
pub fn page_tile(t: SciRustSlhaTile) -> (r: SciRustSlhaTile)
    ensures
        r == paged_tile(t),
        r.warm(),
        r.latent_kv == t.latent_kv,
        r.residual_bitmap@ == Seq::new(RESIDUAL_WORDS as nat, |w: int| 0u64),
        r.scale_bits == t.scale_bits,
        r.dynamic_lambda_bits == 0,
        r.residual_sigma_bits == t.residual_sigma_bits,
        r.token_id == t.token_id,
        r.position == t.position,
        r.head_id == t.head_id,
        r.flags == t.flags | 1u16,
        r.group_scales == t.group_scales,
{
    proof {
        lemma_paged_tile_fields(t);
    }
    let f = t.flags;
    assert((f | 1u16) & 1u16 != 0) by (bit_vector);
    SciRustSlhaTile {
        residual_bitmap: [0u64; RESIDUAL_WORDS],
        dynamic_lambda_bits: 0,
        flags: t.flags | FLAG_WARM,
        ..t
    }
}

/// `new` is `old` after `insert(tile)` returned `slot`: the most recently
/// freed COLD slot is recycled (else a slot is appended), the tile is stored
/// (paged out if flagged WARM) with the current clock as its age, and its
/// state is WARM if flagged WARM, else HOT.
pub open spec fn inserted(
    old: ElasticKvCache,
    new: ElasticKvCache,
    tile: SciRustSlhaTile,
    slot: usize,
) -> bool {
    let st = if tile.warm() {
        TileState::Warm
    } else {
        TileState::Hot
    };
    &&& old.free_slots().len() > 0 ==> {
        &&& slot == old.free_slots().last()
        &&& new.free_slots() == old.free_slots().drop_last()
        &&& new.states() == old.states().update(slot as int, st)
        &&& new.tiles() == old.tiles().update(slot as int, stored_tile(tile))
        &&& new.ages() == old.ages().update(slot as int, old.clock())
    }
    &&& old.free_slots().len() == 0 ==> {
        &&& slot == old.slot_count()
        &&& new.free_slots() == old.free_slots()
        &&& new.states() == old.states().push(st)
        &&& new.tiles() == old.tiles().push(stored_tile(tile))
        &&& new.ages() == old.ages().push(old.clock())
    }
    &&& new.clock() == old.clock() + 1
    &&& new.budget_spec() == old.budget_spec()
    &&& new.policy_spec() == old.policy_spec()
}

/// `new` is `old` after `page_out(slot)`: a HOT slot turns WARM and its tile
/// is paged out; a WARM or COLD slot is left as it is.
pub open spec fn paged_out(old: ElasticKvCache, new: ElasticKvCache, slot: usize) -> bool {
    &&& old.states()[slot as int] == TileState::Hot ==> {
        &&& new.states() == old.states().update(slot as int, TileState::Warm)
        &&& new.tiles() == old.tiles().update(slot as int, paged_tile(old.tiles()[slot as int]))
    }
    &&& old.states()[slot as int] != TileState::Hot ==> {
        &&& new.states() == old.states()
        &&& new.tiles() == old.tiles()
    }
    &&& new.ages() == old.ages()
    &&& new.free_slots() == old.free_slots()
    &&& new.clock() == old.clock()
    &&& new.budget_spec() == old.budget_spec()
    &&& new.policy_spec() == old.policy_spec()
}

/// `new` is `old` after `evict(slot)`: a live slot turns COLD and goes onto
/// the free list; a COLD slot is left as it is. Tiles are kept.
pub open spec fn evicted(old: ElasticKvCache, new: ElasticKvCache, slot: usize) -> bool {
    &&& old.states()[slot as int] != TileState::Cold ==> {
        &&& new.states() == old.states().update(slot as int, TileState::Cold)
        &&& new.free_slots() == old.free_slots().push(slot)
    }
    &&& old.states()[slot as int] == TileState::Cold ==> {
        &&& new.states() == old.states()
        &&& new.free_slots() == old.free_slots()
    }
    &&& new.tiles() == old.tiles()
    &&& new.ages() == old.ages()
    &&& new.clock() == old.clock()
    &&& new.budget_spec() == old.budget_spec()
    &&& new.policy_spec() == old.policy_spec()
}

/// `new` is `old` after `enforce_budget()`: within budget, paging out HOT
/// slots first in the paging order of the policy and, only once no HOT slot
/// is left, evicting live slots first in the eviction order; every page-out
/// and eviction was needed (the cache was over budget before it), and the
/// evicted slots join the free list in eviction order.
pub open spec fn budget_enforced(old: ElasticKvCache, new: ElasticKvCache) -> bool {
    &&& new.live() <= new.budget_spec()
    &&& new.slot_count() == old.slot_count()
    &&& new.ages() == old.ages()
    &&& new.clock() == old.clock()
    &&& new.budget_spec() == old.budget_spec()
    &&& new.policy_spec() == old.policy_spec()
    &&& old.live() <= old.budget_spec() ==> {
        &&& new.states() == old.states()
        &&& new.tiles() == old.tiles()
        &&& new.free_slots() == old.free_slots()
    }
    &&& forall|i: int|
        0 <= i < old.slot_count() ==> {
            let a = old.states()[i];
            let b = #[trigger] new.states()[i];
            b == a || (a == TileState::Hot && b != TileState::Hot) || (a == TileState::Warm
                && b == TileState::Cold)
        }
    &&& forall|i: int|
        0 <= i < old.slot_count() ==> #[trigger] new.tiles()[i] == if old.states()[i]
            == TileState::Hot && new.states()[i] != TileState::Hot {
            paged_tile(old.tiles()[i])
        } else {
            old.tiles()[i]
        }
    &&& forall|i: int, j: int|
        0 <= i < old.slot_count() && 0 <= j < old.slot_count() && old.states()[i]
            == TileState::Hot && new.states()[i] != TileState::Hot && new.states()[j]
            == TileState::Hot ==> old.pages_before(i, j)
    &&& forall|i: int, j: int|
        0 <= i < old.slot_count() && 0 <= j < old.slot_count() && old.states()[i]
            != TileState::Cold && new.states()[i] == TileState::Cold && new.states()[j]
            == TileState::Warm ==> old.evicts_before(i, j)
    &&& count_state(new.states(), TileState::Cold) > count_state(old.states(), TileState::Cold)
        ==> count_state(new.states(), TileState::Hot) == 0 && new.live() + WARM_BYTES
        > new.budget_spec()
    &&& count_state(new.states(), TileState::Hot) < count_state(old.states(), TileState::Hot)
        && count_state(new.states(), TileState::Cold) == count_state(old.states(), TileState::Cold)
        ==> new.live() + (HOT_BYTES - WARM_BYTES) > new.budget_spec()
    &&& old.free_slots().len() <= new.free_slots().len()
    &&& new.free_slots().subrange(0, old.free_slots().len() as int) == old.free_slots()
    &&& forall|p: int|
        old.free_slots().len() <= p < new.free_slots().len() ==> old.states()[new.free_slots()[p]
            as int] != TileState::Cold
    &&& forall|p: int, q: int|
        old.free_slots().len() <= p < q < new.free_slots().len() ==> old.evicts_before(
            new.free_slots()[p] as int,
            new.free_slots()[q] as int,
        )
    &&& forall|i: int|
        0 <= i < old.slot_count() && old.states()[i] != TileState::Cold
            && new.states()[i] == TileState::Cold ==> #[trigger] new.free_slots().subrange(
            old.free_slots().len() as int,
            new.free_slots().len() as int,
        ).contains(i as usize)
}

/// Enforcing the budget twice does no more than enforcing it once.
pub proof fn lemma_enforce_budget_idempotent(
    c0: ElasticKvCache,
    c1: ElasticKvCache,
    c2: ElasticKvCache,
)
    requires
        budget_enforced(c0, c1),
        budget_enforced(c1, c2),
    ensures
        c2.states() == c1.states(),
        c2.tiles() == c1.tiles(),
        c2.free_slots() == c1.free_slots(),
        c2.live() <= c2.budget_spec(),
{
}

/// Paging a tile out keeps everything the coarse score reads — latent,
/// scale, group scales — and its identity and sigma_E; it zeroes the residual
/// bitmap and lambda and sets the WARM bit of the flags.
pub proof fn lemma_paged_tile_fields(t: SciRustSlhaTile)
    ensures
        paged_tile(t).latent_kv == t.latent_kv,
        paged_tile(t).residual_bitmap@ == Seq::new(RESIDUAL_WORDS as nat, |w: int| 0u64),
        paged_tile(t).scale_bits == t.scale_bits,
        paged_tile(t).dynamic_lambda_bits == 0,
        paged_tile(t).residual_sigma_bits == t.residual_sigma_bits,
        paged_tile(t).token_id == t.token_id,
        paged_tile(t).position == t.position,
        paged_tile(t).head_id == t.head_id,
        paged_tile(t).flags == t.flags | 1u16,
        paged_tile(t).group_scales == t.group_scales,
        paged_tile(t).flags % 2 == 1,
        paged_tile(t).flags / 2 == t.flags / 2,
{
    let f = t.flags;
    assert((f | 1u16) % 2 == 1 && (f | 1u16) / 2 == f / 2) by (bit_vector);
    assert(paged_tile(t).residual_bitmap@ =~= Seq::new(RESIDUAL_WORDS as nat, |w: int| 0u64));
}

/// After `page_out` of a HOT slot the stored tile is the old tile with only
/// its residual bitmap zeroed, `lambda` zeroed and the WARM bit set: latent,
/// scale, group scales, sigma_E, token, position and head are unchanged.
pub proof fn lemma_page_out_keeps_coarse_fields(c0: ElasticKvCache, c1: ElasticKvCache, slot: usize)
    requires
        c0.wf(),
        slot < c0.slot_count(),
        c0.states()[slot as int] == TileState::Hot,
        paged_out(c0, c1, slot),
    ensures
        c1.tiles()[slot as int].latent_kv == c0.tiles()[slot as int].latent_kv,
        c1.tiles()[slot as int].scale_bits == c0.tiles()[slot as int].scale_bits,
        c1.tiles()[slot as int].group_scales == c0.tiles()[slot as int].group_scales,
        c1.tiles()[slot as int].residual_sigma_bits == c0.tiles()[slot as int].residual_sigma_bits,
        c1.tiles()[slot as int].token_id == c0.tiles()[slot as int].token_id,
        c1.tiles()[slot as int].position == c0.tiles()[slot as int].position,
        c1.tiles()[slot as int].head_id == c0.tiles()[slot as int].head_id,
        c1.tiles()[slot as int].residual_bitmap@ == Seq::new(RESIDUAL_WORDS as nat, |w: int| 0u64),
        c1.tiles()[slot as int].dynamic_lambda_bits == 0,
        c1.tiles()[slot as int].flags == c0.tiles()[slot as int].flags | 1u16,
        forall|i: int| 0 <= i < c0.slot_count() && i != slot ==> c1.tiles()[i] == c0.tiles()[i],
{
    lemma_paged_tile_fields(c0.tiles()[slot as int]);
}

/// Inserting a tile stores it as given unless bit 0 of its flags (`FLAG_WARM`)
/// is set; only then is it stored paged out and counted WARM. Other flag bits
/// (such as `FLAG_NF4`) do not matter. The coarse fields are kept either way.
pub proof fn lemma_insert_state_follows_warm_bit(
    c0: ElasticKvCache,
    c1: ElasticKvCache,
    tile: SciRustSlhaTile,
    slot: usize,
)
    requires
        c0.wf(),
        inserted(c0, c1, tile, slot),
    ensures
        slot < c1.slot_count(),
        tile.flags % 2 == 0 ==> c1.states()[slot as int] == TileState::Hot && c1.tiles()[slot as int]
            == tile,
        tile.flags % 2 == 1 ==> c1.states()[slot as int] == TileState::Warm,
        c1.tiles()[slot as int].latent_kv == tile.latent_kv,
        c1.tiles()[slot as int].scale_bits == tile.scale_bits,
        c1.tiles()[slot as int].group_scales == tile.group_scales,
        c1.tiles()[slot as int].residual_sigma_bits == tile.residual_sigma_bits,
{
    crate::attention::slha_v2::lemma_warm_is_bit_zero(tile);
    lemma_paged_tile_fields(tile);
    if c0.free_slots().len() > 0 {
        lemma_wf_facts(c0);
        assert(c0.free_slots().contains(c0.free_slots().last()));
    }
}

/// The order `enforce_budget` follows, stated on the slots' ages and sigma_E:
/// every slot it pages out comes before every slot it leaves HOT, and every
/// slot it evicts comes before every slot it leaves WARM — oldest insertion
/// first where the policy orders by age (`OldestFirst` for both, `Hybrid` for
/// eviction), lowest sigma_E first, then oldest, where it orders by impact.
pub proof fn lemma_enforce_budget_policy_order(c0: ElasticKvCache, c1: ElasticKvCache)
    requires
        c0.wf(),
        budget_enforced(c0, c1),
    ensures
        forall|i: int, j: int|
            0 <= i < c0.slot_count() && 0 <= j < c0.slot_count() && c0.states()[i] == TileState::Hot
                && #[trigger] c1.states()[i] != TileState::Hot && #[trigger] c1.states()[j]
                == TileState::Hot ==> {
                let ki = total_key(c0.tiles()[i].residual_sigma_bits);
                let kj = total_key(c0.tiles()[j].residual_sigma_bits);
                &&& c0.policy_spec() == PageOutPolicy::OldestFirst ==> c0.ages()[i] < c0.ages()[j]
                &&& c0.policy_spec() != PageOutPolicy::OldestFirst ==> (ki < kj || (ki == kj
                    && c0.ages()[i] < c0.ages()[j]))
            },
        forall|i: int, j: int|
            0 <= i < c0.slot_count() && 0 <= j < c0.slot_count() && c0.states()[i] != TileState::Cold
                && #[trigger] c1.states()[i] == TileState::Cold && #[trigger] c1.states()[j]
                == TileState::Warm ==> {
                let ki = total_key(c0.tiles()[i].residual_sigma_bits);
                let kj = total_key(c0.tiles()[j].residual_sigma_bits);
                &&& c0.policy_spec() != PageOutPolicy::LowestImpactFirst ==> c0.ages()[i]
                    < c0.ages()[j]
                &&& c0.policy_spec() == PageOutPolicy::LowestImpactFirst ==> (ki < kj || (ki == kj
                    && c0.ages()[i] < c0.ages()[j]))
            },
{
    assert forall|i: int, j: int|
        0 <= i < c0.slot_count() && 0 <= j < c0.slot_count() && c0.states()[i] == TileState::Hot
            && #[trigger] c1.states()[i] != TileState::Hot && #[trigger] c1.states()[j]
            == TileState::Hot implies {
            let ki = total_key(c0.tiles()[i].residual_sigma_bits);
            let kj = total_key(c0.tiles()[j].residual_sigma_bits);
            &&& c0.policy_spec() == PageOutPolicy::OldestFirst ==> c0.ages()[i] < c0.ages()[j]
            &&& c0.policy_spec() != PageOutPolicy::OldestFirst ==> (ki < kj || (ki == kj
                && c0.ages()[i] < c0.ages()[j]))
        } by {
        assert(i != j);
        assert(c0.pages_before(i, j));
        assert(c0.ages@[i] != c0.ages@[j]);
    }
    assert forall|i: int, j: int|
        0 <= i < c0.slot_count() && 0 <= j < c0.slot_count() && c0.states()[i] != TileState::Cold
            && #[trigger] c1.states()[i] == TileState::Cold && #[trigger] c1.states()[j]
            == TileState::Warm implies {
            let ki = total_key(c0.tiles()[i].residual_sigma_bits);
            let kj = total_key(c0.tiles()[j].residual_sigma_bits);
            &&& c0.policy_spec() != PageOutPolicy::LowestImpactFirst ==> c0.ages()[i]
                < c0.ages()[j]
            &&& c0.policy_spec() == PageOutPolicy::LowestImpactFirst ==> (ki < kj || (ki == kj
                && c0.ages()[i] < c0.ages()[j]))
        } by {
        assert(i != j);
        assert(c0.evicts_before(i, j));
        assert(c0.ages@[i] != c0.ages@[j]);
    }
}

/// A slot that `evict` frees is the slot the next `insert` fills: the
/// recycled slot holds the new tile, live, and the arena does not grow.
pub proof fn lemma_evicted_slot_is_recycled(
    c0: ElasticKvCache,
    c1: ElasticKvCache,
    c2: ElasticKvCache,
    slot: usize,
    tile: SciRustSlhaTile,
    r: usize,
)
    requires
        c0.wf(),
        slot < c0.slot_count(),
        c0.states()[slot as int] != TileState::Cold,
        evicted(c0, c1, slot),
        inserted(c1, c2, tile, r),
    ensures
        c1.states()[slot as int] == TileState::Cold,
        r == slot,
        c2.states()[slot as int] != TileState::Cold,
        c2.tiles()[slot as int] == stored_tile(tile),
        c2.slot_count() == c0.slot_count(),
        c2.free_slots() == c0.free_slots(),
{
    assert(c1.free_slots().drop_last() =~= c0.free_slots());
}

/// Paging a HOT slot out releases exactly its residual bitmap: the slot turns
/// WARM, its tile carries the WARM flag (so it gets no binary term), and the
/// footprint drops from 128 to 96 bytes for that slot.
pub proof fn lemma_page_out_releases_residual(c0: ElasticKvCache, c1: ElasticKvCache, slot: usize)
    requires
        c0.wf(),
        slot < c0.slot_count(),
        c0.states()[slot as int] == TileState::Hot,
        paged_out(c0, c1, slot),
    ensures
        c1.states()[slot as int] == TileState::Warm,
        c1.tiles()[slot as int].warm(),
        c1.tiles()[slot as int].residual_bitmap@ == Seq::new(RESIDUAL_WORDS as nat, |w: int| 0u64),
        c1.tiles()[slot as int].levels_spec() == c0.tiles()[slot as int].levels_spec(),
        c1.live() + (HOT_BYTES - WARM_BYTES) == c0.live(),
{
    let t = c0.tiles()[slot as int];
    let f = t.flags;
    assert((f | 1u16) & 1u16 != 0) by (bit_vector);
    assert(c1.tiles()[slot as int] == paged_tile(t));
    assert(paged_tile(t).residual_bitmap@ =~= Seq::new(RESIDUAL_WORDS as nat, |w: int| 0u64));
    lemma_count_update(c0.states(), slot as int, TileState::Warm, TileState::Hot);
    lemma_count_update(c0.states(), slot as int, TileState::Warm, TileState::Warm);
}

/// The cache invariant seen from outside: the free list holds each COLD slot
/// exactly once and nothing else; WARM slots hold tiles flagged WARM, HOT
/// slots tiles not flagged WARM; the footprint fits the arena.
pub proof fn lemma_wf_facts(c: ElasticKvCache)
    requires
        c.wf(),
    ensures
        c.tiles().len() == c.slot_count(),
        c.ages().len() == c.slot_count(),
        c.free_slots().no_duplicates(),
        forall|i: int|
            0 <= i < c.slot_count() ==> (#[trigger] c.free_slots().contains(i as usize) <==> c.states()[i]
                == TileState::Cold),
        forall|p: int| 0 <= p < c.free_slots().len() ==> #[trigger] c.free_slots()[p] < c.slot_count(),
        c.free_slots().len() == count_state(c.states(), TileState::Cold),
        forall|i: int|
            0 <= i < c.slot_count() && #[trigger] c.states()[i] == TileState::Warm ==> c.tiles()[i].warm(),
        forall|i: int|
            0 <= i < c.slot_count() && #[trigger] c.states()[i] == TileState::Hot ==> !c.tiles()[i].warm(),
        c.live() <= HOT_BYTES * c.slot_count(),
{
    assert forall|i: int| 0 <= i < c.slot_count() implies (#[trigger] c.free_slots().contains(
        i as usize,
    ) <==> c.states()[i] == TileState::Cold) by {
        if c.free_slots().contains(i as usize) {
            let p = choose|p: int| 0 <= p < c.free_slots().len() && c.free_slots()[p] == i as usize;
        }
    }
    lemma_count_total(c.states());
    lemma_free_list_len(c.states(), c.free_slots());
}

/// A duplicate-free list of exactly the COLD slots has one entry per COLD slot.
proof fn lemma_free_list_len(s: Seq<TileState>, f: Seq<usize>)
    requires
        s.len() <= usize::MAX,
        f.no_duplicates(),
        forall|p: int| 0 <= p < f.len() ==> f[p] < s.len() && s[f[p] as int] == TileState::Cold,
        forall|i: int| 0 <= i < s.len() && s[i] == TileState::Cold ==> #[trigger] f.contains(i as usize),
    ensures
        f.len() == count_state(s, TileState::Cold),
    decreases s.len(),
{
    if s.len() == 0 {
        if f.len() > 0 {
            assert(f[0] < s.len());
        }
    } else {
        let m = (s.len() - 1) as usize;
        let s2 = s.drop_last();
        if s.last() == TileState::Cold {
            assert(f.contains(m));
            let p = choose|p: int| 0 <= p < f.len() && f[p] == m;
            let f2 = f.remove(p);
            assert forall|q: int| 0 <= q < f2.len() implies f2[q] < s2.len() && s2[f2[q] as int]
                == TileState::Cold by {
                if q < p {
                    assert(f2[q] == f[q]);
                    assert(f[q] != f[p]);
                } else {
                    assert(f2[q] == f[q + 1]);
                    assert(f[q + 1] != f[p]);
                }
            }
            assert forall|i: int| 0 <= i < s2.len() && s2[i] == TileState::Cold implies #[trigger] f2.contains(
                i as usize,
            ) by {
                assert(f.contains(i as usize));
                let q = choose|q: int| 0 <= q < f.len() && f[q] == i as usize;
                if q < p {
                    assert(f2[q] == f[q]);
                } else {
                    assert(q != p);
                    assert(f2[q - 1] == f[q]);
                }
            }
            assert(f2.no_duplicates()) by {
                assert forall|a: int, b: int| 0 <= a < b < f2.len() implies f2[a] != f2[b] by {
                    let fa = if a < p { a } else { a + 1 };
                    let fb = if b < p { b } else { b + 1 };
                    assert(f2[a] == f[fa]);
                    assert(f2[b] == f[fb]);
                }
            }
            lemma_free_list_len(s2, f2);
        } else {
            assert forall|q: int| 0 <= q < f.len() implies f[q] < s2.len() && s2[f[q] as int]
                == TileState::Cold by {
                if f[q] == m {
                    assert(s[m as int] == TileState::Cold);
                }
            }
            assert forall|i: int| 0 <= i < s2.len() && s2[i] == TileState::Cold implies #[trigger] f.contains(
                i as usize,
            ) by {
                assert(s[i] == TileState::Cold);
            }
            lemma_free_list_len(s2, f);
        }
    }
}

/// The live slots of a prefix are the non-COLD slots of it, in increasing
/// order, one per slot.
pub proof fn lemma_live_slots(s: Seq<TileState>, m: int)
    requires
        0 <= m <= s.len(),
        s.len() <= usize::MAX,
    ensures
        live_slots_upto(s, m).len() == m - count_state(s.subrange(0, m), TileState::Cold),
        forall|k: int|
            0 <= k < live_slots_upto(s, m).len() ==> #[trigger] live_slots_upto(s, m)[k] < m
                && s[live_slots_upto(s, m)[k] as int] != TileState::Cold,
        forall|k: int, l: int|
            0 <= k < l < live_slots_upto(s, m).len() ==> live_slots_upto(s, m)[k] < live_slots_upto(
                s,
                m,
            )[l],
        forall|j: int|
            0 <= j < m && s[j] != TileState::Cold ==> #[trigger] live_slots_upto(s, m).contains(
                j as usize,
            ),
    decreases m,
{
    if m > 0 {
        lemma_live_slots(s, m - 1);
        assert(s.subrange(0, m).drop_last() =~= s.subrange(0, m - 1));
        let prev = live_slots_upto(s, m - 1);
        let cur = live_slots_upto(s, m);
        if s[m - 1] != TileState::Cold {
            assert(cur == prev.push((m - 1) as usize));
            assert forall|k: int| 0 <= k < cur.len() implies #[trigger] cur[k] < m && s[cur[k] as int]
                != TileState::Cold by {
                if k < prev.len() {
                    assert(cur[k] == prev[k]);
                }
            }
            assert forall|k: int, l: int| 0 <= k < l < cur.len() implies cur[k] < cur[l] by {
                assert(cur[k] == prev[k]);
                if l < prev.len() {
                    assert(cur[l] == prev[l]);
                } else {
                    assert(prev[k] < m - 1);
                }
            }
        } else {
            assert(cur == prev);
        }
        assert forall|j: int| 0 <= j < m && s[j] != TileState::Cold implies #[trigger] cur.contains(
            j as usize,
        ) by {
            if j == m - 1 {
                assert(cur[cur.len() - 1] == j as usize);
            } else {
                assert(prev.contains(j as usize));
                let k = choose|k: int| 0 <= k < prev.len() && prev[k] == j as usize;
                assert(cur[k] == prev[k]);
            }
        }
    }
}

/// Updating one slot changes the count of a state by what left and what came.
pub proof fn lemma_count_update(s: Seq<TileState>, i: int, x: TileState, t: TileState)
    requires
        0 <= i < s.len(),
    ensures
        count_state(s.update(i, x), t) + (if s[i] == t {
            1int
        } else {
            0int
        }) == count_state(s, t) + (if x == t {
            1int
        } else {
            0int
        }),
    decreases s.len(),
{
    let u = s.update(i, x);
    if i == s.len() - 1 {
        assert(u.drop_last() =~= s.drop_last());
    } else {
        assert(u.drop_last() =~= s.drop_last().update(i, x));
        lemma_count_update(s.drop_last(), i, x, t);
    }
}

/// Appending a slot adds its state to the counts.
pub proof fn lemma_count_push(s: Seq<TileState>, x: TileState, t: TileState)
    ensures
        count_state(s.push(x), t) == count_state(s, t) + (if x == t {
            1nat
        } else {
            0nat
        }),
{
    assert(s.push(x).drop_last() =~= s);
}

/// Every slot is in exactly one state.
pub proof fn lemma_count_total(s: Seq<TileState>)
    ensures
        count_state(s, TileState::Hot) + count_state(s, TileState::Warm) + count_state(
            s,
            TileState::Cold,
        ) == s.len(),
    decreases s.len(),
{
    if s.len() > 0 {
        lemma_count_total(s.drop_last());
    }
}

/// A state with count zero occurs nowhere; a state that occurs has a positive count.
pub proof fn lemma_count_zero(s: Seq<TileState>, t: TileState)
    ensures
        count_state(s, t) == 0 <==> forall|i: int| 0 <= i < s.len() ==> s[i] != t,
    decreases s.len(),
{
    if s.len() > 0 {
        lemma_count_zero(s.drop_last(), t);
        if count_state(s, t) == 0 {
            assert forall|i: int| 0 <= i < s.len() implies s[i] != t by {
                if i < s.len() - 1 {
                    assert(s.drop_last()[i] == s[i]);
                }
            }
        } else {
            if s.last() != t {
                let j = choose|j: int| 0 <= j < s.drop_last().len() && s.drop_last()[j] == t;
                assert(s[j] == t);
            }
        }
    }
}

} // verus!
