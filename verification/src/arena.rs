//! A generational arena: a growable array of slots whose entries are named by
//! handles that stay valid until the entry is freed, and never afterwards.
//!
//! A handle is an index with a generation. Freeing an entry leaves its slot
//! vacant, and the next entry spawned in the slot gets the next generation, so
//! a handle to the freed entry no longer matches. A slot whose generation has
//! reached `u32::MAX` is retired when it is freed: it is never used again, so
//! generations never wrap.
use vstd::prelude::*;

verus! {

/// Names one entry of an arena: the index of its slot and the generation the
/// slot had when the entry was spawned.
#[derive(Clone, Copy, PartialEq, Eq, Structural, Debug, Hash)]
pub struct Handle {
    pub index: u32,
    pub generation: u32,
}

impl Handle {
    pub fn new(index: u32, generation: u32) -> (h: Handle)
        ensures
            h == (Handle { index, generation }),
    {
        Handle { index, generation }
    }

    /// The index of the slot. This is what messages carry.
    pub fn index(self) -> (i: u32)
        ensures
            i == self.index,
    {
        self.index
    }

    pub fn generation(self) -> (g: u32)
        ensures
            g == self.generation,
    {
        self.generation
    }
}

/// One slot: the generation of the entry that is or was last in it, and the
/// entry itself while it is live.
pub struct Slot<T> {
    pub generation: u32,
    pub payload: Option<T>,
}

/// One step in the life of an arena.
pub enum ArenaOp<T> {
    Spawn(T),
    Free(Handle),
}

/// The mathematical model of an arena: its slots in index order, and the stack
/// of vacant slots that the next spawns will fill, last first.
pub struct ArenaModel<T> {
    pub slots: Seq<Slot<T>>,
    pub free: Seq<u32>,
}

impl<T> ArenaModel<T> {
    pub open spec fn empty() -> ArenaModel<T> {
        ArenaModel { slots: Seq::empty(), free: Seq::empty() }
    }

    /// Slot `i` is vacant and may take another entry.
    pub open spec fn reusable(self, i: int) -> bool {
        &&& 0 <= i < self.slots.len()
        &&& self.slots[i].payload is None
        &&& self.slots[i].generation < u32::MAX
    }

    pub open spec fn wf(self) -> bool {
        &&& self.slots.len() <= u32::MAX
        &&& forall|i: int| 0 <= i < self.slots.len() ==> (#[trigger] self.slots[i]).generation >= 1
        &&& self.free.no_duplicates()
        &&& forall|k: int| 0 <= k < self.free.len() ==> self.reusable(#[trigger] self.free[k] as int)
    }

    /// `h` names an entry that is in the arena now.
    pub open spec fn is_live(self, h: Handle) -> bool {
        &&& (h.index as int) < self.slots.len()
        &&& self.slots[h.index as int].generation == h.generation
        &&& self.slots[h.index as int].payload is Some
    }

    /// `h` names an entry that was in the arena and has been freed.
    pub open spec fn is_stale(self, h: Handle) -> bool {
        &&& (h.index as int) < self.slots.len()
        &&& 1 <= h.generation
        &&& {
            ||| h.generation < self.slots[h.index as int].generation
            ||| (h.generation == self.slots[h.index as int].generation
                && self.slots[h.index as int].payload is None)
        }
    }

    /// The live entries by their handles.
    pub open spec fn entries(self) -> Map<Handle, T> {
        Map::new(|h: Handle| self.is_live(h), |h: Handle| self.slots[h.index as int].payload->0)
    }

    /// The handle of the entry in slot `i`, which must be occupied.
    pub open spec fn handle_at(self, i: int) -> Handle {
        Handle { index: i as u32, generation: self.slots[i].generation }
    }

    /// The handles of the live entries among the first `n` slots, by index.
    pub open spec fn live_prefix(self, n: nat) -> Seq<Handle>
        decreases n,
    {
        if n == 0 {
            Seq::empty()
        } else if self.slots[n - 1].payload is Some {
            self.live_prefix((n - 1) as nat).push(self.handle_at(n - 1))
        } else {
            self.live_prefix((n - 1) as nat)
        }
    }

    /// The handles of all live entries, by index.
    pub open spec fn live_handles(self) -> Seq<Handle> {
        self.live_prefix(self.slots.len())
    }

    /// One more entry can be spawned.
    pub open spec fn has_room(self) -> bool {
        self.free.len() > 0 || self.slots.len() < u32::MAX
    }

    /// The handle that the next spawn returns.
    pub open spec fn next_handle(self) -> Handle {
        if self.free.len() > 0 {
            let i = self.free.last();
            Handle { index: i, generation: (self.slots[i as int].generation + 1) as u32 }
        } else {
            Handle { index: self.slots.len() as u32, generation: 1 }
        }
    }

    /// The arena after `value` is spawned: it fills the vacant slot freed
    /// last, under the slot's next generation, or a new slot at the end.
    pub open spec fn spawn(self, value: T) -> ArenaModel<T> {
        let h = self.next_handle();
        let slot = Slot { generation: h.generation, payload: Some(value) };
        if self.free.len() > 0 {
            ArenaModel { slots: self.slots.update(h.index as int, slot), free: self.free.drop_last() }
        } else {
            ArenaModel { slots: self.slots.push(slot), free: self.free }
        }
    }

    /// The arena after the entry of `h` is freed; unchanged if `h` is not
    /// live. The slot is kept for reuse unless its generation is the last.
    pub open spec fn free(self, h: Handle) -> ArenaModel<T> {
        if self.is_live(h) {
            let slot = Slot { generation: h.generation, payload: None };
            ArenaModel {
                slots: self.slots.update(h.index as int, slot),
                free: if h.generation < u32::MAX {
                    self.free.push(h.index)
                } else {
                    self.free
                },
            }
        } else {
            self
        }
    }

    /// The arena with `value` in place of the live entry of `h`.
    pub open spec fn replace(self, h: Handle, value: T) -> ArenaModel<T> {
        ArenaModel {
            slots: self.slots.update(
                h.index as int,
                Slot { generation: h.generation, payload: Some(value) },
            ),
            free: self.free,
        }
    }

    /// A spawn keeps the arena well formed, returns a handle that was not
    /// live, and adds exactly that entry.
    pub proof fn lemma_spawn(self, value: T)
        requires
            self.wf(),
            self.has_room(),
        ensures
            self.spawn(value).wf(),
            !self.is_live(self.next_handle()),
            !self.is_stale(self.next_handle()),
            self.spawn(value).is_live(self.next_handle()),
            self.spawn(value).entries() == self.entries().insert(self.next_handle(), value),
            forall|h: Handle| self.is_stale(h) ==> self.spawn(value).is_stale(h),
    {
        let h = self.next_handle();
        let after = self.spawn(value);
        if self.free.len() > 0 {
            let i = self.free.last();
            assert(self.reusable(self.free[self.free.len() - 1] as int));
            assert forall|k: int| 0 <= k < after.free.len() implies after.reusable(
                #[trigger] after.free[k] as int,
            ) by {
                assert(self.reusable(self.free[k] as int));
                assert(self.free[k] != self.free[self.free.len() - 1]);
            }
        }
        assert(after.entries() =~= self.entries().insert(h, value));
    }

    /// Freeing a live entry keeps the arena well formed, removes exactly that
    /// entry, and leaves its handle stale.
    pub proof fn lemma_free(self, h: Handle)
        requires
            self.wf(),
        ensures
            self.free(h).wf(),
            self.free(h).entries() == self.entries().remove(h),
            !self.free(h).is_live(h),
            self.is_live(h) ==> self.free(h).is_stale(h),
            forall|g: Handle| self.is_stale(g) ==> self.free(h).is_stale(g),
    {
        let after = self.free(h);
        if self.is_live(h) {
            assert forall|k: int| 0 <= k < after.free.len() implies after.reusable(
                #[trigger] after.free[k] as int,
            ) by {
                if k < self.free.len() {
                    assert(self.reusable(self.free[k] as int));
                }
            }
            assert(after.free.no_duplicates()) by {
                assert forall|a: int, b: int|
                    0 <= a < after.free.len() && 0 <= b < after.free.len() && a != b implies after.free[a]
                    != after.free[b] by {
                    if a < self.free.len() {
                        assert(self.reusable(self.free[a] as int));
                    }
                    if b < self.free.len() {
                        assert(self.reusable(self.free[b] as int));
                    }
                }
            }
        }
        assert(after.entries() =~= self.entries().remove(h));
    }

    /// Replacing a live entry changes that entry and nothing else.
    pub proof fn lemma_replace(self, h: Handle, value: T)
        requires
            self.wf(),
            self.is_live(h),
        ensures
            self.replace(h, value).wf(),
            self.replace(h, value).entries() == self.entries().insert(h, value),
            self.replace(h, value).live_handles() == self.live_handles(),
            forall|g: Handle| self.is_stale(g) <==> self.replace(h, value).is_stale(g),
    {
        let after = self.replace(h, value);
        assert forall|k: int| 0 <= k < after.free.len() implies after.reusable(
            #[trigger] after.free[k] as int,
        ) by {
            assert(self.reusable(self.free[k] as int));
        }
        assert(after.entries() =~= self.entries().insert(h, value));
        self.lemma_replace_prefix(h, value, self.slots.len());
    }

    proof fn lemma_replace_prefix(self, h: Handle, value: T, n: nat)
        requires
            self.is_live(h),
            n <= self.slots.len(),
        ensures
            self.replace(h, value).live_prefix(n) == self.live_prefix(n),
        decreases n,
    {
        if n > 0 {
            self.lemma_replace_prefix(h, value, (n - 1) as nat);
        }
    }

    /// The live handles are exactly the handles of the occupied slots, each
    /// once, by rising index.
    pub proof fn lemma_live_handles(self)
        requires
            self.wf(),
        ensures
            forall|h: Handle| self.live_handles().contains(h) <==> self.is_live(h),
            self.live_handles().no_duplicates(),
            self.live_handles().len() <= self.slots.len(),
            forall|a: int, b: int|
                0 <= a < b < self.live_handles().len() ==> (#[trigger] self.live_handles()[a]).index < (
                #[trigger] self.live_handles()[b]).index,
    {
        self.lemma_live_prefix(self.slots.len());
        let s = self.live_handles();
        assert forall|h: Handle| s.contains(h) <==> self.is_live(h) by {
            if s.contains(h) {
                let k = choose|k: int| 0 <= k < s.len() && s[k] == h;
                assert(self.is_live(s[k]));
            }
        }
    }

    /// The arena after one step. A spawn into a full arena and the freeing
    /// of a handle that is not live change nothing.
    pub open spec fn apply(self, op: ArenaOp<T>) -> ArenaModel<T> {
        match op {
            ArenaOp::Spawn(value) => if self.has_room() {
                self.spawn(value)
            } else {
                self
            },
            ArenaOp::Free(h) => self.free(h),
        }
    }

    /// The arena after the steps, taken in order.
    pub open spec fn apply_all(self, ops: Seq<ArenaOp<T>>) -> ArenaModel<T>
        decreases ops.len(),
    {
        if ops.len() == 0 {
            self
        } else {
            self.apply_all(ops.drop_last()).apply(ops.last())
        }
    }

    /// A step keeps the arena well formed and keeps stale handles stale.
    pub proof fn lemma_apply(self, op: ArenaOp<T>)
        requires
            self.wf(),
        ensures
            self.apply(op).wf(),
            forall|h: Handle| self.is_stale(h) ==> self.apply(op).is_stale(h),
    {
        match op {
            ArenaOp::Spawn(value) => {
                if self.has_room() {
                    self.lemma_spawn(value);
                }
            },
            ArenaOp::Free(h) => {
                self.lemma_free(h);
            },
        }
    }

    /// Handles are unique: whatever is spawned and freed, in whatever
    /// order, no two live entries share a slot, so two live handles with the
    /// same index are the same handle, and the list of live handles names
    /// each entry once.
    pub proof fn law_handles_are_unique(self, ops: Seq<ArenaOp<T>>, h1: Handle, h2: Handle)
        requires
            self.wf(),
        ensures
            self.apply_all(ops).wf(),
            self.apply_all(ops).is_live(h1) && self.apply_all(ops).is_live(h2) && h1.index
                == h2.index ==> h1 == h2,
            self.apply_all(ops).live_handles().no_duplicates(),
        decreases ops.len(),
    {
        if ops.len() > 0 {
            self.law_handles_are_unique(ops.drop_last(), h1, h2);
            self.apply_all(ops.drop_last()).lemma_apply(ops.last());
        }
        self.apply_all(ops).lemma_live_handles();
    }

    /// A freed handle stays dead: whatever is spawned and freed after an
    /// entry was freed, its handle is never live again, and an entry that
    /// lives in its slot later has a greater generation.
    pub proof fn law_freed_handle_stays_dead(self, h: Handle, ops: Seq<ArenaOp<T>>, later: Handle)
        requires
            self.wf(),
            self.is_live(h),
        ensures
            !self.free(h).apply_all(ops).is_live(h),
            self.free(h).apply_all(ops).is_live(later) && later.index == h.index
                ==> later.generation > h.generation,
    {
        self.lemma_free(h);
        self.free(h).lemma_stale_stays(h, ops);
    }

    /// A stale handle stays stale.
    pub proof fn lemma_stale_stays(self, h: Handle, ops: Seq<ArenaOp<T>>)
        requires
            self.wf(),
            self.is_stale(h),
        ensures
            self.apply_all(ops).wf(),
            self.apply_all(ops).is_stale(h),
        decreases ops.len(),
    {
        if ops.len() > 0 {
            self.lemma_stale_stays(h, ops.drop_last());
            self.apply_all(ops.drop_last()).lemma_apply(ops.last());
        }
    }

    /// Everything that was live in `self` is live in `after` and unchanged,
    /// and everything that was stale is stale.
    pub open spec fn grown_to(self, after: ArenaModel<T>) -> bool {
        &&& forall|h: Handle| #[trigger]
            self.is_live(h) ==> after.is_live(h) && after.entries()[h] == self.entries()[h]
        &&& forall|h: Handle| #[trigger] self.is_stale(h) ==> after.is_stale(h)
    }

    /// An arena grows to itself, and growing is transitive.
    pub proof fn lemma_grown_trans(self, middle: ArenaModel<T>, after: ArenaModel<T>)
        requires
            self.grown_to(middle),
            middle.grown_to(after),
        ensures
            self.grown_to(self),
            self.grown_to(after),
    {
    }

    /// A spawn only adds.
    pub proof fn lemma_spawn_grows(self, value: T)
        requires
            self.wf(),
            self.has_room(),
        ensures
            self.grown_to(self.spawn(value)),
    {
        self.lemma_spawn(value);
        assert forall|h: Handle| #[trigger] self.is_live(h) implies self.spawn(value).is_live(h)
            && self.spawn(value).entries()[h] == self.entries()[h] by {
            assert(self.entries().dom().contains(h));
            assert(self.spawn(value).entries().dom().contains(h));
        }
    }

    /// How many more entries can be spawned before the arena is full.
    pub open spec fn room(self) -> nat {
        (self.free.len() + (u32::MAX - self.slots.len())) as nat
    }

    /// A spawn takes one unit of room.
    pub proof fn lemma_spawn_room(self, value: T)
        requires
            self.wf(),
            self.has_room(),
        ensures
            self.spawn(value).room() + 1 == self.room(),
    {
    }

    /// A spawn adds one live handle, and freeing a live entry removes one.
    pub proof fn lemma_live_count(self, h: Handle, value: T)
        requires
            self.wf(),
        ensures
            self.has_room() ==> self.spawn(value).live_handles().len() == self.live_handles().len() + 1,
            self.is_live(h) ==> self.free(h).live_handles().len() + 1 == self.live_handles().len(),
            !self.is_live(h) ==> self.free(h).live_handles() == self.live_handles(),
    {
        if self.has_room() {
            let after = self.spawn(value);
            if self.free.len() > 0 {
                assert(self.reusable(self.free[self.free.len() - 1] as int));
                self.lemma_update_count(after, self.next_handle().index as int, self.slots.len());
            } else {
                self.lemma_push_prefix(after, self.slots.len());
            }
        }
        if self.is_live(h) {
            self.lemma_update_count(self.free(h), h.index as int, self.slots.len());
        }
    }

    proof fn lemma_push_prefix(self, after: ArenaModel<T>, n: nat)
        requires
            n <= self.slots.len(),
            after.slots.len() == self.slots.len() + 1,
            forall|k: int| 0 <= k < self.slots.len() ==> after.slots[k] == self.slots[k],
        ensures
            after.live_prefix(n) == self.live_prefix(n),
        decreases n,
    {
        if n > 0 {
            self.lemma_push_prefix(after, (n - 1) as nat);
        }
    }

    proof fn lemma_update_count(self, after: ArenaModel<T>, i: int, n: nat)
        requires
            0 <= i < self.slots.len(),
            n <= self.slots.len(),
            after.slots.len() == self.slots.len(),
            forall|k: int| 0 <= k < self.slots.len() && k != i ==> after.slots[k] == self.slots[k],
        ensures
            ({
                let was: int = if i < n && self.slots[i].payload is Some { 1 } else { 0 };
                let is: int = if i < n && after.slots[i].payload is Some { 1 } else { 0 };
                after.live_prefix(n).len() - is == self.live_prefix(n).len() - was
            }),
        decreases n,
    {
        if n > 0 {
            self.lemma_update_count(after, i, (n - 1) as nat);
        }
    }

    /// The same arena with each entry replaced by what `f` makes of it.
    pub open spec fn map_payloads<U>(self, f: spec_fn(T) -> U) -> ArenaModel<U> {
        ArenaModel {
            slots: Seq::new(
                self.slots.len(),
                |i: int|
                    Slot {
                        generation: self.slots[i].generation,
                        payload: match self.slots[i].payload {
                            Some(value) => Some(f(value)),
                            None => None,
                        },
                    },
            ),
            free: self.free,
        }
    }

    /// Mapping the entries keeps the shape of the arena.
    pub proof fn lemma_map_payloads<U>(self, f: spec_fn(T) -> U)
        ensures
            self.map_payloads(f).wf() == self.wf(),
            self.map_payloads(f).has_room() == self.has_room(),
            self.map_payloads(f).room() == self.room(),
            self.wf() ==> self.map_payloads(f).next_handle() == self.next_handle(),
            self.map_payloads(f).live_handles() == self.live_handles(),
            forall|h: Handle| #[trigger] self.map_payloads(f).is_live(h) == self.is_live(h),
            forall|h: Handle| #[trigger] self.map_payloads(f).is_stale(h) == self.is_stale(h),
            forall|h: Handle|
                self.is_live(h) ==> #[trigger] self.map_payloads(f).entries()[h] == f(
                    self.entries()[h],
                ),
    {
        let mapped = self.map_payloads(f);
        if self.wf() {
            assert forall|k: int| 0 <= k < mapped.free.len() implies mapped.reusable(
                #[trigger] mapped.free[k] as int,
            ) by {
                assert(self.reusable(self.free[k] as int));
            }
            if self.free.len() > 0 {
                assert(self.reusable(self.free[self.free.len() - 1] as int));
            }
        }
        if mapped.wf() {
            assert forall|k: int| 0 <= k < self.free.len() implies self.reusable(
                #[trigger] self.free[k] as int,
            ) by {
                assert(mapped.reusable(mapped.free[k] as int));
            }
            assert forall|i: int| 0 <= i < self.slots.len() implies (#[trigger] self.slots[i]).generation
                >= 1 by {
                assert(mapped.slots[i].generation >= 1);
            }
        }
        self.lemma_map_prefix(f, self.slots.len());
    }

    proof fn lemma_map_prefix<U>(self, f: spec_fn(T) -> U, n: nat)
        requires
            n <= self.slots.len(),
        ensures
            self.map_payloads(f).live_prefix(n) == self.live_prefix(n),
        decreases n,
    {
        if n > 0 {
            self.lemma_map_prefix(f, (n - 1) as nat);
        }
    }

    /// Mapping commutes with spawning.
    pub proof fn lemma_map_spawn<U>(self, f: spec_fn(T) -> U, value: T)
        requires
            self.wf(),
            self.has_room(),
        ensures
            self.spawn(value).map_payloads(f) == self.map_payloads(f).spawn(f(value)),
    {
        if self.free.len() > 0 {
            assert(self.reusable(self.free[self.free.len() - 1] as int));
        }
        assert(self.spawn(value).map_payloads(f).slots =~= self.map_payloads(f).spawn(f(value)).slots);
    }

    /// Mapping commutes with freeing.
    pub proof fn lemma_map_free<U>(self, f: spec_fn(T) -> U, h: Handle)
        ensures
            self.free(h).map_payloads(f) == self.map_payloads(f).free(h),
    {
        assert(self.free(h).map_payloads(f).slots =~= self.map_payloads(f).free(h).slots);
    }

    /// Mapping commutes with replacing a live entry.
    pub proof fn lemma_map_replace<U>(self, f: spec_fn(T) -> U, h: Handle, value: T)
        requires
            self.is_live(h),
        ensures
            self.replace(h, value).map_payloads(f) == self.map_payloads(f).replace(h, f(value)),
            f(value) == f(self.entries()[h]) ==> self.replace(h, value).map_payloads(f)
                == self.map_payloads(f),
    {
        assert(self.replace(h, value).map_payloads(f).slots =~= self.map_payloads(f).replace(
            h,
            f(value),
        ).slots);
        if f(value) == f(self.entries()[h]) {
            assert(self.replace(h, value).map_payloads(f).slots =~= self.map_payloads(f).slots);
        }
    }

    proof fn lemma_live_prefix(self, n: nat)
        requires
            self.wf(),
            n <= self.slots.len(),
        ensures
            self.live_prefix(n).len() <= n,
            forall|k: int|
                0 <= k < self.live_prefix(n).len() ==> self.is_live(#[trigger] self.live_prefix(n)[k])
                    && self.live_prefix(n)[k].index < n,
            forall|h: Handle| self.is_live(h) && h.index < n ==> self.live_prefix(n).contains(h),
            forall|a: int, b: int|
                0 <= a < b < self.live_prefix(n).len() ==> (#[trigger] self.live_prefix(n)[a]).index < (
                #[trigger] self.live_prefix(n)[b]).index,
        decreases n,
    {
        if n > 0 {
            let m = (n - 1) as nat;
            self.lemma_live_prefix(m);
            let before = self.live_prefix(m);
            let now = self.live_prefix(n);
            assert forall|h: Handle| self.is_live(h) && h.index < n implies now.contains(h) by {
                if h.index < m {
                    let k = choose|k: int| 0 <= k < before.len() && before[k] == h;
                    assert(now[k] == h);
                } else {
                    assert(now[now.len() - 1] == h);
                }
            }
        }
    }
}

/// A generational arena of values of type `T`.
pub struct Arena<T> {
    slots: Vec<Slot<T>>,
    free: Vec<u32>,
}

impl<T> View for Arena<T> {
    type V = ArenaModel<T>;

    closed spec fn view(&self) -> ArenaModel<T> {
        ArenaModel { slots: self.slots@, free: self.free@ }
    }
}

impl<T> Arena<T> {
    pub open spec fn wf(&self) -> bool {
        self@.wf()
    }

    pub fn new() -> (a: Arena<T>)
        ensures
            a.wf(),
            a@ == ArenaModel::<T>::empty(),
    {
        Arena { slots: Vec::new(), free: Vec::new() }
    }

    /// Whether one more entry can be spawned.
    pub fn has_room(&self) -> (b: bool)
        requires
            self.wf(),
        ensures
            b == self@.has_room(),
    {
        self.free.len() > 0 || self.slots.len() < u32::MAX as usize
    }

    /// Puts `value` into the arena and returns its handle.
    pub fn spawn(&mut self, value: T) -> (h: Handle)
        requires
            old(self).wf(),
            old(self)@.has_room(),
        ensures
            final(self).wf(),
            h == old(self)@.next_handle(),
            final(self)@ == old(self)@.spawn(value),
            !old(self)@.is_live(h),
            !old(self)@.is_stale(h),
            final(self)@.entries() == old(self)@.entries().insert(h, value),
    {
        proof {
            self@.lemma_spawn(value);
        }
        if self.free.len() > 0 {
            let index = self.free.pop().unwrap();
            assert(old(self)@.reusable(old(self)@.free[old(self)@.free.len() - 1] as int));
            let generation = self.slots[index as usize].generation + 1;
            self.slots.set(index as usize, Slot { generation, payload: Some(value) });
            assert(self@.slots =~= old(self)@.spawn(value).slots);
            assert(self@.free =~= old(self)@.spawn(value).free);
            Handle { index, generation }
        } else {
            let index = self.slots.len() as u32;
            self.slots.push(Slot { generation: 1, payload: Some(value) });
            assert(self@.free =~= old(self)@.spawn(value).free);
            Handle { index, generation: 1 }
        }
    }

    /// Whether `h` names an entry that is in the arena now.
    pub fn is_valid_handle(&self, h: Handle) -> (b: bool)
        ensures
            b == self@.is_live(h),
    {
        let i = h.index as usize;
        i < self.slots.len() && self.slots[i].generation == h.generation
            && self.slots[i].payload.is_some()
    }

    /// Takes the entry of `h` out of the arena.
    pub fn free(&mut self, h: Handle) -> (value: T)
        requires
            old(self).wf(),
            old(self)@.is_live(h),
        ensures
            final(self).wf(),
            final(self)@ == old(self)@.free(h),
            value == old(self)@.entries()[h],
            final(self)@.entries() == old(self)@.entries().remove(h),
            final(self)@.is_stale(h),
    {
        proof {
            self@.lemma_free(h);
        }
        let i = h.index as usize;
        let slot = &mut self.slots[i];
        let value = slot.payload.take().unwrap();
        if h.generation < u32::MAX {
            self.free.push(h.index);
        }
        assert(self@.slots =~= old(self)@.free(h).slots);
        assert(self@.free =~= old(self)@.free(h).free);
        value
    }

    /// Takes the entry of `h` out of the arena, if there is one.
    pub fn try_free(&mut self, h: Handle) -> (value: Option<T>)
        requires
            old(self).wf(),
        ensures
            final(self).wf(),
            final(self)@ == old(self)@.free(h),
            value == (if old(self)@.is_live(h) {
                Some(old(self)@.entries()[h])
            } else {
                None
            }),
            final(self)@.entries() == old(self)@.entries().remove(h),
            !final(self)@.is_live(h),
    {
        proof {
            self@.lemma_free(h);
        }
        if self.is_valid_handle(h) {
            Some(self.free(h))
        } else {
            None
        }
    }

    /// The entry of `h`.
    pub fn borrow(&self, h: Handle) -> (value: &T)
        requires
            self@.is_live(h),
        ensures
            *value == self@.entries()[h],
    {
        self.slots[h.index as usize].payload.as_ref().unwrap()
    }

    /// The entry of `h`, if there is one.
    pub fn try_borrow(&self, h: Handle) -> (value: Option<&T>)
        ensures
            value == (if self@.is_live(h) {
                Some(&self@.entries()[h])
            } else {
                None
            }),
    {
        if self.is_valid_handle(h) {
            Some(self.borrow(h))
        } else {
            None
        }
    }

    /// The entry of `h`, to change it in place.
    pub fn borrow_mut(&mut self, h: Handle) -> (value: &mut T)
        requires
            old(self).wf(),
            old(self)@.is_live(h),
        ensures
            *value == old(self)@.entries()[h],
            final(self)@ == old(self)@.replace(h, *final(value)),
            final(self).wf(),
            final(self)@.entries() == old(self)@.entries().insert(h, *final(value)),
            final(self)@.live_handles() == old(self)@.live_handles(),
    {
        let slot = &mut self.slots[h.index as usize];
        match &mut slot.payload {
            Some(value) => {
                proof {
                    old(self)@.lemma_replace(h, *final(value));
                }
                value
            },
            None => vstd::pervasive::unreached(),
        }
    }

    /// The number of slots, vacant ones included.
    pub fn capacity(&self) -> (n: usize)
        ensures
            n == self@.slots.len(),
    {
        self.slots.len()
    }

    /// The handles of the live entries, by index.
    pub fn handles(&self) -> (hs: Vec<Handle>)
        requires
            self.wf(),
        ensures
            hs@ == self@.live_handles(),
    {
        let mut hs: Vec<Handle> = Vec::new();
        let mut i: usize = 0;
        while i < self.slots.len()
            invariant
                self.wf(),
                i <= self.slots.len(),
                hs@ == self@.live_prefix(i as nat),
            decreases self.slots.len() - i,
        {
            if self.slots[i].payload.is_some() {
                hs.push(Handle { index: i as u32, generation: self.slots[i].generation });
            }
            i = i + 1;
        }
        hs
    }

    /// The number of live entries.
    pub fn alive_count(&self) -> (n: usize)
        requires
            self.wf(),
        ensures
            n == self@.live_handles().len(),
    {
        let mut n: usize = 0;
        let mut i: usize = 0;
        while i < self.slots.len()
            invariant
                self.wf(),
                i <= self.slots.len(),
                n == self@.live_prefix(i as nat).len(),
                n <= i,
            decreases self.slots.len() - i,
        {
            if self.slots[i].payload.is_some() {
                n = n + 1;
            }
            i = i + 1;
        }
        n
    }
}

} // verus!
