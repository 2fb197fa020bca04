//! Identity allocation: every nested call receives an identity that depends
//! only on its parent's identity, its call site and its disambiguation key.
use vstd::prelude::*;

verus! {

/// Names one lexical call expression for the lifetime of the process.
pub type CallsiteId = u64;

/// The identity of a scope. Identity `0` is the root; identity `k + 1` is the
/// `k`-th slot of the table that issued it.
pub type ScopeId = u64;

/// The identity of the root scope.
pub const ROOT: u64 = 0;

/// The disambiguation part of an identity: a key that the caller chose, or the
/// position of an unkeyed call among the unkeyed calls at the same call site
/// under the same parent in the current pass.
#[derive(Clone, Copy, Debug, PartialEq, Eq, Structural)]
pub enum Key {
    Explicit(u64),
    Auto(u64),
}

/// The three inputs that an identity is a function of.
#[derive(Clone, Copy, Debug, PartialEq, Eq, Structural)]
pub struct Moniker {
    pub parent: ScopeId,
    pub callsite: CallsiteId,
    pub key: Key,
}

/// The parent recorded for an identity in a table (the root is its own parent).
pub open spec fn parent_in(slots: Seq<Moniker>, id: ScopeId) -> ScopeId {
    if id == 0 || id > slots.len() {
        0
    } else {
        slots[id - 1].parent
    }
}

/// `a` is `d` itself or one of its ancestors in the table.
pub open spec fn is_ancestor(slots: Seq<Moniker>, a: ScopeId, d: ScopeId) -> bool
    decreases d,
{
    if a == d {
        true
    } else if d == 0 || d > slots.len() {
        false
    } else if slots[d - 1].parent < d {
        is_ancestor(slots, a, slots[d - 1].parent)
    } else {
        false
    }
}

/// The table that hands out identities: the `k`-th moniker it has seen is
/// identity `k + 1`, and it never forgets one.
pub struct IdTable {
    slots: Vec<Moniker>,
}

impl View for IdTable {
    type V = Seq<Moniker>;

    closed spec fn view(&self) -> Seq<Moniker> {
        self.slots@
    }
}

/// Each moniker occurs once, and names a parent that was issued before it.
pub open spec fn table_wf(slots: Seq<Moniker>) -> bool {
    &&& forall|i: int, j: int|
        0 <= i < j < slots.len() ==> #[trigger] slots[i] != #[trigger] slots[j]
    &&& forall|i: int| 0 <= i < slots.len() ==> #[trigger] slots[i].parent <= i
}

impl IdTable {
    pub open spec fn wf(&self) -> bool {
        table_wf(self@)
    }

    /// An empty table: only the root identity exists.
    pub fn new() -> (r: IdTable)
        ensures
            r@ == Seq::<Moniker>::empty(),
            r.wf(),
    {
        IdTable { slots: Vec::new() }
    }

    /// The number of identities issued besides the root.
    pub fn len(&self) -> (r: usize)
        ensures
            r == self@.len(),
    {
        self.slots.len()
    }

    /// The parent of an issued identity.
    pub fn parent(&self, id: ScopeId) -> (r: ScopeId)
        requires
            id <= self@.len(),
        ensures
            r == parent_in(self@, id),
    {
        if id == 0 {
            0
        } else {
            let n = self.slots.len();
            assert(id - 1 < n);
            let k = (id - 1) as usize;
            self.slots[k].parent
        }
    }

    /// The identity of `m`: the one it received before, or the next one.
    pub fn allocate(&mut self, m: Moniker) -> (r: ScopeId)
        requires
            old(self).wf(),
            m.parent <= old(self)@.len(),
            old(self)@.len() < u64::MAX,
        ensures
            final(self).wf(),
            1 <= r <= final(self)@.len(),
            final(self)@[r - 1] == m,
            old(self)@.contains(m) ==> final(self)@ == old(self)@,
            !old(self)@.contains(m) ==> final(self)@ == old(self)@.push(m),
    {
        let n = self.slots.len();
        let mut i: usize = 0;
        while i < n
            invariant
                n == self.slots@.len(),
                self.wf(),
                self@ == old(self)@,
                0 <= i <= n,
                forall|k: int| 0 <= k < i ==> self.slots@[k] != m,
            decreases n - i,
        {
            if self.slots[i] == m {
                return i as u64 + 1;
            }
            i = i + 1;
        }
        self.slots.push(m);
        n as u64 + 1
    }

    /// Whether `a` is `d` or one of its ancestors.
    pub fn is_ancestor(&self, a: ScopeId, d: ScopeId) -> (r: bool)
        requires
            self.wf(),
        ensures
            r == is_ancestor(self@, a, d),
    {
        let mut cur = d;
        loop
            invariant
                self.wf(),
                is_ancestor(self@, a, cur) == is_ancestor(self@, a, d),
            decreases cur,
        {
            if a == cur {
                return true;
            }
            if cur == 0 || cur > self.slots.len() as u64 {
                return false;
            }
            let p = self.slots[(cur - 1) as usize].parent;
            cur = p;
        }
    }
}

/// Identities are deterministic and distinct: allocating two monikers in turn
/// gives the same identity exactly when the monikers are equal.
pub proof fn lemma_identity_determinism(
    t0: Seq<Moniker>,
    t1: Seq<Moniker>,
    t2: Seq<Moniker>,
    a: Moniker,
    b: Moniker,
    ra: ScopeId,
    rb: ScopeId,
)
    requires
        table_wf(t2),
        t0.is_prefix_of(t1),
        t1.is_prefix_of(t2),
        1 <= ra <= t1.len(),
        t1[ra - 1] == a,
        1 <= rb <= t2.len(),
        t2[rb - 1] == b,
    ensures
        (ra == rb) <==> (a == b),
{
    assert(t2[ra - 1] == t1[ra - 1]);
}


/// An ancestor's identity is never larger than its descendant's.
pub proof fn lemma_ancestor_le(slots: Seq<Moniker>, a: ScopeId, d: ScopeId)
    requires
        table_wf(slots),
        is_ancestor(slots, a, d),
    ensures
        a <= d,
    decreases d,
{
    if a != d {
        assert(slots[d - 1].parent <= d - 1);
        lemma_ancestor_le(slots, a, slots[d - 1].parent);
    }
}

} // verus!
