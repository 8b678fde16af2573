//! The code generator: a fixed-pool slot allocator, primitive and composite
//! instruction emitters that track a virtual pointer position, and nested
//! scopes that share one allocator and position counter while collecting their
//! own instruction lists.

use vstd::prelude::*;

use crate::machine::{Command, DebugCmd, render_cmds_from};

verus! {

/// How code generation can fail.
#[derive(Debug, PartialEq, Eq)]
pub enum CodeGenError {
    /// The fixed slot pool is exhausted; the whole compilation must fail.
    Oom,
}

/// The pool size never exceeds this, so that every pointer-move delta between
/// two slots fits in the 32-bit move operand.
pub const SLOT_LIMIT: usize = 0x7fff_ffff;

/// A handle on one allocated cell slot, exclusively owned by one logical
/// variable binding and returned to the allocator exactly once.
#[derive(Debug)]
pub struct StaticVar(usize);

impl View for StaticVar {
    type V = usize;

    closed spec fn view(&self) -> usize {
        self.0
    }
}

impl StaticVar {
    /// The slot index this handle owns.
    pub fn slot(&self) -> (r: usize)
        ensures
            r == self@,
    {
        self.0
    }
}

/// A strictly descending sequence: the canonical shape of the free list, so
/// that the smallest free slot sits at the end.
pub open spec fn sorted_desc(s: Seq<usize>) -> bool {
    forall|i: int, j: int| 0 <= i < j < s.len() ==> s[i] > s[j]
}

/// Insertion into a strictly descending sequence, keeping it descending.
pub open spec fn insert_desc(s: Seq<usize>, p: usize) -> Seq<usize>
    decreases s.len(),
{
    if s.len() == 0 {
        seq![p]
    } else if s[0] > p {
        seq![s[0]] + insert_desc(s.drop_first(), p)
    } else {
        seq![p] + s
    }
}

/// The fixed-capacity slot allocator: the currently free slot indices, kept
/// strictly descending so the smallest index is reused first.
pub struct StaticMemory {
    free: Vec<usize>,
    capacity: usize,
}

impl StaticMemory {
    /// The free slots, smallest last.
    pub closed spec fn free_list(&self) -> Seq<usize> {
        self.free@
    }

    /// The configured pool size.
    pub closed spec fn cap(&self) -> usize {
        self.capacity
    }

    /// Invariant: the free list is strictly descending and within the pool.
    pub open spec fn wf(&self) -> bool {
        &&& self.cap() <= SLOT_LIMIT
        &&& sorted_desc(self.free_list())
        &&& forall|i: int| 0 <= i < self.free_list().len() ==> self.free_list()[i] < self.cap()
    }

    /// A fresh pool of the given size with every slot free.
    pub fn new(length: usize) -> (r: Self)
        requires
            length <= SLOT_LIMIT,
        ensures
            r.wf(),
            r.cap() == length,
            r.free_list().len() == length,
            forall|i: int| 0 <= i < length ==> r.free_list()[i] == length - 1 - i,
    {
        let mut free: Vec<usize> = Vec::new();
        let mut k: usize = 0;
        while k < length
            invariant
                k <= length,
                free@.len() == k,
                forall|i: int| 0 <= i < k ==> free@[i] == length - 1 - i,
            decreases length - k,
        {
            free.push(length - 1 - k);
            k = k + 1;
        }
        Self { free, capacity: length }
    }

    /// Remove and return the smallest free slot index.
    fn alloc_raw(&mut self) -> (r: Result<usize, CodeGenError>)
        requires
            old(self).wf(),
        ensures
            final(self).wf(),
            final(self).cap() == old(self).cap(),
            match r {
                Err(e) => {
                    &&& e == CodeGenError::Oom
                    &&& old(self).free_list().len() == 0
                    &&& final(self).free_list() == old(self).free_list()
                },
                Ok(p) => {
                    &&& old(self).free_list().len() > 0
                    &&& p == old(self).free_list().last()
                    &&& final(self).free_list() == old(self).free_list().drop_last()
                    &&& p < old(self).cap()
                },
            },
    {
        match self.free.pop() {
            Some(p) => Ok(p),
            None => Err(CodeGenError::Oom),
        }
    }

    /// Allocate a variable on the smallest free slot; `Oom` exactly when no
    /// slot is free.
    pub fn allocate(&mut self) -> (r: Result<StaticVar, CodeGenError>)
        requires
            old(self).wf(),
        ensures
            final(self).wf(),
            final(self).cap() == old(self).cap(),
            match r {
                Err(e) => {
                    &&& e == CodeGenError::Oom
                    &&& old(self).free_list().len() == 0
                    &&& final(self).free_list() == old(self).free_list()
                },
                Ok(v) => {
                    &&& old(self).free_list().len() > 0
                    &&& v@ == old(self).free_list().last()
                    &&& final(self).free_list() == old(self).free_list().drop_last()
                    &&& v@ < old(self).cap()
                },
            },
    {
        match self.alloc_raw() {
            Ok(p) => Ok(StaticVar(p)),
            Err(e) => Err(e),
        }
    }

    /// Return a slot to the free list, keeping it strictly descending.
    fn free_raw(&mut self, ptr: usize)
        requires
            old(self).wf(),
            ptr < old(self).cap(),
            !old(self).free_list().contains(ptr),
        ensures
            final(self).wf(),
            final(self).cap() == old(self).cap(),
            final(self).free_list() == insert_desc(old(self).free_list(), ptr),
    {
        let n = self.free.len();
        let mut i: usize = 0;
        while i < n && self.free[i] > ptr
            invariant
                i <= n,
                n == self.free_list().len(),
                *self == *old(self),
                forall|j: int| 0 <= j < i ==> self.free_list()[j] > ptr,
            decreases n - i,
        {
            i = i + 1;
        }
        proof {
            lemma_insert_desc_split(old(self).free_list(), ptr, i as int);
        }
        self.free.insert(i, ptr);
        proof {
            assert(self.free_list() =~= old(self).free_list().insert(i as int, ptr));
            lemma_insert_desc_props(old(self).free_list(), ptr, old(self).cap());
        }
    }

    /// Release a variable's slot back to the pool. The underlying tape cell is
    /// not zeroed: a later user of the slot must emit a `zero` itself.
    pub fn free(&mut self, variable: StaticVar)
        requires
            old(self).wf(),
            variable@ < old(self).cap(),
            !old(self).free_list().contains(variable@),
        ensures
            final(self).wf(),
            final(self).cap() == old(self).cap(),
            final(self).free_list() == insert_desc(old(self).free_list(), variable@),
    {
        let StaticVar(p) = variable;
        self.free_raw(p);
    }
}

/// Where a new element lands in a strictly descending sequence: before index
/// `i` everything is larger, so the insertion splits the sequence at `i`.
pub proof fn lemma_insert_desc_split(s: Seq<usize>, p: usize, i: int)
    requires
        sorted_desc(s),
        !s.contains(p),
        0 <= i <= s.len(),
        forall|j: int| 0 <= j < i ==> s[j] > p,
        i < s.len() ==> s[i] <= p,
    ensures
        insert_desc(s, p) == s.insert(i, p),
    decreases s.len(),
{
    if s.len() == 0 {
        assert(insert_desc(s, p) =~= s.insert(0, p));
    } else if s[0] > p {
        assert(i > 0);
        let t = s.drop_first();
        assert(!t.contains(p)) by {
            if t.contains(p) {
                let k = choose|k: int| 0 <= k < t.len() && t[k] == p;
                assert(s[k + 1] == p);
            }
        }
        lemma_insert_desc_split(t, p, i - 1);
        assert(insert_desc(s, p) =~= s.insert(i, p));
    } else {
        assert(s[0] != p);
        assert(i == 0);
        assert(insert_desc(s, p) =~= s.insert(0, p));
    }
}

/// Inserting a fresh in-range slot keeps the free list strictly descending,
/// in range, one element longer, and extends its membership by exactly that
/// slot.
pub proof fn lemma_insert_desc_props(s: Seq<usize>, p: usize, cap: usize)
    requires
        sorted_desc(s),
        !s.contains(p),
        p < cap,
        forall|i: int| 0 <= i < s.len() ==> s[i] < cap,
    ensures
        sorted_desc(insert_desc(s, p)),
        insert_desc(s, p).len() == s.len() + 1,
        forall|i: int| 0 <= i < insert_desc(s, p).len() ==> insert_desc(s, p)[i] < cap,
        forall|x: usize| insert_desc(s, p).contains(x) <==> (s.contains(x) || x == p),
    decreases s.len(),
{
    let r = insert_desc(s, p);
    if s.len() == 0 {
        assert(forall|x: usize| r.contains(x) ==> r[choose|i: int| 0 <= i < r.len() && r[i] == x] == x);
        assert(r.contains(p)) by {
            assert(r[0] == p);
        }
    } else if s[0] > p {
        let t = s.drop_first();
        assert(!t.contains(p)) by {
            if t.contains(p) {
                let k = choose|k: int| 0 <= k < t.len() && t[k] == p;
                assert(s[k + 1] == p);
            }
        }
        lemma_insert_desc_props(t, p, cap);
        let rt = insert_desc(t, p);
        assert(r =~= seq![s[0]] + rt);
        assert forall|x: usize| r.contains(x) implies (s.contains(x) || x == p) by {
            let k = choose|k: int| 0 <= k < r.len() && r[k] == x;
            if k == 0 {
                assert(s[0] == x);
            } else {
                assert(rt.contains(x)) by {
                    assert(0 <= k - 1 < rt.len() && rt[k - 1] == x);
                }
                if t.contains(x) {
                    let m = choose|m: int| 0 <= m < t.len() && t[m] == x;
                    assert(s[m + 1] == x);
                }
            }
        }
        assert forall|x: usize| (s.contains(x) || x == p) implies r.contains(x) by {
            if x == p {
                assert(rt.contains(p));
                let m = choose|m: int| 0 <= m < rt.len() && rt[m] == p;
                assert(0 <= m + 1 < r.len() && r[m + 1] == p);
            } else {
                let k = choose|k: int| 0 <= k < s.len() && s[k] == x;
                if k == 0 {
                    assert(0 <= 0 < r.len() && r[0] == x);
                } else {
                    assert(rt.contains(x)) by {
                        assert(0 <= k - 1 < t.len() && t[k - 1] == x);
                        assert(t.contains(x));
                    }
                    let m = choose|m: int| 0 <= m < rt.len() && rt[m] == x;
                    assert(0 <= m + 1 < r.len() && r[m + 1] == x);
                }
            }
        }
        assert(sorted_desc(r)) by {
            assert forall|i: int, j: int| 0 <= i < j < r.len() implies r[i] > r[j] by {
                if i == 0 {
                    assert(rt[j - 1] == r[j]);
                    assert(rt.contains(rt[j - 1]));
                    if t.contains(rt[j - 1]) {
                        let m = choose|m: int| 0 <= m < t.len() && t[m] == rt[j - 1];
                        assert(s[0] > s[m + 1]);
                    }
                } else {
                    assert(rt[i - 1] > rt[j - 1]);
                }
            }
        }
    } else {
        assert(s[0] < p || s[0] == p);
        assert(s[0] != p) by {
            if s[0] == p {
                assert(s.contains(p));
            }
        }
        assert(r =~= seq![p] + s);
        assert forall|i: int, j: int| 0 <= i < j < r.len() implies r[i] > r[j] by {
            if i == 0 {
                if j == 1 {
                    assert(r[1] == s[0]);
                } else {
                    assert(s[0] > s[j - 1]);
                }
            }
        }
        assert forall|x: usize| (s.contains(x) || x == p) implies r.contains(x) by {
            if x == p {
                assert(r[0] == p);
            } else {
                let k = choose|k: int| 0 <= k < s.len() && s[k] == x;
                assert(r[k + 1] == x);
            }
        }
        assert forall|x: usize| r.contains(x) implies (s.contains(x) || x == p) by {
            let k = choose|k: int| 0 <= k < r.len() && r[k] == x;
            if k > 0 {
                assert(s[k - 1] == x);
            }
        }
    }
}

/// Returning the most recently allocated (smallest) slot restores the free
/// list exactly.
pub proof fn lemma_insert_desc_drop_last(s: Seq<usize>)
    requires
        sorted_desc(s),
        s.len() > 0,
    ensures
        insert_desc(s.drop_last(), s.last()) == s,
    decreases s.len(),
{
    let t = s.drop_last();
    let p = s.last();
    if t.len() == 0 {
        assert(insert_desc(t, p) =~= s);
    } else {
        assert(t[0] == s[0]);
        assert(t[0] > p);
        lemma_insert_desc_drop_last(s.drop_first());
        assert(s.drop_first().drop_last() =~= t.drop_first());
        assert(s.drop_first().last() == p);
        assert(insert_desc(t, p) =~= seq![t[0]] + insert_desc(t.drop_first(), p));
        assert(insert_desc(t, p) =~= s);
    }
}

/// The allocator hands out the smallest free slot: the last element of a
/// strictly descending free list is strictly below every other free slot, so
/// successive allocations return strictly ascending indices.
pub proof fn lemma_last_is_min(s: Seq<usize>)
    requires
        sorted_desc(s),
        s.len() > 0,
    ensures
        forall|i: int| 0 <= i < s.len() - 1 ==> s[i] > s.last(),
{
}

/// Releasing slots one after another, in the order given.
pub open spec fn insert_all(s: Seq<usize>, ps: Seq<usize>) -> Seq<usize>
    decreases ps.len(),
{
    if ps.len() == 0 {
        s
    } else {
        insert_all(insert_desc(s, ps[0]), ps.drop_first())
    }
}

/// Releasing fresh slots keeps the free list strictly descending and extends
/// its membership by exactly those slots.
pub proof fn lemma_insert_all_sorted(base: Seq<usize>, order: Seq<usize>, cap: usize)
    requires
        sorted_desc(base),
        forall|i: int| 0 <= i < base.len() ==> base[i] < cap,
        forall|i: int| 0 <= i < order.len() ==> order[i] < cap,
        order.no_duplicates(),
        forall|x: usize| order.contains(x) ==> !base.contains(x),
    ensures
        sorted_desc(insert_all(base, order)),
        forall|i: int| 0 <= i < insert_all(base, order).len() ==> insert_all(base, order)[i] < cap,
        forall|x: usize| insert_all(base, order).contains(x)
            <==> (base.contains(x) || order.contains(x)),
    decreases order.len(),
{
    if order.len() == 0 {
    } else {
        let p = order[0];
        assert(order.contains(p));
        lemma_insert_desc_props(base, p, cap);
        let base1 = insert_desc(base, p);
        let rest = order.drop_first();
        assert forall|x: usize| rest.contains(x) implies !base1.contains(x) by {
            let k = choose|k: int| 0 <= k < rest.len() && rest[k] == x;
            assert(order[k + 1] == x);
            assert(order.contains(x));
            assert(x != p);
        }
        assert(forall|i: int| 0 <= i < rest.len() ==> #[trigger] rest[i] == order[i + 1]);
        assert forall|i: int| 0 <= i < rest.len() implies rest[i] < cap by {
            assert(rest[i] == order[i + 1]);
        }
        lemma_insert_all_sorted(base1, rest, cap);
        assert forall|x: usize| insert_all(base, order).contains(x) implies
            (base.contains(x) || order.contains(x)) by {
            if rest.contains(x) {
                let k = choose|k: int| 0 <= k < rest.len() && rest[k] == x;
                assert(order[k + 1] == x);
            }
        }
        assert forall|x: usize| (base.contains(x) || order.contains(x)) implies
            insert_all(base, order).contains(x) by {
            if order.contains(x) && x != p {
                let k = choose|k: int| 0 <= k < order.len() && order[k] == x;
                assert(rest[k - 1] == x);
                assert(rest.contains(x));
            }
        }
    }
}

/// The round-trip law of the allocator: allocate the `k` smallest slots (the
/// tail of the descending free list), then release all of them back, in any
/// order; the free list is restored exactly, so the next allocations reuse
/// the same slots, ascending again.
pub proof fn lemma_free_all_restores(s: Seq<usize>, k: int, order: Seq<usize>, cap: usize)
    requires
        sorted_desc(s),
        forall|i: int| 0 <= i < s.len() ==> s[i] < cap,
        0 <= k <= s.len(),
        order.no_duplicates(),
        forall|x: usize| order.contains(x) <==> s.skip(s.len() - k).contains(x),
    ensures
        insert_all(s.take(s.len() - k), order) == s,
{
    let n = s.len() as int;
    let base = s.take(n - k);
    let tail = s.skip(n - k);
    assert forall|x: usize| order.contains(x) implies !base.contains(x) by {
        let i = choose|i: int| 0 <= i < tail.len() && tail[i] == x;
        if base.contains(x) {
            let j = choose|j: int| 0 <= j < base.len() && base[j] == x;
            assert(s[j] == s[n - k + i]);
        }
    }
    assert forall|i: int| 0 <= i < order.len() implies order[i] < cap by {
        assert(order.contains(order[i]));
        let j = choose|j: int| 0 <= j < tail.len() && tail[j] == order[i];
        assert(s[n - k + j] == order[i]);
    }
    lemma_insert_all_sorted(base, order, cap);
    let res = insert_all(base, order);
    assert forall|x: usize| res.contains(x) <==> s.contains(x) by {
        if base.contains(x) {
            let j = choose|j: int| 0 <= j < base.len() && base[j] == x;
            assert(s[j] == x);
        }
        if order.contains(x) {
            let j = choose|j: int| 0 <= j < tail.len() && tail[j] == x;
            assert(s[n - k + j] == x);
        }
        if s.contains(x) {
            let j = choose|j: int| 0 <= j < s.len() && s[j] == x;
            if j < n - k {
                assert(base[j] == x);
            } else {
                assert(tail[j - (n - k)] == x);
            }
        }
    }
    lemma_sorted_desc_unique(res, s);
}

/// Two strictly descending sequences with the same members are the same
/// sequence: the free list is determined by the set of free slots, whatever
/// order slots were released in.
pub proof fn lemma_sorted_desc_unique(s1: Seq<usize>, s2: Seq<usize>)
    requires
        sorted_desc(s1),
        sorted_desc(s2),
        forall|x: usize| s1.contains(x) <==> s2.contains(x),
    ensures
        s1 == s2,
    decreases s1.len(),
{
    if s1.len() == 0 {
        if s2.len() > 0 {
            assert(s2.contains(s2[0]));
        }
        assert(s1 =~= s2);
    } else {
        assert(s1.contains(s1[0]));
        assert(s2.len() > 0);
        // The heads agree: each head is the strict maximum of its sequence.
        assert(s2.contains(s1[0]));
        assert(s1.contains(s2[0]));
        let k1 = choose|k: int| 0 <= k < s2.len() && s2[k] == s1[0];
        let k2 = choose|k: int| 0 <= k < s1.len() && s1[k] == s2[0];
        assert(s2[0] >= s2[k1]);
        assert(s1[0] >= s1[k2]);
        assert(s1[0] == s2[0]);
        let t1 = s1.drop_first();
        let t2 = s2.drop_first();
        assert forall|x: usize| t1.contains(x) implies t2.contains(x) by {
            let k = choose|k: int| 0 <= k < t1.len() && t1[k] == x;
            assert(s1[k + 1] == x);
            assert(s1.contains(x));
            assert(s2.contains(x));
            let m = choose|m: int| 0 <= m < s2.len() && s2[m] == x;
            assert(x < s1[0]);
            assert(m != 0);
            assert(t2[m - 1] == x);
        }
        assert forall|x: usize| t2.contains(x) implies t1.contains(x) by {
            let k = choose|k: int| 0 <= k < t2.len() && t2[k] == x;
            assert(s2[k + 1] == x);
            assert(s2.contains(x));
            assert(s1.contains(x));
            let m = choose|m: int| 0 <= m < s1.len() && s1[m] == x;
            assert(x < s2[0]);
            assert(m != 0);
            assert(t1[m - 1] == x);
        }
        lemma_sorted_desc_unique(t1, t2);
        assert(s1.len() == s2.len());
        assert(forall|i: int| 1 <= i < s1.len() ==> s1[i] == t1[i - 1] && s2[i] == t2[i - 1]);
        assert(s1 =~= s2);
    }
}

} // verus!

verus! {

/// The command that asserts the pointer stands at slot `p`.
pub open spec fn assert_cmd(p: usize) -> Command {
    Command::Debug(DebugCmd::AssertPosition(p))
}

/// What `goto` emits: a move by the slot difference when it is nonzero, then
/// a position assertion.
pub open spec fn cmds_goto(slot: usize, pos: usize) -> Seq<Command> {
    if slot == pos {
        seq![assert_cmd(slot)]
    } else {
        seq![Command::Move((slot - pos) as i32), assert_cmd(slot)]
    }
}

/// The decrement-to-zero loop: relies on wrapping, so it reaches zero from any
/// starting value.
pub open spec fn dec_loop_cmd() -> Command {
    Command::Loop(Box::new(Command::Add(-1i32)))
}

/// What `zero` emits.
pub open spec fn cmds_zero(slot: usize, pos: usize) -> Seq<Command> {
    cmds_goto(slot, pos) + seq![dec_loop_cmd(), assert_cmd(slot)]
}

/// What `read` emits.
pub open spec fn cmds_read(slot: usize, pos: usize) -> Seq<Command> {
    cmds_goto(slot, pos) + seq![Command::Read]
}

/// What `print` emits.
pub open spec fn cmds_print(slot: usize, pos: usize) -> Seq<Command> {
    cmds_goto(slot, pos) + seq![Command::Print]
}

/// What `add_const` emits.
pub open spec fn cmds_add_const(slot: usize, pos: usize, val: i32) -> Seq<Command> {
    cmds_goto(slot, pos) + seq![Command::Add(val)]
}

/// `c` is a loop whose body is the given command sequence.
pub open spec fn is_loop_seq(c: Command, body: Seq<Command>) -> bool {
    match c {
        Command::Loop(b) => match *b {
            Command::Sequence(v) => v@ == body,
            _ => false,
        },
        _ => false,
    }
}

/// `c` is a sequence node holding the given commands.
pub open spec fn is_seq_cmd(c: Command, body: Seq<Command>) -> bool {
    match c {
        Command::Sequence(v) => v@ == body,
        _ => false,
    }
}

/// The generator invariant: the allocator is well formed and the tracked
/// position is a pool slot (or the initial cell 0).
pub open spec fn gen_wf(free: Seq<usize>, cap: usize, pos: usize) -> bool {
    &&& cap <= SLOT_LIMIT
    &&& (pos == 0 || pos < cap)
    &&& sorted_desc(free)
    &&& forall|i: int| 0 <= i < free.len() ==> free[i] < cap
}

/// The generator invariant, over a generator's views.
pub open spec fn gen_ok<G: CodeGenerator>(g: &G) -> bool {
    gen_wf(g.free_view(), g.cap_view(), g.pos_view())
}

/// The shared emitter interface of the root generator and of nested scopes:
/// each has its own instruction list, while the allocator and the position
/// counter are handed down from the root, one holder at a time.
/// The body of `add`'s first loop: move one unit from the right operand into
/// both the temporary and the left operand, per iteration.
pub open spec fn add_loop1_body(l: usize, r: usize, t: usize) -> Seq<Command> {
    seq![assert_cmd(r)] + cmds_add_const(t, r, 1i32) + cmds_add_const(l, t, 1i32)
        + cmds_add_const(r, l, -1i32) + cmds_goto(r, r)
}

/// The body of `add`'s second loop: move the temporary's units back into the
/// right operand, restoring it.
pub open spec fn add_loop2_body(r: usize, t: usize) -> Seq<Command> {
    seq![assert_cmd(t)] + cmds_add_const(r, t, 1i32) + cmds_add_const(t, r, -1i32)
        + cmds_goto(t, t)
}

/// The exact instructions `add` appends to code `c0`, giving code `cw`: zero
/// the temporary `t`, drain the right operand `r` into `t` and the left
/// operand `l`, then drain `t` back into `r`. The two loop nodes are pinned by
/// their bodies.
pub open spec fn add_code_shape(
    c0: Seq<Command>,
    cw: Seq<Command>,
    l: usize,
    r: usize,
    t: usize,
    p0: usize,
) -> bool {
    let pre = cmds_zero(t, p0) + cmds_goto(r, t);
    let mid = cmds_goto(t, r);
    let i1 = c0.len() + pre.len();
    let i2 = i1 + 2 + mid.len();
    &&& cw.len() == i2 + 2
    &&& cw.take(c0.len() as int) == c0
    &&& cw.subrange(c0.len() as int, i1 as int) == pre
    &&& is_loop_seq(cw[i1 as int], add_loop1_body(l, r, t))
    &&& cw[i1 as int + 1] == assert_cmd(r)
    &&& cw.subrange(i1 as int + 2, i2 as int) == mid
    &&& is_loop_seq(cw[i2 as int], add_loop2_body(r, t))
    &&& cw[i2 as int + 1] == assert_cmd(t)
}

/// The emitter interface of the root generator and of nested scopes: each has
/// its own instruction list, while one allocator and one position counter are
/// handed down from the root, one exclusive holder at a time.
pub trait CodeGenerator: Sized {
    /// The instructions emitted into this generator so far.
    spec fn code_view(&self) -> Seq<Command>;

    /// The allocator's free list, smallest slot last.
    spec fn free_view(&self) -> Seq<usize>;

    /// The allocator's pool size.
    spec fn cap_view(&self) -> usize;

    /// The tracked virtual pointer position.
    spec fn pos_view(&self) -> usize;

    /// Append one instruction to this generator's own list.
    fn emit(&mut self, command: Command)
        ensures
            final(self).code_view() == old(self).code_view().push(command),
            final(self).free_view() == old(self).free_view(),
            final(self).cap_view() == old(self).cap_view(),
            final(self).pos_view() == old(self).pos_view(),
    ;

    /// The tracked virtual pointer position.
    fn position(&self) -> (r: usize)
        ensures
            r == self.pos_view(),
    ;

    /// Allocate the smallest free slot of the shared pool; `Oom` exactly when
    /// no slot is free.
    fn static_alloc(&mut self) -> (r: Result<StaticVar, CodeGenError>)
        requires
            gen_wf(old(self).free_view(), old(self).cap_view(), old(self).pos_view()),
        ensures
            gen_wf(final(self).free_view(), final(self).cap_view(), final(self).pos_view()),
            final(self).code_view() == old(self).code_view(),
            final(self).cap_view() == old(self).cap_view(),
            final(self).pos_view() == old(self).pos_view(),
            match r {
                Err(e) => {
                    &&& e == CodeGenError::Oom
                    &&& old(self).free_view().len() == 0
                    &&& final(self).free_view() == old(self).free_view()
                },
                Ok(v) => {
                    &&& old(self).free_view().len() > 0
                    &&& v@ == old(self).free_view().last()
                    &&& final(self).free_view() == old(self).free_view().drop_last()
                    &&& v@ < old(self).cap_view()
                },
            },
    ;

    /// Release a variable's slot back to the shared pool.
    fn static_free(&mut self, var: StaticVar)
        requires
            gen_wf(old(self).free_view(), old(self).cap_view(), old(self).pos_view()),
            var@ < old(self).cap_view(),
            !old(self).free_view().contains(var@),
        ensures
            gen_wf(final(self).free_view(), final(self).cap_view(), final(self).pos_view()),
            final(self).code_view() == old(self).code_view(),
            final(self).cap_view() == old(self).cap_view(),
            final(self).pos_view() == old(self).pos_view(),
            final(self).free_view() == insert_desc(old(self).free_view(), var@),
    ;

    /// Move the pointer to the variable's slot (when not already there) and
    /// assert the position.
    fn goto(&mut self, var: &StaticVar)
        requires
            gen_wf(old(self).free_view(), old(self).cap_view(), old(self).pos_view()),
            var@ < old(self).cap_view(),
        ensures
            gen_wf(final(self).free_view(), final(self).cap_view(), final(self).pos_view()),
            final(self).code_view() == old(self).code_view()
                + cmds_goto(var@, old(self).pos_view()),
            final(self).pos_view() == var@,
            final(self).free_view() == old(self).free_view(),
            final(self).cap_view() == old(self).cap_view(),
    ;

    /// Record a position assertion in the instruction stream.
    fn assert_position(&mut self, position: usize)
        ensures
            final(self).code_view() == old(self).code_view().push(assert_cmd(position)),
            final(self).free_view() == old(self).free_view(),
            final(self).cap_view() == old(self).cap_view(),
            final(self).pos_view() == old(self).pos_view(),
    ;

    /// Emit code that zeroes the variable's cell: go there, then decrement
    /// until the cell wraps down to zero.
    fn zero(&mut self, var: &mut StaticVar)
        requires
            gen_wf(old(self).free_view(), old(self).cap_view(), old(self).pos_view()),
            old(var)@ < old(self).cap_view(),
        ensures
            gen_wf(final(self).free_view(), final(self).cap_view(), final(self).pos_view()),
            *final(var) == *old(var),
            final(self).code_view() == old(self).code_view()
                + cmds_zero(old(var)@, old(self).pos_view()),
            final(self).pos_view() == old(var)@,
            final(self).free_view() == old(self).free_view(),
            final(self).cap_view() == old(self).cap_view(),
    ;

    /// Emit code that reads the next input value into the variable's cell.
    fn read(&mut self, var: &StaticVar)
        requires
            gen_wf(old(self).free_view(), old(self).cap_view(), old(self).pos_view()),
            var@ < old(self).cap_view(),
        ensures
            gen_wf(final(self).free_view(), final(self).cap_view(), final(self).pos_view()),
            final(self).code_view() == old(self).code_view()
                + cmds_read(var@, old(self).pos_view()),
            final(self).pos_view() == var@,
            final(self).free_view() == old(self).free_view(),
            final(self).cap_view() == old(self).cap_view(),
    ;

    /// Emit code that prints the variable's cell.
    fn print(&mut self, var: &StaticVar)
        requires
            gen_wf(old(self).free_view(), old(self).cap_view(), old(self).pos_view()),
            var@ < old(self).cap_view(),
        ensures
            gen_wf(final(self).free_view(), final(self).cap_view(), final(self).pos_view()),
            final(self).code_view() == old(self).code_view()
                + cmds_print(var@, old(self).pos_view()),
            final(self).pos_view() == var@,
            final(self).free_view() == old(self).free_view(),
            final(self).cap_view() == old(self).cap_view(),
    ;

    /// Emit code that adds the constant to the variable's cell (wrapping).
    fn add_const(&mut self, var: &mut StaticVar, val: i32)
        requires
            gen_wf(old(self).free_view(), old(self).cap_view(), old(self).pos_view()),
            old(var)@ < old(self).cap_view(),
        ensures
            gen_wf(final(self).free_view(), final(self).cap_view(), final(self).pos_view()),
            *final(var) == *old(var),
            final(self).code_view() == old(self).code_view()
                + cmds_add_const(old(var)@, old(self).pos_view(), val),
            final(self).pos_view() == old(var)@,
            final(self).free_view() == old(self).free_view(),
            final(self).cap_view() == old(self).cap_view(),
    ;

    /// Emit code that increments the variable's cell by one.
    fn inc(&mut self, var: &mut StaticVar)
        requires
            gen_wf(old(self).free_view(), old(self).cap_view(), old(self).pos_view()),
            old(var)@ < old(self).cap_view(),
        ensures
            gen_wf(final(self).free_view(), final(self).cap_view(), final(self).pos_view()),
            *final(var) == *old(var),
            final(self).code_view() == old(self).code_view()
                + cmds_add_const(old(var)@, old(self).pos_view(), 1i32),
            final(self).pos_view() == old(var)@,
            final(self).free_view() == old(self).free_view(),
            final(self).cap_view() == old(self).cap_view(),
    ;

    /// Emit code that decrements the variable's cell by one.
    fn dec(&mut self, var: &mut StaticVar)
        requires
            gen_wf(old(self).free_view(), old(self).cap_view(), old(self).pos_view()),
            old(var)@ < old(self).cap_view(),
        ensures
            gen_wf(final(self).free_view(), final(self).cap_view(), final(self).pos_view()),
            *final(var) == *old(var),
            final(self).code_view() == old(self).code_view()
                + cmds_add_const(old(var)@, old(self).pos_view(), -1i32),
            final(self).pos_view() == old(var)@,
            final(self).free_view() == old(self).free_view(),
            final(self).cap_view() == old(self).cap_view(),
    ;

}

/// The root code generator: it owns the instruction list being built, the slot
/// allocator, and the virtual pointer position.
pub struct CodeGen {
    code: Vec<Command>,
    static_memory: StaticMemory,
    position: usize,
}

/// A nested code-generation scope. A scope is itself a generator: it holds the
/// shared allocator and position counter exclusively while it is open (its
/// parent keeps an empty pool meanwhile) and collects its own instruction
/// list, which closing wraps as a loop body.
pub type CodeGenScope = CodeGen;

impl CodeGen {
    /// A fresh generator over a pool of the given size, position at cell 0.
    pub fn new(static_memory_length: usize) -> (r: Self)
        requires
            static_memory_length <= SLOT_LIMIT,
        ensures
            gen_ok(&r),
            r.code_view() == Seq::<Command>::empty(),
            r.cap_view() == static_memory_length,
            r.pos_view() == 0,
            r.free_view().len() == static_memory_length,
            forall|i: int| 0 <= i < static_memory_length
                ==> r.free_view()[i] == static_memory_length - 1 - i,
    {
        Self {
            code: Vec::new(),
            static_memory: StaticMemory::new(static_memory_length),
            position: 0,
        }
    }

    /// The finished program: the emitted instructions as one sequence node.
    pub fn compile_nbf(self) -> (r: Command)
        ensures
            is_seq_cmd(r, self.code_view()),
    {
        Command::Sequence(self.code)
    }

    /// The finished program in the target machine's textual alphabet.
    pub fn compile_brainfuck(self) -> (r: String)
        ensures
            r@ == render_cmds_from(self.code_view(), 0, false),
    {
        self.compile_nbf().to_brainfuck()
    }

    /// Open a nested scope: it takes over the shared allocator and position
    /// counter and collects its own instruction list; this generator keeps its
    /// code and is left with an empty pool until the scope is closed.
    pub fn new_scope(&mut self) -> (s: CodeGenScope)
        ensures
            s.code_view() == Seq::<Command>::empty(),
            s.free_view() == old(self).free_view(),
            s.cap_view() == old(self).cap_view(),
            s.pos_view() == old(self).pos_view(),
            final(self).code_view() == old(self).code_view(),
            final(self).free_view() == Seq::<usize>::empty(),
            final(self).cap_view() == 0,
            final(self).pos_view() == 0,
    {
        let mut mem = StaticMemory { free: Vec::new(), capacity: 0 };
        core::mem::swap(&mut mem, &mut self.static_memory);
        let pos = self.position;
        self.position = 0;
        CodeGen { code: Vec::new(), static_memory: mem, position: pos }
    }

    /// Close a scope as a loop body: take the shared allocator and position
    /// back and append the scope's instructions wrapped in a loop.
    pub fn end_loop(&mut self, scope: CodeGenScope)
        ensures
            final(self).code_view().len() == old(self).code_view().len() + 1,
            final(self).code_view().take(old(self).code_view().len() as int)
                == old(self).code_view(),
            is_loop_seq(final(self).code_view().last(), scope.code_view()),
            final(self).free_view() == scope.free_view(),
            final(self).cap_view() == scope.cap_view(),
            final(self).pos_view() == scope.pos_view(),
    {
        let CodeGen { code, static_memory, position } = scope;
        self.static_memory = static_memory;
        self.position = position;
        self.code.push(Command::Loop(Box::new(Command::Sequence(code))));
    }

    /// Open a `while var != 0` loop: go to the variable, open a scope for the
    /// body, and assert the position at the body's entry. The caller emits the
    /// body into the returned scope and closes it with `end_while_neq0`; it is
    /// the caller's responsibility that the loop terminates.
    pub fn begin_while_neq0(&mut self, var: &StaticVar) -> (s: CodeGenScope)
        requires
            gen_ok(old(self)),
            var@ < old(self).cap_view(),
        ensures
            gen_ok(&s),
            final(self).code_view() == old(self).code_view()
                + cmds_goto(var@, old(self).pos_view()),
            final(self).free_view() == Seq::<usize>::empty(),
            final(self).cap_view() == 0,
            final(self).pos_view() == 0,
            s.code_view() == seq![assert_cmd(var@)],
            s.free_view() == old(self).free_view(),
            s.cap_view() == old(self).cap_view(),
            s.pos_view() == var@,
    {
        self.goto(var);
        let mut s = self.new_scope();
        s.assert_position(var.slot());
        proof {
            assert(s.code_view() =~= seq![assert_cmd(var@)]);
        }
        s
    }


    /// Emit code for `lhs += rhs` (wrapping): drain `rhs` into `lhs` and a
    /// fresh temporary, then drain the temporary back into `rhs`, so the right
    /// operand survives its use as a source. Fails with `Oom` exactly when no
    /// slot is free for the temporary; the operand cells themselves are only
    /// touched by the emitted program, never here.
    pub fn add(&mut self, lhs: &mut StaticVar, rhs: &mut StaticVar) -> (r: Result<(), CodeGenError>)
        requires
            gen_ok(old(self)),
            old(lhs)@ < old(self).cap_view(),
            old(rhs)@ < old(self).cap_view(),
            old(lhs)@ != old(rhs)@,
            !old(self).free_view().contains(old(lhs)@),
            !old(self).free_view().contains(old(rhs)@),
        ensures
            gen_ok(final(self)),
            *final(lhs) == *old(lhs),
            *final(rhs) == *old(rhs),
            final(self).cap_view() == old(self).cap_view(),
            match r {
                Err(e) => {
                    &&& e == CodeGenError::Oom
                    &&& old(self).free_view().len() == 0
                    &&& final(self).code_view() == old(self).code_view()
                    &&& final(self).free_view() == old(self).free_view()
                    &&& final(self).pos_view() == old(self).pos_view()
                },
                Ok(u) => {
                    &&& old(self).free_view().len() > 0
                    &&& final(self).free_view() == old(self).free_view()
                    &&& final(self).pos_view() == old(self).free_view().last()
                    &&& add_code_shape(
                        old(self).code_view(),
                        final(self).code_view(),
                        old(lhs)@,
                        old(rhs)@,
                        old(self).free_view().last(),
                        old(self).pos_view(),
                    )
                },
            },
    {
        let ghost c0 = self.code_view();
        let ghost p0 = self.pos_view();
        let ghost free0 = self.free_view();
        let mut temp = match self.static_alloc() {
            Ok(t) => t,
            Err(e) => {
                return Err(e);
            },
        };
        let ghost t = temp@;
        self.zero(&mut temp);
        let ghost c1 = self.code_view();
        let mut s = self.begin_while_neq0(rhs);
        let ghost c2 = self.code_view();
        s.inc(&mut temp);
        s.inc(lhs);
        s.dec(rhs);
        proof {
            assert(s.code_view() =~= add_loop1_body(old(lhs)@, old(rhs)@, t).take(
                add_loop1_body(old(lhs)@, old(rhs)@, t).len() - 1));
        }
        let ghost s_code = s.code_view();
        let ghost s_pos = s.pos_view();
        self.end_while_neq0(s, rhs);
        let ghost c3 = self.code_view();
        proof {
            assert(s_code + cmds_goto(old(rhs)@, s_pos)
                =~= add_loop1_body(old(lhs)@, old(rhs)@, t));
        }
        let mut s2 = self.begin_while_neq0(&temp);
        let ghost c4 = self.code_view();
        s2.inc(rhs);
        s2.dec(&mut temp);
        let ghost s2_code = s2.code_view();
        let ghost s2_pos = s2.pos_view();
        self.end_while_neq0(s2, &temp);
        let ghost c5 = self.code_view();
        proof {
            assert(s2_code + cmds_goto(t, s2_pos) =~= add_loop2_body(old(rhs)@, t));
            // The smallest slot is not among the remaining free slots.
            assert(!free0.drop_last().contains(t)) by {
                if free0.drop_last().contains(t) {
                    let k = choose|k: int|
                        0 <= k < free0.drop_last().len() && free0.drop_last()[k] == t;
                    assert(free0[k] == free0[free0.len() - 1]);
                }
            }
        }
        self.static_free(temp);
        proof {
            lemma_insert_desc_drop_last(free0);
            let l = old(lhs)@;
            let r = old(rhs)@;
            let pre = cmds_zero(t, p0) + cmds_goto(r, t);
            let mid = cmds_goto(t, r);
            let i1 = c0.len() + pre.len();
            let i2 = i1 + 2 + mid.len();
            let cw = self.code_view();
            assert(c2 =~= c0 + pre);
            assert(c4 =~= c3 + mid);
            assert forall|i: int| 0 <= i < i2 as int implies cw[i] == c4[i] by {
                assert(cw[i] == cw.take(c4.len() as int)[i]);
            }
            assert forall|i: int| 0 <= i < c2.len() implies c4[i] == c2[i] by {
                assert(c3[i] == c3.take(c2.len() as int)[i]);
            }
            assert(cw.take(c0.len() as int) =~= c0);
            assert(cw.subrange(c0.len() as int, i1 as int) =~= pre);
            assert(cw.subrange(i1 as int + 2, i2 as int) =~= mid);
            assert(cw[i1 as int] == c3[i1 as int]);
            assert(cw[i1 as int + 1] == c3[i1 as int + 1]);
            assert(add_code_shape(c0, cw, l, r, t, p0));
        }
        Ok(())
    }

    /// Emit code for `lhs = rhs`: zero the left operand, then add the right
    /// operand into it; `rhs` is left unchanged by the emitted program. Fails
    /// with `Oom` exactly when no slot is free for `add`'s temporary; the
    /// zeroing of `lhs` is already emitted when that happens, since composite
    /// operations offer no rollback.
    pub fn set(&mut self, lhs: &mut StaticVar, rhs: &mut StaticVar) -> (r: Result<(), CodeGenError>)
        requires
            gen_ok(old(self)),
            old(lhs)@ < old(self).cap_view(),
            old(rhs)@ < old(self).cap_view(),
            old(lhs)@ != old(rhs)@,
            !old(self).free_view().contains(old(lhs)@),
            !old(self).free_view().contains(old(rhs)@),
        ensures
            gen_ok(final(self)),
            *final(lhs) == *old(lhs),
            *final(rhs) == *old(rhs),
            final(self).cap_view() == old(self).cap_view(),
            match r {
                Err(e) => {
                    &&& e == CodeGenError::Oom
                    &&& old(self).free_view().len() == 0
                    &&& final(self).code_view() == old(self).code_view()
                        + cmds_zero(old(lhs)@, old(self).pos_view())
                    &&& final(self).free_view() == old(self).free_view()
                    &&& final(self).pos_view() == old(lhs)@
                },
                Ok(u) => {
                    &&& old(self).free_view().len() > 0
                    &&& final(self).free_view() == old(self).free_view()
                    &&& final(self).pos_view() == old(self).free_view().last()
                    &&& add_code_shape(
                        old(self).code_view() + cmds_zero(old(lhs)@, old(self).pos_view()),
                        final(self).code_view(),
                        old(lhs)@,
                        old(rhs)@,
                        old(self).free_view().last(),
                        old(lhs)@,
                    )
                },
            },
    {
        self.zero(lhs);
        self.add(lhs, rhs)
    }

    /// Close a `while var != 0` loop: the body returns to the variable, the
    /// scope's instructions are wrapped in a loop, and the position is
    /// asserted after the loop (the cell there is then zero).
    pub fn end_while_neq0(&mut self, scope: CodeGenScope, var: &StaticVar)
        requires
            gen_ok(&scope),
            var@ < scope.cap_view(),
        ensures
            gen_ok(final(self)),
            final(self).code_view().len() == old(self).code_view().len() + 2,
            final(self).code_view().take(old(self).code_view().len() as int)
                == old(self).code_view(),
            is_loop_seq(
                final(self).code_view()[old(self).code_view().len() as int],
                scope.code_view() + cmds_goto(var@, scope.pos_view()),
            ),
            final(self).code_view().last() == assert_cmd(var@),
            final(self).free_view() == scope.free_view(),
            final(self).cap_view() == scope.cap_view(),
            final(self).pos_view() == var@,
    {
        let mut inner = scope;
        inner.goto(var);
        self.end_loop(inner);
        self.assert_position(var.slot());
        proof {
            assert(self.code_view().take(old(self).code_view().len() as int)
                =~= old(self).code_view());
        }
    }
}

impl CodeGenerator for CodeGen {
    closed spec fn code_view(&self) -> Seq<Command> {
        self.code@
    }

    closed spec fn free_view(&self) -> Seq<usize> {
        self.static_memory.free_list()
    }

    closed spec fn cap_view(&self) -> usize {
        self.static_memory.cap()
    }

    closed spec fn pos_view(&self) -> usize {
        self.position
    }

    fn emit(&mut self, command: Command) {
        self.code.push(command);
    }

    fn position(&self) -> usize {
        self.position
    }

    fn static_alloc(&mut self) -> Result<StaticVar, CodeGenError> {
        self.static_memory.allocate()
    }

    fn static_free(&mut self, var: StaticVar) {
        self.static_memory.free(var);
    }

    fn goto(&mut self, var: &StaticVar) {
        core_goto(&mut self.code, &mut self.position, var.slot());
    }

    fn assert_position(&mut self, position: usize) {
        self.emit(Command::Debug(DebugCmd::AssertPosition(position)));
    }

    fn zero(&mut self, var: &mut StaticVar) {
        self.goto(var);
        self.emit(Command::Loop(Box::new(Command::Add(-1))));
        self.assert_position(var.slot());
        proof {
            assert(self.code_view() =~= old(self).code_view()
                + cmds_zero(var@, old(self).pos_view()));
        }
    }

    fn read(&mut self, var: &StaticVar) {
        self.goto(var);
        self.emit(Command::Read);
        proof {
            assert(self.code_view() =~= old(self).code_view()
                + cmds_read(var@, old(self).pos_view()));
        }
    }

    fn print(&mut self, var: &StaticVar) {
        self.goto(var);
        self.emit(Command::Print);
        proof {
            assert(self.code_view() =~= old(self).code_view()
                + cmds_print(var@, old(self).pos_view()));
        }
    }

    fn add_const(&mut self, var: &mut StaticVar, val: i32) {
        self.goto(var);
        self.emit(Command::Add(val));
        proof {
            assert(self.code_view() =~= old(self).code_view()
                + cmds_add_const(var@, old(self).pos_view(), val));
        }
    }

    fn inc(&mut self, var: &mut StaticVar) {
        self.add_const(var, 1);
    }

    fn dec(&mut self, var: &mut StaticVar) {
        self.add_const(var, -1);
    }
}



/// The one primitive that moves the virtual position: emit a move by the slot
/// difference when it is nonzero, update the counter, and assert the position.
fn core_goto(code: &mut Vec<Command>, position: &mut usize, slot: usize)
    requires
        slot <= SLOT_LIMIT,
        *old(position) <= SLOT_LIMIT,
    ensures
        (*final(code))@ == old(code)@ + cmds_goto(slot, *old(position)),
        *final(position) == slot,
{
    let here = *position;
    if slot != here {
        let diff: i64 = slot as i64 - here as i64;
        *position = slot;
        code.push(Command::Move(diff as i32));
    }
    code.push(Command::Debug(DebugCmd::AssertPosition(slot)));
    proof {
        assert(code@ =~= old(code)@ + cmds_goto(slot, *old(position)));
    }
}

} // verus!
