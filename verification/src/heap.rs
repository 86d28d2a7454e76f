//! The machine's sparse memory: an address-to-value store kept as a vector
//! of pairs sorted strictly by address, so that every state has exactly one
//! canonical byte encoding.

use vstd::prelude::*;

verus! {

/// Entry sequences sorted strictly ascending by address (hence unique keys).
pub open spec fn sorted_by_addr(s: Seq<(u32, u32)>) -> bool {
    forall|i: int, j: int| 0 <= i < j < s.len() ==> s[i].0 < s[j].0
}

/// The value stored at address `a` in an entry sequence, if any.
pub open spec fn entries_get(s: Seq<(u32, u32)>, a: u32) -> Option<u32>
    decreases s.len(),
{
    if s.len() == 0 {
        None
    } else if s[0].0 == a {
        Some(s[0].1)
    } else {
        entries_get(s.skip(1), a)
    }
}

/// The entry sequence after storing `v` at address `a`, keeping the sorted
/// order: an existing entry for `a` is overwritten, otherwise a new entry is
/// spliced in before the first larger address.
pub open spec fn entries_set(s: Seq<(u32, u32)>, a: u32, v: u32) -> Seq<(u32, u32)>
    decreases s.len(),
{
    if s.len() == 0 {
        seq![(a, v)]
    } else if a < s[0].0 {
        seq![(a, v)] + s
    } else if a == s[0].0 {
        seq![(a, v)] + s.skip(1)
    } else {
        seq![s[0]] + entries_set(s.skip(1), a, v)
    }
}

/// A sparse address-to-value memory with a canonical (sorted) entry order.
pub struct Heap {
    entries: Vec<(u32, u32)>,
}

impl View for Heap {
    type V = Seq<(u32, u32)>;

    closed spec fn view(&self) -> Seq<(u32, u32)> {
        self.entries@
    }
}

/// If the head entry is not for `a`, dropping it does not change the lookup.
proof fn lemma_entries_get_skip(s: Seq<(u32, u32)>, a: u32, i: int)
    requires
        0 <= i <= s.len(),
        forall|k: int| 0 <= k < i ==> s[k].0 != a,
    ensures
        entries_get(s, a) == entries_get(s.skip(i), a),
    decreases i,
{
    if i > 0 {
        assert(s[0].0 != a);
        let t = s.skip(1);
        assert forall|k: int| 0 <= k < i - 1 implies t[k].0 != a by {
            assert(t[k] == s[k + 1]);
        }
        lemma_entries_get_skip(t, a, i - 1);
        assert(t.skip(i - 1) =~= s.skip(i));
        assert(entries_get(s, a) == entries_get(t, a));
    } else {
        assert(s.skip(0) =~= s);
    }
}

/// `entries_set` on a sorted sequence is an overwrite at, or an insertion
/// before, the first position whose address is not below `a`.
#[verifier::rlimit(50)]
proof fn lemma_entries_set_at(s: Seq<(u32, u32)>, a: u32, v: u32, idx: int)
    requires
        sorted_by_addr(s),
        0 <= idx <= s.len(),
        forall|k: int| 0 <= k < idx ==> s[k].0 < a,
        idx < s.len() ==> s[idx].0 >= a,
    ensures
        idx < s.len() && s[idx].0 == a ==> entries_set(s, a, v) =~= s.update(idx, (a, v)),
        !(idx < s.len() && s[idx].0 == a) ==> entries_set(s, a, v) =~= s.insert(idx, (a, v)),
    decreases idx,
{
    if idx == 0 {
        if s.len() == 0 {
            assert(entries_set(s, a, v) =~= s.insert(0, (a, v)));
        } else if s[0].0 == a {
            assert(entries_set(s, a, v) =~= s.update(0, (a, v)));
        } else {
            assert(a < s[0].0);
            assert(entries_set(s, a, v) =~= s.insert(0, (a, v)));
        }
    } else {
        assert(s[0].0 < a);
        let t = s.skip(1);
        assert forall|i: int, j: int| 0 <= i < j < t.len() implies t[i].0 < t[j].0 by {
            assert(t[i] == s[i + 1]);
            assert(t[j] == s[j + 1]);
        }
        assert forall|k: int| 0 <= k < idx - 1 implies t[k].0 < a by {
            assert(t[k] == s[k + 1]);
        }
        assert(idx - 1 < t.len() ==> t[idx - 1] == s[idx] && t[idx - 1].0 >= a);
        lemma_entries_set_at(t, a, v, idx - 1);
        if idx < s.len() && s[idx].0 == a {
            assert(entries_set(s, a, v) =~= seq![s[0]] + t.update(idx - 1, (a, v)));
            assert(seq![s[0]] + t.update(idx - 1, (a, v)) =~= s.update(idx, (a, v)));
        } else {
            assert(entries_set(s, a, v) =~= seq![s[0]] + t.insert(idx - 1, (a, v)));
            assert(seq![s[0]] + t.insert(idx - 1, (a, v)) =~= s.insert(idx, (a, v)));
        }
    }
}

/// Storing then reading: the read sees the stored value at the stored
/// address and is unchanged elsewhere.
#[verifier::rlimit(50)]
pub proof fn lemma_entries_set_get(s: Seq<(u32, u32)>, a: u32, v: u32, b: u32)
    ensures
        b == a ==> entries_get(entries_set(s, a, v), b) == Some(v),
        b != a ==> entries_get(entries_set(s, a, v), b) == entries_get(s, b),
    decreases s.len(),
{
    if s.len() == 0 {
        let r = entries_set(s, a, v);
        assert(r.len() == 1 && r[0] == (a, v));
        if b != a {
            assert(entries_get(r, b) == entries_get(r.skip(1), b));
            assert(r.skip(1).len() == 0);
            assert(entries_get(r.skip(1), b) == None::<u32>);
        }
    } else if a < s[0].0 {
        let r = entries_set(s, a, v);
        assert(r.len() == s.len() + 1 && r[0] == (a, v));
        assert(r.skip(1) =~= s);
        if b != a {
            assert(entries_get(r, b) == entries_get(r.skip(1), b));
        }
    } else if a == s[0].0 {
        let r = entries_set(s, a, v);
        assert(r.len() == s.len() && r[0] == (a, v));
        assert(r.skip(1) =~= s.skip(1));
        if b != a {
            assert(entries_get(r, b) == entries_get(r.skip(1), b));
            lemma_entries_get_skip(s, b, 1);
        }
    } else {
        lemma_entries_set_get(s.skip(1), a, v, b);
        let r = entries_set(s, a, v);
        assert(r.len() > 0);
        assert(r[0] == s[0]);
        assert(r.skip(1) =~= entries_set(s.skip(1), a, v));
        if b == s[0].0 {
            assert(entries_get(r, b) == Some(r[0].1));
            assert(entries_get(s, b) == Some(s[0].1));
        } else {
            assert(entries_get(r, b) == entries_get(r.skip(1), b));
            assert(entries_get(s, b) == entries_get(s.skip(1), b));
        }
    }
}

impl Heap {
    /// Sorted strictly by address: the canonical representation invariant,
    /// maintained by every operation.
    #[verifier::type_invariant]
    pub open spec fn wf(&self) -> bool {
        sorted_by_addr(self@)
    }

    /// The empty memory.
    pub fn new() -> (r: Heap)
        ensures
            r@ =~= Seq::<(u32, u32)>::empty(),
            r.wf(),
    {
        let entries: Vec<(u32, u32)> = Vec::new();
        assert(sorted_by_addr(entries@));
        Heap { entries }
    }

    /// Number of populated addresses.
    pub fn len(&self) -> (r: usize)
        ensures
            r == self@.len(),
    {
        self.entries.len()
    }

    /// The `i`th entry in canonical (ascending address) order.
    pub fn entry_at(&self, i: usize) -> (r: (u32, u32))
        requires
            i < self@.len(),
        ensures
            r == self@[i as int],
    {
        self.entries[i]
    }

    /// An exact copy of this memory.
    pub fn duplicate(&self) -> (r: Heap)
        ensures
            r@ =~= self@,
    {
        let mut out: Vec<(u32, u32)> = Vec::new();
        let n = self.entries.len();
        let mut i: usize = 0;
        while i < n
            invariant
                i <= n,
                n == self@.len(),
                out@ =~= self@.take(i as int),
            decreases n - i,
        {
            out.push(self.entries[i]);
            assert(out@ =~= self@.take(i as int).push(self@[i as int]));
            assert(self@.take(i as int).push(self@[i as int]) =~= self@.take(i + 1));
            i = i + 1;
        }
        assert(self@.take(n as int) =~= self@);
        proof {
            use_type_invariant(self);
            assert(sorted_by_addr(out@));
        }
        Heap { entries: out }
    }

    /// Read the value at address `a`, if one was stored.
    pub fn get(&self, a: u32) -> (r: Option<u32>)
        ensures
            r == entries_get(self@, a),
    {
        let n = self.entries.len();
        let mut i: usize = 0;
        while i < n
            invariant
                i <= n,
                n == self@.len(),
                forall|k: int| 0 <= k < i ==> self@[k].0 != a,
            decreases n - i,
        {
            let (key, val) = self.entries[i];
            if key == a {
                proof {
                    lemma_entries_get_skip(self@, a, i as int);
                    assert(self@.skip(i as int)[0] == self@[i as int]);
                }
                return Some(val);
            }
            i = i + 1;
        }
        proof {
            lemma_entries_get_skip(self@, a, n as int);
            assert(self@.skip(n as int).len() == 0);
        }
        None
    }

    /// Store `v` at address `a`, overwriting any previous value and keeping
    /// the canonical order.
    #[verifier::loop_isolation(false)]
    pub fn set(&mut self, a: u32, v: u32)
        ensures
            final(self).wf(),
            final(self)@ == entries_set(old(self)@, a, v),
    {
        proof {
            use_type_invariant(&*self);
        }
        let ghost s = self@;
        let n = self.entries.len();
        let mut out: Vec<(u32, u32)> = Vec::new();
        let mut i: usize = 0;
        while i < n && self.entries[i].0 < a
            invariant
                i <= n,
                n == self@.len(),
                self@ == s,
                out@ =~= s.take(i as int),
                forall|k: int| 0 <= k < i ==> s[k].0 < a,
            decreases n - i,
        {
            out.push(self.entries[i]);
            assert(out@ =~= s.take(i as int).push(s[i as int]));
            assert(s.take(i as int).push(s[i as int]) =~= s.take(i + 1));
            i = i + 1;
        }
        proof {
            lemma_entries_set_at(s, a, v, i as int);
        }
        out.push((a, v));
        let overwrite = i < n && self.entries[i].0 == a;
        let mut j: usize = if overwrite {
            i + 1
        } else {
            i
        };
        let ghost j0 = j as int;
        while j < n
            invariant
                j0 <= j as int <= n,
                n == self@.len(),
                self@ == s,
                out@ =~= s.take(i as int) + seq![(a, v)] + s.subrange(j0, j as int),
            decreases n - j,
        {
            out.push(self.entries[j]);
            assert(out@ =~= (s.take(i as int) + seq![(a, v)] + s.subrange(j0, j as int)).push(
                s[j as int],
            ));
            assert((s.take(i as int) + seq![(a, v)] + s.subrange(j0, j as int)).push(s[j as int])
                =~= s.take(i as int) + seq![(a, v)] + s.subrange(j0, j + 1));
            j = j + 1;
        }
        if overwrite {
            assert(out@ =~= s.update(i as int, (a, v)));
        } else {
            assert(out@ =~= s.insert(i as int, (a, v)));
        }
        proof {
            assert(i < n ==> s[i as int].0 >= a);
            assert forall|p: int, q: int| 0 <= p < q < out@.len() implies out@[p].0
                < out@[q].0 by {
                if overwrite {
                    assert(p != i ==> out@[p] == s[p]);
                    assert(q != i ==> out@[q] == s[q]);
                    assert(out@[i as int].0 == s[i as int].0);
                } else {
                    assert(i < n ==> s[i as int].0 > a);
                    assert(p < i ==> out@[p] == s[p]);
                    assert(p > i ==> out@[p] == s[p - 1] && s[p - 1].0 >= s[i as int].0);
                    assert(q < i ==> out@[q] == s[q]);
                    assert(q > i ==> out@[q] == s[q - 1] && (i < q - 1 ==> s[i as int].0 < s[q
                        - 1].0));
                    assert(p == i ==> out@[p].0 == a);
                    assert(q == i ==> out@[q].0 == a);
                }
            }
        }
        self.entries = out;
    }
}

} // verus!
