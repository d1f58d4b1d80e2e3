use vstd::prelude::*;

verus! {

/// The model of a call table: the next id to hand out, and the outstanding
/// calls in the order they were registered, each an id and its completion
/// slot.
pub struct TableView<S> {
    pub next: u64,
    pub pending: Seq<(u64, S)>,
}

/// No id stands twice among the outstanding calls.
pub open spec fn unique_ids<S>(s: Seq<(u64, S)>) -> bool {
    forall|i: int, j: int| 0 <= i < j < s.len() ==> #[trigger] s[i].0 != #[trigger] s[j].0
}

/// `id` is outstanding.
pub open spec fn has_id<S>(s: Seq<(u64, S)>, id: u64) -> bool {
    exists|i: int| 0 <= i < s.len() && #[trigger] s[i].0 == id
}

/// The position of an outstanding `id`.
pub open spec fn index_of<S>(s: Seq<(u64, S)>, id: u64) -> int {
    choose|i: int| 0 <= i < s.len() && #[trigger] s[i].0 == id
}

/// The completion slot registered under `id`, if it is outstanding.
pub open spec fn slot_of<S>(s: Seq<(u64, S)>, id: u64) -> Option<S> {
    if has_id(s, id) {
        Some(s[index_of(s, id)].1)
    } else {
        None
    }
}

/// What resolving `id` hands back, and the outstanding calls after it: the
/// slot of `id` leaves the table; an id that is not outstanding changes
/// nothing.
pub open spec fn resolve_spec<S>(s: Seq<(u64, S)>, id: u64) -> (Option<S>, Seq<(u64, S)>) {
    if has_id(s, id) {
        (Some(s[index_of(s, id)].1), s.remove(index_of(s, id)))
    } else {
        (None, s)
    }
}

/// The id after `id`, wrapping after 2^64 calls.
pub open spec fn next_after(id: u64) -> u64 {
    if id == u64::MAX {
        0
    } else {
        (id + 1) as u64
    }
}

/// The registry of outstanding calls: maps a message id to the single-use
/// completion slot of the caller that waits for it.
pub struct CallTable<S> {
    next_id: u64,
    pending: Vec<(u64, S)>,
}

impl<S> View for CallTable<S> {
    type V = TableView<S>;

    closed spec fn view(&self) -> TableView<S> {
        TableView { next: self.next_id, pending: self.pending@ }
    }
}

/// In a table with unique ids, the position of an outstanding id is the one
/// that holds it.
pub proof fn lemma_index_of<S>(s: Seq<(u64, S)>, i: int)
    requires
        unique_ids(s),
        0 <= i < s.len(),
    ensures
        has_id(s, s[i].0),
        index_of(s, s[i].0) == i,
        slot_of(s, s[i].0) == Some(s[i].1),
{
    assert(has_id(s, s[i].0));
}

/// Removing one outstanding call keeps the ids unique and the slot of every
/// other id.
pub proof fn lemma_remove_keeps<S>(s: Seq<(u64, S)>, i: int, k: u64)
    requires
        unique_ids(s),
        0 <= i < s.len(),
        k != s[i].0,
    ensures
        unique_ids(s.remove(i)),
        slot_of(s.remove(i), k) == slot_of(s, k),
        !has_id(s.remove(i), s[i].0),
{
    let t = s.remove(i);
    assert forall|a: int, b: int| 0 <= a < b < t.len() implies #[trigger] t[a].0 != #[trigger] t[b].0 by {
        let a2 = if a < i { a } else { a + 1 };
        let b2 = if b < i { b } else { b + 1 };
        assert(t[a] == s[a2] && t[b] == s[b2]);
    }
    if has_id(s, k) {
        let j = index_of(s, k);
        let j2 = if j < i { j } else { j - 1 };
        assert(t[j2] == s[j]);
        lemma_index_of(t, j2);
    } else {
        if has_id(t, k) {
            let j = index_of(t, k);
            let j2 = if j < i { j } else { j + 1 };
            assert(t[j] == s[j2]);
        }
    }
    if has_id(t, s[i].0) {
        let j = index_of(t, s[i].0);
        let j2 = if j < i { j } else { j + 1 };
        assert(t[j] == s[j2]);
    }
}

/// Appending a call under a fresh id keeps the ids unique, gives the new id
/// its slot and keeps the slot of every other id.
pub proof fn lemma_push_keeps<S>(s: Seq<(u64, S)>, id: u64, slot: S, k: u64)
    requires
        unique_ids(s),
        !has_id(s, id),
    ensures
        unique_ids(s.push((id, slot))),
        slot_of(s.push((id, slot)), id) == Some(slot),
        k != id ==> slot_of(s.push((id, slot)), k) == slot_of(s, k),
{
    let t = s.push((id, slot));
    assert forall|a: int, b: int| 0 <= a < b < t.len() implies #[trigger] t[a].0 != #[trigger] t[b].0 by {
        if b == s.len() {
            assert(t[a] == s[a]);
        } else {
            assert(t[a] == s[a] && t[b] == s[b]);
        }
    }
    lemma_index_of(t, s.len() as int);
    if k != id {
        if has_id(s, k) {
            let j = index_of(s, k);
            assert(t[j] == s[j]);
            lemma_index_of(t, j);
        } else if has_id(t, k) {
            let j = index_of(t, k);
            assert(t[j] == s[j]);
        }
    }
}

impl<S> CallTable<S> {
    /// The table is well formed: no id stands twice.
    pub open spec fn wf(&self) -> bool {
        unique_ids(self@.pending)
    }

    /// An empty table whose first id is 0.
    pub fn new() -> (r: Self)
        ensures
            r.wf(),
            r@.next == 0,
            r@.pending == Seq::<(u64, S)>::empty(),
    {
        CallTable { next_id: 0, pending: Vec::new() }
    }

    /// The number of outstanding calls.
    pub fn len(&self) -> (r: usize)
        ensures
            r == self@.pending.len(),
    {
        self.pending.len()
    }

    /// Whether `id` is outstanding.
    pub fn is_pending(&self, id: u64) -> (r: bool)
        ensures
            r == has_id(self@.pending, id),
    {
        self.find(id).is_some()
    }

    /// The position of `id` among the outstanding calls.
    fn find(&self, id: u64) -> (r: Option<usize>)
        ensures
            match r {
                Some(i) => i < self@.pending.len() && self@.pending[i as int].0 == id,
                None => !has_id(self@.pending, id),
            },
    {
        let mut i: usize = 0;
        while i < self.pending.len()
            invariant
                i <= self.pending@.len(),
                forall|j: int| 0 <= j < i ==> #[trigger] self.pending@[j].0 != id,
            decreases self.pending@.len() - i,
        {
            if self.pending[i].0 == id {
                return Some(i);
            }
            i = i + 1;
        }
        None
    }

    /// The id that the next call will get.
    pub fn next_id(&self) -> (r: u64)
        ensures
            r == self@.next,
    {
        self.next_id
    }

    /// Hands out the next id and registers `slot` under it. The ids come in
    /// increasing order and wrap after 2^64 calls; where the id that comes up
    /// is still outstanding, nothing is registered and the slot comes back.
    pub fn register(&mut self, slot: S) -> (r: Result<u64, S>)
        requires
            old(self).wf(),
        ensures
            final(self).wf(),
            final(self)@.next == next_after(old(self)@.next),
            match r {
                Ok(id) => id == old(self)@.next && !has_id(old(self)@.pending, id)
                    && final(self)@.pending == old(self)@.pending.push((id, slot)),
                Err(s) => s == slot && has_id(old(self)@.pending, old(self)@.next)
                    && final(self)@.pending == old(self)@.pending,
            },
    {
        let id = self.next_id;
        self.next_id = if id == u64::MAX { 0 } else { id + 1 };
        if self.find(id).is_some() {
            return Err(slot);
        }
        proof {
            lemma_push_keeps(self.pending@, id, slot, id);
        }
        self.pending.push((id, slot));
        Ok(id)
    }

    /// Completes the call `id`: its slot leaves the table and is handed back.
    /// An id that is not outstanding (a duplicate or unexpected response)
    /// changes nothing.
    pub fn resolve(&mut self, id: u64) -> (r: Option<S>)
        requires
            old(self).wf(),
        ensures
            final(self).wf(),
            final(self)@.next == old(self)@.next,
            r == resolve_spec(old(self)@.pending, id).0,
            final(self)@.pending == resolve_spec(old(self)@.pending, id).1,
            r == slot_of(old(self)@.pending, id),
    {
        match self.find(id) {
            Some(i) => {
                proof {
                    lemma_index_of(self.pending@, i as int);
                    if id != u64::MAX {
                        lemma_remove_keeps(self.pending@, i as int, (id + 1) as u64);
                    } else {
                        lemma_remove_keeps(self.pending@, i as int, 0);
                    }
                }
                let (_, slot) = self.pending.remove(i);
                Some(slot)
            },
            None => None,
        }
    }

    /// Takes every outstanding slot out, in the order of registration, and
    /// leaves the table empty.
    pub fn drain_all(&mut self) -> (r: Vec<S>)
        requires
            old(self).wf(),
        ensures
            final(self).wf(),
            final(self)@.next == old(self)@.next,
            final(self)@.pending.len() == 0,
            r@ == old(self)@.pending.map_values(|p: (u64, S)| p.1),
    {
        let mut out: Vec<S> = Vec::new();
        let mut rest: Vec<(u64, S)> = Vec::new();
        std::mem::swap(&mut rest, &mut self.pending);
        let ghost all = rest@;
        while rest.len() > 0
            invariant
                out@.len() + rest@.len() == all.len(),
                rest@ == all.subrange(out@.len() as int, all.len() as int),
                forall|j: int| 0 <= j < out@.len() ==> #[trigger] out@[j] == all[j].1,
            decreases rest@.len(),
        {
            let (_, slot) = rest.remove(0);
            out.push(slot);
            assert(rest@ =~= all.subrange(out@.len() as int, all.len() as int));
        }
        assert(out@ =~= all.map_values(|p: (u64, S)| p.1));
        out
    }
}

/// The slots that responses carrying the ids of `order`, one after the
/// other, hand back from a table holding `s`.
pub open spec fn replay<S>(s: Seq<(u64, S)>, order: Seq<u64>) -> Seq<Option<S>>
    decreases order.len(),
{
    if order.len() == 0 {
        Seq::empty()
    } else {
        let (r, t) = resolve_spec(s, order[0]);
        seq![r] + replay(t, order.drop_first())
    }
}

/// Resolving one id keeps the slot of every other id.
pub proof fn lemma_resolve_keeps<S>(s: Seq<(u64, S)>, id: u64, k: u64)
    requires
        unique_ids(s),
    ensures
        unique_ids(resolve_spec(s, id).1),
        k != id ==> slot_of(resolve_spec(s, id).1, k) == slot_of(s, k),
{
    if has_id(s, id) {
        let i = index_of(s, id);
        let k2 = if k != id { k } else { next_after(id) };
        lemma_remove_keeps(s, i, k2);
    }
}

/// Responses may come in any order: however the responses to calls with
/// distinct ids are ordered on the wire, each one hands back exactly the
/// slot of the call that carries its id.
pub proof fn lemma_responses_in_any_order<S>(s: Seq<(u64, S)>, order: Seq<u64>)
    requires
        unique_ids(s),
        order.no_duplicates(),
    ensures
        replay(s, order).len() == order.len(),
        forall|j: int| 0 <= j < order.len() ==> #[trigger] replay(s, order)[j] == slot_of(s, order[j]),
    decreases order.len(),
{
    if order.len() > 0 {
        let (r, t) = resolve_spec(s, order[0]);
        let rest = order.drop_first();
        assert forall|a: int, b: int| 0 <= a < b < rest.len() implies rest[a] != rest[b] by {
            assert(rest[a] == order[a + 1] && rest[b] == order[b + 1]);
        }
        lemma_resolve_keeps(s, order[0], 0);
        lemma_responses_in_any_order(t, rest);
        assert forall|j: int| 0 <= j < order.len() implies #[trigger] replay(s, order)[j] == slot_of(s, order[j]) by {
            if j > 0 {
                assert(order[j] == rest[j - 1]);
                assert(order[j] != order[0]);
                lemma_resolve_keeps(s, order[0], order[j]);
            }
        }
    }
}

/// A response whose id is not outstanding changes nothing and hands nothing
/// back.
pub proof fn lemma_resolve_absent_is_noop<S>(s: Seq<(u64, S)>, id: u64)
    requires
        !has_id(s, id),
    ensures
        resolve_spec(s, id) == (None::<S>, s),
{
}

} // verus!
