use vstd::prelude::*;

verus! {

/// Members of one room: `(id, handle)` pairs in the order they joined,
/// with ids handed out by a counter that starts at zero.
pub struct SessionsStore<H> {
    entries: Vec<(u32, H)>,
    next_id: u32,
}

/// Abstract state of a [`SessionsStore`].
pub struct StoreView<H> {
    pub entries: Seq<(u32, H)>,
    pub next_id: nat,
}

/// Every entry of `s` whose id differs from `x`, in order.
pub open spec fn others_of<H>(s: Seq<(u32, H)>, x: u32) -> Seq<(u32, H)>
    decreases s.len(),
{
    if s.len() == 0 {
        Seq::empty()
    } else {
        let rest = others_of(s.drop_last(), x);
        if s.last().0 == x {
            rest
        } else {
            rest.push(s.last())
        }
    }
}

/// The ids of all entries of `s`.
pub open spec fn ids_of<H>(s: Seq<(u32, H)>) -> Set<u32> {
    Set::new(|id: u32| exists|i: int| 0 <= i < s.len() && s[i].0 == id)
}

/// Ids appear in strictly increasing order, all below the counter.
pub open spec fn ordered_below<H>(s: Seq<(u32, H)>, next: nat) -> bool {
    &&& forall|i: int, j: int| 0 <= i < j < s.len() ==> s[i].0 < s[j].0
    &&& forall|i: int| 0 <= i < s.len() ==> s[i].0 < next
}

impl<H> StoreView<H> {
    /// The ids of the sessions currently joined.
    pub open spec fn live_ids(self) -> Set<u32> {
        ids_of(self.entries)
    }

    pub open spec fn wf(self) -> bool {
        &&& ordered_below(self.entries, self.next_id)
        &&& self.next_id <= u32::MAX
    }
}

/// Whether a join on a store in state `v` is granted an id.
pub open spec fn can_join<H>(v: StoreView<H>) -> bool {
    v.next_id < u32::MAX
}

/// State after a join of `h`, when granted.
pub open spec fn after_join<H>(v: StoreView<H>, h: H) -> StoreView<H> {
    if can_join(v) {
        StoreView { entries: v.entries.push((v.next_id as u32, h)), next_id: v.next_id + 1 }
    } else {
        v
    }
}

/// State after session `x` leaves.
pub open spec fn after_leave<H>(v: StoreView<H>, x: u32) -> StoreView<H> {
    StoreView { entries: others_of(v.entries, x), next_id: v.next_id }
}

/// Dropping an id that no entry carries changes nothing.
pub proof fn lemma_others_of_absent<H>(s: Seq<(u32, H)>, x: u32)
    requires
        forall|i: int| 0 <= i < s.len() ==> s[i].0 != x,
    ensures
        others_of(s, x) == s,
    decreases s.len(),
{
    if s.len() > 0 {
        lemma_others_of_absent(s.drop_last(), x);
        assert(s.drop_last().push(s.last()) =~= s);
    }
}

/// An entry survives the removal of `x` exactly when its id is not `x`.
pub proof fn lemma_others_of_contains<H>(s: Seq<(u32, H)>, x: u32)
    ensures
        forall|e: (u32, H)|
            #![trigger others_of(s, x).contains(e)]
            #![trigger s.contains(e)]
            others_of(s, x).contains(e) <==> (s.contains(e) && e.0 != x),
    decreases s.len(),
{
    if s.len() > 0 {
        let d = s.drop_last();
        lemma_others_of_contains(d, x);
        let o = others_of(s, x);
        let r = others_of(d, x);
        assert forall|e: (u32, H)| o.contains(e) <==> (s.contains(e) && e.0 != x) by {
            if s.contains(e) {
                let i = choose|i: int| 0 <= i < s.len() && s[i] == e;
                if i < d.len() {
                    assert(d[i] == e);
                }
            }
            if d.contains(e) {
                let i = choose|i: int| 0 <= i < d.len() && d[i] == e;
                assert(s[i] == e);
            }
            if s.last().0 != x {
                assert(o[r.len() as int] == s.last());
                if o.contains(e) {
                    let j = choose|j: int| 0 <= j < o.len() && o[j] == e;
                    if j < r.len() {
                        assert(r[j] == e);
                    }
                }
                if r.contains(e) {
                    let j = choose|j: int| 0 <= j < r.len() && r[j] == e;
                    assert(o[j] == e);
                }
            }
        }
    }
}

/// In a store with strictly increasing ids, removing the entry at the
/// position of `x` is the same as keeping every entry whose id is not `x`.
pub proof fn lemma_remove_at_is_others_of<H>(s: Seq<(u32, H)>, i: int, x: u32)
    requires
        0 <= i < s.len(),
        s[i].0 == x,
        forall|a: int, b: int| 0 <= a < b < s.len() ==> s[a].0 < s[b].0,
    ensures
        s.remove(i) == others_of(s, x),
    decreases s.len(),
{
    let d = s.drop_last();
    if i == s.len() - 1 {
        assert(s.remove(i) =~= d);
        lemma_others_of_absent(d, x);
    } else {
        lemma_remove_at_is_others_of(d, i, x);
        assert(s.remove(i) =~= d.remove(i).push(s.last()));
    }
}

/// Keeping a subsequence of a store's entries keeps them ordered and below
/// the counter.
pub proof fn lemma_others_of_ordered<H>(s: Seq<(u32, H)>, x: u32, next: nat)
    requires
        ordered_below(s, next),
    ensures
        ordered_below(others_of(s, x), next),
        others_of(s, x).len() <= s.len(),
        forall|i: int| 0 <= i < others_of(s, x).len() ==> others_of(s, x)[i].0 <= s.last().0,
    decreases s.len(),
{
    if s.len() > 0 {
        let d = s.drop_last();
        lemma_others_of_ordered(d, x, next);
        if d.len() > 0 {
            assert(d.last().0 < s.last().0);
        }
    }
}

/// The ids of the entries left after removing `x`.
pub proof fn lemma_ids_of_others<H>(s: Seq<(u32, H)>, x: u32)
    ensures
        ids_of(others_of(s, x)) == ids_of(s).remove(x),
{
    lemma_others_of_contains(s, x);
    let o = others_of(s, x);
    assert forall|k: u32| ids_of(o).contains(k) <==> ids_of(s).remove(x).contains(k) by {
        if ids_of(o).contains(k) {
            let i = choose|i: int| 0 <= i < o.len() && o[i].0 == k;
            assert(o.contains(o[i]));
            let m = choose|m: int| 0 <= m < s.len() && s[m] == o[i];
            assert(s[m].0 == k);
        }
        if ids_of(s).remove(x).contains(k) {
            let i = choose|i: int| 0 <= i < s.len() && s[i].0 == k;
            assert(s.contains(s[i]));
            let j = choose|j: int| 0 <= j < o.len() && o[j] == s[i];
            assert(o[j].0 == k);
        }
    }
    assert(ids_of(o) =~= ids_of(s).remove(x));
}

impl<H> SessionsStore<H> {
    pub closed spec fn view(&self) -> StoreView<H> {
        StoreView { entries: self.entries@, next_id: self.next_id as nat }
    }

    pub open spec fn wf(&self) -> bool {
        self@.wf()
    }

    /// Returns a new empty store whose first id will be zero.
    pub fn new() -> (r: Self)
        ensures
            r.wf(),
            r@.entries == Seq::<(u32, H)>::empty(),
            r@.next_id == 0,
    {
        SessionsStore { entries: Vec::new(), next_id: 0 }
    }

    /// Number of sessions joined.
    pub fn len(&self) -> (r: usize)
        ensures
            r == self@.entries.len(),
    {
        self.entries.len()
    }

    /// Whether session `id` is joined.
    pub fn contains(&self, id: u32) -> (r: bool)
        ensures
            r == self@.live_ids().contains(id),
    {
        let mut i: usize = 0;
        while i < self.entries.len()
            invariant
                0 <= i <= self.entries@.len(),
                forall|k: int| 0 <= k < i ==> self.entries@[k].0 != id,
            decreases self.entries@.len() - i,
        {
            if self.entries[i].0 == id {
                assert(self@.entries[i as int].0 == id);
                return true;
            }
            i = i + 1;
        }
        false
    }

    /// Registers `session` under the next id of the counter and returns that
    /// id. Once the counter reaches `u32::MAX` no more ids are handed out
    /// and the call returns `None`, leaving the store as it was: an id is
    /// never given twice.
    pub fn add_session(&mut self, session: H) -> (r: Option<u32>)
        requires
            old(self).wf(),
        ensures
            final(self).wf(),
            final(self)@ == after_join(old(self)@, session),
            can_join(old(self)@) ==> r == Some(old(self)@.next_id as u32),
            !can_join(old(self)@) <==> r is None,
            r matches Some(id) ==> final(self)@.live_ids() == old(self)@.live_ids().insert(id),
    {
        if self.next_id == u32::MAX {
            return None;
        }
        let id = self.next_id;
        self.entries.push((id, session));
        self.next_id = id + 1;
        proof {
            let s = self.entries@;
            assert(ids_of(s) =~= ids_of(old(self).entries@).insert(id)) by {
                assert(s[s.len() - 1].0 == id);
                assert forall|k: u32| ids_of(old(self).entries@).contains(k) implies ids_of(s).contains(k) by {
                    let i = choose|i: int| 0 <= i < old(self).entries@.len() && old(self).entries@[i].0 == k;
                    assert(s[i] == old(self).entries@[i]);
                }
            }
        }
        Some(id)
    }

    /// Removes the session `id`. Removing an id that is absent, or was
    /// already removed, leaves the store as it is.
    pub fn remove(&mut self, id: u32)
        requires
            old(self).wf(),
        ensures
            final(self).wf(),
            final(self)@ == after_leave(old(self)@, id),
            final(self)@.live_ids() == old(self)@.live_ids().remove(id),
            !old(self)@.live_ids().contains(id) ==> final(self)@ == old(self)@,
    {
        let ghost s = self.entries@;
        let mut i: usize = 0;
        while i < self.entries.len()
            invariant
                self.entries@ == s,
                self.next_id == old(self).next_id,
                s == old(self).entries@,
                ordered_below(s, self.next_id as nat),
                0 <= i <= s.len(),
                forall|k: int| 0 <= k < i ==> s[k].0 != id,
            decreases s.len() - i,
        {
            if self.entries[i].0 == id {
                proof {
                    lemma_remove_at_is_others_of(s, i as int, id);
                    lemma_ids_of_others(s, id);
                    lemma_others_of_ordered(s, id, self.next_id as nat);
                }
                let _ = self.entries.remove(i);
                return;
            }
            i = i + 1;
        }
        proof {
            lemma_others_of_absent(s, id);
            assert(!ids_of(s).contains(id));
            assert(ids_of(s).remove(id) =~= ids_of(s));
        }
    }
}

impl<H: Clone> SessionsStore<H> {
    /// Returns a clone of the handle of every session but `excluded_id`, in
    /// the order they joined: each other session exactly once, since ids
    /// are distinct.
    pub fn get_sessions_except_id(&self, excluded_id: u32) -> (r: Vec<H>)
        requires
            self.wf(),
        ensures
            r@.len() == others_of(self@.entries, excluded_id).len(),
            forall|k: int| 0 <= k < r@.len() ==>
                cloned::<H>(#[trigger] others_of(self@.entries, excluded_id)[k].1, r@[k]),
            ids_of(others_of(self@.entries, excluded_id)) == self@.live_ids().remove(excluded_id),
            ordered_below(others_of(self@.entries, excluded_id), self@.next_id),
    {
        let ghost s = self.entries@;
        proof {
            lemma_ids_of_others(s, excluded_id);
            lemma_others_of_ordered(s, excluded_id, self.next_id as nat);
        }
        let mut r: Vec<H> = Vec::new();
        let mut i: usize = 0;
        while i < self.entries.len()
            invariant
                self.entries@ == s,
                0 <= i <= s.len(),
                r@.len() == others_of(s.take(i as int), excluded_id).len(),
                forall|k: int| 0 <= k < r@.len() ==>
                    cloned::<H>(#[trigger] others_of(s.take(i as int), excluded_id)[k].1, r@[k]),
            decreases s.len() - i,
        {
            let ghost prev = r@;
            assert(s.take(i as int + 1).drop_last() =~= s.take(i as int));
            if self.entries[i].0 != excluded_id {
                let h = self.entries[i].1.clone();
                r.push(h);
                assert(r@ =~= prev.push(h));
            }
            i = i + 1;
        }
        assert(s.take(s.len() as int) =~= s);
        r
    }
}


/// One call on a store: a join of a handle, or a leave of an id.
pub enum StoreOp<H> {
    Join(H),
    Leave(u32),
}

/// State of a fresh store after the calls `ops`, in order.
pub open spec fn run_ops<H>(ops: Seq<StoreOp<H>>) -> StoreView<H>
    decreases ops.len(),
{
    if ops.len() == 0 {
        StoreView { entries: Seq::empty(), next_id: 0 }
    } else {
        let v = run_ops(ops.drop_last());
        match ops.last() {
            StoreOp::Join(h) => after_join(v, h),
            StoreOp::Leave(x) => after_leave(v, x),
        }
    }
}

/// The ids that the joins among `ops` were given, in order.
pub open spec fn granted_ids<H>(ops: Seq<StoreOp<H>>) -> Seq<u32>
    decreases ops.len(),
{
    if ops.len() == 0 {
        Seq::empty()
    } else {
        let g = granted_ids(ops.drop_last());
        let v = run_ops(ops.drop_last());
        match ops.last() {
            StoreOp::Join(_) => if can_join(v) {
                g.push(v.next_id as u32)
            } else {
                g
            },
            StoreOp::Leave(_) => g,
        }
    }
}

/// The ids named by the leaves among `ops`.
pub open spec fn left_ids<H>(ops: Seq<StoreOp<H>>) -> Set<u32>
    decreases ops.len(),
{
    if ops.len() == 0 {
        Set::empty()
    } else {
        let l = left_ids(ops.drop_last());
        match ops.last() {
            StoreOp::Join(_) => l,
            StoreOp::Leave(x) => l.insert(x),
        }
    }
}

/// Each leave among `ops` names an id that an earlier join was given.
pub open spec fn leaves_follow_joins<H>(ops: Seq<StoreOp<H>>) -> bool {
    forall|i: int|
        0 <= i < ops.len() && (#[trigger] ops[i]) is Leave ==> granted_ids(ops.take(i)).contains(
            ops[i]->Leave_0,
        )
}

/// Ids are handed out as 0, 1, 2, ... in the order of the joins, so they
/// strictly increase and no two joins on one store, however their calls
/// interleave with leaves, are given the same id.
pub proof fn lemma_granted_ids_distinct<H>(ops: Seq<StoreOp<H>>)
    ensures
        run_ops(ops).wf(),
        granted_ids(ops).len() == run_ops(ops).next_id,
        forall|i: int| 0 <= i < granted_ids(ops).len() ==> granted_ids(ops)[i] == i,
        forall|i: int, j: int|
            0 <= i < j < granted_ids(ops).len() ==> granted_ids(ops)[i] < granted_ids(ops)[j],
    decreases ops.len(),
{
    if ops.len() > 0 {
        let d = ops.drop_last();
        lemma_granted_ids_distinct(d);
        let v = run_ops(d);
        match ops.last() {
            StoreOp::Join(h) => {
                if can_join(v) {
                    let s = v.entries.push((v.next_id as u32, h));
                    assert(ordered_below(s, v.next_id + 1));
                }
            },
            StoreOp::Leave(x) => {
                lemma_others_of_ordered(v.entries, x, v.next_id);
            },
        }
    }
}

/// After any sequence of joins and leaves on a fresh store, the sessions
/// joined are exactly those given an id minus those that left.
pub proof fn lemma_live_ids<H>(ops: Seq<StoreOp<H>>)
    requires
        leaves_follow_joins(ops),
    ensures
        run_ops(ops).live_ids() == granted_ids(ops).to_set().difference(left_ids(ops)),
        forall|x: u32| #[trigger] left_ids(ops).contains(x) ==> x < run_ops(ops).next_id,
    decreases ops.len(),
{
    lemma_granted_ids_distinct(ops);
    if ops.len() > 0 {
        let d = ops.drop_last();
        assert forall|i: int| 0 <= i < d.len() && (#[trigger] d[i]) is Leave implies granted_ids(
            d.take(i),
        ).contains(d[i]->Leave_0) by {
            assert(d.take(i) =~= ops.take(i));
            assert(d[i] == ops[i]);
        }
        lemma_live_ids(d);
        lemma_granted_ids_distinct(d);
        let v = run_ops(d);
        let g = granted_ids(d);
        let l = left_ids(d);
        match ops.last() {
            StoreOp::Join(h) => {
                if can_join(v) {
                    let n = v.next_id as u32;
                    let s = v.entries.push((n, h));
                    assert(ids_of(s) =~= ids_of(v.entries).insert(n)) by {
                        assert(s[s.len() - 1].0 == n);
                        assert forall|k: u32| ids_of(v.entries).contains(k) implies ids_of(s).contains(k) by {
                            let i = choose|i: int| 0 <= i < v.entries.len() && v.entries[i].0 == k;
                            assert(s[i] == v.entries[i]);
                        }
                    }
                    assert(g.push(n).to_set() =~= g.to_set().insert(n)) by {
                        assert forall|k: u32| g.to_set().contains(k) implies g.push(n).to_set().contains(k) by {
                            let i = choose|i: int| 0 <= i < g.len() && g[i] == k;
                            assert(g.push(n)[i] == k);
                        }
                        assert(g.push(n)[g.len() as int] == n);
                    }
                    assert(!l.contains(n));
                    assert(ids_of(s) =~= g.push(n).to_set().difference(l));
                }
            },
            StoreOp::Leave(x) => {
                lemma_ids_of_others(v.entries, x);
                assert(ops.take(ops.len() - 1) =~= d);
                assert(ops[ops.len() - 1] == ops.last());
                assert(g.contains(x));
                let i = choose|i: int| 0 <= i < g.len() && g[i] == x;
                assert(ids_of(others_of(v.entries, x)) =~= g.to_set().difference(l.insert(x)));
            },
        }
    }
}

/// Leaving is idempotent: a second leave of the same id, or a leave of an id
/// that is not joined, leaves the store as it is.
pub proof fn lemma_leave_idempotent<H>(v: StoreView<H>, x: u32)
    ensures
        after_leave(after_leave(v, x), x) == after_leave(v, x),
        !v.live_ids().contains(x) ==> after_leave(v, x) == v,
{
    let o = others_of(v.entries, x);
    lemma_others_of_contains(v.entries, x);
    assert forall|i: int| 0 <= i < o.len() implies o[i].0 != x by {
        assert(o.contains(o[i]));
    }
    lemma_others_of_absent(o, x);
    if !v.live_ids().contains(x) {
        lemma_others_of_absent(v.entries, x);
    }
}

} // verus!
