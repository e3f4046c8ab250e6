use vstd::prelude::*;

verus! {

/// Table from room identifier to the room's store, in order of creation.
/// An entry is created on the first request for its room and is never
/// removed, so one identifier always leads to one store.
pub struct RoomRegistry<S> {
    rooms: Vec<(String, S)>,
}

/// Whether `v` holds an entry for `room`.
pub open spec fn has_room<S>(v: Seq<(Seq<char>, S)>, room: Seq<char>) -> bool {
    exists|i: int| 0 <= i < v.len() && v[i].0 == room
}

/// No two entries of `v` share a room identifier.
pub open spec fn rooms_unique<S>(v: Seq<(Seq<char>, S)>) -> bool {
    forall|i: int, j: int| 0 <= i < v.len() && 0 <= j < v.len() && v[i].0 == v[j].0 ==> i == j
}

/// The table after a request for `room`, where `fresh` is the store that a
/// new entry would hold.
pub open spec fn after_request<S>(v: Seq<(Seq<char>, S)>, room: Seq<char>, fresh: S) -> Seq<
    (Seq<char>, S),
> {
    if has_room(v, room) {
        v
    } else {
        v.push((room, fresh))
    }
}

impl<S> RoomRegistry<S> {
    pub closed spec fn view(&self) -> Seq<(Seq<char>, S)> {
        self.rooms@.map_values(|e: (String, S)| (e.0@, e.1))
    }

    pub open spec fn wf(&self) -> bool {
        rooms_unique(self@)
    }

    /// Returns an empty table.
    pub fn new() -> (r: Self)
        ensures
            r.wf(),
            r@ == Seq::<(Seq<char>, S)>::empty(),
    {
        let r = RoomRegistry { rooms: Vec::new() };
        assert(r@ =~= Seq::<(Seq<char>, S)>::empty());
        r
    }

    /// Number of rooms in the table.
    pub fn len(&self) -> (r: usize)
        ensures
            r == self@.len(),
    {
        self.rooms.len()
    }

    /// Position of the entry for `room`, if there is one.
    pub fn find(&self, room: &String) -> (r: Option<usize>)
        requires
            self.wf(),
        ensures
            r is None <==> !has_room(self@, room@),
            r matches Some(i) ==> i < self@.len() && self@[i as int].0 == room@,
    {
        let mut i: usize = 0;
        while i < self.rooms.len()
            invariant
                0 <= i <= self@.len(),
                self@.len() == self.rooms@.len(),
                forall|k: int| 0 <= k < i ==> self@[k].0 != room@,
            decreases self.rooms@.len() - i,
        {
            if self.rooms[i].0 == *room {
                assert(self@[i as int].0 == room@);
                return Some(i);
            }
            i = i + 1;
        }
        None
    }

    /// Store of the entry at position `i`.
    pub fn get(&self, i: usize) -> (r: &S)
        requires
            i < self@.len(),
        ensures
            *r == self@[i as int].1,
    {
        &self.rooms[i].1
    }

    /// Returns the position of the entry for `room`, creating it with the
    /// store `fresh` when the room is new. An existing entry is returned as
    /// it is and `fresh` is dropped.
    pub fn get_or_create(&mut self, room: String, fresh: S) -> (r: usize)
        requires
            old(self).wf(),
        ensures
            final(self).wf(),
            final(self)@ == after_request(old(self)@, room@, fresh),
            r < final(self)@.len(),
            final(self)@[r as int].0 == room@,
            !has_room(old(self)@, room@) ==> r == old(self)@.len(),
    {
        match self.find(&room) {
            Some(i) => i,
            None => {
                let ghost v = self@;
                let n = self.rooms.len();
                self.rooms.push((room, fresh));
                assert(self@ =~= v.push((room@, fresh)));
                n
            },
        }
    }
}

/// Every request for one room after the first finds the same entry and
/// leaves the table as it is: one room never gets two stores.
pub proof fn lemma_one_store_per_room<S>(
    v: Seq<(Seq<char>, S)>,
    room: Seq<char>,
    first: S,
    second: S,
)
    requires
        rooms_unique(v),
    ensures
        rooms_unique(after_request(v, room, first)),
        has_room(after_request(v, room, first), room),
        after_request(after_request(v, room, first), room, second) == after_request(v, room, first),
{
    let v1 = after_request(v, room, first);
    if !has_room(v, room) {
        assert(v1[v.len() as int].0 == room);
    }
}

/// The table after one request for `room` per store of `fresh`, in order.
pub open spec fn after_requests<S>(v: Seq<(Seq<char>, S)>, room: Seq<char>, fresh: Seq<S>) -> Seq<
    (Seq<char>, S),
>
    decreases fresh.len(),
{
    if fresh.len() == 0 {
        v
    } else {
        after_request(after_requests(v, room, fresh.drop_last()), room, fresh.last())
    }
}

/// Any number of requests for one room, in any order they are serialized
/// in, leave the table as the first one did: all of them reach the one
/// entry that the first created or found.
pub proof fn lemma_requests_converge<S>(v: Seq<(Seq<char>, S)>, room: Seq<char>, fresh: Seq<S>)
    requires
        rooms_unique(v),
        fresh.len() > 0,
    ensures
        after_requests(v, room, fresh) == after_request(v, room, fresh[0]),
        rooms_unique(after_requests(v, room, fresh)),
        has_room(after_requests(v, room, fresh), room),
    decreases fresh.len(),
{
    let d = fresh.drop_last();
    let first = after_request(v, room, fresh[0]);
    lemma_one_store_per_room(v, room, fresh[0], fresh.last());
    if fresh.len() > 1 {
        lemma_requests_converge(v, room, d);
        assert(d[0] == fresh[0]);
        assert(after_requests(v, room, d) == first);
    } else {
        assert(after_requests(v, room, d) == v);
        assert(fresh.last() == fresh[0]);
    }
    assert(after_requests(v, room, fresh) == after_request(after_requests(v, room, d), room, fresh.last()));
}

/// A request for one room never changes the entry of another: entries of
/// distinct rooms are distinct, and existing entries are kept in place.
pub proof fn lemma_rooms_isolated<S>(
    v: Seq<(Seq<char>, S)>,
    room: Seq<char>,
    fresh: S,
    i: int,
    j: int,
)
    requires
        rooms_unique(v),
        0 <= i < v.len(),
        0 <= j < after_request(v, room, fresh).len(),
        after_request(v, room, fresh)[j].0 == room,
        v[i].0 != room,
    ensures
        after_request(v, room, fresh)[i] == v[i],
        i != j,
{
}

} // verus!
