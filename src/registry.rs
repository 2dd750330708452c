//! The process-wide registry: the connected nicknames, and each room with
//! its members in the order they joined. Every entry carries the connection
//! that the nickname belongs to, so that events can be routed to it.

use vstd::prelude::*;

verus! {

broadcast use vstd::seq_lib::group_seq_properties;

/// A nickname and the connection that holds it.
pub struct Member {
    pub nick: String,
    pub conn: u64,
}

impl Clone for Member {
    fn clone(&self) -> (r: Self)
        ensures
            r == *self,
    {
        Member { nick: self.nick.clone(), conn: self.conn }
    }
}

/// A room and its members, in the order they joined.
pub struct Room {
    pub name: String,
    pub members: Vec<Member>,
}

/// The nicknames of a list of members.
pub open spec fn nicks(s: Seq<Member>) -> Seq<Seq<char>> {
    s.map_values(|m: Member| m.nick@)
}

/// No nickname occurs twice in `s`.
pub open spec fn distinct_nicks(s: Seq<Member>) -> bool {
    forall|i: int, j: int| 0 <= i < j < s.len() ==> s[i].nick@ != s[j].nick@
}

/// Whether one of `members` is called `nick`.
pub fn has_member(members: &Vec<Member>, nick: &String) -> (r: bool)
    ensures
        r == nicks(members@).contains(nick@),
{
    let mut k: usize = 0;
    while k < members.len()
        invariant
            k <= members@.len(),
            forall|j: int| 0 <= j < k ==> members@[j].nick@ != nick@,
        decreases members@.len() - k,
    {
        if members[k].nick == *nick {
            assert(nicks(members@)[k as int] == nick@);
            return true;
        }
        k = k + 1;
    }
    assert(!nicks(members@).contains(nick@)) by {
        if nicks(members@).contains(nick@) {
            let j = choose|j: int| 0 <= j < nicks(members@).len() && nicks(members@)[j] == nick@;
            assert(members@[j].nick@ == nick@);
        }
    }
    false
}

/// Whether a member is not the one called `nick`.
pub open spec fn other_than(nick: Seq<char>) -> spec_fn(Member) -> bool {
    |m: Member| m.nick@ != nick
}

/// The connected users and the rooms, shared by all sessions.
pub struct Registry {
    /// The connected nicknames, in the order they connected.
    pub users: Vec<Member>,
    /// The rooms, in the order they were created.
    pub rooms: Vec<Room>,
}

impl Registry {
    /// Nicknames are unique among the users and among each room's members,
    /// and room names are unique.
    pub open spec fn wf(&self) -> bool {
        &&& distinct_nicks(self.users@)
        &&& forall|i: int, j: int|
            0 <= i < j < self.rooms@.len() ==> self.rooms@[i].name@ != self.rooms@[j].name@
        &&& forall|k: int| 0 <= k < self.rooms@.len() ==> distinct_nicks(#[trigger] self.rooms@[k].members@)
    }

    /// The connected nicknames.
    pub open spec fn user_set(&self) -> Set<Seq<char>> {
        Set::new(|n: Seq<char>| exists|i: int| 0 <= i < self.users@.len() && #[trigger] self.users@[i].nick@ == n)
    }

    /// Whether a room of that name exists.
    pub open spec fn has_room(&self, name: Seq<char>) -> bool {
        exists|i: int| 0 <= i < self.rooms@.len() && #[trigger] self.rooms@[i].name@ == name
    }

    /// The members of a room, in the order they joined; empty for a room that does not exist.
    pub open spec fn room_of(&self, name: Seq<char>) -> Seq<Member> {
        if self.has_room(name) {
            self.rooms@[choose|i: int| 0 <= i < self.rooms@.len() && #[trigger] self.rooms@[i].name@ == name].members@
        } else {
            Seq::empty()
        }
    }

    /// The nicknames of a room's members, in the order they joined.
    pub open spec fn members(&self, name: Seq<char>) -> Seq<Seq<char>> {
        nicks(self.room_of(name))
    }

    proof fn lemma_room_at(&self, i: int)
        requires
            self.wf(),
            0 <= i < self.rooms@.len(),
        ensures
            self.has_room(self.rooms@[i].name@),
            self.room_of(self.rooms@[i].name@) == self.rooms@[i].members@,
    {
        let name = self.rooms@[i].name@;
        assert(self.has_room(name));
        let j = choose|j: int| 0 <= j < self.rooms@.len() && #[trigger] self.rooms@[j].name@ == name;
        assert(i == j);
    }

    /// An empty registry.
    pub fn new() -> (r: Registry)
        ensures
            r.wf(),
            r.user_set() == Set::<Seq<char>>::empty(),
            forall|name: Seq<char>| !r.has_room(name),
    {
        let r = Registry { users: Vec::new(), rooms: Vec::new() };
        assert(r.user_set() =~= Set::<Seq<char>>::empty());
        r
    }

    /// Position of the user called `nick`.
    fn user_index(&self, nick: &String) -> (r: Option<usize>)
        ensures
            r matches Some(i) ==> i < self.users@.len() && self.users@[i as int].nick@ == nick@,
            r is None ==> !self.user_set().contains(nick@),
    {
        let mut i: usize = 0;
        while i < self.users.len()
            invariant
                i <= self.users@.len(),
                forall|j: int| 0 <= j < i ==> self.users@[j].nick@ != nick@,
            decreases self.users@.len() - i,
        {
            if self.users[i].nick == *nick {
                return Some(i);
            }
            i = i + 1;
        }
        None
    }

    /// Position of the room called `name`.
    fn room_index(&self, name: &String) -> (r: Option<usize>)
        requires
            self.wf(),
        ensures
            r matches Some(i) ==> i < self.rooms@.len() && self.rooms@[i as int].name@ == name@
                && self.room_of(name@) == self.rooms@[i as int].members@,
            r is None ==> !self.has_room(name@) && self.room_of(name@) == Seq::<Member>::empty(),
    {
        let mut i: usize = 0;
        while i < self.rooms.len()
            invariant
                self.wf(),
                i <= self.rooms@.len(),
                forall|j: int| 0 <= j < i ==> self.rooms@[j].name@ != name@,
            decreases self.rooms@.len() - i,
        {
            if self.rooms[i].name == *name {
                proof {
                    self.lemma_room_at(i as int);
                }
                return Some(i);
            }
            i = i + 1;
        }
        None
    }

    /// Registers `nick` for connection `conn`; `false`, and nothing changes,
    /// when the nickname is taken.
    pub fn connect_user(&mut self, nick: &String, conn: u64) -> (r: bool)
        requires
            old(self).wf(),
        ensures
            final(self).wf(),
            r == !old(self).user_set().contains(nick@),
            final(self).user_set() == old(self).user_set().insert(nick@),
            final(self).rooms@ == old(self).rooms@,
            r ==> final(self).users@ == old(self).users@.push(Member { nick: *nick, conn }),
            !r ==> final(self).users@ == old(self).users@,
    {
        match self.user_index(nick) {
            Some(i) => {
                assert(old(self).user_set().insert(nick@) =~= old(self).user_set());
                false
            },
            None => {
                let ghost before = self.users@;
                self.users.push(Member { nick: nick.clone(), conn });
                assert forall|n: Seq<char>| #[trigger] self.user_set().contains(n)
                    == old(self).user_set().insert(nick@).contains(n) by {
                    if old(self).user_set().contains(n) {
                        let i = choose|i: int| 0 <= i < before.len() && #[trigger] before[i].nick@ == n;
                        assert(self.users@[i].nick@ == n);
                    }
                    if n == nick@ {
                        assert(self.users@[before.len() as int].nick@ == n);
                    }
                }
                assert(self.user_set() =~= old(self).user_set().insert(nick@));
                true
            },
        }
    }

    /// Forgets `nick`; nothing happens for an empty or unknown nickname.
    pub fn disconnect_user(&mut self, nick: &String)
        requires
            old(self).wf(),
        ensures
            final(self).wf(),
            final(self).rooms@ == old(self).rooms@,
            nick@.len() == 0 ==> final(self).users@ == old(self).users@,
            nick@.len() > 0 ==> final(self).user_set() == old(self).user_set().remove(nick@),
    {
        if nick.as_str().is_empty() {
            return;
        }
        match self.user_index(nick) {
            None => {
                assert(old(self).user_set().remove(nick@) =~= old(self).user_set());
            },
            Some(i) => {
                let ghost before = self.users@;
                self.users.remove(i);
                assert forall|n: Seq<char>| #[trigger] self.user_set().contains(n)
                    == old(self).user_set().remove(nick@).contains(n) by {
                    if self.user_set().contains(n) {
                        let j = choose|j: int| 0 <= j < self.users@.len() && #[trigger] self.users@[j].nick@ == n;
                        if j < i {
                            assert(before[j].nick@ == n);
                        } else {
                            assert(before[j + 1].nick@ == n);
                        }
                    }
                    if old(self).user_set().remove(nick@).contains(n) {
                        let j = choose|j: int| 0 <= j < before.len() && #[trigger] before[j].nick@ == n;
                        if j < i {
                            assert(self.users@[j].nick@ == n);
                        } else if j > i {
                            assert(self.users@[j - 1].nick@ == n);
                        }
                    }
                }
                assert(self.user_set() =~= old(self).user_set().remove(nick@));
            },
        }
    }

    /// The connection that holds `nick`, if it is connected.
    pub fn lookup_user(&self, nick: &String) -> (r: Option<u64>)
        requires
            self.wf(),
        ensures
            r is Some <==> self.user_set().contains(nick@),
            r matches Some(c) ==> exists|i: int| 0 <= i < self.users@.len()
                && #[trigger] self.users@[i] == (Member { nick: self.users@[i].nick, conn: c })
                && self.users@[i].nick@ == nick@,
    {
        match self.user_index(nick) {
            Some(i) => Some(self.users[i].conn),
            None => None,
        }
    }

    proof fn lemma_rooms_update(old_reg: Registry, new_reg: Registry, i: int)
        requires
            old_reg.wf(),
            new_reg.wf(),
            0 <= i < old_reg.rooms@.len(),
            new_reg.rooms@.len() == old_reg.rooms@.len(),
            forall|j: int| 0 <= j < old_reg.rooms@.len() && j != i ==> new_reg.rooms@[j] == old_reg.rooms@[j],
            new_reg.rooms@[i].name@ == old_reg.rooms@[i].name@,
        ensures
            forall|r: Seq<char>| new_reg.has_room(r) == old_reg.has_room(r),
            forall|r: Seq<char>| r != old_reg.rooms@[i].name@ ==> new_reg.room_of(r) == old_reg.room_of(r),
            new_reg.room_of(old_reg.rooms@[i].name@) == new_reg.rooms@[i].members@,
    {
        new_reg.lemma_room_at(i);
        assert forall|r: Seq<char>| new_reg.has_room(r) == old_reg.has_room(r)
            && (r != old_reg.rooms@[i].name@ ==> new_reg.room_of(r) == old_reg.room_of(r)) by {
            if old_reg.has_room(r) {
                let j = choose|j: int| 0 <= j < old_reg.rooms@.len() && #[trigger] old_reg.rooms@[j].name@ == r;
                old_reg.lemma_room_at(j);
                if j != i {
                    new_reg.lemma_room_at(j);
                }
            }
            if new_reg.has_room(r) {
                let j = choose|j: int| 0 <= j < new_reg.rooms@.len() && #[trigger] new_reg.rooms@[j].name@ == r;
                assert(old_reg.rooms@[j].name@ == r);
            }
        }
    }

    proof fn lemma_rooms_push(old_reg: Registry, new_reg: Registry)
        requires
            old_reg.wf(),
            new_reg.wf(),
            new_reg.rooms@.len() == old_reg.rooms@.len() + 1,
            forall|j: int| 0 <= j < old_reg.rooms@.len() ==> new_reg.rooms@[j] == old_reg.rooms@[j],
        ensures
            forall|r: Seq<char>| r != new_reg.rooms@.last().name@ ==> new_reg.has_room(r) == old_reg.has_room(r),
            forall|r: Seq<char>| r != new_reg.rooms@.last().name@ ==> new_reg.room_of(r) == old_reg.room_of(r),
            new_reg.has_room(new_reg.rooms@.last().name@),
            new_reg.room_of(new_reg.rooms@.last().name@) == new_reg.rooms@.last().members@,
    {
        let last = old_reg.rooms@.len() as int;
        new_reg.lemma_room_at(last);
        assert forall|r: Seq<char>| r != new_reg.rooms@.last().name@ implies new_reg.has_room(r) == old_reg.has_room(r)
            && new_reg.room_of(r) == old_reg.room_of(r) by {
            if old_reg.has_room(r) {
                let j = choose|j: int| 0 <= j < old_reg.rooms@.len() && #[trigger] old_reg.rooms@[j].name@ == r;
                old_reg.lemma_room_at(j);
                new_reg.lemma_room_at(j);
            }
            if new_reg.has_room(r) {
                let j = choose|j: int| 0 <= j < new_reg.rooms@.len() && #[trigger] new_reg.rooms@[j].name@ == r;
                assert(j != last);
                assert(old_reg.rooms@[j].name@ == r);
            }
        }
    }

    /// Puts `members` in place of the members of the room at position `i`.
    fn set_members(&mut self, i: usize, members: Vec<Member>)
        requires
            old(self).wf(),
            i < old(self).rooms@.len(),
            distinct_nicks(members@),
        ensures
            final(self).wf(),
            final(self).users@ == old(self).users@,
            forall|r: Seq<char>| final(self).has_room(r) == old(self).has_room(r),
            forall|r: Seq<char>| r != old(self).rooms@[i as int].name@ ==> final(self).room_of(r) == old(self).room_of(r),
            final(self).room_of(old(self).rooms@[i as int].name@) == members@,
    {
        let room = self.rooms.remove(i);
        let Room { name, members: _ } = room;
        self.rooms.insert(i, Room { name, members });
        proof {
            assert forall|j: int| 0 <= j < old(self).rooms@.len() && j != i implies self.rooms@[j] == old(self).rooms@[j] by {}
            Self::lemma_rooms_update(*old(self), *self, i as int);
        }
    }

    /// A copy of the members of the room called `chan`, in the order they
    /// joined; empty for a room that does not exist.
    pub fn chan_members(&self, chan: &String) -> (r: Vec<Member>)
        requires
            self.wf(),
        ensures
            r@ == self.room_of(chan@),
    {
        match self.room_index(chan) {
            None => Vec::new(),
            Some(i) => {
                let members = &self.rooms[i].members;
                let mut r: Vec<Member> = Vec::new();
                let mut k: usize = 0;
                while k < members.len()
                    invariant
                        k <= members@.len(),
                        r@ == members@.subrange(0, k as int),
                    decreases members@.len() - k,
                {
                    r.push(members[k].clone());
                    k = k + 1;
                    assert(r@ =~= members@.subrange(0, k as int));
                }
                assert(members@.subrange(0, k as int) =~= members@);
                r
            },
        }
    }

    /// Adds `nick`, held by `conn`, to the room called `chan`, which is
    /// created when absent. Gives the members that were there before, in
    /// the order they joined; `None`, and nothing changes, when `nick` is
    /// already a member.
    pub fn add_user_to_chan(&mut self, nick: &String, conn: u64, chan: &String) -> (r: Option<Vec<Member>>)
        requires
            old(self).wf(),
        ensures
            final(self).wf(),
            final(self).users@ == old(self).users@,
            old(self).members(chan@).contains(nick@) ==> r is None && final(self).rooms@ == old(self).rooms@,
            !old(self).members(chan@).contains(nick@) ==> r is Some && r->0@ == old(self).room_of(chan@)
                && final(self).has_room(chan@)
                && final(self).room_of(chan@) == old(self).room_of(chan@).push(Member { nick: *nick, conn }),
            forall|n: Seq<char>| n != chan@ ==> final(self).has_room(n) == old(self).has_room(n),
            forall|n: Seq<char>| n != chan@ ==> final(self).room_of(n) == old(self).room_of(n),
    {
        match self.room_index(chan) {
            None => {
                let ghost before = *self;
                let mut members: Vec<Member> = Vec::new();
                members.push(Member { nick: nick.clone(), conn });
                self.rooms.push(Room { name: chan.clone(), members });
                proof {
                    assert(!before.members(chan@).contains(nick@));
                    assert forall|i: int, j: int| 0 <= i < j < self.rooms@.len() implies self.rooms@[i].name@
                        != self.rooms@[j].name@ by {
                        if j == self.rooms@.len() - 1 {
                            assert(before.rooms@[i].name@ != chan@);
                        }
                    }
                    Self::lemma_rooms_push(before, *self);
                    assert(before.room_of(chan@).push(Member { nick: *nick, conn }) =~= self.rooms@.last().members@);
                }
                Some(Vec::new())
            },
            Some(i) => {
                let members = self.chan_members(chan);
                if has_member(&members, nick) {
                    return None;
                }
                let mut grown = self.chan_members(chan);
                grown.push(Member { nick: nick.clone(), conn });
                proof {
                    let m = old(self).rooms@[i as int].members@;
                    assert(distinct_nicks(m));
                    assert forall|a: int, b: int| 0 <= a < b < grown@.len() implies grown@[a].nick@ != grown@[b].nick@ by {
                        if b == grown@.len() - 1 {
                            assert(nicks(m)[a] == m[a].nick@);
                        }
                    }
                }
                self.set_members(i, grown);
                Some(members)
            },
        }
    }

    /// Removes `nick` from the room called `chan`, and gives the members that
    /// stay, in the order they joined.
    pub fn remove_user_from_chan(&mut self, nick: &String, chan: &String) -> (r: Vec<Member>)
        requires
            old(self).wf(),
        ensures
            final(self).wf(),
            final(self).users@ == old(self).users@,
            final(self).room_of(chan@) == old(self).room_of(chan@).filter(other_than(nick@)),
            r@ == final(self).room_of(chan@),
            forall|n: Seq<char>| final(self).has_room(n) == old(self).has_room(n),
            forall|n: Seq<char>| n != chan@ ==> final(self).room_of(n) == old(self).room_of(n),
    {
        match self.room_index(chan) {
            None => {
                proof {
                    reveal(Seq::filter);
                    assert(Seq::<Member>::empty().filter(other_than(nick@)) =~= Seq::<Member>::empty());
                }
                Vec::new()
            },
            Some(i) => {
                let members = self.chan_members(chan);
                let ghost pred = other_than(nick@);
                let mut kept: Vec<Member> = Vec::new();
                let mut k: usize = 0;
                while k < members.len()
                    invariant
                        k <= members@.len(),
                        members@ == old(self).room_of(chan@),
                        *self == *old(self),
                        distinct_nicks(members@),
                        pred == other_than(nick@),
                        kept@ == members@.subrange(0, k as int).filter(pred),
                        distinct_nicks(kept@),
                        forall|a: int| 0 <= a < kept@.len() ==> exists|j: int| 0 <= j < k && #[trigger] kept@[a] == members@[j],
                    decreases members@.len() - k,
                {
                    let ghost sub = members@.subrange(0, k as int);
                    proof {
                        assert(members@.subrange(0, k + 1) =~= sub.push(members@[k as int]));
                        sub.lemma_filter_push(members@[k as int], pred);
                    }
                    if members[k].nick != *nick {
                        let ghost before = kept@;
                        kept.push(members[k].clone());
                        proof {
                            assert forall|a: int, b: int| 0 <= a < b < kept@.len() implies kept@[a].nick@ != kept@[b].nick@ by {
                                if b == kept@.len() - 1 {
                                    let j = choose|j: int| 0 <= j < k && #[trigger] before[a] == members@[j];
                                }
                            }
                            assert forall|a: int| 0 <= a < kept@.len() implies exists|j: int| 0 <= j < k + 1 && #[trigger] kept@[a] == members@[j] by {
                                if a == kept@.len() - 1 {
                                    assert(kept@[a] == members@[k as int]);
                                } else {
                                    let j = choose|j: int| 0 <= j < k && #[trigger] before[a] == members@[j];
                                    assert(kept@[a] == members@[j]);
                                }
                            }
                        }
                    }
                    k = k + 1;
                }
                assert(members@.subrange(0, k as int) =~= members@);
                let result = kept.clone();
                proof {
                    assert(result@ =~= kept@);
                }
                self.set_members(i, kept);
                result
            },
        }
    }
}

} // verus!
