//! The relay: it pairs two peers in a room and passes frames between them.
//!
//! 1. A peer connects and sends `Password`, then `RoomJoin`.
//! 2. The relay opens both with the relay key; a frame that does not open means
//!    a wrong password, and the connection is dropped.
//! 3. The first peer of a room waits, the second one is paired with it, and
//!    from then on the relay passes frames both ways. It never interprets file
//!    content, which is sealed with the file key, unknown to the relay. While
//!    two peers are in a room, a third one is turned away.
//!
//! Connections are values of a type that the caller chooses. Times are
//! nanoseconds on a clock of the caller's that does not run backwards.

use crate::crypto::{derive_key, derived_key};
use crate::framed::{frame_incoming, frame_says, incoming_view, Msg, MsgView, RecvError};
use crate::text::phrase;
use vstd::prelude::*;
use vstd::utf8::encode_utf8;

verus! {

/// The shortest time between two sweeps for stale rooms: five seconds.
pub const MIN_SWEEP_NANOS: u128 = 5_000_000_000;

/// Who is in a room.
pub enum Seat<C> {
    /// One peer, waiting since `opened`.
    Waiting { first: C, opened: u128 },
    /// Two peers, between which frames are being passed.
    Paired,
}

struct Room<C> {
    name: String,
    seat: Seat<C>,
}

/// The rooms of a relay, its key and how long a lone peer may wait.
pub struct Relay<C> {
    rooms: Vec<Room<C>>,
    relay_key: [u8; 32],
    ttl: u128,
}

/// What joining a room comes to.
#[derive(Debug, Clone, Copy, PartialEq, Eq, Structural)]
pub enum Admission {
    /// The room is new: the peer waits in it.
    First,
    /// One peer waits there: the two are paired.
    Second,
    /// Two peers are there: the peer is turned away.
    Full,
}

/// What joining the room `name` comes to.
pub open spec fn admission<C>(rooms: Map<Seq<char>, Seat<C>>, name: Seq<char>) -> Admission {
    if !rooms.contains_key(name) {
        Admission::First
    } else if rooms[name] is Paired {
        Admission::Full
    } else {
        Admission::Second
    }
}

/// Where a peer is after it was answered, or could not be.
pub enum Seated<C> {
    /// It waits in its room.
    Waiting,
    /// It is paired with the one that waited.
    Paired { first: C, second: C },
    /// Its room is full: it was told so, and is let go.
    TurnedAway(C),
    /// It could not be answered: it is let go.
    Lost(C),
}

/// The rooms after a peer was answered, or could not be, and where it is then. A
/// peer is seated only when its answer went out; otherwise the rooms stay as
/// they were.
pub open spec fn seating<C>(
    rooms: Map<Seq<char>, Seat<C>>,
    name: Seq<char>,
    peer: C,
    answered: bool,
    now: u128,
) -> (Map<Seq<char>, Seat<C>>, Seated<C>) {
    if !answered {
        (rooms, Seated::Lost(peer))
    } else if !rooms.contains_key(name) {
        (rooms.insert(name, Seat::Waiting { first: peer, opened: now }), Seated::Waiting)
    } else {
        match rooms[name] {
            Seat::Waiting { first, .. } => (
                rooms.insert(name, Seat::Paired),
                Seated::Paired { first, second: peer },
            ),
            Seat::Paired => (rooms, Seated::TurnedAway(peer)),
        }
    }
}

/// The time from `opened` to `now`; none where `now` is earlier.
pub open spec fn elapsed(now: u128, opened: u128) -> int {
    if now >= opened {
        now - opened
    } else {
        0
    }
}

/// Whether a peer waits here that has waited for longer than `ttl`.
pub open spec fn is_stale<C>(seat: Seat<C>, now: u128, ttl: u128) -> bool {
    match seat {
        Seat::Waiting { opened, .. } => elapsed(now, opened) > ttl,
        Seat::Paired => false,
    }
}

/// Whether a peer waits here whose time is over.
pub open spec fn is_over<C>(seat: Seat<C>, now: u128, ttl: u128) -> bool {
    match seat {
        Seat::Waiting { opened, .. } => elapsed(now, opened) >= ttl,
        Seat::Paired => false,
    }
}

spec fn named<C>(rooms: Seq<Room<C>>, name: Seq<char>) -> bool {
    exists|i: int| 0 <= i < rooms.len() && #[trigger] rooms[i].name@ == name
}

spec fn place<C>(rooms: Seq<Room<C>>, name: Seq<char>) -> int {
    choose|i: int| 0 <= i < rooms.len() && #[trigger] rooms[i].name@ == name
}

spec fn table<C>(rooms: Seq<Room<C>>) -> Map<Seq<char>, Seat<C>> {
    Map::new(|name: Seq<char>| named(rooms, name), |name: Seq<char>| rooms[place(rooms, name)].seat)
}

spec fn distinct<C>(rooms: Seq<Room<C>>) -> bool {
    forall|i: int, j: int|
        0 <= i < rooms.len() && 0 <= j < rooms.len() && i != j ==> #[trigger] rooms[i].name@
            != #[trigger] rooms[j].name@
}

proof fn lemma_table_at<C>(rooms: Seq<Room<C>>, i: int)
    requires
        distinct(rooms),
        0 <= i < rooms.len(),
    ensures
        table(rooms).contains_key(rooms[i].name@),
        table(rooms)[rooms[i].name@] == rooms[i].seat,
{
    let name = rooms[i].name@;
    assert(named(rooms, name));
    let p = place(rooms, name);
    assert(0 <= p < rooms.len() && rooms[p].name@ == name);
    assert(p == i);
}

proof fn lemma_table_push<C>(rooms: Seq<Room<C>>, room: Room<C>)
    requires
        distinct(rooms),
        !named(rooms, room.name@),
    ensures
        distinct(rooms.push(room)),
        table(rooms.push(room)) == table(rooms).insert(room.name@, room.seat),
{
    let after = rooms.push(room);
    assert forall|i: int, j: int|
        0 <= i < after.len() && 0 <= j < after.len() && i != j implies #[trigger] after[i].name@
        != #[trigger] after[j].name@ by {
        if i < rooms.len() && j < rooms.len() {
            assert(rooms[i].name@ != rooms[j].name@);
        } else if i < rooms.len() {
            assert(rooms[i].name@ != room.name@);
        } else {
            assert(rooms[j].name@ != room.name@);
        }
    }
    assert forall|name: Seq<char>| named(after, name) <==> (named(rooms, name) || name
        == room.name@) by {
        if named(after, name) {
            let i = place(after, name);
            if i < rooms.len() {
                assert(rooms[i].name@ == name);
            }
        }
        if named(rooms, name) {
            let i = place(rooms, name);
            assert(after[i].name@ == name);
        }
        if name == room.name@ {
            assert(after[rooms.len() as int].name@ == name);
        }
    }
    assert forall|name: Seq<char>| #[trigger] named(after, name) implies table(after)[name]
        == table(rooms).insert(room.name@, room.seat)[name] by {
        let i = place(after, name);
        lemma_table_at(after, i);
        if i < rooms.len() {
            lemma_table_at(rooms, i);
            assert(rooms[i].name@ != room.name@);
        }
    }
    assert(table(after) =~= table(rooms).insert(room.name@, room.seat));
}

proof fn lemma_table_swap_remove<C>(rooms: Seq<Room<C>>, i: int)
    requires
        distinct(rooms),
        0 <= i < rooms.len(),
    ensures
        distinct(rooms.update(i, rooms.last()).drop_last()),
        table(rooms.update(i, rooms.last()).drop_last()) == table(rooms).remove(rooms[i].name@),
{
    let after = rooms.update(i, rooms.last()).drop_last();
    let gone = rooms[i].name@;
    let last = rooms.len() - 1;
    assert forall|j: int, k: int|
        0 <= j < after.len() && 0 <= k < after.len() && j != k implies #[trigger] after[j].name@
        != #[trigger] after[k].name@ by {
        let j0 = if j == i { last } else { j };
        let k0 = if k == i { last } else { k };
        assert(after[j] == rooms[j0] && after[k] == rooms[k0]);
        assert(rooms[j0].name@ != rooms[k0].name@);
    }
    assert forall|name: Seq<char>| named(after, name) <==> (named(rooms, name) && name != gone) by {
        if named(after, name) {
            let j = place(after, name);
            let j0 = if j == i { last } else { j };
            assert(after[j] == rooms[j0]);
            assert(rooms[j0].name@ == name);
            assert(j0 != i);
            assert(rooms[j0].name@ != rooms[i].name@);
        }
        if named(rooms, name) && name != gone {
            let j = place(rooms, name);
            let j1 = if j == last { i } else { j };
            assert(after[j1] == rooms[j]);
            assert(after[j1].name@ == name);
        }
    }
    assert forall|name: Seq<char>| #[trigger] named(after, name) implies table(after)[name]
        == table(rooms)[name] by {
        let j = place(after, name);
        let j0 = if j == i { last } else { j };
        assert(after[j] == rooms[j0]);
        lemma_table_at(after, j);
        lemma_table_at(rooms, j0);
    }
    assert(table(after) =~= table(rooms).remove(gone));
}

proof fn lemma_table_reversed<C>(rooms: Seq<Room<C>>, reversed: Seq<Room<C>>)
    requires
        distinct(rooms),
        distinct(reversed),
        rooms.len() == reversed.len(),
        forall|i: int| 0 <= i < rooms.len() ==> reversed[i] == #[trigger] rooms[rooms.len() - 1 - i],
    ensures
        table(rooms) == table(reversed),
{
    let n = rooms.len();
    assert forall|name: Seq<char>| named(rooms, name) <==> named(reversed, name) by {
        if named(rooms, name) {
            let i = place(rooms, name);
            assert(reversed[n - 1 - i] == rooms[n - 1 - (n - 1 - i)]);
            assert(reversed[n - 1 - i].name@ == name);
        }
        if named(reversed, name) {
            let i = place(reversed, name);
            assert(reversed[i] == rooms[n - 1 - i]);
            assert(rooms[n - 1 - i].name@ == name);
        }
    }
    assert forall|name: Seq<char>| #[trigger] named(rooms, name) implies table(rooms)[name]
        == table(reversed)[name] by {
        let i = place(rooms, name);
        assert(reversed[n - 1 - i] == rooms[n - 1 - (n - 1 - i)]);
        lemma_table_at(rooms, i);
        lemma_table_at(reversed, n - 1 - i);
    }
    assert(table(rooms) =~= table(reversed));
}

impl<C> Relay<C> {
    /// The rooms by name.
    pub closed spec fn rooms(&self) -> Map<Seq<char>, Seat<C>> {
        table(self.rooms@)
    }

    /// The key of the channels between this relay and its clients.
    pub closed spec fn key(&self) -> Seq<u8> {
        self.relay_key@
    }

    /// How long a lone peer may wait.
    pub closed spec fn ttl(&self) -> u128 {
        self.ttl
    }

    /// No name stands for two rooms.
    pub closed spec fn wf(&self) -> bool {
        distinct(self.rooms@)
    }

    /// A relay without rooms.
    pub fn new(password: &str, ttl: u128) -> (relay: Relay<C>)
        ensures
            relay.wf(),
            relay.rooms() == Map::<Seq<char>, Seat<C>>::empty(),
            relay.key() == derived_key(encode_utf8(password@)),
            relay.ttl() == ttl,
    {
        let relay = Relay {
            rooms: Vec::new(),
            relay_key: derive_key(password.as_bytes()),
            ttl,
        };
        proof {
            assert(table(relay.rooms@) =~= Map::<Seq<char>, Seat<C>>::empty());
        }
        relay
    }

    /// The key of the channels between this relay and its clients.
    pub fn relay_key(&self) -> (key: [u8; 32])
        ensures
            key@ == self.key(),
    {
        self.relay_key
    }

    fn find(&self, name: &str) -> (found: Option<usize>)
        ensures
            match found {
                Some(i) => i < self.rooms@.len() && self.rooms@[i as int].name@ == name@,
                None => !named(self.rooms@, name@),
            },
    {
        let wanted = name.to_owned();
        let mut i: usize = 0;
        while i < self.rooms.len()
            invariant
                i <= self.rooms@.len(),
                wanted@ == name@,
                forall|j: int| 0 <= j < i ==> #[trigger] self.rooms@[j].name@ != name@,
            decreases self.rooms@.len() - i,
        {
            if self.rooms[i].name == wanted {
                return Some(i);
            }
            i = i + 1;
        }
        None
    }

    /// What joining the room `name` comes to. Nothing changes yet: the peer is
    /// answered first (see [`reply_to`]) and then given its place.
    pub fn admission_to(&self, name: &str) -> (result: Admission)
        requires
            self.wf(),
        ensures
            result == admission(self.rooms(), name@),
    {
        match self.find(name) {
            None => Admission::First,
            Some(i) => {
                proof {
                    lemma_table_at(self.rooms@, i as int);
                }
                match self.rooms[i].seat {
                    Seat::Paired => Admission::Full,
                    Seat::Waiting { .. } => Admission::Second,
                }
            },
        }
    }

    /// Seat the first peer of a room.
    fn open_room(&mut self, name: &str, first: C, now: u128)
        requires
            old(self).wf(),
            admission(old(self).rooms(), name@) == Admission::First,
        ensures
            final(self).wf(),
            final(self).rooms() == old(self).rooms().insert(
                name@,
                Seat::Waiting { first, opened: now },
            ),
            final(self).key() == old(self).key(),
            final(self).ttl() == old(self).ttl(),
    {
        let room = Room { name: name.to_owned(), seat: Seat::Waiting { first, opened: now } };
        proof {
            assert(!named(self.rooms@, name@)) by {
                if named(self.rooms@, name@) {
                    assert(table(self.rooms@).contains_key(name@));
                }
            }
            lemma_table_push(self.rooms@, room);
        }
        self.rooms.push(room);
    }

    /// Seat the second peer of a room, and hand out the one that waited there.
    fn pair(&mut self, name: &str) -> (first: C)
        requires
            old(self).wf(),
            admission(old(self).rooms(), name@) == Admission::Second,
        ensures
            final(self).wf(),
            old(self).rooms()[name@] matches Seat::Waiting { first: f, .. } && f == first,
            final(self).rooms() == old(self).rooms().insert(name@, Seat::Paired),
            final(self).key() == old(self).key(),
            final(self).ttl() == old(self).ttl(),
    {
        let ghost before = self.rooms@;
        let found = self.find(name);
        proof {
            assert(named(before, name@));
        }
        let i: usize = found.unwrap();
        proof {
            lemma_table_at(before, i as int);
            lemma_table_swap_remove(before, i as int);
        }
        let room = self.rooms.swap_remove(i);
        let ghost without = self.rooms@;
        let taken = Room { name: room.name, seat: Seat::Paired };
        proof {
            assert(!named(without, name@)) by {
                if named(without, name@) {
                    assert(table(without).contains_key(name@));
                }
            }
            lemma_table_push(without, taken);
            assert(table(before).remove(name@).insert(name@, Seat::Paired) =~= table(before).insert(
                name@,
                Seat::Paired,
            ));
        }
        self.rooms.push(taken);
        match room.seat {
            Seat::Waiting { first, .. } => first,
            Seat::Paired => vstd::pervasive::unreached(),
        }
    }

    /// Give a peer its place after its answer (see [`reply_to`]) went out or
    /// could not be sent. A room that is taken by two stays so until
    /// [`Relay::release`].
    pub fn seat(&mut self, name: &str, peer: C, answered: bool, now: u128) -> (seated: Seated<C>)
        requires
            old(self).wf(),
        ensures
            final(self).wf(),
            (final(self).rooms(), seated) == seating(
                old(self).rooms(),
                name@,
                peer,
                answered,
                now,
            ),
            final(self).key() == old(self).key(),
            final(self).ttl() == old(self).ttl(),
    {
        if !answered {
            return Seated::Lost(peer);
        }
        match self.admission_to(name) {
            Admission::First => {
                self.open_room(name, peer, now);
                Seated::Waiting
            },
            Admission::Second => {
                let first = self.pair(name);
                Seated::Paired { first, second: peer }
            },
            Admission::Full => Seated::TurnedAway(peer),
        }
    }

    fn take_out(&mut self, i: usize) -> (room: Room<C>)
        requires
            old(self).wf(),
            i < old(self).rooms@.len(),
        ensures
            final(self).wf(),
            room == old(self).rooms@[i as int],
            final(self).rooms() == old(self).rooms().remove(room.name@),
            final(self).relay_key == old(self).relay_key,
            final(self).ttl == old(self).ttl,
    {
        proof {
            lemma_table_swap_remove(self.rooms@, i as int);
        }
        self.rooms.swap_remove(i)
    }

    /// Free a room whose two peers are done. A room in which one peer waits is
    /// left alone.
    pub fn release(&mut self, name: &str)
        requires
            old(self).wf(),
        ensures
            final(self).wf(),
            final(self).rooms() == if admission(old(self).rooms(), name@) == Admission::Full {
                old(self).rooms().remove(name@)
            } else {
                old(self).rooms()
            },
            final(self).key() == old(self).key(),
            final(self).ttl() == old(self).ttl(),
    {
        match self.find(name) {
            None => {
                proof {
                    assert(!table(self.rooms@).contains_key(name@));
                }
            },
            Some(i) => {
                proof {
                    lemma_table_at(self.rooms@, i as int);
                }
                let full: bool = match self.rooms[i].seat {
                    Seat::Paired => true,
                    Seat::Waiting { .. } => false,
                };
                if full {
                    let _ = self.take_out(i);
                }
            },
        }
    }

    /// End a wait that has lasted for the whole time to live, and hand out the
    /// peer that waited. A paired room, or one whose peer came later, is left
    /// alone.
    pub fn expire(&mut self, name: &str, now: u128) -> (gone: Option<C>)
        requires
            old(self).wf(),
        ensures
            final(self).wf(),
            final(self).key() == old(self).key(),
            final(self).ttl() == old(self).ttl(),
            gone is Some <==> old(self).rooms().contains_key(name@) && is_over(
                old(self).rooms()[name@],
                now,
                old(self).ttl(),
            ),
            match gone {
                Some(c) => {
                    &&& old(self).rooms()[name@] matches Seat::Waiting { first, .. } && first == c
                    &&& final(self).rooms() == old(self).rooms().remove(name@)
                },
                None => final(self).rooms() == old(self).rooms(),
            },
    {
        let i: usize = match self.find(name) {
            None => {
                proof {
                    assert(!table(self.rooms@).contains_key(name@));
                }
                return None;
            },
            Some(i) => i,
        };
        proof {
            lemma_table_at(self.rooms@, i as int);
        }
        let over: bool = match &self.rooms[i].seat {
            Seat::Waiting { opened, .. } => now.saturating_sub(*opened) >= self.ttl,
            Seat::Paired => false,
        };
        if !over {
            return None;
        }
        let room = self.take_out(i);
        match room.seat {
            Seat::Waiting { first, .. } => Some(first),
            Seat::Paired => None,
        }
    }

    /// Remove every room in which a lone peer has waited for longer than the
    /// time to live, and hand out those rooms' names and peers. Paired rooms
    /// stay.
    pub fn evict_stale(&mut self, now: u128) -> (gone: Vec<(String, C)>)
        requires
            old(self).wf(),
        ensures
            final(self).wf(),
            final(self).key() == old(self).key(),
            final(self).ttl() == old(self).ttl(),
            final(self).rooms() == old(self).rooms().remove_keys(
                stale_names(old(self).rooms(), now, old(self).ttl()),
            ),
            forall|i: int|
                0 <= i < gone@.len() ==> {
                    &&& stale_names(old(self).rooms(), now, old(self).ttl()).contains(
                        (#[trigger] gone@[i]).0@,
                    )
                    &&& old(self).rooms()[gone@[i].0@] matches Seat::Waiting { first, .. } && first
                        == gone@[i].1
                },
            forall|i: int, j: int|
                0 <= i < gone@.len() && 0 <= j < gone@.len() && i != j ==> (#[trigger] gone@[i]).0@
                    != (#[trigger] gone@[j]).0@,
            forall|name: Seq<char>|
                stale_names(old(self).rooms(), now, old(self).ttl()).contains(name) ==> exists|
                    i: int,
                |
                    0 <= i < gone@.len() && (#[trigger] gone@[i]).0@ == name,
    {
        let ghost all = self.rooms@;
        let ghost ttl = self.ttl;
        let ghost mut seen: Seq<Room<C>> = Seq::empty();
        let mut kept: Vec<Room<C>> = Vec::new();
        let mut gone: Vec<(String, C)> = Vec::new();
        proof {
            assert(table(kept@) =~= Map::<Seq<char>, Seat<C>>::empty());
            assert(table(seen) =~= Map::<Seq<char>, Seat<C>>::empty());
        }
        while self.rooms.len() > 0
            invariant
                distinct(all),
                ttl == self.ttl,
                self.ttl == old(self).ttl,
                self.relay_key == old(self).relay_key,
                self.rooms@ == all.take(self.rooms@.len() as int),
                self.rooms@.len() <= all.len(),
                seen.len() == all.len() - self.rooms@.len(),
                forall|i: int| 0 <= i < seen.len() ==> #[trigger] seen[i] == all[all.len() - 1 - i],
                distinct(seen),
                distinct(kept@),
                table(kept@) == table(seen).remove_keys(stale_names(table(seen), now, ttl)),
                gone_of(table(seen), now, ttl, gone@),
            decreases self.rooms@.len(),
        {
            let ghost k = self.rooms@.len() - 1;
            let room = self.rooms.pop().unwrap();
            let ghost before = seen;
            proof {
                assert(room == all[k]);
                assert(self.rooms@ =~= all.take(k));
                assert(!named(before, room.name@)) by {
                    if named(before, room.name@) {
                        let p = place(before, room.name@);
                        assert(before[p] == all[all.len() - 1 - p]);
                        assert(all[all.len() - 1 - p].name@ != all[k].name@);
                    }
                }
                lemma_table_push(before, room);
                seen = before.push(room);
                assert(!table(before).contains_key(room.name@));
            }
            let stale: bool = match &room.seat {
                Seat::Waiting { opened, .. } => now.saturating_sub(*opened) > self.ttl,
                Seat::Paired => false,
            };
            if stale {
                match room.seat {
                    Seat::Waiting { first, .. } => {
                        let ghost gone_before = gone@;
                        gone.push((room.name, first));
                        proof {
                            lemma_gone_push(
                                table(before),
                                room.name@,
                                room.seat,
                                now,
                                ttl,
                                gone_before,
                                gone@.last(),
                            );
                        }
                    },
                    Seat::Paired => {},
                }
                proof {
                    assert(table(kept@) =~= table(seen).remove_keys(
                        stale_names(table(seen), now, ttl),
                    ));
                }
            } else {
                proof {
                    assert(!named(kept@, room.name@)) by {
                        if named(kept@, room.name@) {
                            assert(table(kept@).contains_key(room.name@));
                        }
                    }
                    lemma_table_push(kept@, room);
                    lemma_gone_keep(table(before), room.name@, room.seat, now, ttl, gone@);
                    assert(table(kept@).insert(room.name@, room.seat) =~= table(seen).remove_keys(
                        stale_names(table(seen), now, ttl),
                    ));
                }
                kept.push(room);
            }
        }
        proof {
            assert forall|i: int| 0 <= i < all.len() implies seen[i] == #[trigger] all[all.len() - 1
                - i] by {
                assert(seen[i] == all[all.len() - 1 - i]);
            }
            lemma_table_reversed(all, seen);
        }
        self.rooms = kept;
        gone
    }

    /// How long to wait between two sweeps for stale rooms: half the time to
    /// live, and at least five seconds.
    pub fn sweep_interval(&self) -> (nanos: u128)
        ensures
            nanos as int == if self.ttl() / 2 < MIN_SWEEP_NANOS {
                MIN_SWEEP_NANOS as int
            } else {
                self.ttl() as int / 2
            },
    {
        if self.ttl / 2 < MIN_SWEEP_NANOS {
            MIN_SWEEP_NANOS
        } else {
            self.ttl / 2
        }
    }
}

/// The names of the rooms whose lone peer has waited for too long.
pub open spec fn stale_names<C>(rooms: Map<Seq<char>, Seat<C>>, now: u128, ttl: u128) -> Set<
    Seq<char>,
> {
    Set::new(|name: Seq<char>| rooms.contains_key(name) && is_stale(rooms[name], now, ttl))
}

/// Whether `gone` lists each stale room once, with its peer.
spec fn gone_of<C>(
    rooms: Map<Seq<char>, Seat<C>>,
    now: u128,
    ttl: u128,
    gone: Seq<(String, C)>,
) -> bool {
    &&& forall|i: int|
        0 <= i < gone.len() ==> {
            &&& stale_names(rooms, now, ttl).contains((#[trigger] gone[i]).0@)
            &&& rooms[gone[i].0@] matches Seat::Waiting { first, .. } && first == gone[i].1
        }
    &&& forall|i: int, j: int|
        0 <= i < gone.len() && 0 <= j < gone.len() && i != j ==> (#[trigger] gone[i]).0@ != (
        #[trigger] gone[j]).0@
    &&& forall|name: Seq<char>|
        stale_names(rooms, now, ttl).contains(name) ==> exists|i: int|
            0 <= i < gone.len() && (#[trigger] gone[i]).0@ == name
}

proof fn lemma_gone_push<C>(
    rooms: Map<Seq<char>, Seat<C>>,
    name: Seq<char>,
    seat: Seat<C>,
    now: u128,
    ttl: u128,
    gone: Seq<(String, C)>,
    last: (String, C),
)
    requires
        gone_of(rooms, now, ttl, gone),
        !rooms.contains_key(name),
        is_stale(seat, now, ttl),
        last.0@ == name,
        seat matches Seat::Waiting { first, .. } && first == last.1,
    ensures
        gone_of(rooms.insert(name, seat), now, ttl, gone.push(last)),
{
    let after = rooms.insert(name, seat);
    let all = gone.push(last);
    assert forall|i: int| 0 <= i < all.len() implies {
        &&& stale_names(after, now, ttl).contains((#[trigger] all[i]).0@)
        &&& after[all[i].0@] matches Seat::Waiting { first, .. } && first == all[i].1
    } by {
        if i < gone.len() {
            assert(stale_names(rooms, now, ttl).contains(gone[i].0@));
        }
    }
    assert forall|i: int, j: int|
        0 <= i < all.len() && 0 <= j < all.len() && i != j implies (#[trigger] all[i]).0@ != (
    #[trigger] all[j]).0@ by {
        if i < gone.len() {
            assert(stale_names(rooms, now, ttl).contains(gone[i].0@));
        }
        if j < gone.len() {
            assert(stale_names(rooms, now, ttl).contains(gone[j].0@));
        }
    }
    assert forall|n: Seq<char>| stale_names(after, now, ttl).contains(n) implies exists|i: int|
        0 <= i < all.len() && (#[trigger] all[i]).0@ == n by {
        if n == name {
            assert(all[gone.len() as int].0@ == n);
        } else {
            assert(stale_names(rooms, now, ttl).contains(n));
            let i = choose|i: int| 0 <= i < gone.len() && (#[trigger] gone[i]).0@ == n;
            assert(all[i].0@ == n);
        }
    }
}

proof fn lemma_gone_keep<C>(
    rooms: Map<Seq<char>, Seat<C>>,
    name: Seq<char>,
    seat: Seat<C>,
    now: u128,
    ttl: u128,
    gone: Seq<(String, C)>,
)
    requires
        gone_of(rooms, now, ttl, gone),
        !rooms.contains_key(name),
        !is_stale(seat, now, ttl),
    ensures
        gone_of(rooms.insert(name, seat), now, ttl, gone),
{
    let after = rooms.insert(name, seat);
    assert forall|i: int| 0 <= i < gone.len() implies {
        &&& stale_names(after, now, ttl).contains((#[trigger] gone[i]).0@)
        &&& after[gone[i].0@] matches Seat::Waiting { first, .. } && first == gone[i].1
    } by {
        assert(stale_names(rooms, now, ttl).contains(gone[i].0@));
    }
    assert forall|n: Seq<char>| stale_names(after, now, ttl).contains(n) implies exists|i: int|
        0 <= i < gone.len() && (#[trigger] gone[i]).0@ == n by {
        assert(stale_names(rooms, now, ttl).contains(n));
    }
}

/// The answer to a peer that asked to join a room.
pub fn reply_to(result: Admission) -> (msg: Msg)
    ensures
        match result {
            Admission::First => msg@ == MsgView::Ready,
            Admission::Second => msg@ == MsgView::Ready,
            Admission::Full => msg@ == MsgView::RoomFull,
        },
{
    match result {
        Admission::First => Msg::Ready,
        Admission::Second => Msg::Ready,
        Admission::Full => Msg::RoomFull,
    }
}

/// How far a new connection has come.
#[derive(Debug, Clone, Copy, PartialEq, Eq, Structural)]
pub enum Stage {
    /// Nothing was received yet.
    AwaitPassword,
    /// The password was proved.
    AwaitRoom,
}

/// Why a connection is dropped without an answer.
#[derive(Debug, Clone, Copy, PartialEq, Eq, Structural)]
pub enum DropReason {
    /// The first message is none, or is not `Password`.
    NoPassword,
    /// The first message could not be read: most likely a wrong password.
    Unreadable(RecvError),
    /// The second message is none, or is not `RoomJoin`.
    NoRoom,
}

/// What is said about a dropped connection; `detail` says why its first message
/// could not be read.
pub open spec fn drop_text(reason: DropReason, detail: Seq<char>) -> Seq<char> {
    match reason {
        DropReason::NoPassword => "missing Password handshake, dropping"@,
        DropReason::Unreadable(_) => {
            "decrypt failed (likely --password mismatch with relay): "@ + detail
        },
        DropReason::NoRoom => "expected RoomJoin, dropping"@,
    }
}

impl DropReason {
    /// What is said about it; `detail` says why the first message could not be
    /// read.
    pub fn text(&self, detail: &str) -> (text: String)
        ensures
            text@ == drop_text(*self, detail@),
    {
        match self {
            DropReason::NoPassword => "missing Password handshake, dropping".to_owned(),
            DropReason::Unreadable(_) => phrase(
                "decrypt failed (likely --password mismatch with relay): ",
                detail,
            ),
            DropReason::NoRoom => "expected RoomJoin, dropping".to_owned(),
        }
    }
}

/// What to do about a message of a new connection.
#[derive(Debug)]
pub enum HandshakeStep {
    /// Go on to this stage.
    Continue(Stage),
    /// Let the peer join this room.
    Join { room: String },
    Drop(DropReason),
    Fail(RecvError),
}

/// What a [`HandshakeStep`] says.
pub enum HandshakeView {
    Continue(Stage),
    Join { room: Seq<char> },
    Drop(DropReason),
    Fail(RecvError),
}

impl View for HandshakeStep {
    type V = HandshakeView;

    open spec fn view(&self) -> HandshakeView {
        match self {
            HandshakeStep::Continue(stage) => HandshakeView::Continue(*stage),
            HandshakeStep::Join { room } => HandshakeView::Join { room: room@ },
            HandshakeStep::Drop(reason) => HandshakeView::Drop(*reason),
            HandshakeStep::Fail(e) => HandshakeView::Fail(*e),
        }
    }
}

/// What the relay does about the next message of a new connection: first it
/// wants the password, then the room.
pub open spec fn handshake(stage: Stage, incoming: Result<Option<MsgView>, RecvError>) -> HandshakeView {
    match stage {
        Stage::AwaitPassword => match incoming {
            Ok(Some(MsgView::Password { .. })) => HandshakeView::Continue(Stage::AwaitRoom),
            Ok(_) => HandshakeView::Drop(DropReason::NoPassword),
            Err(e) => HandshakeView::Drop(DropReason::Unreadable(e)),
        },
        Stage::AwaitRoom => match incoming {
            Ok(Some(MsgView::RoomJoin { room })) => HandshakeView::Join { room },
            Ok(_) => HandshakeView::Drop(DropReason::NoRoom),
            Err(e) => HandshakeView::Fail(e),
        },
    }
}

/// Decide about the next message of a new connection.
pub fn handshake_step(stage: Stage, incoming: Result<Option<Msg>, RecvError>) -> (step:
    HandshakeStep)
    ensures
        step@ == handshake(stage, incoming_view(incoming)),
{
    match stage {
        Stage::AwaitPassword => match incoming {
            Ok(Some(Msg::Password { .. })) => HandshakeStep::Continue(Stage::AwaitRoom),
            Ok(_) => HandshakeStep::Drop(DropReason::NoPassword),
            Err(e) => HandshakeStep::Drop(DropReason::Unreadable(e)),
        },
        Stage::AwaitRoom => match incoming {
            Ok(Some(Msg::RoomJoin { room })) => HandshakeStep::Join { room },
            Ok(_) => HandshakeStep::Drop(DropReason::NoRoom),
            Err(e) => HandshakeStep::Fail(e),
        },
    }
}

/// The room that a relay with `key` lets a peer join after these two frames.
pub open spec fn room_after(key: Seq<u8>, first: Seq<u8>, second: Seq<u8>) -> Option<Seq<char>> {
    match handshake(Stage::AwaitPassword, frame_incoming(key, first)) {
        HandshakeView::Continue(stage) => match handshake(stage, frame_incoming(key, second)) {
            HandshakeView::Join { room } => Some(room),
            _ => None,
        },
        _ => None,
    }
}

/// One of the two peers of a paired room.
#[derive(Debug, Clone, Copy, PartialEq, Eq, Structural)]
pub enum Side {
    First,
    Second,
}

/// The other of the two peers.
pub open spec fn other_side(side: Side) -> Side {
    match side {
        Side::First => Side::Second,
        Side::Second => Side::First,
    }
}

/// What happened on a paired room's two connections.
#[derive(Debug)]
pub enum PipeEvent {
    Received { from: Side, frame: Vec<u8> },
    /// A peer closed.
    Closed { from: Side },
    /// Reading from a peer failed.
    ReadFailed { from: Side },
    /// Writing to a peer failed.
    WriteFailed { to: Side },
}

/// What to do about it.
#[derive(Debug)]
pub enum PipeStep {
    Forward { to: Side, frame: Vec<u8> },
    /// The room is done: both connections are closed.
    Stop,
}

/// Pass a frame on as it is to the other peer; anything else ends the room.
pub fn pipe_step(event: PipeEvent) -> (step: PipeStep)
    ensures
        match event {
            PipeEvent::Received { from, frame } => step matches PipeStep::Forward { to, frame: f }
                && to == other_side(from) && f@ == frame@,
            _ => step is Stop,
        },
{
    match event {
        PipeEvent::Received { from, frame } => {
            let to: Side = match from {
                Side::First => Side::Second,
                Side::Second => Side::First,
            };
            PipeStep::Forward { to, frame }
        },
        _ => PipeStep::Stop,
    }
}

/// A room has two seats: the first peer to come waits, the second is paired
/// with it, every further one is turned away until the two are done, and then
/// the room is new again.
pub proof fn law_room_has_two_seats<C>(
    rooms: Map<Seq<char>, Seat<C>>,
    name: Seq<char>,
    first: C,
    second: C,
    third: C,
    times: (u128, u128, u128),
)
    requires
        admission(rooms, name) == Admission::First,
    ensures
        ({
            let one = seating(rooms, name, first, true, times.0);
            let two = seating(one.0, name, second, true, times.1);
            let three = seating(two.0, name, third, true, times.2);
            let free = three.0.remove(name);
            &&& one.1 == Seated::<C>::Waiting
            &&& admission(one.0, name) == Admission::Second
            &&& two.1 == (Seated::Paired { first, second })
            &&& admission(two.0, name) == Admission::Full
            &&& three.1 == Seated::TurnedAway(third)
            &&& three.0 == two.0
            &&& free == rooms
        }),
{
    let one = seating(rooms, name, first, true, times.0);
    let two = seating(one.0, name, second, true, times.1);
    assert(two.0.remove(name) =~= rooms);
}

/// A peer gets what it was answered: it waits or is paired where it was told
/// that it may come in, and is turned away where it was told that the room is
/// full. One that could not be answered changes nothing.
pub proof fn law_seat_follows_answer<C>(
    rooms: Map<Seq<char>, Seat<C>>,
    name: Seq<char>,
    peer: C,
    now: u128,
)
    ensures
        seating(rooms, name, peer, false, now) == (rooms, Seated::Lost(peer)),
        match admission(rooms, name) {
            Admission::First => seating(rooms, name, peer, true, now).1 is Waiting,
            Admission::Second => seating(rooms, name, peer, true, now).1 is Paired,
            Admission::Full => seating(rooms, name, peer, true, now) == (
                rooms,
                Seated::TurnedAway(peer),
            ),
        },
{
}

/// What happens in one room changes no other room.
pub proof fn law_rooms_are_independent<C>(
    rooms: Map<Seq<char>, Seat<C>>,
    name: Seq<char>,
    seat: Seat<C>,
    other: Seq<char>,
)
    requires
        other != name,
    ensures
        admission(rooms.insert(name, seat), other) == admission(rooms, other),
        admission(rooms.remove(name), other) == admission(rooms, other),
{
}

/// A sweep removes no paired room and no room that is within its time to live,
/// and leaves no room behind that is past it; sweeping again at the same time
/// removes nothing more.
pub proof fn law_sweep_spares_paired_and_fresh<C>(
    rooms: Map<Seq<char>, Seat<C>>,
    now: u128,
    ttl: u128,
    name: Seq<char>,
)
    requires
        rooms.contains_key(name),
    ensures
        ({
            let swept = rooms.remove_keys(stale_names(rooms, now, ttl));
            &&& (rooms[name] is Paired ==> swept.contains_key(name) && swept[name] == rooms[name])
            &&& (rooms[name] matches Seat::Waiting { opened, .. } ==> (swept.contains_key(name)
                <==> elapsed(now, opened) <= ttl))
            &&& stale_names(swept, now, ttl) == Set::<Seq<char>>::empty()
        }),
{
    let swept = rooms.remove_keys(stale_names(rooms, now, ttl));
    assert(stale_names(swept, now, ttl) =~= Set::<Seq<char>>::empty());
}

/// A peer that cannot prove the password is dropped: a first frame that does
/// not open under the relay's key leads into no room.
pub proof fn law_wrong_password_joins_nothing(key: Seq<u8>, first: Seq<u8>, second: Seq<u8>)
    requires
        frame_says(key, first) is Err,
    ensures
        room_after(key, first, second) is None,
        handshake(Stage::AwaitPassword, frame_incoming(key, first)) is Drop,
{
}

/// A peer that is seated first at `now` waits from `now` on: at every later time
/// it has been there for longer than the time to live, or for all of it, exactly
/// where the time since `now` says so.
pub proof fn law_wait_counts_from_the_seat<C>(
    rooms: Map<Seq<char>, Seat<C>>,
    name: Seq<char>,
    peer: C,
    now: u128,
    later: u128,
    ttl: u128,
)
    requires
        !rooms.contains_key(name),
        now <= later,
    ensures
        ({
            let seated = seating(rooms, name, peer, true, now).0;
            &&& seated == rooms.insert(name, Seat::Waiting { first: peer, opened: now })
            &&& is_stale(seated[name], later, ttl) <==> later - now > ttl
            &&& is_over(seated[name], later, ttl) <==> later - now >= ttl
            &&& stale_names(seated, later, ttl).contains(name) <==> later - now > ttl
        }),
{
}

/// How long a peer has waited is the time between two readings of the clock, and
/// none where the clock shows an earlier time than when it came; a paired room's
/// time is never up.
pub proof fn law_wait_is_the_time_between<C>(first: C, opened: u128, now: u128, ttl: u128)
    ensures
        now >= opened ==> elapsed(now, opened) == now - opened,
        now < opened ==> elapsed(now, opened) == 0,
        is_stale(Seat::Waiting { first, opened }, now, ttl) <==> now > opened + ttl,
        is_over(Seat::Waiting { first, opened }, now, ttl) <==> now >= opened + ttl || ttl == 0,
        !is_stale(Seat::<C>::Paired, now, ttl),
        !is_over(Seat::<C>::Paired, now, ttl),
{
}

/// A sweep names exactly the rooms in which one peer came longer ago than the
/// time to live.
pub proof fn law_sweep_names_the_overdue<C>(
    rooms: Map<Seq<char>, Seat<C>>,
    now: u128,
    ttl: u128,
    name: Seq<char>,
)
    ensures
        stale_names(rooms, now, ttl).contains(name) <==> rooms.contains_key(name)
            && (rooms[name] matches Seat::Waiting { opened, .. } && now > opened + ttl),
{
}

/// What joining comes to depends on who is in the room alone: nobody, one peer
/// or two.
pub proof fn law_admission_goes_by_who_is_there<C>(
    rooms: Map<Seq<char>, Seat<C>>,
    name: Seq<char>,
)
    ensures
        admission(rooms, name) == Admission::First <==> !rooms.contains_key(name),
        admission(rooms, name) == Admission::Second <==> rooms.contains_key(name)
            && rooms[name] is Waiting,
        admission(rooms, name) == Admission::Full <==> rooms.contains_key(name)
            && rooms[name] is Paired,
{
}

/// A peer that joins one who waits, however long that one has waited, is paired
/// with that very peer, and only this room changes. One that comes to a full
/// room, or could not be answered, is handed back and nothing changes.
pub proof fn law_second_meets_the_first<C>(
    rooms: Map<Seq<char>, Seat<C>>,
    name: Seq<char>,
    peer: C,
    now: u128,
)
    requires
        rooms.contains_key(name),
    ensures
        rooms[name] matches Seat::Waiting { first, .. } ==> seating(rooms, name, peer, true, now)
            == (rooms.insert(name, Seat::Paired), Seated::Paired { first, second: peer }),
        rooms[name] is Paired ==> seating(rooms, name, peer, true, now) == (
            rooms,
            Seated::TurnedAway(peer),
        ),
        seating(rooms, name, peer, false, now) == (rooms, Seated::Lost(peer)),
{
}

/// A new connection is let into a room exactly where its first message is a
/// password and its second one asks for that very room; everything else is
/// dropped or fails.
pub proof fn law_handshake_takes_password_and_room(
    incoming: Result<Option<MsgView>, RecvError>,
    room: Seq<char>,
)
    ensures
        handshake(Stage::AwaitPassword, incoming) == HandshakeView::Continue(Stage::AwaitRoom)
            <==> (incoming matches Ok(Some(MsgView::Password { .. }))),
        handshake(Stage::AwaitPassword, incoming) == HandshakeView::Drop(DropReason::NoPassword)
            <==> incoming is Ok && !(incoming matches Ok(Some(MsgView::Password { .. }))),
        incoming matches Err(e) ==> handshake(Stage::AwaitPassword, incoming)
            == HandshakeView::Drop(DropReason::Unreadable(e)) && handshake(
            Stage::AwaitRoom,
            incoming,
        ) == HandshakeView::Fail(e),
        handshake(Stage::AwaitRoom, incoming) == (HandshakeView::Join { room }) <==> incoming == Ok::<
            Option<MsgView>,
            RecvError,
        >(Some(MsgView::RoomJoin { room })),
        handshake(Stage::AwaitRoom, incoming) == HandshakeView::Drop(DropReason::NoRoom)
            <==> incoming is Ok && !(incoming matches Ok(Some(MsgView::RoomJoin { .. }))),
{
}

/// Two frames lead into a room exactly where they open under the relay's key to a
/// password and to that very room.
pub proof fn law_room_is_the_one_asked_for(
    key: Seq<u8>,
    first: Seq<u8>,
    second: Seq<u8>,
    room: Seq<char>,
)
    ensures
        room_after(key, first, second) == Some(room) <==> (frame_says(key, first) matches Ok(
            MsgView::Password { .. },
        )) && frame_says(key, second) == Ok::<MsgView, RecvError>(MsgView::RoomJoin { room }),
{
}

/// What a step of the handshake says is all that it holds.
pub proof fn law_handshake_step_says_all(
    stage: Stage,
    room: String,
    reason: DropReason,
    e: RecvError,
)
    ensures
        HandshakeStep::Continue(stage)@ == HandshakeView::Continue(stage),
        (HandshakeStep::Join { room })@ == (HandshakeView::Join { room: room@ }),
        HandshakeStep::Drop(reason)@ == HandshakeView::Drop(reason),
        HandshakeStep::Fail(e)@ == HandshakeView::Fail(e),
{
}

/// Why a connection is dropped is told whole.
pub proof fn law_drop_is_told_whole(e: RecvError, detail: Seq<char>)
    ensures
        drop_text(DropReason::NoPassword, detail) == "missing Password handshake, dropping"@,
        drop_text(DropReason::NoRoom, detail) == "expected RoomJoin, dropping"@,
        drop_text(DropReason::Unreadable(e), detail)
            == "decrypt failed (likely --password mismatch with relay): "@ + detail,
{
}

/// What one peer sends goes to the other, both ways.
pub proof fn law_sides_are_opposite(side: Side)
    ensures
        other_side(side) != side,
        other_side(other_side(side)) == side,
{
}

} // verus!
