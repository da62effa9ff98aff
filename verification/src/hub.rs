//! The hub: the process-wide router owning the map from room name to room
//! state. It creates rooms lazily on `Join`, forwards commands to the
//! addressed room, answers queries against vanished rooms with empty
//! replies, and garbage-collects rooms that have been empty beyond their
//! idle allowance. The hub is a plain state machine; the surrounding task
//! performs the returned actions on the real channels.
use vstd::prelude::*;

use vstd::pervasive::unreached;

use crate::codec::spec_encode_event;
use crate::config::Config;
use crate::memory_pool::{frame_bytes, Frame, MemoryPool};
use crate::protocol::{views_of, ServerEvent};
use crate::room::{user_joined_text, user_left_text, Room, RoomAction, RoomCmd};

verus! {

/// Commands accepted by [`ChatHub`].
#[derive(Debug)]
pub enum HubCmd {
    /// Let `name` enter `room`, creating the room if it does not exist.
    Join { room: String, name: String },
    /// Broadcast an event in `room`; dropped silently if the room is gone.
    Send { room: String, event: ServerEvent },
    /// Let `name` leave `room`; dropped silently if the room is gone.
    Leave { room: String, name: String },
    /// Ask for the member names of `room`; empty if the room is gone.
    GetMembers { room: String },
    /// Ask for the history frames of `room`; empty if the room is gone.
    GetHistory { room: String },
    /// Prune expired rooms and ask for the names of the live ones.
    GetRoomList,
}

/// What the surrounding task must do after a hub command, in order.
#[derive(Debug)]
pub enum HubAction {
    /// Subscribe the requesting connection to this room's broadcast
    /// channel, before anything is published there.
    Subscribe { room: String },
    /// Publish the frame on this room's broadcast channel.
    Publish { room: String, frame: Frame },
    /// Reply to the requester with the member names.
    Members(Vec<String>),
    /// Reply to the requester with the history frames.
    History(Vec<Frame>),
    /// Reply to the requester with the live room names.
    Rooms(Vec<String>),
}

/// The router: every live room, and the configuration rooms are created
/// with.
pub struct ChatHub {
    /// The live rooms; their names are unique.
    pub rooms: Vec<Room>,
    /// The captured configuration.
    pub cfg: Config,
}

impl ChatHub {
    /// The names of the live rooms, in creation order.
    pub open spec fn room_names(&self) -> Seq<Seq<char>> {
        self.rooms@.map_values(|r: Room| r.name@)
    }

    /// There is a live room of this name.
    pub open spec fn has_room(&self, name: Seq<char>) -> bool {
        self.room_names().contains(name)
    }

    /// Every room is well formed and carries the hub's configuration;
    /// room names are unique.
    pub open spec fn wf(&self) -> bool {
        &&& forall|i: int| 0 <= i < self.rooms@.len() ==> (#[trigger] self.rooms@[i]).wf()
        &&& forall|i: int|
            0 <= i < self.rooms@.len() ==> (#[trigger] self.rooms@[i]).history_limit
                == self.cfg.history_limit && self.rooms@[i].room_ttl_secs == self.cfg.room_ttl_secs
        &&& forall|i: int, j: int|
            0 <= i < j < self.rooms@.len() ==> (#[trigger] self.rooms@[i]).name@ != (
            #[trigger] self.rooms@[j]).name@
    }

    /// A hub with no rooms.
    pub fn new(cfg: Config) -> (r: ChatHub)
        ensures
            r.wf(),
            r.rooms@.len() == 0,
            r.cfg == cfg,
    {
        ChatHub { rooms: Vec::new(), cfg }
    }

    /// The index of the room of this name, if it is live.
    fn find_room(&self, room: &String) -> (r: Option<usize>)
        ensures
            match r {
                Some(i) => i < self.rooms@.len() && self.rooms@[i as int].name@ == room@,
                None => !self.has_room(room@),
            },
    {
        let mut k: usize = 0;
        while k < self.rooms.len()
            invariant
                k <= self.rooms@.len(),
                forall|i: int| 0 <= i < k ==> (#[trigger] self.rooms@[i]).name@ != room@,
            decreases self.rooms@.len() - k,
        {
            if self.rooms[k].name == *room {
                return Some(k);
            }
            k = k + 1;
        }
        proof {
            assert forall|i: int| 0 <= i < self.room_names().len() implies self.room_names()[i]
                != room@ by {
                assert(self.room_names()[i] == self.rooms@[i].name@);
            }
        }
        None
    }

    /// The room of this name, created now if it was not live. Returns its
    /// index; everything else is untouched.
    fn room_entry(&mut self, room: &String) -> (i: usize)
        requires
            old(self).wf(),
        ensures
            final(self).wf(),
            final(self).cfg == old(self).cfg,
            i < final(self).rooms@.len(),
            final(self).rooms@[i as int].name@ == room@,
            if old(self).has_room(room@) {
                final(self).rooms@ == old(self).rooms@ && old(self).rooms@[i as int].name@
                    == room@
            } else {
                &&& final(self).rooms@.len() == old(self).rooms@.len() + 1
                &&& i == old(self).rooms@.len()
                &&& forall|j: int|
                    0 <= j < old(self).rooms@.len() ==> final(self).rooms@[j] == old(
                        self,
                    ).rooms@[j]
                &&& final(self).rooms@[i as int].members_view() == Seq::<Seq<char>>::empty()
                &&& final(self).rooms@[i as int].history_view() == Seq::<Seq<char>>::empty()
                &&& final(self).rooms@[i as int].last_empty_at is None
            },
    {
        match self.find_room(room) {
            Some(i) => {
                proof {
                    assert(self.room_names()[i as int] == room@);
                }
                i
            },
            None => {
                let r = Room::new(&self.cfg, room.clone());
                let i = self.rooms.len();
                let ghost pre = self.rooms@;
                self.rooms.push(r);
                proof {
                    assert forall|a: int, b: int|
                        0 <= a < b < self.rooms@.len() implies (#[trigger] self.rooms@[a]).name@
                        != (#[trigger] self.rooms@[b]).name@ by {
                        if b < pre.len() {
                            assert(self.rooms@[a] == pre[a]);
                            assert(self.rooms@[b] == pre[b]);
                        } else {
                            assert(self.rooms@[a] == pre[a]);
                            assert(views_of(Seq::<String>::empty()).len() == 0);
                            assert(old(self).room_names()[a] == pre[a].name@);
                        }
                    }
                }
                i
            },
        }
    }
}

impl ChatHub {
    /// Remove every room that has been empty beyond its idle allowance;
    /// all other rooms survive untouched, in order.
    #[verifier::loop_isolation(false)]
    pub fn sweep(&mut self, now_ms: u64)
        requires
            old(self).wf(),
        ensures
            final(self).wf(),
            final(self).cfg == old(self).cfg,
            forall|i: int|
                0 <= i < old(self).rooms@.len() && !(#[trigger] old(self).rooms@[i]).spec_expired(
                    now_ms,
                ) ==> final(self).rooms@.contains(old(self).rooms@[i]),
            forall|j: int|
                0 <= j < final(self).rooms@.len() ==> old(self).rooms@.contains(
                    #[trigger] final(self).rooms@[j],
                ) && !final(self).rooms@[j].spec_expired(now_ms),
    {
        let ghost mut done: int = 0;
        let mut k: usize = 0;
        while k < self.rooms.len()
            invariant
                0 <= k <= self.rooms@.len(),
                k <= done <= old(self).rooms@.len(),
                self.cfg == old(self).cfg,
                self.wf(),
                self.rooms@.skip(k as int) =~= old(self).rooms@.skip(done),
                forall|i: int|
                    0 <= i < k ==> !(#[trigger] self.rooms@[i]).spec_expired(now_ms),
                forall|i: int|
                    0 <= i < k ==> old(self).rooms@.contains(#[trigger] self.rooms@[i]),
                forall|i: int|
                    0 <= i < done && !(#[trigger] old(self).rooms@[i]).spec_expired(now_ms)
                        ==> self.rooms@.take(k as int).contains(old(self).rooms@[i]),
            decreases self.rooms@.len() - k,
        {
            let ghost pre = self.rooms@;
            proof {
                assert(pre.skip(k as int)[0] == pre[k as int]);
                assert(old(self).rooms@.skip(done)[0] == old(self).rooms@[done]);
                assert(pre[k as int] == old(self).rooms@[done]);
            }
            if self.rooms[k].expired(now_ms) {
                self.rooms.remove(k);
                proof {
                    pre.remove_ensures(k as int);
                    assert forall|j: int|
                        0 <= j < self.rooms@.skip(k as int).len() implies self.rooms@.skip(
                        k as int,
                    )[j] == old(self).rooms@.skip(done + 1)[j] by {
                        assert(self.rooms@.skip(k as int)[j] == self.rooms@[k + j]);
                        assert(self.rooms@[k + j] == pre[k + j + 1]);
                        assert(pre.skip(k as int)[j + 1] == pre[k + j + 1]);
                        assert(old(self).rooms@.skip(done)[j + 1] == old(self).rooms@[done + 1
                            + j]);
                        assert(old(self).rooms@.skip(done + 1)[j] == old(self).rooms@[done + 1
                            + j]);
                    }
                    assert(self.rooms@.skip(k as int) =~= old(self).rooms@.skip(done + 1));
                    assert forall|i: int| 0 <= i < k implies self.rooms@[i] == pre[i] by {}
                    assert(self.rooms@.take(k as int) =~= pre.take(k as int));
                    assert forall|i: int|
                        0 <= i < done + 1 && !(#[trigger] old(self).rooms@[i]).spec_expired(
                            now_ms,
                        ) implies self.rooms@.take(k as int).contains(old(self).rooms@[i]) by {
                        if i < done {
                            let w = choose|w: int|
                                0 <= w < k && pre.take(k as int)[w] == old(self).rooms@[i];
                            assert(self.rooms@.take(k as int)[w] == old(self).rooms@[i]);
                        }
                    }
                }
            } else {
                proof {
                    assert forall|j: int|
                        0 <= j < self.rooms@.skip(k as int + 1).len() implies #[trigger] (
                        self.rooms@.skip(k as int + 1)[j]) == old(self).rooms@.skip(done + 1)[j] by {
                        assert(self.rooms@.skip(k as int + 1)[j] == self.rooms@[k + 1 + j]);
                        assert(pre.skip(k as int)[j + 1] == pre[k + j + 1]);
                        assert(old(self).rooms@.skip(done)[j + 1] == old(self).rooms@[done + 1
                            + j]);
                        assert(old(self).rooms@.skip(done + 1)[j] == old(self).rooms@[done + 1
                            + j]);
                    }
                    assert(self.rooms@.skip(k as int + 1) =~= old(self).rooms@.skip(done + 1));
                    assert(old(self).rooms@.contains(pre[k as int])) by {
                        assert(old(self).rooms@[done] == pre[k as int]);
                    }
                    assert forall|i: int|
                        0 <= i < done + 1 && !(#[trigger] old(self).rooms@[i]).spec_expired(
                            now_ms,
                        ) implies self.rooms@.take(k as int + 1).contains(
                        old(self).rooms@[i],
                    ) by {
                        if i < done {
                            let w = choose|w: int|
                                0 <= w < k && self.rooms@.take(k as int)[w] == old(
                                    self,
                                ).rooms@[i];
                            assert(self.rooms@.take(k as int + 1)[w] == old(self).rooms@[i]);
                        } else {
                            assert(self.rooms@.take(k as int + 1)[k as int] == old(
                                self,
                            ).rooms@[done]);
                        }
                    }
                }
                k = k + 1;
            }
            proof {
                done = done + 1;
            }
        }
        proof {
            assert(self.rooms@.take(k as int) =~= self.rooms@);
            assert(done == old(self).rooms@.len());
        }
    }

    /// The names of the live rooms, in creation order.
    pub fn room_list(&self) -> (names: Vec<String>)
        ensures
            views_of(names@) == self.room_names(),
    {
        let mut out: Vec<String> = Vec::new();
        let mut k: usize = 0;
        while k < self.rooms.len()
            invariant
                k <= self.rooms@.len(),
                views_of(out@) =~= self.room_names().take(k as int),
            decreases self.rooms@.len() - k,
        {
            out.push(self.rooms[k].name.clone());
            proof {
                assert(views_of(out@) =~= self.room_names().take(k as int).push(
                    self.rooms@[k as int].name@,
                ));
                assert(self.room_names().take(k as int).push(self.rooms@[k as int].name@)
                    =~= self.room_names().take(k as int + 1));
            }
            k = k + 1;
        }
        proof {
            assert(self.room_names().take(self.rooms@.len() as int) =~= self.room_names());
        }
        out
    }
}

impl ChatHub {
    /// Route one command: mutate the addressed room (creating it for a
    /// `Join`, dropping the command silently if it is gone otherwise) and
    /// return, in order, what the surrounding task must do. `GetRoomList`
    /// first prunes every room whose idle allowance has passed, so an
    /// expired room never appears in the reply.
    pub fn handle_cmd(&mut self, cmd: HubCmd, now_ms: u64, pool: &mut MemoryPool) -> (actions: Vec<
        HubAction,
    >)
        requires
            old(self).wf(),
            old(pool).wf(),
        ensures
            final(self).wf(),
            final(pool).wf(),
            final(self).cfg == old(self).cfg,
            match cmd {
                HubCmd::Join { room, name } => {
                    &&& if old(self).has_room(room@) {
                        exists|i: int|
                            {
                                &&& 0 <= i < old(self).rooms@.len()
                                &&& (#[trigger] old(self).rooms@[i]).name@ == room@
                                &&& final(self).rooms@ == old(self).rooms@.update(
                                    i,
                                    final(self).rooms@[i],
                                )
                                &&& final(self).rooms@[i].name@ == room@
                                &&& final(self).rooms@[i].members_view() == (
                                if old(self).rooms@[i].members_view().contains(name@) {
                                    old(self).rooms@[i].members_view()
                                } else {
                                    old(self).rooms@[i].members_view().push(name@)
                                })
                                &&& final(self).rooms@[i].last_empty_at is None
                                &&& final(self).rooms@[i].history_view() == old(
                                    self,
                                ).rooms@[i].history_view()
                            }
                    } else {
                        &&& final(self).rooms@.len() == old(self).rooms@.len() + 1
                        &&& forall|j: int|
                            0 <= j < old(self).rooms@.len() ==> final(self).rooms@[j] == old(
                                self,
                            ).rooms@[j]
                        &&& final(self).rooms@.last().name@ == room@
                        &&& final(self).rooms@.last().members_view() == seq![name@]
                        &&& final(self).rooms@.last().last_empty_at is None
                        &&& final(self).rooms@.last().history_view() == Seq::<Seq<char>>::empty()
                    }
                    &&& actions@.len() == 2
                    &&& actions@[0] matches HubAction::Subscribe { room: rm } && rm@ == room@
                    &&& actions@[1] matches HubAction::Publish { room: rm, frame: f } && rm@
                        == room@ && f@ == user_joined_text(room@, name@) && f.wf()
                },
                HubCmd::Send { room, event } => {
                    if old(self).has_room(room@) {
                        &&& exists|i: int|
                            {
                                &&& 0 <= i < old(self).rooms@.len()
                                &&& (#[trigger] old(self).rooms@[i]).name@ == room@
                                &&& final(self).rooms@ == old(self).rooms@.update(
                                    i,
                                    final(self).rooms@[i],
                                )
                                &&& final(self).rooms@[i].name@ == room@
                                &&& final(self).rooms@[i].members == old(self).rooms@[i].members
                                &&& final(self).rooms@[i].last_empty_at == old(
                                    self,
                                ).rooms@[i].last_empty_at
                                &&& final(self).rooms@[i].history_view() == crate::room::spec_push_history(
                                    old(self).rooms@[i].history_view(),
                                    event@,
                                    old(self).cfg.history_limit,
                                )
                            }
                        &&& actions@.len() == 1
                        &&& actions@[0] matches HubAction::Publish { room: rm, frame: f } && rm@
                            == room@ && f@ == spec_encode_event(event@) && f.wf()
                    } else {
                        &&& final(self).rooms@ == old(self).rooms@
                        &&& actions@.len() == 0
                    }
                },
                HubCmd::Leave { room, name } => {
                    if old(self).has_room(room@) {
                        exists|i: int|
                            {
                                &&& 0 <= i < old(self).rooms@.len()
                                &&& (#[trigger] old(self).rooms@[i]).name@ == room@
                                &&& if old(self).rooms@[i].members_view().contains(name@) {
                                    &&& final(self).rooms@ == old(self).rooms@.update(
                                        i,
                                        final(self).rooms@[i],
                                    )
                                    &&& final(self).rooms@[i].name@ == room@
                                    &&& final(self).rooms@[i].history_view() == old(
                                        self,
                                    ).rooms@[i].history_view()
                                    &&& exists|m: int|
                                        {
                                            &&& 0 <= m < old(self).rooms@[i].members@.len()
                                            &&& old(self).rooms@[i].members_view()[m] == name@
                                            &&& final(self).rooms@[i].members@ == old(
                                                self,
                                            ).rooms@[i].members@.remove(m)
                                        }
                                    &&& final(self).rooms@[i].last_empty_at == (
                                    if final(self).rooms@[i].members@.len() == 0 {
                                        Some(now_ms)
                                    } else {
                                        Option::<u64>::None
                                    })
                                    &&& actions@.len() == 1
                                    &&& actions@[0] matches HubAction::Publish {
                                        room: rm,
                                        frame: f,
                                    } && rm@ == room@ && f@ == user_left_text(room@, name@)
                                        && f.wf()
                                } else {
                                    &&& final(self).rooms@ == old(self).rooms@
                                    &&& actions@.len() == 0
                                }
                            }
                    } else {
                        &&& final(self).rooms@ == old(self).rooms@
                        &&& actions@.len() == 0
                    }
                },
                HubCmd::GetMembers { room } => {
                    &&& final(self).rooms@ == old(self).rooms@
                    &&& actions@.len() == 1
                    &&& actions@[0] matches HubAction::Members(m) && views_of(m@) == (
                    if old(self).has_room(room@) {
                        choose_room_members(old(self), room@)
                    } else {
                        Seq::<Seq<char>>::empty()
                    })
                },
                HubCmd::GetHistory { room } => {
                    &&& final(self).rooms@ == old(self).rooms@
                    &&& actions@.len() == 1
                    &&& actions@[0] matches HubAction::History(h) && h@.map_values(
                        |f: Frame| f@,
                    ) == (if old(self).has_room(room@) {
                        choose_room_history(old(self), room@)
                    } else {
                        Seq::<Seq<char>>::empty()
                    })
                },
                HubCmd::GetRoomList => {
                    &&& actions@.len() == 1
                    &&& actions@[0] matches HubAction::Rooms(l) && views_of(l@) == final(self).room_names()
                    &&& forall|i: int|
                        0 <= i < old(self).rooms@.len() && (#[trigger] old(
                            self,
                        ).rooms@[i]).spec_expired(now_ms) ==> !final(self).has_room(
                            old(self).rooms@[i].name@,
                        )
                    &&& forall|i: int|
                        0 <= i < old(self).rooms@.len() && !(#[trigger] old(
                            self,
                        ).rooms@[i]).spec_expired(now_ms) ==> final(self).rooms@.contains(
                            old(self).rooms@[i],
                        )
                },
            },
    {
        let mut actions: Vec<HubAction> = Vec::new();
        match cmd {
            HubCmd::Join { room, name } => {
                let ghost roomv = room@;
                let ghost namev = name@;
                let i = self.room_entry(&room);
                let ghost mid = *self;
                let mut r = self.rooms.remove(i);
                let ghost rpre = r;
                let mut racts = r.handle(RoomCmd::Join { name }, now_ms, pool);
                let ghost rg = r;
                self.rooms.insert(i, r);
                proof {
                    mid.rooms@.remove_ensures(i as int);
                    mid.rooms@.remove(i as int).insert_ensures(i as int, rg);
                    assert(self.rooms@[i as int] == rg);
                    assert(rpre == mid.rooms@[i as int]);
                    assert(self.rooms@ =~= mid.rooms@.update(i as int, rg));
                    lemma_wf_after_update(&mid, self, i as int);
                    assert(rg.last_empty_at is None);
                    assert(rg.name@ == roomv);
                    assert(rg.members_view().contains(namev)) by {
                        if rpre.members_view().contains(namev) {
                            let w = choose|w: int|
                                0 <= w < rpre.members_view().len() && rpre.members_view()[w]
                                    == namev;
                            assert(rg.members_view()[w] == namev);
                        } else {
                            assert(rg.members_view() == rpre.members_view().push(namev));
                            assert(rg.members_view()[rpre.members_view().len() as int] == namev);
                        }
                    }
                }
                let f = match racts.pop() {
                    Some(RoomAction::Publish(f)) => f,
                    _ => unreached(),
                };
                actions.push(HubAction::Subscribe { room: room.clone() });
                actions.push(HubAction::Publish { room, frame: f });
                proof {
                    assert(self.rooms@[i as int].name@ == roomv);
                    assert(self.rooms@[i as int].members_view().contains(namev));
                    assert(self.rooms@[i as int].last_empty_at is None);
                    assert(actions@.len() == 2);
                    assert(actions@[0] matches HubAction::Subscribe { room: rm } && rm@ == roomv);
                    assert(actions@[1] matches HubAction::Publish { room: rm, frame: ff } && rm@
                        == roomv && ff@ == user_joined_text(roomv, namev) && ff.wf());
                }
            },
            HubCmd::Send { room, event } => {
                match self.find_room(&room) {
                    Some(i) => {
                        proof {
                            assert(self.room_names()[i as int] == self.rooms@[i as int].name@);
                            assert(self.has_room(room@));
                        }
                        let ghost mid = *self;
                        let mut r = self.rooms.remove(i);
                        let mut racts = r.handle(RoomCmd::Send(event), now_ms, pool);
                        let ghost rg = r;
                        self.rooms.insert(i, r);
                        proof {
                            mid.rooms@.remove_ensures(i as int);
                            mid.rooms@.remove(i as int).insert_ensures(i as int, rg);
                            assert(self.rooms@[i as int] == rg);
                            assert(self.rooms@ =~= mid.rooms@.update(
                                i as int,
                                self.rooms@[i as int],
                            ));
                            lemma_wf_after_update(&mid, self, i as int);
                        }
                        let f = match racts.pop() {
                            Some(RoomAction::Publish(f)) => f,
                            _ => unreached(),
                        };
                        actions.push(HubAction::Publish { room, frame: f });
                    },
                    None => {},
                }
            },
            HubCmd::Leave { room, name } => {
                match self.find_room(&room) {
                    Some(i) => {
                        proof {
                            assert(self.room_names()[i as int] == self.rooms@[i as int].name@);
                            assert(self.has_room(room@));
                        }
                        let ghost mid = *self;
                        let mut r = self.rooms.remove(i);
                        let mut racts = r.handle(RoomCmd::Leave { name }, now_ms, pool);
                        let ghost rg = r;
                        self.rooms.insert(i, r);
                        proof {
                            mid.rooms@.remove_ensures(i as int);
                            mid.rooms@.remove(i as int).insert_ensures(i as int, rg);
                            assert(self.rooms@[i as int] == rg);
                            assert(self.rooms@ =~= mid.rooms@.update(
                                i as int,
                                self.rooms@[i as int],
                            ));
                            lemma_wf_after_update(&mid, self, i as int);
                            if !mid.rooms@[i as int].members_view().contains(name@) {
                                assert(self.rooms@[i as int] == mid.rooms@[i as int]);
                                assert(self.rooms@ =~= mid.rooms@);
                            }
                        }
                        match racts.pop() {
                            Some(RoomAction::Publish(f)) => {
                                actions.push(HubAction::Publish { room, frame: f });
                            },
                            _ => {},
                        }
                    },
                    None => {},
                }
            },
            HubCmd::GetMembers { room } => {
                let m = match self.find_room(&room) {
                    Some(i) => {
                        let m = self.rooms[i].member_snapshot();
                        proof {
                            assert(self.room_names()[i as int] == self.rooms@[i as int].name@);
                            assert(self.has_room(room@));
                            lemma_room_members_are_chosen(self, i as int);
                        }
                        m
                    },
                    None => Vec::new(),
                };
                proof {
                    if m@.len() == 0 {
                        assert(views_of(m@) =~= Seq::<Seq<char>>::empty());
                    }
                }
                actions.push(HubAction::Members(m));
            },
            HubCmd::GetHistory { room } => {
                let h = match self.find_room(&room) {
                    Some(i) => {
                        let h = self.rooms[i].history_snapshot();
                        proof {
                            assert(self.room_names()[i as int] == self.rooms@[i as int].name@);
                            assert(self.has_room(room@));
                            lemma_room_history_is_chosen(self, i as int);
                        }
                        h
                    },
                    None => Vec::new(),
                };
                proof {
                    if h@.len() == 0 {
                        assert(h@.map_values(|f: Frame| f@) =~= Seq::<Seq<char>>::empty());
                    }
                }
                actions.push(HubAction::History(h));
            },
            HubCmd::GetRoomList => {
                self.sweep(now_ms);
                let l = self.room_list();
                proof {
                    assert forall|i: int|
                        0 <= i < old(self).rooms@.len() && (#[trigger] old(
                            self,
                        ).rooms@[i]).spec_expired(now_ms) implies !self.has_room(
                        old(self).rooms@[i].name@,
                    ) by {
                        if self.has_room(old(self).rooms@[i].name@) {
                            let j = choose|j: int|
                                0 <= j < self.room_names().len() && self.room_names()[j] == old(
                                    self,
                                ).rooms@[i].name@;
                            assert(self.room_names()[j] == self.rooms@[j].name@);
                            assert(old(self).rooms@.contains(self.rooms@[j]));
                            let w = choose|w: int|
                                0 <= w < old(self).rooms@.len() && old(self).rooms@[w]
                                    == self.rooms@[j];
                            assert(old(self).rooms@[w].name@ == old(self).rooms@[i].name@);
                            if w != i {
                                if w < i {
                                    assert(old(self).rooms@[w].name@ != old(self).rooms@[i].name@);
                                } else {
                                    assert(old(self).rooms@[i].name@ != old(self).rooms@[w].name@);
                                }
                            }
                            assert(old(self).rooms@[i] == self.rooms@[j]);
                            assert(!self.rooms@[j].spec_expired(now_ms));
                        }
                    }
                }
                actions.push(HubAction::Rooms(l));
            },
        }
        actions
    }
}

/// The member names of the room called `name`, where one exists.
pub open spec fn choose_room_members(h: &ChatHub, name: Seq<char>) -> Seq<Seq<char>> {
    let i = choose|i: int| 0 <= i < h.rooms@.len() && (#[trigger] h.rooms@[i]).name@ == name;
    h.rooms@[i].members_view()
}

/// The history texts of the room called `name`, where one exists.
pub open spec fn choose_room_history(h: &ChatHub, name: Seq<char>) -> Seq<Seq<char>> {
    let i = choose|i: int| 0 <= i < h.rooms@.len() && (#[trigger] h.rooms@[i]).name@ == name;
    h.rooms@[i].history_view()
}

/// In a well-formed hub, any room index with a given name is the chosen
/// one: names are unique.
proof fn lemma_room_members_are_chosen(h: &ChatHub, i: int)
    requires
        h.wf(),
        0 <= i < h.rooms@.len(),
    ensures
        choose_room_members(h, h.rooms@[i].name@) == h.rooms@[i].members_view(),
        choose_room_history(h, h.rooms@[i].name@) == h.rooms@[i].history_view(),
{
    let name = h.rooms@[i].name@;
    assert(0 <= i < h.rooms@.len() && h.rooms@[i].name@ == name);
    let j = choose|j: int| 0 <= j < h.rooms@.len() && (#[trigger] h.rooms@[j]).name@ == name;
    if i != j {
        if i < j {
            assert(h.rooms@[i].name@ != h.rooms@[j].name@);
        } else {
            assert(h.rooms@[j].name@ != h.rooms@[i].name@);
        }
    }
}

/// Alias of [`lemma_room_members_are_chosen`] for the history side.
proof fn lemma_room_history_is_chosen(h: &ChatHub, i: int)
    requires
        h.wf(),
        0 <= i < h.rooms@.len(),
    ensures
        choose_room_history(h, h.rooms@[i].name@) == h.rooms@[i].history_view(),
{
    lemma_room_members_are_chosen(h, i);
}

/// Replacing one room by a well-formed room of the same name and
/// configuration keeps the hub well formed.
proof fn lemma_wf_after_update(pre: &ChatHub, post: &ChatHub, i: int)
    requires
        pre.wf(),
        0 <= i < pre.rooms@.len(),
        post.rooms@ == pre.rooms@.update(i, post.rooms@[i]),
        post.rooms@.len() == pre.rooms@.len(),
        post.cfg == pre.cfg,
        post.rooms@[i].wf(),
        post.rooms@[i].name@ == pre.rooms@[i].name@,
        post.rooms@[i].history_limit == pre.rooms@[i].history_limit,
        post.rooms@[i].room_ttl_secs == pre.rooms@[i].room_ttl_secs,
    ensures
        post.wf(),
{
    assert forall|a: int| 0 <= a < post.rooms@.len() implies (#[trigger] post.rooms@[a]).wf()
        && post.rooms@[a].history_limit == post.cfg.history_limit && post.rooms@[a].room_ttl_secs
        == post.cfg.room_ttl_secs by {
        if a != i {
            assert(post.rooms@[a] == pre.rooms@[a]);
        }
    }
    assert forall|a: int, b: int| 0 <= a < b < post.rooms@.len() implies (
    #[trigger] post.rooms@[a]).name@ != (#[trigger] post.rooms@[b]).name@ by {
        assert(post.rooms@[a] == if a == i {
            post.rooms@[i]
        } else {
            pre.rooms@[a]
        });
        assert(post.rooms@[b] == if b == i {
            post.rooms@[i]
        } else {
            pre.rooms@[b]
        });
        assert(pre.rooms@[a].name@ != pre.rooms@[b].name@);
    }
}

} // verus!
