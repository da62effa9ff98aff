//! One chat room: its members, its bounded history ring of chat frames,
//! and the timestamp since which it has been empty. The room is a plain
//! state machine: `handle` maps one command to the next state and the
//! actions the surrounding task performs (subscribing a joiner, publishing
//! a frame on the broadcast channel, replying to a query, exiting).
//!
//! Every broadcast event is encoded once into a pooled buffer and frozen
//! into a `Frame`; the same frame is published and, for chat messages,
//! recorded in the history ring.
use vstd::prelude::*;

use vstd::utf8::encode_utf8_decode_utf8;

use crate::codec::{encode_event, spec_encode_event};
use crate::config::Config;
use crate::memory_pool::{frame_bytes, Frame, MemoryPool};
use crate::protocol::{views_of, ServerEvent, ServerEventView};

verus! {

/// Commands a room accepts.
#[derive(Debug)]
pub enum RoomCmd {
    /// Add a member; it subscribes and then its join is announced.
    Join { name: String },
    /// Broadcast an event; chat messages also enter the history.
    Send(ServerEvent),
    /// Announce the member's leave and remove it.
    Leave { name: String },
    /// Ask for a snapshot of the member names.
    GetMembers,
    /// Ask for an ordered copy of the history frames, oldest first.
    GetHistory,
    /// Wind the room down.
    Shutdown,
}

/// What the surrounding task must do after a command, in order.
#[derive(Debug)]
pub enum RoomAction {
    /// Hand the joining connection a fresh receiver on the room's
    /// broadcast channel, before anything is published.
    Subscribe,
    /// Publish this frame on the room's broadcast channel.
    Publish(Frame),
    /// Reply to the querying connection with the member names.
    ReplyMembers(Vec<String>),
    /// Reply to the querying connection with the history frames.
    ReplyHistory(Vec<Frame>),
    /// The room's task exits.
    Exit,
}

/// The wire text announcing a join.
pub open spec fn user_joined_text(room: Seq<char>, name: Seq<char>) -> Seq<char> {
    spec_encode_event(ServerEventView::UserJoined { room, name })
}

/// The wire text announcing a leave.
pub open spec fn user_left_text(room: Seq<char>, name: Seq<char>) -> Seq<char> {
    spec_encode_event(ServerEventView::UserLeft { room, name })
}

/// One room's state.
pub struct Room {
    /// The room's name, fixed at creation.
    pub name: String,
    /// The user names currently present, in join order, without duplicates.
    pub members: Vec<String>,
    /// The retained chat frames, oldest first.
    pub history: Vec<Frame>,
    /// When the room last became empty, in milliseconds since epoch;
    /// `None` while it has members.
    pub last_empty_at: Option<u64>,
    /// The history ring's capacity.
    pub history_limit: usize,
    /// How long an empty room is retained, in seconds.
    pub room_ttl_secs: u64,
}

impl Room {
    /// The member names as character sequences, in join order.
    pub open spec fn members_view(&self) -> Seq<Seq<char>> {
        views_of(self.members@)
    }

    /// The history as the wire texts of its frames, oldest first.
    pub open spec fn history_view(&self) -> Seq<Seq<char>> {
        self.history@.map_values(|f: Frame| f@)
    }

    /// The state invariant: the history never exceeds its capacity and
    /// holds only well-formed chat-message frames; member names are
    /// unique; a room with members has no emptiness timestamp.
    pub open spec fn wf(&self) -> bool {
        &&& self.history@.len() <= self.history_limit
        &&& forall|i: int|
            0 <= i < self.history@.len() ==> (#[trigger] self.history@[i]).wf()
        &&& forall|i: int|
            0 <= i < self.history@.len() ==> is_chat_text((#[trigger] self.history@[i])@)
        &&& forall|i: int, j: int|
            0 <= i < j < self.members@.len() ==> (#[trigger] self.members@[i])@ != (
            #[trigger] self.members@[j])@
        &&& self.members@.len() > 0 ==> self.last_empty_at is None
    }

    /// A fresh, empty room configured from `cfg`.
    pub fn new(cfg: &Config, name: String) -> (r: Room)
        ensures
            r.wf(),
            r.name@ == name@,
            r.members_view() == Seq::<Seq<char>>::empty(),
            r.history_view() == Seq::<Seq<char>>::empty(),
            r.last_empty_at is None,
            r.history_limit == cfg.history_limit,
            r.room_ttl_secs == cfg.room_ttl_secs,
    {
        let r = Room {
            name,
            members: Vec::new(),
            history: Vec::new(),
            last_empty_at: None,
            history_limit: cfg.history_limit,
            room_ttl_secs: cfg.room_ttl_secs,
        };
        proof {
            assert(r.members_view() =~= Seq::<Seq<char>>::empty());
            assert(r.history_view() =~= Seq::<Seq<char>>::empty());
        }
        r
    }

    /// The room has been empty for longer than its idle allowance.
    pub open spec fn spec_expired(&self, now_ms: u64) -> bool {
        &&& self.members@.len() == 0
        &&& match self.last_empty_at {
            Some(t0) => now_ms - t0 > self.room_ttl_secs * 1000,
            None => false,
        }
    }

    /// Whether the room should be garbage-collected at time `now_ms`.
    pub fn expired(&self, now_ms: u64) -> (r: bool)
        ensures
            r == self.spec_expired(now_ms),
    {
        match self.last_empty_at {
            Some(t0) => self.members.len() == 0 && now_ms > t0 && (now_ms - t0) as u128 > (
            self.room_ttl_secs as u128) * 1000,
            None => false,
        }
    }
}

/// The wire text of a chat message: what the history may hold.
pub open spec fn is_chat_text(t: Seq<char>) -> bool {
    exists|ev: ServerEventView| ev is NewMessage && t == spec_encode_event(ev)
}

/// How one broadcast event changes a history: a chat message is appended,
/// evicting the oldest entry if the ring is over capacity; any other event
/// leaves the history alone.
pub open spec fn spec_push_history(h: Seq<Seq<char>>, ev: ServerEventView, limit: usize) -> Seq<
    Seq<char>,
> {
    if ev is NewMessage {
        let h2 = h.push(spec_encode_event(ev));
        if h2.len() > limit {
            h2.skip(1)
        } else {
            h2
        }
    } else {
        h
    }
}

impl Room {
    /// Encode `event` once into a pooled buffer, freeze it, publish-ready;
    /// a chat message also enters the history ring, evicting the oldest
    /// frame if the ring is full. Returns the frame to publish, which is
    /// byte-identical to the frame recorded.
    pub fn broadcast_event(&mut self, pool: &mut MemoryPool, event: &ServerEvent) -> (frame: Frame)
        requires
            old(self).wf(),
            old(pool).wf(),
        ensures
            final(self).wf(),
            final(pool).wf(),
            frame.wf(),
            frame@ == spec_encode_event(event@),
            final(self).history_view() == spec_push_history(
                old(self).history_view(),
                event@,
                old(self).history_limit,
            ),
            final(self).name == old(self).name,
            final(self).members == old(self).members,
            final(self).last_empty_at == old(self).last_empty_at,
            final(self).history_limit == old(self).history_limit,
            final(self).room_ttl_secs == old(self).room_ttl_secs,
            event@ is NewMessage && old(self).history_limit > 0 ==> {
                &&& final(self).history_view().len() > 0
                &&& final(self).history_view().last() == frame@
                &&& frame_bytes(final(self).history@.last()) == frame_bytes(frame)
            },
    {
        let is_chat = matches!(event, ServerEvent::NewMessage { .. });
        let json = encode_event(event);
        let bytes = json.as_str().as_bytes_vec();
        let mut buf = pool.allocate(bytes.len());
        buf.extend_from_slice(bytes.as_slice());
        let frame = buf.freeze();
        proof {
            broadcast use vstd::string::is_ascii_spec_bytes;

            assert(frame_bytes(frame) =~= vstd::utf8::encode_utf8(json@));
            encode_utf8_decode_utf8(json@);
            assert(frame@ == json@);
        }
        if is_chat {
            let recorded = frame.clone_frame();
            // the recorded frame and the published frame share their bytes
            let ghost pre = self.history@;
            self.history.push(recorded);
            proof {
                assert(self.history@.map_values(|f: Frame| f@) =~= pre.map_values(|f: Frame| f@)
                    .push(frame@));
            }
            if self.history.len() > self.history_limit {
                let ghost mid = self.history@;
                self.history.remove(0);
                proof {
                    mid.remove_ensures(0);
                    assert(mid.remove(0) =~= mid.skip(1));
                    assert(self.history@.map_values(|f: Frame| f@) =~= mid.map_values(
                        |f: Frame| f@,
                    ).skip(1));
                    if self.history@.len() > 0 {
                        assert(self.history@[self.history@.len() - 1] == mid[mid.len() - 1]);
                        assert(self.history@.last() == recorded);
                    }
                }
            }
            proof {
                if self.history@.len() > 0 {
                    assert(self.history@.last() == recorded);
                    assert(self.history_view().last() == self.history@.last()@);
                }
            }
            proof {
                assert forall|i: int| 0 <= i < self.history@.len() implies (
                #[trigger] self.history@[i]).wf() && is_chat_text(self.history@[i]@) by {
                    if i < self.history@.len() - 1 {
                        let k = pre.len() - (self.history@.len() - 1);
                        assert(self.history@[i] == pre[i + k]);
                    } else {
                        assert(self.history@[i] == recorded);
                        assert(is_chat_text(frame@)) by {
                            assert(frame@ == spec_encode_event(event@));
                        }
                    }
                }
            }
        }
        frame
    }
}

/// The index of `name` among the member names, if present.
fn find_member(v: &Vec<String>, name: &String) -> (r: Option<usize>)
    ensures
        match r {
            Some(i) => i < v@.len() && views_of(v@)[i as int] == name@,
            None => !views_of(v@).contains(name@),
        },
{
    let mut k: usize = 0;
    while k < v.len()
        invariant
            k <= v@.len(),
            forall|i: int| 0 <= i < k ==> views_of(v@)[i] != name@,
        decreases v@.len() - k,
    {
        if v[k] == *name {
            proof {
                assert(views_of(v@)[k as int] == v@[k as int]@);
            }
            return Some(k);
        }
        proof {
            assert(views_of(v@)[k as int] == v@[k as int]@);
        }
        k = k + 1;
    }
    proof {
        assert forall|i: int| 0 <= i < views_of(v@).len() implies views_of(v@)[i] != name@ by {}
    }
    None
}

impl Room {
    /// A snapshot of the member names, in join order.
    pub fn member_snapshot(&self) -> (r: Vec<String>)
        ensures
            views_of(r@) == self.members_view(),
    {
        let mut out: Vec<String> = Vec::new();
        let mut k: usize = 0;
        while k < self.members.len()
            invariant
                k <= self.members@.len(),
                views_of(out@) =~= self.members_view().take(k as int),
            decreases self.members@.len() - k,
        {
            out.push(self.members[k].clone());
            proof {
                assert(views_of(out@) =~= self.members_view().take(k as int).push(
                    self.members@[k as int]@,
                ));
                assert(self.members_view().take(k as int).push(self.members@[k as int]@)
                    =~= self.members_view().take(k as int + 1));
            }
            k = k + 1;
        }
        proof {
            assert(self.members_view().take(self.members@.len() as int) =~= self.members_view());
        }
        out
    }

    /// An ordered copy of the history frames, oldest first, byte-identical
    /// to the recorded frames.
    pub fn history_snapshot(&self) -> (r: Vec<Frame>)
        ensures
            r@.len() == self.history@.len(),
            r@.map_values(|f: Frame| f@) == self.history_view(),
            forall|i: int|
                0 <= i < r@.len() ==> frame_bytes(#[trigger] r@[i]) == frame_bytes(
                    self.history@[i],
                ),
    {
        let mut out: Vec<Frame> = Vec::new();
        let mut k: usize = 0;
        while k < self.history.len()
            invariant
                k <= self.history@.len(),
                out@.len() == k,
                forall|i: int|
                    0 <= i < k ==> frame_bytes(#[trigger] out@[i]) == frame_bytes(
                        self.history@[i],
                    ),
                out@.map_values(|f: Frame| f@) =~= self.history_view().take(k as int),
            decreases self.history@.len() - k,
        {
            out.push(self.history[k].clone_frame());
            proof {
                assert(out@.map_values(|f: Frame| f@) =~= self.history_view().take(k as int).push(
                    self.history@[k as int]@,
                ));
                assert(self.history_view().take(k as int).push(self.history@[k as int]@)
                    =~= self.history_view().take(k as int + 1));
            }
            k = k + 1;
        }
        proof {
            assert(self.history_view().take(self.history@.len() as int) =~= self.history_view());
        }
        out
    }

    /// Apply one command: mutate the room and return, in order, what the
    /// surrounding task must do. A `Join` subscribes the joiner before its
    /// join is published, so the joiner observes its own join; a `Leave`
    /// for a name that is not a member is a complete no-op and publishes
    /// nothing.
    pub fn handle(&mut self, cmd: RoomCmd, now_ms: u64, pool: &mut MemoryPool) -> (actions: Vec<
        RoomAction,
    >)
        requires
            old(self).wf(),
            old(pool).wf(),
        ensures
            final(self).wf(),
            final(pool).wf(),
            final(self).name == old(self).name,
            final(self).history_limit == old(self).history_limit,
            final(self).room_ttl_secs == old(self).room_ttl_secs,
            match cmd {
                RoomCmd::Join { name } => {
                    &&& final(self).members_view() == if old(self).members_view().contains(name@) {
                        old(self).members_view()
                    } else {
                        old(self).members_view().push(name@)
                    }
                    &&& final(self).last_empty_at is None
                    &&& final(self).history_view() == old(self).history_view()
                    &&& actions@.len() == 2
                    &&& actions@[0] is Subscribe
                    &&& actions@[1] matches RoomAction::Publish(f) && f@ == user_joined_text(
                        old(self).name@,
                        name@,
                    ) && f.wf()
                },
                RoomCmd::Send(ev) => {
                    &&& final(self).members == old(self).members
                    &&& final(self).last_empty_at == old(self).last_empty_at
                    &&& final(self).history_view() == spec_push_history(
                        old(self).history_view(),
                        ev@,
                        old(self).history_limit,
                    )
                    &&& actions@.len() == 1
                    &&& actions@[0] matches RoomAction::Publish(f) && f@ == spec_encode_event(ev@)
                        && f.wf()
                },
                RoomCmd::Leave { name } => {
                    &&& final(self).history_view() == old(self).history_view()
                    &&& if old(self).members_view().contains(name@) {
                        &&& exists|i: int|
                            0 <= i < old(self).members@.len() && old(self).members_view()[i]
                                == name@ && final(self).members@ == old(self).members@.remove(i)
                        &&& final(self).last_empty_at == (if final(self).members@.len() == 0 {
                            Some(now_ms)
                        } else {
                            Option::<u64>::None
                        })
                        &&& actions@.len() == 1
                        &&& actions@[0] matches RoomAction::Publish(f) && f@ == user_left_text(
                            old(self).name@,
                            name@,
                        ) && f.wf()
                    } else {
                        &&& *final(self) == *old(self)
                        &&& actions@.len() == 0
                    }
                },
                RoomCmd::GetMembers => {
                    &&& *final(self) == *old(self)
                    &&& actions@.len() == 1
                    &&& actions@[0] matches RoomAction::ReplyMembers(m) && views_of(m@) == old(
                        self,
                    ).members_view()
                },
                RoomCmd::GetHistory => {
                    &&& *final(self) == *old(self)
                    &&& actions@.len() == 1
                    &&& actions@[0] matches RoomAction::ReplyHistory(h) && h@.map_values(
                        |f: Frame| f@,
                    ) == old(self).history_view() && h@.len() == old(self).history@.len() && (
                    forall|i: int|
                        0 <= i < h@.len() ==> frame_bytes(#[trigger] h@[i]) == frame_bytes(
                            old(self).history@[i],
                        ))
                },
                RoomCmd::Shutdown => {
                    &&& *final(self) == *old(self)
                    &&& actions@.len() == 1
                    &&& actions@[0] is Exit
                },
            },
    {
        let mut actions: Vec<RoomAction> = Vec::new();
        match cmd {
            RoomCmd::Join { name } => {
                match find_member(&self.members, &name) {
                    Some(_) => {
                        proof {
                            assert(old(self).members_view().contains(name@));
                        }
                    },
                    None => {
                        let ghost pre = self.members@;
                        self.members.push(name.clone());
                        proof {
                            assert(self.members_view() =~= views_of(pre).push(name@));
                            assert forall|i: int, j: int|
                                0 <= i < j < self.members@.len() implies (
                            #[trigger] self.members@[i])@ != (#[trigger] self.members@[j])@ by {
                                if j < pre.len() {
                                    assert(self.members@[i] == pre[i]);
                                    assert(self.members@[j] == pre[j]);
                                } else {
                                    assert(self.members@[i] == pre[i]);
                                    assert(self.members@[j]@ == name@);
                                    assert(views_of(pre)[i] == pre[i]@);
                                }
                            }
                        }
                    },
                }
                self.last_empty_at = None;
                let evt = ServerEvent::UserJoined { room: self.name.clone(), name };
                let frame = self.broadcast_event(pool, &evt);
                actions.push(RoomAction::Subscribe);
                actions.push(RoomAction::Publish(frame));
            },
            RoomCmd::Send(ev) => {
                let frame = self.broadcast_event(pool, &ev);
                actions.push(RoomAction::Publish(frame));
            },
            RoomCmd::Leave { name } => {
                match find_member(&self.members, &name) {
                    Some(i) => {
                        let ghost pre = self.members@;
                        let ghost iv = i as int;
                        self.members.remove(i);
                        proof {
                            pre.remove_ensures(iv);
                            assert(old(self).members_view().contains(name@)) by {
                                assert(views_of(pre)[iv] == name@);
                            }
                            assert forall|a: int, b: int|
                                0 <= a < b < self.members@.len() implies (
                            #[trigger] self.members@[a])@ != (#[trigger] self.members@[b])@ by {
                                let a0 = if a < iv {
                                    a
                                } else {
                                    a + 1
                                };
                                let b0 = if b < iv {
                                    b
                                } else {
                                    b + 1
                                };
                                assert(self.members@[a] == pre[a0]);
                                assert(self.members@[b] == pre[b0]);
                            }
                        }
                        let evt = ServerEvent::UserLeft { room: self.name.clone(), name };
                        let frame = self.broadcast_event(pool, &evt);
                        if self.members.len() == 0 {
                            self.last_empty_at = Some(now_ms);
                        }
                        actions.push(RoomAction::Publish(frame));
                    },
                    None => {},
                }
            },
            RoomCmd::GetMembers => {
                let m = self.member_snapshot();
                actions.push(RoomAction::ReplyMembers(m));
            },
            RoomCmd::GetHistory => {
                let h = self.history_snapshot();
                actions.push(RoomAction::ReplyHistory(h));
            },
            RoomCmd::Shutdown => {
                actions.push(RoomAction::Exit);
            },
        }
        actions
    }
}

// ---------------------------------------------------------------------------
// Laws of the history ring
// ---------------------------------------------------------------------------

/// A room's history never exceeds its configured capacity.
pub proof fn lemma_history_bounded(r: &Room)
    requires
        r.wf(),
    ensures
        r.history_view().len() <= r.history_limit,
{
}

/// A room's history holds no join or leave announcements: every retained
/// frame is a chat message, and a chat message's frame never equals a
/// `UserJoined` or `UserLeft` frame.
pub proof fn lemma_history_no_presence_frames(r: &Room, i: int, room: Seq<char>, name: Seq<char>)
    requires
        r.wf(),
        0 <= i < r.history_view().len(),
    ensures
        r.history_view()[i] != user_joined_text(room, name),
        r.history_view()[i] != user_left_text(room, name),
{
    reveal_strlit("{\"NewMessage\":{\"room\":");
    reveal_strlit("{\"UserJoined\":{\"room\":");
    reveal_strlit("{\"UserLeft\":{\"room\":");
    let t = r.history_view()[i];
    assert(is_chat_text(r.history@[i]@));
    assert(t == r.history@[i]@);
    let nm = choose|ev: ServerEventView| ev is NewMessage && t == spec_encode_event(ev);
    assert(spec_encode_event(nm)[2] == 'N');
    assert(user_joined_text(room, name)[2] == 'U');
    assert(user_left_text(room, name)[2] == 'U');
}

/// The last `n` entries of a history, or all of it if it is shorter.
pub open spec fn last_n(s: Seq<Seq<char>>, n: usize) -> Seq<Seq<char>> {
    if s.len() <= n {
        s
    } else {
        s.skip(s.len() - n)
    }
}

/// The wire texts of a sequence of events.
pub open spec fn encodings_of(evs: Seq<ServerEventView>) -> Seq<Seq<char>> {
    evs.map_values(|e: ServerEventView| spec_encode_event(e))
}

/// A history after a sequence of broadcast events, one `spec_push_history`
/// step per event; this is what `Room::handle` ensures of each `Send`.
pub open spec fn spec_apply_sends(
    h: Seq<Seq<char>>,
    evs: Seq<ServerEventView>,
    limit: usize,
) -> Seq<Seq<char>>
    decreases evs.len(),
{
    if evs.len() == 0 {
        h
    } else {
        spec_apply_sends(spec_push_history(h, evs[0], limit), evs.skip(1), limit)
    }
}

/// Keeping only the last `n` entries first changes nothing about the last
/// `n` entries after an extension.
proof fn lemma_last_n_absorb(x: Seq<Seq<char>>, z: Seq<Seq<char>>, n: usize)
    ensures
        last_n(last_n(x, n) + z, n) == last_n(x + z, n),
{
    let a = last_n(x, n);
    if x.len() <= n {
        assert(a + z =~= x + z);
    } else {
        let lhs = last_n(a + z, n);
        let rhs = last_n(x + z, n);
        assert(a.len() == n);
        assert(lhs.len() == rhs.len());
        assert forall|j: int| 0 <= j < lhs.len() implies lhs[j] == rhs[j] by {
            let drop_l = (a + z).len() - lhs.len();
            let drop_r = (x + z).len() - rhs.len();
            assert(lhs[j] == (a + z)[drop_l + j]);
            assert(rhs[j] == (x + z)[drop_r + j]);
            if drop_l + j < a.len() {
                assert((a + z)[drop_l + j] == a[drop_l + j]);
                assert(a[drop_l + j] == x[x.len() - n + drop_l + j]);
                assert((x + z)[drop_r + j] == x[drop_r + j]);
            } else {
                assert((a + z)[drop_l + j] == z[drop_l + j - a.len()]);
                assert((x + z)[drop_r + j] == z[drop_r + j - x.len()]);
            }
        }
        assert(lhs =~= rhs);
    }
}

/// One push keeps the last `limit` entries of the extended history.
proof fn lemma_push_history_is_last_n(h: Seq<Seq<char>>, ev: ServerEventView, limit: usize)
    requires
        h.len() <= limit,
        ev is NewMessage,
    ensures
        spec_push_history(h, ev, limit) == last_n(h.push(spec_encode_event(ev)), limit),
        spec_push_history(h, ev, limit).len() <= limit,
{
    let h2 = h.push(spec_encode_event(ev));
    if h2.len() > limit {
        assert(h2.skip(1) == h2.skip(h2.len() - limit));
    }
}

/// Folding a run of chat messages into a history keeps exactly the last
/// `limit` of the history extended by their encodings.
proof fn lemma_apply_sends_general(h: Seq<Seq<char>>, evs: Seq<ServerEventView>, limit: usize)
    requires
        h.len() <= limit,
        forall|i: int| 0 <= i < evs.len() ==> (#[trigger] evs[i]) is NewMessage,
    ensures
        spec_apply_sends(h, evs, limit) == last_n(h + encodings_of(evs), limit),
    decreases evs.len(),
{
    if evs.len() == 0 {
        assert(h + encodings_of(evs) =~= h);
    } else {
        let e0 = spec_encode_event(evs[0]);
        lemma_push_history_is_last_n(h, evs[0], limit);
        let h1 = spec_push_history(h, evs[0], limit);
        assert(forall|i: int|
            0 <= i < evs.skip(1).len() ==> (#[trigger] evs.skip(1)[i]) is NewMessage);
        lemma_apply_sends_general(h1, evs.skip(1), limit);
        lemma_last_n_absorb(h.push(e0), encodings_of(evs.skip(1)), limit);
        assert(h.push(e0) + encodings_of(evs.skip(1)) =~= h + encodings_of(evs));
    }
}

/// After any run of chat messages into a fresh room, the history equals
/// the last `limit` of their wire texts, in order. Together with
/// `Room::handle`'s contract for `Send`, this pins the history ring.
pub proof fn lemma_history_after_sends(evs: Seq<ServerEventView>, limit: usize)
    requires
        forall|i: int| 0 <= i < evs.len() ==> (#[trigger] evs[i]) is NewMessage,
    ensures
        spec_apply_sends(Seq::empty(), evs, limit) == last_n(encodings_of(evs), limit),
{
    lemma_apply_sends_general(Seq::empty(), evs, limit);
    assert(Seq::<Seq<char>>::empty() + encodings_of(evs) =~= encodings_of(evs));
}

} // verus!
