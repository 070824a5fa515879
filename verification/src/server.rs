//! The relay server's rooms: who is in which group, and to whom a text that a connection
//! sends is relayed. Connections are numbered; the server's socket plumbing hands each text
//! and each close to these functions and sends what they decide.
use vstd::prelude::*;
use crate::text::{split_nonempty, split_nonempty_spec, str_equal, views};

verus! {

/// A group as a mathematical value: its name and the connections in it.
pub struct RoomView {
    pub name: Seq<char>,
    pub members: Seq<u64>,
}

/// A group and the connections in it.
pub struct Room {
    pub name: String,
    pub members: Vec<u64>,
}

impl View for Room {
    type V = RoomView;

    open spec fn view(&self) -> RoomView {
        RoomView { name: self.name@, members: self.members@ }
    }
}

/// The groups of the server.
pub struct ChatState {
    rooms: Vec<Room>,
}

/// No two groups share a name; every group has members, none of them twice; and a
/// connection is in one group at most.
pub open spec fn rooms_wf(rooms: Seq<RoomView>) -> bool {
    &&& forall|i: int, j: int| 0 <= i < j < rooms.len() ==> (#[trigger] rooms[i]).name != (#[trigger] rooms[j]).name
    &&& forall|i: int|
        0 <= i < rooms.len() ==> (#[trigger] rooms[i]).members.no_duplicates() && rooms[i].members.len() > 0
    &&& forall|i: int, j: int, x: u64|
        #![trigger rooms[i].members.contains(x), rooms[j].members.contains(x)]
        0 <= i < rooms.len() && 0 <= j < rooms.len() && i != j && rooms[i].members.contains(x)
            ==> !rooms[j].members.contains(x)
}

/// The index of the group named `g`, if any.
pub open spec fn room_named(rooms: Seq<RoomView>, g: Seq<char>) -> Option<int> {
    if exists|i: int| 0 <= i < rooms.len() && (#[trigger] rooms[i]).name == g {
        Some(choose|i: int| 0 <= i < rooms.len() && (#[trigger] rooms[i]).name == g)
    } else {
        None
    }
}

/// The index of the first group that holds the connection `c`, if any.
pub open spec fn first_room_with(rooms: Seq<RoomView>, c: u64) -> Option<int>
    decreases rooms.len(),
{
    if rooms.len() == 0 {
        None
    } else if rooms[0].members.contains(c) {
        Some(0)
    } else {
        match first_room_with(rooms.drop_first(), c) {
            Some(i) => Some(i + 1),
            None => None,
        }
    }
}

proof fn lemma_first_room_with(rooms: Seq<RoomView>, c: u64, i: int)
    requires
        0 <= i <= rooms.len(),
        forall|j: int| 0 <= j < i ==> !(#[trigger] rooms[j]).members.contains(c),
    ensures
        i < rooms.len() && rooms[i].members.contains(c) ==> first_room_with(rooms, c) == Some(i),
        i == rooms.len() ==> first_room_with(rooms, c) is None,
    decreases i,
{
    if i > 0 {
        let rest = rooms.drop_first();
        assert forall|j: int| 0 <= j < i - 1 implies !(#[trigger] rest[j]).members.contains(c) by {
            assert(rest[j] == rooms[j + 1]);
        }
        lemma_first_room_with(rest, c, i - 1);
        if i < rooms.len() {
            assert(rest[i - 1] == rooms[i]);
        }
    }
}

proof fn lemma_first_room_with_found(rooms: Seq<RoomView>, c: u64)
    ensures
        first_room_with(rooms, c) matches Some(i) ==> 0 <= i < rooms.len() && rooms[i].members.contains(c),
    decreases rooms.len(),
{
    if rooms.len() > 0 {
        lemma_first_room_with_found(rooms.drop_first(), c);
    }
}

proof fn lemma_first_room_with_none(rooms: Seq<RoomView>, c: u64)
    ensures
        first_room_with(rooms, c) is None ==> forall|k: int| 0 <= k < rooms.len() ==> !(#[trigger] rooms[k]).members.contains(c),
    decreases rooms.len(),
{
    if rooms.len() > 0 {
        let rest = rooms.drop_first();
        lemma_first_room_with_none(rest, c);
        if first_room_with(rooms, c) is None {
            assert forall|k: int| 0 <= k < rooms.len() implies !(#[trigger] rooms[k]).members.contains(c) by {
                if k > 0 {
                    assert(rooms[k] == rest[k - 1]);
                }
            }
        }
    }
}

/// In well-formed groups, the group that holds a connection is the first one that does.
proof fn lemma_room_with(rooms: Seq<RoomView>, c: u64, k: int)
    requires
        rooms_wf(rooms),
        0 <= k < rooms.len(),
        rooms[k].members.contains(c),
    ensures
        first_room_with(rooms, c) == Some(k),
{
    assert forall|j: int| 0 <= j < k implies !(#[trigger] rooms[j]).members.contains(c) by {
        if rooms[j].members.contains(c) {
            assert(!rooms[k].members.contains(c));
        }
    }
    lemma_first_room_with(rooms, c, k);
}

proof fn lemma_room_named_found(rooms: Seq<RoomView>, g: Seq<char>)
    ensures
        room_named(rooms, g) matches Some(i) ==> 0 <= i < rooms.len() && rooms[i].name == g,
{
    if exists|i: int| 0 <= i < rooms.len() && (#[trigger] rooms[i]).name == g {
        let i = choose|i: int| 0 <= i < rooms.len() && (#[trigger] rooms[i]).name == g;
        assert(room_named(rooms, g) == Some(i));
    }
}

/// In groups with distinct names, the group named `g` is the one that has that name.
proof fn lemma_room_named(rooms: Seq<RoomView>, g: Seq<char>, k: int)
    requires
        rooms_wf(rooms),
        0 <= k < rooms.len(),
        rooms[k].name == g,
    ensures
        room_named(rooms, g) == Some(k),
{
    let i = choose|i: int| 0 <= i < rooms.len() && (#[trigger] rooms[i]).name == g;
    assert(i == k) by {
        if i < k {
            assert(rooms[i].name != rooms[k].name);
        } else if k < i {
            assert(rooms[k].name != rooms[i].name);
        }
    }
}

/// The groups once `c` is added to the group `g`: the group is made if it does not exist.
pub open spec fn added(rooms: Seq<RoomView>, g: Seq<char>, c: u64) -> Seq<RoomView> {
    match room_named(rooms, g) {
        Some(i) => rooms.update(i, RoomView { name: g, members: rooms[i].members.push(c) }),
        None => rooms.push(RoomView { name: g, members: seq![c] }),
    }
}

/// The groups once the connection `c` joins the group `g`: nothing changes if `c` is in it
/// already; else `c` leaves the group it was in (which is dropped if `c` was alone in it) and
/// is added to `g`, which is made if it does not exist. Joining changes the room.
pub open spec fn joined(rooms: Seq<RoomView>, g: Seq<char>, c: u64) -> Seq<RoomView> {
    match room_named(rooms, g) {
        Some(i) => if rooms[i].members.contains(c) {
            rooms
        } else {
            added(left(rooms, c), g, c)
        },
        None => added(left(rooms, c), g, c),
    }
}

/// `s` without the value `c`.
pub open spec fn drop_value(s: Seq<u64>, c: u64) -> Seq<u64>
    decreases s.len(),
{
    if s.len() == 0 {
        s
    } else if s.last() == c {
        drop_value(s.drop_last(), c)
    } else {
        drop_value(s.drop_last(), c).push(s.last())
    }
}

proof fn lemma_drop_value(s: Seq<u64>, c: u64)
    ensures
        forall|x: u64| #[trigger] drop_value(s, c).contains(x) <==> s.contains(x) && x != c,
        s.no_duplicates() ==> drop_value(s, c).no_duplicates(),
    decreases s.len(),
{
    if s.len() > 0 {
        let init = s.drop_last();
        lemma_drop_value(init, c);
        assert forall|x: u64| s.contains(x) <==> init.contains(x) || x == s.last() by {
            if s.contains(x) {
                let k = choose|k: int| 0 <= k < s.len() && s[k] == x;
                if k < s.len() - 1 {
                    assert(init[k] == x);
                }
            }
            if init.contains(x) {
                let k = choose|k: int| 0 <= k < init.len() && init[k] == x;
                assert(s[k] == x);
            }
            if x == s.last() {
                assert(s[s.len() - 1] == x);
            }
        }
        let r = drop_value(init, c);
        if s.last() != c {
            assert forall|x: u64| #[trigger] r.push(s.last()).contains(x) <==> r.contains(x) || x == s.last() by {
                if r.push(s.last()).contains(x) {
                    let k = choose|k: int| 0 <= k < r.len() + 1 && r.push(s.last())[k] == x;
                    if k < r.len() {
                        assert(r[k] == x);
                    }
                }
                if r.contains(x) {
                    let k = choose|k: int| 0 <= k < r.len() && r[k] == x;
                    assert(r.push(s.last())[k] == x);
                }
                if x == s.last() {
                    assert(r.push(s.last())[r.len() as int] == x);
                }
            }
            if s.no_duplicates() {
                assert(init.no_duplicates());
                assert(!init.contains(s.last())) by {
                    if init.contains(s.last()) {
                        let k = choose|k: int| 0 <= k < init.len() && init[k] == s.last();
                        assert(s[k] == s[s.len() - 1]);
                    }
                }
                assert(!r.contains(s.last()));
                assert forall|a: int, b: int| 0 <= a < b < r.push(s.last()).len() implies r.push(s.last())[a]
                    != r.push(s.last())[b] by {
                    if b == r.len() {
                        assert(r.contains(r[a]));
                    }
                }
            }
        } else {
            if s.no_duplicates() {
                assert(init.no_duplicates());
            }
        }
    }
}

/// The groups once the connection `c` closes: it leaves the group that holds it (the first,
/// where several would), and a group it was alone in is dropped.
pub open spec fn left(rooms: Seq<RoomView>, c: u64) -> Seq<RoomView> {
    match first_room_with(rooms, c) {
        Some(i) => if rooms[i].members.len() > 1 {
            rooms.update(i, RoomView { members: drop_value(rooms[i].members, c), ..rooms[i] })
        } else {
            rooms.remove(i)
        },
        None => rooms,
    }
}

/// The connections that a text from `c` is relayed to: the members of the group that holds
/// `c` (the first, where several would), none if no group does.
pub open spec fn relayed_to(rooms: Seq<RoomView>, c: u64) -> Seq<u64> {
    match first_room_with(rooms, c) {
        Some(i) => rooms[i].members,
        None => Seq::empty(),
    }
}

/// The group that a join text names: the first piece of its body, split at `&`.
pub open spec fn join_group(segments: Seq<Seq<char>>) -> Seq<char> {
    split_nonempty_spec(segments[2], '&')[0]
}

/// Whether the server reads the text without failing: a text that is not empty has a label,
/// and a join text a body that names a group.
pub open spec fn text_ok(text: Seq<char>) -> bool {
    let seg = split_nonempty_spec(text, '*');
    text.len() > 0 ==> {
        &&& seg.len() >= 2
        &&& seg[1] == "j"@ ==> seg.len() >= 3 && split_nonempty_spec(seg[2], '&').len() >= 1
    }
}

/// The groups once the text `text` from `c` is read: a join text joins its group.
pub open spec fn after_text(rooms: Seq<RoomView>, c: u64, text: Seq<char>) -> Seq<RoomView> {
    let seg = split_nonempty_spec(text, '*');
    if text.len() > 0 && seg[1] == "j"@ {
        joined(rooms, join_group(seg), c)
    } else {
        rooms
    }
}

impl View for ChatState {
    type V = Seq<RoomView>;

    closed spec fn view(&self) -> Seq<RoomView> {
        Seq::new(self.rooms@.len(), |i: int| self.rooms@[i]@)
    }
}

fn members_contain(members: &Vec<u64>, c: u64) -> (r: bool)
    ensures
        r == members@.contains(c),
{
    let mut i: usize = 0;
    while i < members.len()
        invariant
            i <= members@.len(),
            forall|j: int| 0 <= j < i ==> members@[j] != c,
        decreases members@.len() - i,
    {
        if members[i] == c {
            assert(members@[i as int] == c);
            return true;
        }
        i = i + 1;
    }
    false
}

fn copy_members(members: &Vec<u64>) -> (res: Vec<u64>)
    ensures
        res@ == members@,
{
    let mut out: Vec<u64> = Vec::new();
    let mut i: usize = 0;
    while i < members.len()
        invariant
            i <= members@.len(),
            out@ == members@.take(i as int),
        decreases members@.len() - i,
    {
        out.push(members[i]);
        assert(out@ =~= members@.take(i + 1));
        i = i + 1;
    }
    assert(members@.take(members@.len() as int) =~= members@);
    out
}

impl ChatState {
    /// No groups yet.
    pub fn new() -> (res: ChatState)
        ensures
            res@ == Seq::<RoomView>::empty(),
    {
        let res = ChatState { rooms: Vec::new() };
        assert(res@ =~= Seq::<RoomView>::empty());
        res
    }

    fn find_room(&self, g: &str) -> (res: Option<usize>)
        requires
            rooms_wf(self@),
        ensures
            match res {
                Some(i) => room_named(self@, g@) == Some(i as int),
                None => room_named(self@, g@) is None,
            },
    {
        let mut i: usize = 0;
        while i < self.rooms.len()
            invariant
                i <= self.rooms@.len(),
                rooms_wf(self@),
                forall|j: int| 0 <= j < i ==> (#[trigger] self@[j]).name != g@,
            decreases self.rooms@.len() - i,
        {
            if str_equal(self.rooms[i].name.as_str(), g) {
                assert(self@[i as int].name == g@);
                let ghost k = choose|k: int| 0 <= k < self@.len() && (#[trigger] self@[k]).name == g@;
                assert(k == i) by {
                    if k != i {
                        if k < i {
                            assert(self@[k].name != self@[i as int].name);
                        } else {
                            assert(self@[i as int].name != self@[k].name);
                        }
                    }
                }
                return Some(i);
            }
            i = i + 1;
        }
        None
    }

    /// Adds the connection `c`, which is in no group, to the group `g`, made if it does not
    /// exist.
    fn add_member(&mut self, g: &str, c: u64)
        requires
            rooms_wf(old(self)@),
            forall|k: int| 0 <= k < old(self)@.len() ==> !(#[trigger] old(self)@[k]).members.contains(c),
        ensures
            final(self)@ == added(old(self)@, g@, c),
    {
        let ghost before = self@;
        match self.find_room(g) {
            Some(i) => {
                let mut members = copy_members(&self.rooms[i].members);
                members.push(c);
                let name = self.rooms[i].name.clone();
                proof {
                    lemma_room_named_found(before, g@);
                }
                let room = Room { name, members };
                self.rooms.set(i, room);
                assert(self@ =~= before.update(i as int, RoomView { name: g@, members: before[i as int].members.push(c) }));
            },
            None => {
                let mut members: Vec<u64> = Vec::new();
                members.push(c);
                let room = Room { name: crate::codec::to_owned_string(g), members };
                self.rooms.push(room);
                assert(room@.members =~= seq![c]);
                assert(self@ =~= before.push(RoomView { name: g@, members: seq![c] }));
            },
        }
    }

    /// The connection `c` joins the group `g`: it leaves the group it was in, unless that is
    /// `g`, and `g` is made if it does not exist.
    pub fn join(&mut self, g: &str, c: u64)
        requires
            rooms_wf(old(self)@),
        ensures
            rooms_wf(final(self)@),
            final(self)@ == joined(old(self)@, g@, c),
    {
        let ghost before = self@;
        proof {
            lemma_rooms_stay_wf(before, g@, c);
            lemma_room_named_found(before, g@);
        }
        if let Some(i) = self.find_room(g) {
            if members_contain(&self.rooms[i].members, c) {
                return;
            }
        }
        self.leave(c);
        proof {
            lemma_left(before, c);
        }
        self.add_member(g, c);
    }

    fn first_with(&self, c: u64) -> (res: Option<usize>)
        ensures
            match res {
                Some(i) => first_room_with(self@, c) == Some(i as int) && i < self@.len(),
                None => first_room_with(self@, c) is None,
            },
    {
        let mut i: usize = 0;
        while i < self.rooms.len()
            invariant
                i <= self.rooms@.len(),
                forall|j: int| 0 <= j < i ==> !(#[trigger] self@[j]).members.contains(c),
            decreases self.rooms@.len() - i,
        {
            if members_contain(&self.rooms[i].members, c) {
                proof {
                    lemma_first_room_with(self@, c, i as int);
                }
                return Some(i);
            }
            i = i + 1;
        }
        proof {
            lemma_first_room_with(self@, c, i as int);
        }
        None
    }

    /// The connections that a text from `c` is relayed to.
    pub fn recipients(&self, c: u64) -> (res: Vec<u64>)
        ensures
            res@ == relayed_to(self@, c),
    {
        match self.first_with(c) {
            Some(i) => copy_members(&self.rooms[i].members),
            None => Vec::new(),
        }
    }

    /// The connection `c` closes: it leaves the group that holds it, and a group it was alone
    /// in is dropped.
    pub fn leave(&mut self, c: u64)
        requires
            rooms_wf(old(self)@),
        ensures
            rooms_wf(final(self)@),
            final(self)@ == left(old(self)@, c),
    {
        let ghost before = self@;
        match self.first_with(c) {
            Some(i) => {
                proof {
                    lemma_first_room_with_found(before, c);
                }
                if self.rooms[i].members.len() > 1 {
                    let old_members = copy_members(&self.rooms[i].members);
                    let mut members: Vec<u64> = Vec::new();
                    let mut k: usize = 0;
                    while k < old_members.len()
                        invariant
                            k <= old_members@.len(),
                            members@ == drop_value(old_members@.take(k as int), c),
                        decreases old_members@.len() - k,
                    {
                        assert(old_members@.take(k + 1).drop_last() =~= old_members@.take(k as int));
                        if old_members[k] != c {
                            members.push(old_members[k]);
                        }
                        k = k + 1;
                    }
                    assert(old_members@.take(old_members@.len() as int) =~= old_members@);
                    let name = self.rooms[i].name.clone();
                    let room = Room { name, members };
                    self.rooms.set(i, room);
                    assert(self@ =~= before.update(i as int, room@));
                    assert(room@.members.no_duplicates()) by {
                        lemma_drop_value(before[i as int].members, c);
                    }
                    assert forall|a: int, b: int| 0 <= a < b < self@.len() implies (#[trigger] self@[a]).name
                        != (#[trigger] self@[b]).name by {
                        assert(before[a].name != before[b].name);
                    }
                    assert forall|a: int| 0 <= a < self@.len() implies (#[trigger] self@[a]).members.no_duplicates() by {
                        if a != i {
                            assert(self@[a] == before[a]);
                        }
                    }
                } else {
                    self.rooms.remove(i);
                    assert(self@ =~= before.remove(i as int));
                    assert forall|a: int, b: int| 0 <= a < b < self@.len() implies (#[trigger] self@[a]).name
                        != (#[trigger] self@[b]).name by {
                        let a0 = if a < i { a } else { a + 1 };
                        let b0 = if b < i { b } else { b + 1 };
                        assert(self@[a] == before[a0]);
                        assert(self@[b] == before[b0]);
                        assert(before[a0].name != before[b0].name);
                    }
                    assert forall|a: int| 0 <= a < self@.len() implies (#[trigger] self@[a]).members.no_duplicates() by {
                        let a0 = if a < i { a } else { a + 1 };
                        assert(self@[a] == before[a0]);
                    }
                }
            },
            None => {},
        }
        proof {
            lemma_left(before, c);
        }
    }

    /// Reads the text `text` from the connection `c`: a join text joins its group. Returns
    /// `None` for an empty text, which is not relayed; else the connections it is relayed
    /// to (the sender also gets it back on its own connection).
    pub fn on_text(&mut self, c: u64, text: &str) -> (res: Option<Vec<u64>>)
        requires
            rooms_wf(old(self)@),
            text_ok(text@),
        ensures
            rooms_wf(final(self)@),
            final(self)@ == after_text(old(self)@, c, text@),
            text@.len() == 0 ==> res is None,
            text@.len() > 0 ==> (res matches Some(r) && r@ == relayed_to(final(self)@, c)),
    {
        if text.unicode_len() == 0 {
            return None;
        }
        proof {
            reveal_strlit("j");
        }
        let segments = split_nonempty(text, '*');
        let ghost seg = views(segments@);
        assert(segments@[1]@ == seg[1]);
        if str_equal(segments[1], "j") {
            assert(segments@[2]@ == seg[2]);
            let sub_segments = split_nonempty(segments[2], '&');
            assert(sub_segments@[0]@ == split_nonempty_spec(seg[2], '&')[0]);
            self.join(sub_segments[0], c);
        }
        Some(self.recipients(c))
    }

    /// Whether `on_text` reads `text` without failing.
    pub fn accepts(text: &str) -> (r: bool)
        ensures
            r == text_ok(text@),
    {
        if text.unicode_len() == 0 {
            return true;
        }
        let segments = split_nonempty(text, '*');
        let ghost seg = views(segments@);
        if segments.len() < 2 {
            return false;
        }
        assert(segments@[1]@ == seg[1]);
        if str_equal(segments[1], "j") {
            if segments.len() < 3 {
                return false;
            }
            assert(segments@[2]@ == seg[2]);
            let sub_segments = split_nonempty(segments[2], '&');
            return sub_segments.len() >= 1;
        }
        true
    }
}

/// A connection that closes is in no group after, and the groups stay well formed.
proof fn lemma_left(rooms: Seq<RoomView>, c: u64)
    requires
        rooms_wf(rooms),
    ensures
        rooms_wf(left(rooms, c)),
        forall|k: int| 0 <= k < left(rooms, c).len() ==> !(#[trigger] left(rooms, c)[k]).members.contains(c),
{
    let l = left(rooms, c);
    lemma_first_room_with_found(rooms, c);
    lemma_first_room_with_none(rooms, c);
    match first_room_with(rooms, c) {
        Some(i) => {
            let ms = rooms[i].members;
            if ms.len() > 1 {
                let d = drop_value(ms, c);
                lemma_drop_value(ms, c);
                assert(d.len() > 0) by {
                    assert(ms[0] != ms[1]);
                    if ms[0] != c {
                        assert(ms.contains(ms[0]));
                        assert(d.contains(ms[0]));
                    } else {
                        assert(ms.contains(ms[1]));
                        assert(d.contains(ms[1]));
                    }
                }
                assert forall|a: int, b: int| 0 <= a < b < l.len() implies (#[trigger] l[a]).name != (#[trigger] l[b]).name by {
                    assert(rooms[a].name != rooms[b].name);
                }
                assert forall|a: int| 0 <= a < l.len() implies (#[trigger] l[a]).members.no_duplicates() && l[a].members.len() > 0 by {
                    assert(rooms[a].members.no_duplicates() && rooms[a].members.len() > 0);
                }
                assert forall|a: int, b: int, x: u64|
                    #![trigger l[a].members.contains(x), l[b].members.contains(x)]
                    0 <= a < l.len() && 0 <= b < l.len() && a != b && l[a].members.contains(x) implies !l[b].members.contains(x) by {
                    assert(l[a].members.contains(x) ==> rooms[a].members.contains(x));
                    assert(l[b].members.contains(x) ==> rooms[b].members.contains(x));
                    if rooms[a].members.contains(x) {
                        assert(!rooms[b].members.contains(x));
                    }
                }
                assert forall|k: int| 0 <= k < l.len() implies !(#[trigger] l[k]).members.contains(c) by {
                    if k != i {
                        if rooms[k].members.contains(c) {
                            assert(!rooms[i].members.contains(c));
                        }
                    }
                }
            } else {
                assert forall|a: int, b: int| 0 <= a < b < l.len() implies (#[trigger] l[a]).name != (#[trigger] l[b]).name by {
                    let a0 = if a < i { a } else { a + 1 };
                    let b0 = if b < i { b } else { b + 1 };
                    assert(l[a] == rooms[a0]);
                    assert(l[b] == rooms[b0]);
                    assert(rooms[a0].name != rooms[b0].name);
                }
                assert forall|a: int| 0 <= a < l.len() implies (#[trigger] l[a]).members.no_duplicates() && l[a].members.len() > 0 by {
                    let a0 = if a < i { a } else { a + 1 };
                    assert(l[a] == rooms[a0]);
                    assert(rooms[a0].members.no_duplicates() && rooms[a0].members.len() > 0);
                }
                assert forall|a: int, b: int, x: u64|
                    #![trigger l[a].members.contains(x), l[b].members.contains(x)]
                    0 <= a < l.len() && 0 <= b < l.len() && a != b && l[a].members.contains(x) implies !l[b].members.contains(x) by {
                    let a0 = if a < i { a } else { a + 1 };
                    let b0 = if b < i { b } else { b + 1 };
                    assert(l[a] == rooms[a0]);
                    assert(l[b] == rooms[b0]);
                    assert(rooms[a0].members.contains(x));
                    assert(!rooms[b0].members.contains(x));
                }
                assert forall|k: int| 0 <= k < l.len() implies !(#[trigger] l[k]).members.contains(c) by {
                    let k0 = if k < i { k } else { k + 1 };
                    assert(l[k] == rooms[k0]);
                    if rooms[k0].members.contains(c) {
                        assert(!rooms[i].members.contains(c));
                    }
                }
            }
        },
        None => {},
    }
}

/// Adding to `g` a connection that is in no group keeps the groups well formed, and puts the
/// connection in the group `g` and in no other.
proof fn lemma_added(rooms: Seq<RoomView>, g: Seq<char>, c: u64)
    requires
        rooms_wf(rooms),
        forall|k: int| 0 <= k < rooms.len() ==> !(#[trigger] rooms[k]).members.contains(c),
    ensures
        rooms_wf(added(rooms, g, c)),
        room_named(added(rooms, g, c), g) matches Some(i) && 0 <= i < added(rooms, g, c).len()
            && added(rooms, g, c)[i].members.contains(c) && forall|k: int|
            0 <= k < added(rooms, g, c).len() && k != i ==> !(#[trigger] added(rooms, g, c)[k]).members.contains(c),
{
    let r = added(rooms, g, c);
    match room_named(rooms, g) {
        Some(i) => {
            assert(0 <= i < rooms.len() && rooms[i].name == g);
            let ms = rooms[i].members;
            assert(r[i].members == ms.push(c));
            assert(ms.push(c)[ms.len() as int] == c);
            assert forall|a: int, b: int| 0 <= a < b < r.len() implies (#[trigger] r[a]).name != (#[trigger] r[b]).name by {
                assert(rooms[a].name != rooms[b].name);
            }
            assert forall|a: int| 0 <= a < r.len() implies (#[trigger] r[a]).members.no_duplicates() && r[a].members.len() > 0 by {
                assert(rooms[a].members.no_duplicates() && rooms[a].members.len() > 0);
                if a == i {
                    assert(!ms.contains(c));
                    assert forall|p: int, q: int| 0 <= p < q < ms.push(c).len() implies ms.push(c)[p] != ms.push(c)[q] by {
                        if q == ms.len() {
                            assert(ms.contains(ms[p]));
                        }
                    }
                }
            }
            assert forall|a: int, x: u64| 0 <= a < r.len() implies #[trigger] r[a].members.contains(x) == (rooms[a].members.contains(x)
                || (a == i && x == c)) by {
                if a == i {
                    if ms.push(c).contains(x) {
                        let p = choose|p: int| 0 <= p < ms.push(c).len() && ms.push(c)[p] == x;
                        if p < ms.len() {
                            assert(ms[p] == x);
                        }
                    }
                    if ms.contains(x) {
                        let p = choose|p: int| 0 <= p < ms.len() && ms[p] == x;
                        assert(ms.push(c)[p] == x);
                    }
                }
            }
            assert forall|a: int, b: int, x: u64|
                #![trigger r[a].members.contains(x), r[b].members.contains(x)]
                0 <= a < r.len() && 0 <= b < r.len() && a != b && r[a].members.contains(x) implies !r[b].members.contains(x) by {
                if rooms[a].members.contains(x) {
                    assert(!rooms[b].members.contains(x));
                }
            }
            lemma_room_named(r, g, i);
        },
        None => {
            assert forall|k: int| 0 <= k < rooms.len() implies (#[trigger] rooms[k]).name != g by {
                if rooms[k].name == g {
                    assert(exists|i: int| 0 <= i < rooms.len() && (#[trigger] rooms[i]).name == g);
                }
            }
            let n = rooms.len() as int;
            assert(r[n].members =~= seq![c]);
            assert(r[n].members.contains(c)) by {
                assert(r[n].members[0] == c);
            }
            assert forall|a: int, b: int| 0 <= a < b < r.len() implies (#[trigger] r[a]).name != (#[trigger] r[b]).name by {
                if b < n {
                    assert(rooms[a].name != rooms[b].name);
                } else {
                    assert(r[a] == rooms[a]);
                }
            }
            assert forall|a: int| 0 <= a < r.len() implies (#[trigger] r[a]).members.no_duplicates() && r[a].members.len() > 0 by {
                if a < n {
                    assert(r[a] == rooms[a]);
                }
            }
            assert forall|a: int, x: u64| 0 <= a < r.len() implies #[trigger] r[a].members.contains(x) == (if a < n {
                rooms[a].members.contains(x)
            } else {
                x == c
            }) by {
                if a < n {
                    assert(r[a] == rooms[a]);
                } else if r[a].members.contains(x) {
                    let p = choose|p: int| 0 <= p < r[a].members.len() && r[a].members[p] == x;
                    assert(p == 0);
                }
            }
            assert forall|a: int, b: int, x: u64|
                #![trigger r[a].members.contains(x), r[b].members.contains(x)]
                0 <= a < r.len() && 0 <= b < r.len() && a != b && r[a].members.contains(x) implies !r[b].members.contains(x) by {
                if a < n && b < n {
                    assert(!rooms[b].members.contains(x));
                }
            }
            lemma_room_named(r, g, n);
        },
    }
}

/// The server's rooms stay well formed, whatever joins and closes come: no two groups share a
/// name, every group has members and none twice, and a connection is in one group at most.
pub proof fn lemma_rooms_stay_wf(rooms: Seq<RoomView>, g: Seq<char>, c: u64)
    requires
        rooms_wf(rooms),
    ensures
        rooms_wf(joined(rooms, g, c)),
        rooms_wf(left(rooms, c)),
{
    lemma_left(rooms, c);
    lemma_added(left(rooms, c), g, c);
}

/// Joining changes the room: once the connection `c` joins the group `g`, it is in `g` and in
/// no other group, and what it sends goes to the members of `g`.
pub proof fn lemma_join_changes_room(rooms: Seq<RoomView>, g: Seq<char>, c: u64)
    requires
        rooms_wf(rooms),
    ensures
        room_named(joined(rooms, g, c), g) matches Some(i) && 0 <= i < joined(rooms, g, c).len()
            && joined(rooms, g, c)[i].members.contains(c)
            && (forall|k: int| 0 <= k < joined(rooms, g, c).len() && k != i ==> !(#[trigger] joined(rooms, g, c)[k]).members.contains(c))
            && relayed_to(joined(rooms, g, c), c) == joined(rooms, g, c)[i].members,
{
    lemma_rooms_stay_wf(rooms, g, c);
    lemma_left(rooms, c);
    lemma_room_named_found(rooms, g);
    let j = joined(rooms, g, c);
    match room_named(rooms, g) {
        Some(i) => {
            if rooms[i].members.contains(c) {
                assert(0 <= i < rooms.len() && rooms[i].name == g);
                assert forall|k: int| 0 <= k < j.len() && k != i implies !(#[trigger] j[k]).members.contains(c) by {
                    assert(!rooms[k].members.contains(c));
                }
                lemma_room_with(rooms, c, i);
            } else {
                lemma_added(left(rooms, c), g, c);
            }
        },
        None => {
            lemma_added(left(rooms, c), g, c);
        },
    }
    let i = room_named(j, g).unwrap();
    lemma_room_with(j, c, i);
}

/// How long a connection may stay silent before the server drops it, in milliseconds.
pub const CLIENT_TIMEOUT_MS: i64 = 10_000;

/// Whether a connection whose last heartbeat came at `last_beat_ms` has timed out at
/// `now_ms`: more than the timeout has passed since (a heartbeat from the future counts as
/// none passed).
pub fn timed_out(last_beat_ms: i64, now_ms: i64) -> (r: bool)
    ensures
        r == (now_ms - last_beat_ms > CLIENT_TIMEOUT_MS),
{
    (now_ms as i128) - (last_beat_ms as i128) > (CLIENT_TIMEOUT_MS as i128)
}

/// What a close does to the groups: the connection `c` is in no group after; the group that
/// held it stays, without `c`, exactly when it had another member; every other group is
/// unchanged, and a connection in no group changes nothing.
pub proof fn lemma_close_leaves_group(rooms: Seq<RoomView>, c: u64)
    requires
        rooms_wf(rooms),
    ensures
        rooms_wf(left(rooms, c)),
        forall|k: int| 0 <= k < left(rooms, c).len() ==> !(#[trigger] left(rooms, c)[k]).members.contains(c),
        (forall|k: int| 0 <= k < rooms.len() ==> !(#[trigger] rooms[k]).members.contains(c)) ==> left(rooms, c)
            == rooms,
        forall|i: int|
            0 <= i < rooms.len() && #[trigger] rooms[i].members.contains(c) ==> {
                &&& (rooms[i].members.len() > 1 <==> room_named(left(rooms, c), rooms[i].name) is Some)
                &&& forall|k: int|
                    0 <= k < rooms.len() && k != i ==> (room_named(left(rooms, c), #[trigger] rooms[k].name)
                        matches Some(m) && left(rooms, c)[m] == rooms[k])
            },
{
    lemma_left(rooms, c);
    lemma_first_room_with_found(rooms, c);
    lemma_first_room_with_none(rooms, c);
    let l = left(rooms, c);
    if forall|k: int| 0 <= k < rooms.len() ==> !(#[trigger] rooms[k]).members.contains(c) {
        if let Some(i) = first_room_with(rooms, c) {
            assert(rooms[i].members.contains(c));
        }
    }
    assert forall|i: int| 0 <= i < rooms.len() && #[trigger] rooms[i].members.contains(c) implies {
        &&& (rooms[i].members.len() > 1 <==> room_named(l, rooms[i].name) is Some)
        &&& forall|k: int|
            0 <= k < rooms.len() && k != i ==> (room_named(l, #[trigger] rooms[k].name) matches Some(m) && l[m]
                == rooms[k])
    } by {
        lemma_room_with(rooms, c, i);
        if rooms[i].members.len() > 1 {
            lemma_room_named(l, rooms[i].name, i);
            assert forall|k: int| 0 <= k < rooms.len() && k != i implies room_named(l, #[trigger] rooms[k].name)
                matches Some(m) && l[m] == rooms[k] by {
                lemma_room_named(l, rooms[k].name, k);
            }
        } else {
            lemma_room_named_found(l, rooms[i].name);
            if let Some(m) = room_named(l, rooms[i].name) {
                let m0 = if m < i { m } else { m + 1 };
                assert(l[m] == rooms[m0]);
                assert(rooms[m0].name != rooms[i].name) by {
                    if m0 < i {
                        assert(rooms[m0].name != rooms[i].name);
                    } else {
                        assert(rooms[i].name != rooms[m0].name);
                    }
                }
            }
            assert forall|k: int| 0 <= k < rooms.len() && k != i implies room_named(l, #[trigger] rooms[k].name)
                matches Some(m) && l[m] == rooms[k] by {
                let k1 = if k < i { k } else { k - 1 };
                assert(l[k1] == rooms[k]);
                lemma_room_named(l, rooms[k].name, k1);
            }
        }
    }
}

} // verus!
