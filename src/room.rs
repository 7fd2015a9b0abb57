//! The room: the single authority on membership, and the only broadcaster.

use vstd::prelude::*;
use crate::member::{Identity, Member, offered_once};

verus! {

/// The identities of `s`, in order.
pub open spec fn ids_of(s: Seq<Member>) -> Seq<Identity> {
    s.map_values(|m: Member| m.id)
}

/// The membership that the members `s` stand for: each identity to its member.
pub open spec fn member_map(s: Seq<Member>) -> Map<Identity, Member> {
    Map::new(
        |k: Identity| exists|j: int| 0 <= j < s.len() && s[j].id == k,
        |k: Identity| s[choose|j: int| 0 <= j < s.len() && s[j].id == k],
    )
}

/// With unique identities, each member is what the map holds under its identity.
proof fn lemma_member_map(s: Seq<Member>)
    requires
        ids_of(s).no_duplicates(),
    ensures
        forall|j: int|
            0 <= j < s.len() ==> #[trigger] member_map(s).contains_key(s[j].id) && member_map(
                s,
            )[s[j].id] == s[j],
        forall|k: Identity|
            #[trigger] member_map(s).contains_key(k) ==> exists|j: int|
                0 <= j < s.len() && s[j].id == k,
        member_map(s).dom() == ids_of(s).to_set(),
        member_map(s).dom().finite(),
{
    assert forall|k: Identity| #[trigger] member_map(s).contains_key(k)
        <==> ids_of(s).to_set().contains(k) by {
        if member_map(s).contains_key(k) {
            let j = choose|j: int| 0 <= j < s.len() && s[j].id == k;
            assert(ids_of(s)[j] == k);
        }
        if ids_of(s).contains(k) {
            let j = choose|j: int| 0 <= j < s.len() && ids_of(s)[j] == k;
            assert(s[j].id == k);
        }
    }
    assert(member_map(s).dom() =~= ids_of(s).to_set());
    vstd::seq_lib::seq_to_set_is_finite(ids_of(s));
    assert forall|j: int| 0 <= j < s.len() implies #[trigger] member_map(s).contains_key(s[j].id)
        && member_map(s)[s[j].id] == s[j] by {
        let k = s[j].id;
        assert(member_map(s).contains_key(k));
        let c = choose|c: int| 0 <= c < s.len() && s[c].id == k;
        assert(ids_of(s)[c] == ids_of(s)[j]);
    }
}

/// One request to the room. The room applies requests one at a time, in the
/// order it receives them.
pub enum Request {
    Join(Member),
    Leave(Identity),
    Broadcast(Identity, String),
}

/// The membership after `req`, given the membership `s` before it.
pub open spec fn membership_after(s: Set<Identity>, req: Request) -> Set<Identity> {
    match req {
        Request::Join(m) => s.insert(m.id),
        Request::Leave(id) => s.remove(id),
        Request::Broadcast(_, _) => s,
    }
}

/// The membership after the requests `reqs`, applied in order from `s`.
pub open spec fn replay(s: Set<Identity>, reqs: Seq<Request>) -> Set<Identity>
    decreases reqs.len(),
{
    if reqs.len() == 0 {
        s
    } else {
        membership_after(replay(s, reqs.drop_last()), reqs.last())
    }
}

/// The identities with a join in `reqs` that no later leave of theirs follows.
pub open spec fn joined_last(reqs: Seq<Request>) -> Set<Identity> {
    Set::new(
        |k: Identity|
            exists|i: int|
                0 <= i < reqs.len() && (#[trigger] reqs[i] matches Request::Join(m) && m.id == k)
                    && forall|j: int|
                    i < j < reqs.len() ==> !(#[trigger] reqs[j] matches Request::Leave(x) && x == k),
    )
}

/// From an empty room, any order of requests leaves exactly the identities
/// whose last join came after their last leave (or that never left).
pub proof fn lemma_join_leave_consistency(reqs: Seq<Request>)
    ensures
        replay(Set::empty(), reqs) == joined_last(reqs),
    decreases reqs.len(),
{
    if reqs.len() > 0 {
        let pre = reqs.drop_last();
        lemma_join_leave_consistency(pre);
        let n = reqs.len() - 1;
        assert forall|k: Identity| #[trigger] joined_last(reqs).contains(k)
            <==> membership_after(joined_last(pre), reqs.last()).contains(k) by {
            if joined_last(reqs).contains(k) {
                let i = choose|i: int|
                    0 <= i < reqs.len() && (#[trigger] reqs[i] matches Request::Join(m) && m.id
                        == k) && forall|j: int|
                        i < j < reqs.len() ==> !(#[trigger] reqs[j] matches Request::Leave(x) && x
                            == k);
                if i < n {
                    assert(pre[i] == reqs[i]);
                    assert forall|j: int| i < j < pre.len() implies !(#[trigger] pre[j] matches Request::Leave(
                        x,
                    ) && x == k) by {
                        assert(pre[j] == reqs[j]);
                    }
                    assert(joined_last(pre).contains(k));
                }
            }
            if membership_after(joined_last(pre), reqs.last()).contains(k) {
                if reqs.last() matches Request::Join(m) && m.id == k {
                    assert(reqs[n] == reqs.last());
                } else {
                    assert(joined_last(pre).contains(k));
                    let i = choose|i: int|
                        0 <= i < pre.len() && (#[trigger] pre[i] matches Request::Join(m) && m.id
                            == k) && forall|j: int|
                            i < j < pre.len() ==> !(#[trigger] pre[j] matches Request::Leave(x) && x
                                == k);
                    assert(reqs[i] == pre[i]);
                    assert forall|j: int| i < j < reqs.len() implies !(#[trigger] reqs[j] matches Request::Leave(
                        x,
                    ) && x == k) by {
                        if j < n {
                            assert(pre[j] == reqs[j]);
                        }
                    }
                }
            }
        }
        assert(replay(Set::empty(), reqs) =~= joined_last(reqs));
    } else {
        assert(joined_last(reqs) =~= Set::<Identity>::empty());
    }
}

/// The room's map after `req`, given the map `m` before it, for a join or a
/// leave.
pub open spec fn map_after(m: Map<Identity, Member>, req: Request) -> Map<Identity, Member> {
    match req {
        Request::Join(x) => m.insert(x.id, x),
        Request::Leave(id) => m.remove(id),
        Request::Broadcast(_, _) => m,
    }
}

/// The room's map after the joins and leaves `reqs`, applied in order from `m`.
pub open spec fn replay_map(m: Map<Identity, Member>, reqs: Seq<Request>) -> Map<
    Identity,
    Member,
>
    decreases reqs.len(),
{
    if reqs.len() == 0 {
        m
    } else {
        map_after(replay_map(m, reqs.drop_last()), reqs.last())
    }
}

/// The map's identities follow the membership that the same requests give.
proof fn lemma_replay_map_dom(reqs: Seq<Request>)
    ensures
        replay_map(Map::empty(), reqs).dom() == replay(Set::empty(), reqs),
    decreases reqs.len(),
{
    if reqs.len() > 0 {
        lemma_replay_map_dom(reqs.drop_last());
        let m0 = replay_map(Map::empty(), reqs.drop_last());
        assert(map_after(m0, reqs.last()).dom() =~= membership_after(m0.dom(), reqs.last()));
    } else {
        assert(replay_map(Map::empty(), reqs).dom() =~= replay(Set::empty(), reqs));
    }
}

/// Each identity in the map holds the member of its last join.
proof fn lemma_replay_map_last_join(reqs: Seq<Request>)
    ensures
        forall|x: Identity| #[trigger]
            replay_map(Map::empty(), reqs).contains_key(x) ==> replay_map(Map::empty(), reqs)[x].id
                == x && last_join_is(reqs, replay_map(Map::empty(), reqs)[x]),
    decreases reqs.len(),
{
    if reqs.len() > 0 {
        let pre = reqs.drop_last();
        let n = reqs.len() - 1;
        lemma_replay_map_last_join(pre);
        let m0 = replay_map(Map::empty(), pre);
        let m1 = replay_map(Map::empty(), reqs);
        assert(reqs[n] == reqs.last());
        assert forall|x: Identity| #[trigger] m1.contains_key(x) implies m1[x].id == x
            && last_join_is(reqs, m1[x]) by {
            if reqs.last() matches Request::Join(m) && m.id == x {
                assert(reqs[n] == Request::Join(m1[x]));
            } else {
                assert(m0.contains_key(x));
                assert(m1[x] == m0[x]);
                let i = choose|i: int|
                    0 <= i < pre.len() && pre[i] == Request::Join(m0[x]) && forall|j: int|
                        i < j < pre.len() ==> !(#[trigger] pre[j] matches Request::Join(m) && m.id
                            == x);
                assert(reqs[i] == pre[i]);
                assert forall|j: int| i < j < reqs.len() implies !(#[trigger] reqs[j] matches Request::Join(
                    m,
                ) && m.id == x) by {
                    if j < n {
                        assert(pre[j] == reqs[j]);
                    }
                }
            }
        }
    }
}

/// `m` is the member of the last join of its identity in `reqs`.
pub open spec fn last_join_is(reqs: Seq<Request>, m: Member) -> bool {
    exists|i: int|
        0 <= i < reqs.len() && reqs[i] == Request::Join(m) && forall|j: int|
            i < j < reqs.len() ==> !(#[trigger] reqs[j] matches Request::Join(x) && x.id == m.id)
}

/// From an empty room, joins and leaves in any order leave exactly the
/// identities whose last join came after their last leave, each under the
/// member of its last join.
pub proof fn lemma_join_leave_members(reqs: Seq<Request>)
    requires
        forall|i: int| 0 <= i < reqs.len() ==> !(#[trigger] reqs[i] is Broadcast),
    ensures
        replay_map(Map::empty(), reqs).dom() == joined_last(reqs),
        forall|x: Identity| #[trigger]
            replay_map(Map::empty(), reqs).contains_key(x) ==> replay_map(Map::empty(), reqs)[x].id
                == x && last_join_is(reqs, replay_map(Map::empty(), reqs)[x]),
{
    lemma_replay_map_dom(reqs);
    lemma_join_leave_consistency(reqs);
    lemma_replay_map_last_join(reqs);
}

/// A leave for an identity that is not a member leaves the membership as it is.
pub proof fn lemma_leave_absent(room: Room, id: Identity)
    requires
        !room@.contains_key(id),
    ensures
        room@.remove(id) == room@,
{
    assert(room@.remove(id) =~= room@);
}

/// The room holds its members in a vector whose identities are unique.
pub struct Room {
    members: Vec<Member>,
}

impl View for Room {
    type V = Map<Identity, Member>;

    closed spec fn view(&self) -> Map<Identity, Member> {
        member_map(self.members@)
    }
}

impl Room {
    /// No two members share an identity.
    pub closed spec fn wf(&self) -> bool {
        ids_of(self.members@).no_duplicates()
    }

    /// An empty room.
    pub fn new() -> (r: Room)
        ensures
            r.wf(),
            r@ == Map::<Identity, Member>::empty(),
            r@.dom().finite(),
    {
        let r = Room { members: Vec::new() };
        assert(r@ =~= Map::<Identity, Member>::empty());
        r
    }

    /// Applies one request. Only a broadcast hands anything out; it returns the
    /// identities whose queue was closed, and the other requests return none.
    pub fn handle(&mut self, req: Request) -> (failed: Vec<Identity>)
        requires
            old(self).wf(),
        ensures
            final(self).wf(),
            final(self)@.dom().finite(),
            final(self)@.dom() == membership_after(old(self)@.dom(), req),
            match req {
                Request::Join(m) => final(self)@ == old(self)@.insert(m.id, m) && failed@.len() == 0,
                Request::Leave(id) => final(self)@ == old(self)@.remove(id) && failed@.len() == 0,
                Request::Broadcast(sender, text) => {
                    &&& final(self)@.contains_key(sender) ==> final(self)@[sender] == old(
                        self,
                    )@[sender]
                    &&& forall|k: Identity| #[trigger]
                        old(self)@.contains_key(k) && k != sender ==> offered_once(
                            old(self)@[k],
                            final(self)@[k],
                            text@,
                            !failed@.contains(k),
                        )
                    &&& failed@.no_duplicates()
                    &&& forall|k: Identity| #[trigger]
                        failed@.contains(k) ==> k != sender && old(self)@.contains_key(k)
                },
            },
    {
        match req {
            Request::Join(m) => {
                self.join(m);
                proof {
                    assert(self@.dom() =~= old(self)@.dom().insert(m.id));
                }
                Vec::new()
            },
            Request::Leave(id) => {
                self.leave(id);
                proof {
                    assert(self@.dom() =~= old(self)@.dom().remove(id));
                }
                Vec::new()
            },
            Request::Broadcast(sender, text) => self.broadcast(sender, &text),
        }
    }

    /// Adds `member` under its identity; a member already there under that
    /// identity is replaced.
    pub fn join(&mut self, member: Member)
        requires
            old(self).wf(),
        ensures
            final(self).wf(),
            final(self)@.dom().finite(),
            final(self)@ == old(self)@.insert(member.id, member),
    {
        let ghost before = self.members@;
        let ghost m = member;
        proof {
            lemma_member_map(before);
        }
        match self.position(member.id) {
            Some(i) => {
                self.members[i] = member;
                proof {
                    assert(ids_of(self.members@) =~= ids_of(before));
                    lemma_member_map(self.members@);
                    assert forall|k: Identity| #[trigger] self@.contains_key(k)
                        <==> old(self)@.insert(m.id, m).contains_key(k) by {
                        if member_map(before).contains_key(k) {
                            let j = choose|j: int| 0 <= j < before.len() && before[j].id == k;
                            assert(self.members@[j].id == k);
                        }
                        if self@.contains_key(k) {
                            let j = choose|j: int|
                                0 <= j < self.members@.len() && self.members@[j].id == k;
                            assert(before[j].id == k);
                        }
                    }
                    assert forall|k: Identity| #[trigger] self@.contains_key(k) && k != m.id
                        implies self@[k] == old(self)@[k] by {
                        let j = choose|j: int| 0 <= j < before.len() && before[j].id == k;
                        assert(self.members@[j] == before[j]);
                    }
                    assert(self@ =~= old(self)@.insert(m.id, m));
                }
            },
            None => {
                self.members.push(member);
                proof {
                    assert(ids_of(self.members@) =~= ids_of(before).push(m.id));
                    assert(self.members@.last() == m);
                    lemma_member_map(self.members@);
                    assert forall|k: Identity| #[trigger] self@.contains_key(k)
                        <==> old(self)@.insert(m.id, m).contains_key(k) by {
                        if member_map(before).contains_key(k) {
                            let j = choose|j: int| 0 <= j < before.len() && before[j].id == k;
                            assert(self.members@[j] == before[j]);
                        }
                        if self@.contains_key(k) && k != m.id {
                            let j = choose|j: int|
                                0 <= j < self.members@.len() && self.members@[j].id == k;
                            assert(before[j].id == k);
                        }
                    }
                    assert forall|k: Identity| #[trigger] self@.contains_key(k) && k != m.id
                        implies self@[k] == old(self)@[k] by {
                        let j = choose|j: int| 0 <= j < before.len() && before[j].id == k;
                        assert(self.members@[j] == before[j]);
                    }
                    assert(self@ =~= old(self)@.insert(m.id, m));
                }
            },
        }
    }

    /// Removes the member with identity `id`; when there is none, nothing
    /// changes and nothing fails.
    pub fn leave(&mut self, id: Identity)
        requires
            old(self).wf(),
        ensures
            final(self).wf(),
            final(self)@.dom().finite(),
            final(self)@ == old(self)@.remove(id),
    {
        let ghost before = self.members@;
        proof {
            lemma_member_map(before);
        }
        match self.position(id) {
            Some(i) => {
                self.members.remove(i);
                proof {
                    let r = ids_of(before).remove(i as int);
                    assert(ids_of(self.members@) =~= r);
                    assert forall|a: int, b: int|
                        0 <= a < r.len() && 0 <= b < r.len() && a != b implies r[a] != r[b] by {
                        let a0 = if a < i { a } else { a + 1 };
                        let b0 = if b < i { b } else { b + 1 };
                        assert(r[a] == ids_of(before)[a0]);
                        assert(r[b] == ids_of(before)[b0]);
                    }
                    lemma_member_map(self.members@);
                    assert forall|k: Identity| #[trigger] self@.contains_key(k)
                        <==> old(self)@.remove(id).contains_key(k) by {
                        if member_map(before).contains_key(k) && k != id {
                            let j = choose|j: int| 0 <= j < before.len() && before[j].id == k;
                            assert(j != i);
                            if j < i {
                                assert(self.members@[j] == before[j]);
                            } else {
                                assert(self.members@[j - 1] == before[j]);
                            }
                        }
                        if self@.contains_key(k) {
                            let j = choose|j: int|
                                0 <= j < self.members@.len() && self.members@[j].id == k;
                            if j < i {
                                assert(self.members@[j] == before[j]);
                                assert(ids_of(before)[j] != ids_of(before)[i as int]);
                            } else {
                                assert(self.members@[j] == before[j + 1]);
                                assert(ids_of(before)[j + 1] != ids_of(before)[i as int]);
                            }
                            assert(member_map(before).contains_key(k));
                        }
                    }
                    assert forall|k: Identity| #[trigger] self@.contains_key(k)
                        implies self@[k] == old(self)@[k] by {
                        let j = choose|j: int|
                            0 <= j < self.members@.len() && self.members@[j].id == k;
                        if j < i {
                            assert(self.members@[j] == before[j]);
                        } else {
                            assert(self.members@[j] == before[j + 1]);
                        }
                    }
                    assert(self@ =~= old(self)@.remove(id));
                }
            },
            None => {
                assert(self@ =~= old(self)@.remove(id));
            },
        }
    }

    /// Whether a member with identity `id` is in the room.
    pub fn contains(&self, id: Identity) -> (r: bool)
        requires
            self.wf(),
        ensures
            self@.dom().finite(),
            r == self@.contains_key(id),
    {
        proof {
            lemma_member_map(self.members@);
        }
        self.position(id).is_some()
    }

    /// How many members the room holds.
    pub fn len(&self) -> (n: usize)
        requires
            self.wf(),
        ensures
            self@.dom().finite(),
            n == self@.len(),
    {
        proof {
            lemma_member_map(self.members@);
            ids_of(self.members@).unique_seq_to_set();
            assert forall|k: Identity| #[trigger] self@.contains_key(k)
                <==> ids_of(self.members@).to_set().contains(k) by {
                if self@.contains_key(k) {
                    let j = choose|j: int|
                        0 <= j < self.members@.len() && self.members@[j].id == k;
                    assert(ids_of(self.members@)[j] == k);
                }
                if ids_of(self.members@).contains(k) {
                    let j = choose|j: int|
                        0 <= j < self.members@.len() && ids_of(self.members@)[j] == k;
                    assert(self.members@[j].id == k);
                }
            }
            assert(self@.dom() =~= ids_of(self.members@).to_set());
        }
        self.members.len()
    }

    /// Hands `text` to every member but `sender`, and returns the identities
    /// whose queue was closed. A closed queue neither stops nor changes the
    /// delivery to the others; the membership stays as it was.
    pub fn broadcast(&mut self, sender: Identity, text: &String) -> (failed: Vec<Identity>)
        requires
            old(self).wf(),
        ensures
            final(self).wf(),
            final(self)@.dom().finite(),
            final(self)@.dom() == old(self)@.dom(),
            final(self)@.contains_key(sender) ==> final(self)@[sender] == old(self)@[sender],
            forall|k: Identity| #[trigger]
                old(self)@.contains_key(k) && k != sender ==> offered_once(
                    old(self)@[k],
                    final(self)@[k],
                    text@,
                    !failed@.contains(k),
                ),
            failed@.no_duplicates(),
            forall|k: Identity| #[trigger]
                failed@.contains(k) ==> k != sender && old(self)@.contains_key(k),
    {
        let ghost before = self.members@;
        let mut failed: Vec<Identity> = Vec::new();
        let mut i: usize = 0;
        while i < self.members.len()
            invariant
                ids_of(before).no_duplicates(),
                self.members@.len() == before.len(),
                i <= before.len(),
                forall|j: int|
                    0 <= j < i ==> if before[j].id == sender {
                        #[trigger] self.members@[j] == before[j]
                    } else {
                        offered_once(
                            before[j],
                            self.members@[j],
                            text@,
                            !failed@.contains(before[j].id),
                        )
                    },
                forall|j: int| i <= j < before.len() ==> #[trigger] self.members@[j] == before[j],
                failed@.no_duplicates(),
                forall|x: Identity| #[trigger]
                    failed@.contains(x) ==> x != sender && exists|j: int|
                        0 <= j < i && before[j].id == x,
            decreases before.len() - i,
        {
            let id = self.members[i].id;
            let ghost f0 = failed@;
            proof {
                assert forall|j: int| 0 <= j < i implies before[j].id != id by {
                    assert(ids_of(before)[j] == before[j].id);
                    assert(ids_of(before)[i as int] == before[i as int].id);
                }
            }
            proof {
                if f0.contains(id) {
                    let t = choose|t: int| 0 <= t < f0.len() && f0[t] == id;
                    assert(f0.contains(f0[t]));
                }
                assert(!f0.contains(id));
            }
            if id != sender {
                let ok = self.members[i].enqueue(text.clone());
                if !ok {
                    failed.push(id);
                }
            }
            proof {
                assert forall|j: int| 0 <= j < i implies (failed@.contains(before[j].id)
                    <==> f0.contains(before[j].id)) by {
                    if failed@.contains(before[j].id) && !f0.contains(before[j].id) {
                        let t = choose|t: int| 0 <= t < failed@.len() && failed@[t] == before[j].id;
                        assert(t == f0.len());
                    }
                    if f0.contains(before[j].id) {
                        let t = choose|t: int| 0 <= t < f0.len() && f0[t] == before[j].id;
                        assert(failed@[t] == before[j].id);
                    }
                }
                assert forall|x: Identity| #[trigger] failed@.contains(x) implies x != sender
                    && exists|j: int| 0 <= j < i + 1 && before[j].id == x by {
                    if x == id {
                        assert(before[i as int].id == x);
                    } else {
                        let t = choose|t: int| 0 <= t < failed@.len() && failed@[t] == x;
                        assert(f0[t] == x);
                        assert(f0.contains(x));
                    }
                }
                if failed@.len() > f0.len() {
                    assert(failed@[f0.len() as int] == id);
                }

            }
            i = i + 1;
        }
        proof {
            assert(ids_of(self.members@) =~= ids_of(before));
            lemma_member_map(before);
            lemma_member_map(self.members@);
            assert forall|k: Identity| #[trigger] member_map(before).contains_key(k)
                implies self@.contains_key(k) by {
                let j = choose|j: int| 0 <= j < before.len() && before[j].id == k;
                assert(self.members@[j].id == k);
            }
            assert(self@.dom() =~= member_map(before).dom());
        }
        failed
    }

    /// Where the member with identity `id` stands, if anywhere.
    fn position(&self, id: Identity) -> (r: Option<usize>)
        ensures
            match r {
                Some(i) => i < self.members@.len() && self.members@[i as int].id == id,
                None => forall|j: int| 0 <= j < self.members@.len() ==> self.members@[j].id != id,
            },
    {
        let mut i: usize = 0;
        while i < self.members.len()
            invariant
                i <= self.members@.len(),
                forall|j: int| 0 <= j < i ==> self.members@[j].id != id,
            decreases self.members@.len() - i,
        {
            if self.members[i].id == id {
                return Some(i);
            }
            i = i + 1;
        }
        None
    }
}

} // verus!
