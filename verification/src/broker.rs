//! The broker: the single owner of the routing table.
//!
//! Exactly one broker runs for the life of the process. Reader tasks send
//! it events; writer tasks send it disconnect notices; nothing else ever
//! touches the table. Each admitted peer owns one mailbox, the ordered
//! queue its writer task drains to the socket. The methods here are the
//! broker loop's whole decision logic: the loop around them only moves
//! values between sockets, channels and these calls.

use vstd::prelude::*;

use crate::protocol::delivery_line;
use crate::protocol::format_delivery;
use crate::text::str_eq;

verus! {

/// An admitted peer: its name and the mailbox its writer task drains.
struct Peer {
    name: String,
    mailbox: Vec<String>,
}

/// A disconnect notice for a name that is not in the routing table: a
/// broker/writer desynchronisation, fatal to the process.
pub struct InvariantViolation;

/// The routing table and the mailboxes, keyed by peer name.
pub struct Broker {
    peers: Vec<Peer>,
}

/// One routing step: a known destination's mailbox gains the formatted
/// delivery line, an unknown one is silently dropped.
pub open spec fn route_step(
    m: Map<Seq<char>, Seq<Seq<char>>>,
    from: Seq<char>,
    name: Seq<char>,
    msg: Seq<char>,
) -> Map<Seq<char>, Seq<Seq<char>>> {
    if m.dom().contains(name) {
        m.insert(name, m[name].push(delivery_line(from, msg)))
    } else {
        m
    }
}

/// Routing a message: one step per destination entry, in list order.
pub open spec fn route(
    m: Map<Seq<char>, Seq<Seq<char>>>,
    from: Seq<char>,
    to: Seq<Seq<char>>,
    msg: Seq<char>,
) -> Map<Seq<char>, Seq<Seq<char>>>
    decreases to.len(),
{
    if to.len() == 0 {
        m
    } else {
        route(route_step(m, from, to[0], msg), from, to.drop_first(), msg)
    }
}

/// Routing consumes the destination list from the front, so it also grows
/// from the back: one more destination is one more step on the result.
proof fn lemma_route_snoc(
    m: Map<Seq<char>, Seq<Seq<char>>>,
    from: Seq<char>,
    to: Seq<Seq<char>>,
    t: Seq<char>,
    msg: Seq<char>,
)
    ensures
        route(m, from, to.push(t), msg) == route_step(route(m, from, to, msg), from, t, msg),
    decreases to.len(),
{
    let whole = to.push(t);
    if to.len() == 0 {
        assert(whole[0] == t);
        assert(whole.drop_first() =~= Seq::<Seq<char>>::empty());
        assert(route(m, from, whole, msg) == route(
            route_step(m, from, t, msg),
            from,
            whole.drop_first(),
            msg,
        ));
        assert(route(route_step(m, from, t, msg), from, whole.drop_first(), msg) == route_step(
            m,
            from,
            t,
            msg,
        ));
        assert(route(m, from, to, msg) == m);
    } else {
        assert(whole[0] == to[0]);
        assert(whole.drop_first() =~= to.drop_first().push(t));
        lemma_route_snoc(route_step(m, from, to[0], msg), from, to.drop_first(), t, msg);
        assert(route(m, from, whole, msg) == route(
            route_step(m, from, to[0], msg),
            from,
            whole.drop_first(),
            msg,
        ));
        assert(route(m, from, to, msg) == route(
            route_step(m, from, to[0], msg),
            from,
            to.drop_first(),
            msg,
        ));
    }
}

/// How often a destination list names `n`.
pub open spec fn occurrences(to: Seq<Seq<char>>, n: Seq<char>) -> nat
    decreases to.len(),
{
    if to.len() == 0 {
        0
    } else {
        (if to[0] == n {
            1nat
        } else {
            0nat
        }) + occurrences(to.drop_first(), n)
    }
}

/// `k` copies of one line.
pub open spec fn repeated(line: Seq<char>, k: nat) -> Seq<Seq<char>> {
    Seq::new(k, |i: int| line)
}

proof fn lemma_occurrences_none(to: Seq<Seq<char>>, n: Seq<char>)
    requires
        forall|i: int| 0 <= i < to.len() ==> to[i] != n,
    ensures
        occurrences(to, n) == 0,
    decreases to.len(),
{
    if to.len() > 0 {
        lemma_occurrences_none(to.drop_first(), n);
    }
}

/// Delivery is exact: routing a message changes no set of online peers,
/// and appends to each online peer's mailbox one formatted line per
/// occurrence of its name in the destination list — in particular nothing
/// at all when the list does not name it.
pub proof fn lemma_route_delivery(
    m: Map<Seq<char>, Seq<Seq<char>>>,
    from: Seq<char>,
    to: Seq<Seq<char>>,
    msg: Seq<char>,
)
    ensures
        route(m, from, to, msg).dom() == m.dom(),
        forall|n: Seq<char>|
            m.dom().contains(n) ==> route(m, from, to, msg)[n] == m[n] + repeated(
                delivery_line(from, msg),
                occurrences(to, n),
            ),
    decreases to.len(),
{
    let line = delivery_line(from, msg);
    if to.len() == 0 {
        assert forall|n: Seq<char>| m.dom().contains(n) implies route(m, from, to, msg)[n] == m[n]
            + repeated(line, occurrences(to, n)) by {
            assert(m[n] + repeated(line, 0) =~= m[n]);
        }
    } else {
        let m1 = route_step(m, from, to[0], msg);
        let rest = to.drop_first();
        lemma_route_delivery(m1, from, rest, msg);
        assert(m1.dom() =~= m.dom());
        assert forall|n: Seq<char>| m.dom().contains(n) implies route(m, from, to, msg)[n] == m[n]
            + repeated(line, occurrences(to, n)) by {
            assert(route(m, from, to, msg) == route(m1, from, rest, msg));
            if n == to[0] {
                assert(m1[n] == m[n].push(line));
                assert(m[n].push(line) + repeated(line, occurrences(rest, n)) =~= m[n] + repeated(
                    line,
                    occurrences(rest, n) + 1,
                ));
            } else {
                assert(m1[n] == m[n]);
            }
        }
    }
}

/// A destination list naming an online peer exactly once appends exactly
/// one formatted line to that peer's mailbox, at the end.
pub proof fn lemma_route_exactly_once(
    m: Map<Seq<char>, Seq<Seq<char>>>,
    from: Seq<char>,
    to: Seq<Seq<char>>,
    msg: Seq<char>,
    n: Seq<char>,
)
    requires
        m.dom().contains(n),
        occurrences(to, n) == 1,
    ensures
        route(m, from, to, msg).dom() == m.dom(),
        route(m, from, to, msg)[n] == m[n].push(delivery_line(from, msg)),
{
    lemma_route_delivery(m, from, to, msg);
    assert(m[n] + repeated(delivery_line(from, msg), 1) =~= m[n].push(delivery_line(from, msg)));
}

/// Sending to names none of which is online mutates no mailbox and
/// creates none: the routing table comes back unchanged. (The routing
/// step itself is total — it never fails and never waits.)
pub proof fn lemma_route_unknown(
    m: Map<Seq<char>, Seq<Seq<char>>>,
    from: Seq<char>,
    to: Seq<Seq<char>>,
    msg: Seq<char>,
)
    requires
        forall|i: int| 0 <= i < to.len() ==> !m.dom().contains(to[i]),
    ensures
        route(m, from, to, msg) == m,
{
    lemma_route_delivery(m, from, to, msg);
    let line = delivery_line(from, msg);
    assert forall|n: Seq<char>| m.dom().contains(n) implies route(m, from, to, msg)[n] == m[n] by {
        assert(forall|i: int| 0 <= i < to.len() ==> to[i] != n);
        lemma_occurrences_none(to, n);
        assert(m[n] + repeated(line, 0) =~= m[n]);
    }
    assert(route(m, from, to, msg) =~= m);
}

/// A peer name stands in the routing table exactly between its admission
/// and its disconnect notice: admitting an offline name puts it into the
/// table, and the disconnect notice its writer task later posts takes it
/// out again, leaving the table as it was before admission.
pub proof fn lemma_admission_round_trip(m: Map<Seq<char>, Seq<Seq<char>>>, n: Seq<char>)
    requires
        !m.dom().contains(n),
    ensures
        m.insert(n, Seq::<Seq<char>>::empty()).dom().contains(n),
        m.insert(n, Seq::<Seq<char>>::empty()).remove(n) == m,
{
    assert(m.insert(n, Seq::<Seq<char>>::empty()).remove(n) =~= m);
}

/// Reconnecting under a name once its disconnect has been reconciled is
/// admission afresh: the name leaves the table with its mailbox, and the
/// new admission starts from an empty one — no message queued for the
/// prior session survives into the new one.
pub proof fn lemma_reconnect_fresh_mailbox(m: Map<Seq<char>, Seq<Seq<char>>>, n: Seq<char>)
    requires
        m.dom().contains(n),
    ensures
        !m.remove(n).dom().contains(n),
        m.remove(n).insert(n, Seq::<Seq<char>>::empty())[n] == Seq::<Seq<char>>::empty(),
        m.remove(n).insert(n, Seq::<Seq<char>>::empty()).dom() == m.dom(),
{
    assert(m.remove(n).insert(n, Seq::<Seq<char>>::empty()).dom() =~= m.dom());
}

/// At most one mailbox per name.
spec fn names_unique(p: Seq<Peer>) -> bool {
    forall|i: int, j: int| 0 <= i < j < p.len() ==> p[i].name@ != p[j].name@
}

spec fn seq_has_name(p: Seq<Peer>, n: Seq<char>) -> bool {
    exists|i: int| 0 <= i < p.len() && p[i].name@ == n
}

spec fn peer_index(p: Seq<Peer>, n: Seq<char>) -> int {
    choose|i: int| 0 <= i < p.len() && p[i].name@ == n
}

spec fn routing_of(p: Seq<Peer>) -> Map<Seq<char>, Seq<Seq<char>>> {
    Map::new(
        |n: Seq<char>| seq_has_name(p, n),
        |n: Seq<char>| p[peer_index(p, n)].mailbox.deep_view(),
    )
}

/// With unique names, the peer at `i` is the one its own name finds.
proof fn lemma_at(p: Seq<Peer>, i: int)
    requires
        names_unique(p),
        0 <= i < p.len(),
    ensures
        routing_of(p).dom().contains(p[i].name@),
        peer_index(p, p[i].name@) == i,
        routing_of(p)[p[i].name@] == p[i].mailbox.deep_view(),
{
    let n = p[i].name@;
    assert(seq_has_name(p, n));
    let j = peer_index(p, n);
    assert(0 <= j < p.len() && p[j].name@ == n);
    if i < j {
        assert(p[i].name@ != p[j].name@);
    } else if j < i {
        assert(p[j].name@ != p[i].name@);
    }
}

impl Broker {
    /// Names are unique: at most one mailbox per peer.
    pub closed spec fn wf(&self) -> bool {
        names_unique(self.peers@)
    }

    /// The abstract routing table: each online name maps to the messages
    /// queued in its mailbox, oldest first.
    pub closed spec fn routing(&self) -> Map<Seq<char>, Seq<Seq<char>>> {
        routing_of(self.peers@)
    }

    pub fn new() -> (b: Broker)
        ensures
            b.wf(),
            b.routing() == Map::<Seq<char>, Seq<Seq<char>>>::empty(),
    {
        let b = Broker { peers: Vec::new() };
        proof {
            assert(b.routing() =~= Map::<Seq<char>, Seq<Seq<char>>>::empty());
        }
        b
    }

    /// The index of the peer bearing `name`, if one is online.
    fn find_peer(&self, name: &str) -> (r: Option<usize>)
        requires
            self.wf(),
        ensures
            match r {
                Some(i) => {
                    &&& 0 <= i < self.peers@.len()
                    &&& self.peers@[i as int].name@ == name@
                    &&& self.routing().dom().contains(name@)
                    &&& self.routing()[name@] == self.peers@[i as int].mailbox.deep_view()
                    &&& peer_index(self.peers@, name@) == i
                },
                None => !self.routing().dom().contains(name@),
            },
    {
        let n = self.peers.len();
        let mut i: usize = 0;
        while i < n
            invariant
                self.wf(),
                i <= n,
                n == self.peers@.len(),
                forall|j: int| 0 <= j < i ==> self.peers@[j].name@ != name@,
            decreases n - i,
        {
            if str_eq(self.peers[i].name.as_str(), name) {
                proof {
                    lemma_at(self.peers@, i as int);
                }
                return Some(i);
            }
            i = i + 1;
        }
        None
    }

    /// Whether `name` is online: present in the routing table.
    pub fn is_online(&self, name: &str) -> (r: bool)
        requires
            self.wf(),
        ensures
            r == self.routing().dom().contains(name@),
    {
        self.find_peer(name).is_some()
    }

    /// Admits a peer. A fresh, empty mailbox is created unless the name is
    /// already online, in which case nothing changes and no second writer
    /// task may be spawned: the first admission wins, silently.
    pub fn handle_new_peer(&mut self, name: &str) -> (admitted: bool)
        requires
            old(self).wf(),
        ensures
            final(self).wf(),
            admitted == !old(self).routing().dom().contains(name@),
            final(self).routing() == if admitted {
                old(self).routing().insert(name@, Seq::<Seq<char>>::empty())
            } else {
                old(self).routing()
            },
    {
        match self.find_peer(name) {
            Some(_) => false,
            None => {
                let ghost p0 = self.peers@;
                let ghost m0 = self.routing();
                self.peers.push(Peer { name: String::from_str(name), mailbox: Vec::new() });
                proof {
                    let p1 = self.peers@;
                    let len = p0.len() as int;
                    assert(forall|i: int| 0 <= i < len ==> p1[i] == p0[i]);
                    assert(p1[len].name@ == name@);
                    assert(forall|i: int| 0 <= i < len ==> p1[i].name@ != name@);
                    assert(names_unique(p1));
                    let m1 = m0.insert(name@, Seq::<Seq<char>>::empty());
                    assert forall|x: Seq<char>| #[trigger] routing_of(p1).dom().contains(
                        x,
                    ) implies m1.dom().contains(x) by {
                        let i = peer_index(p1, x);
                        if i < len {
                            lemma_at(p0, i);
                        }
                    }
                    assert forall|x: Seq<char>| m1.dom().contains(x) implies #[trigger] routing_of(
                        p1,
                    ).dom().contains(x) by {
                        if x == name@ {
                            lemma_at(p1, len);
                        } else {
                            let i = peer_index(p0, x);
                            lemma_at(p1, i);
                        }
                    }
                    assert forall|x: Seq<char>| routing_of(p1).dom().contains(
                        x,
                    ) implies #[trigger] routing_of(p1)[x] == m1[x] by {
                        if x == name@ {
                            lemma_at(p1, len);
                            assert(p1[len].mailbox.deep_view() =~= Seq::<Seq<char>>::empty());
                        } else {
                            let i = peer_index(p1, x);
                            lemma_at(p1, i);
                            assert(i < len);
                            lemma_at(p0, i);
                        }
                    }
                    assert(self.routing() =~= m1);
                }
                true
            },
        }
    }

    /// Routes one message: for each destination entry, in order, appends
    /// `"<from>: <msg>"` (newline and carriage return closed) to that
    /// peer's mailbox when the name is online, and drops the entry
    /// silently when it is not. Never fails, whatever the list names.
    pub fn handle_message(&mut self, from: &str, to: &Vec<String>, msg: &str)
        requires
            old(self).wf(),
        ensures
            final(self).wf(),
            final(self).routing() == route(old(self).routing(), from@, to.deep_view(), msg@),
    {
        let n = to.len();
        let mut k: usize = 0;
        proof {
            assert(to.deep_view().subrange(0, 0) =~= Seq::<Seq<char>>::empty());
        }
        while k < n
            invariant
                k <= n,
                n == to@.len(),
                self.wf(),
                self.routing() == route(
                    old(self).routing(),
                    from@,
                    to.deep_view().subrange(0, k as int),
                    msg@,
                ),
            decreases n - k,
        {
            let ghost m0 = self.routing();
            let ghost p0 = self.peers@;
            let dest: &String = &to[k];
            proof {
                assert(to.deep_view()[k as int] == dest@);
            }
            match self.find_peer(dest.as_str()) {
                Some(i) => {
                    let line = format_delivery(from, msg);
                    self.peers[i].mailbox.push(line);
                    proof {
                        let p1 = self.peers@;
                        assert(p1.len() == p0.len());
                        assert(forall|j: int| 0 <= j < p1.len() && j != i ==> p1[j] == p0[j]);
                        assert(p1[i as int].name@ == p0[i as int].name@);
                        assert(names_unique(p1));
                        assert(p1[i as int].mailbox.deep_view() =~= p0[
                            i as int
                        ].mailbox.deep_view().push(delivery_line(from@, msg@)));
                        let m1 = route_step(m0, from@, dest@, msg@);
                        assert forall|x: Seq<char>| #[trigger] routing_of(p1).dom().contains(
                            x,
                        ) implies m1.dom().contains(x) by {
                            let jx = peer_index(p1, x);
                            assert(p0[jx].name@ == x);
                            lemma_at(p0, jx);
                        }
                        assert forall|x: Seq<char>| m1.dom().contains(x) implies #[trigger]
                            routing_of(p1).dom().contains(x) by {
                            let jx = peer_index(p0, x);
                            assert(p1[jx].name@ == x);
                            lemma_at(p1, jx);
                        }
                        assert forall|x: Seq<char>| routing_of(p1).dom().contains(
                            x,
                        ) implies #[trigger] routing_of(p1)[x] == m1[x] by {
                            let jx = peer_index(p1, x);
                            lemma_at(p1, jx);
                            lemma_at(p0, jx);
                        }
                        assert(self.routing() =~= m1);
                    }
                },
                None => {},
            }
            proof {
                lemma_route_snoc(
                    old(self).routing(),
                    from@,
                    to.deep_view().subrange(0, k as int),
                    dest@,
                    msg@,
                );
                assert(to.deep_view().subrange(0, k + 1 as int) =~= to.deep_view().subrange(
                    0,
                    k as int,
                ).push(dest@));
            }
            k = k + 1;
        }
        proof {
            assert(to.deep_view().subrange(0, n as int) =~= to.deep_view());
        }
    }

    /// Takes the oldest queued message of `name`'s mailbox, the one its
    /// writer task must put on the wire next; mailbox order is kept.
    pub fn pop_mail(&mut self, name: &str) -> (r: Option<String>)
        requires
            old(self).wf(),
        ensures
            final(self).wf(),
            match r {
                Some(line) => {
                    &&& old(self).routing().dom().contains(name@)
                    &&& old(self).routing()[name@].len() > 0
                    &&& line@ == old(self).routing()[name@][0]
                    &&& final(self).routing() == old(self).routing().insert(
                        name@,
                        old(self).routing()[name@].drop_first(),
                    )
                },
                None => {
                    &&& *final(self) == *old(self)
                    &&& (old(self).routing().dom().contains(name@)
                        ==> old(self).routing()[name@].len() == 0)
                },
            },
    {
        match self.find_peer(name) {
            None => None,
            Some(i) => {
                if self.peers[i].mailbox.len() == 0 {
                    return None;
                }
                let ghost m0 = self.routing();
                let ghost p0 = self.peers@;
                let line = self.peers[i].mailbox.remove(0);
                proof {
                    let p1 = self.peers@;
                    assert(p1.len() == p0.len());
                    assert(forall|j: int| 0 <= j < p1.len() && j != i ==> p1[j] == p0[j]);
                    assert(p1[i as int].name@ == p0[i as int].name@);
                    assert(names_unique(p1));
                    assert(p1[i as int].mailbox.deep_view() =~= p0[
                        i as int
                    ].mailbox.deep_view().drop_first());
                    assert(line@ == p0[i as int].mailbox.deep_view()[0]);
                    let m1 = m0.insert(name@, m0[name@].drop_first());
                    assert forall|x: Seq<char>| #[trigger] routing_of(p1).dom().contains(
                        x,
                    ) implies m1.dom().contains(x) by {
                        let jx = peer_index(p1, x);
                        assert(p0[jx].name@ == x);
                        lemma_at(p0, jx);
                    }
                    assert forall|x: Seq<char>| m1.dom().contains(x) implies #[trigger] routing_of(
                        p1,
                    ).dom().contains(x) by {
                        let jx = peer_index(p0, x);
                        assert(p1[jx].name@ == x);
                        lemma_at(p1, jx);
                    }
                    assert forall|x: Seq<char>| routing_of(p1).dom().contains(
                        x,
                    ) implies #[trigger] routing_of(p1)[x] == m1[x] by {
                        let jx = peer_index(p1, x);
                        lemma_at(p1, jx);
                        lemma_at(p0, jx);
                    }
                    assert(self.routing() =~= m1);
                }
                Some(line)
            },
        }
    }

    /// Handles a writer task's disconnect notice: removes the name and
    /// hands back whatever was still queued, to be drained and discarded —
    /// delivery is no longer possible, and dropping the queue is what
    /// keeps the broker from ever blocking on an abandoned mailbox. A
    /// notice for a name that is not in the table is the fatal
    /// desynchronisation condition, surfaced as an error for the caller
    /// to abort on.
    pub fn handle_disconnect(&mut self, name: &str) -> (r: Result<Vec<String>, InvariantViolation>)
        requires
            old(self).wf(),
        ensures
            final(self).wf(),
            (r is Ok) == old(self).routing().dom().contains(name@),
            match r {
                Ok(leftover) => {
                    &&& leftover.deep_view() == old(self).routing()[name@]
                    &&& final(self).routing() == old(self).routing().remove(name@)
                },
                Err(_) => *final(self) == *old(self),
            },
    {
        match self.find_peer(name) {
            None => Err(InvariantViolation),
            Some(i) => {
                let ghost m0 = self.routing();
                let ghost p0 = self.peers@;
                let peer = self.peers.remove(i);
                proof {
                    let p1 = self.peers@;
                    assert(p1.len() == p0.len() - 1);
                    assert(forall|j: int| 0 <= j < i ==> p1[j] == p0[j]);
                    assert(forall|j: int| i <= j < p1.len() ==> p1[j] == p0[j + 1]);
                    assert(names_unique(p1));
                    let m1 = m0.remove(name@);
                    assert forall|x: Seq<char>| #[trigger] routing_of(p1).dom().contains(
                        x,
                    ) implies m1.dom().contains(x) by {
                        let jx = peer_index(p1, x);
                        assert(0 <= jx < p1.len());
                        if jx < i {
                            lemma_at(p0, jx);
                        } else {
                            assert(p0[jx + 1].name@ == x);
                            lemma_at(p0, jx + 1);
                        }
                        lemma_at(p0, i as int);
                    }
                    assert forall|x: Seq<char>| m1.dom().contains(x) implies #[trigger] routing_of(
                        p1,
                    ).dom().contains(x) by {
                        let jx = peer_index(p0, x);
                        assert(0 <= jx < p0.len());
                        lemma_at(p0, i as int);
                        assert(jx != i);
                        if jx < i {
                            assert(p1[jx].name@ == x);
                            lemma_at(p1, jx);
                        } else {
                            assert(p1[jx - 1].name@ == x);
                            lemma_at(p1, jx - 1);
                        }
                    }
                    assert forall|x: Seq<char>| routing_of(p1).dom().contains(
                        x,
                    ) implies #[trigger] routing_of(p1)[x] == m1[x] by {
                        let jx = peer_index(p1, x);
                        assert(0 <= jx < p1.len());
                        lemma_at(p1, jx);
                        if jx < i {
                            lemma_at(p0, jx);
                        } else {
                            assert(p0[jx + 1].name@ == x);
                            lemma_at(p0, jx + 1);
                        }
                        lemma_at(p0, i as int);
                    }
                    assert(self.routing() =~= m1);
                    assert(peer.mailbox.deep_view() == m0[name@]) by {
                        lemma_at(p0, i as int);
                    }
                }
                Ok(peer.mailbox)
            },
        }
    }
}

} // verus!
