//! The hub: it owns the roster of admitted clients and decides every roster
//! change and every broadcast. Each client is reached through its mailbox, the
//! sending half of an unbounded channel; its connection runs as a task.
use crate::protocol::{
    string_views, ChatProtocol, ClientName, ClientStateMessage, ClientStateMessageType, MessageModel,
    ReportModel,
};
use tokio::sync::mpsc::UnboundedSender;
use tokio::task::{JoinError, JoinHandle};
use vstd::prelude::*;

verus! {

/// tokio's `UnboundedSender`, the sending half of a client's mailbox; opaque.
#[verifier::external_type_specification]
#[verifier::external_body]
#[verifier::reject_recursive_types(T)]
pub struct ExUnboundedSender<T>(UnboundedSender<T>);

/// tokio's `JoinHandle`, the handle of a connection's task; opaque.
#[verifier::external_type_specification]
#[verifier::external_body]
#[verifier::reject_recursive_types(T)]
pub struct ExJoinHandle<T>(JoinHandle<T>);

/// tokio's `JoinError`, named by `JoinHandle`'s own impls; opaque.
#[verifier::external_type_specification]
#[verifier::external_body]
pub struct ExJoinError(JoinError);

/// Keeps the names other than `x`.
pub open spec fn other_than(x: Seq<char>) -> spec_fn(Seq<char>) -> bool {
    |n: Seq<char>| n != x
}

/// Keeps the names outside `s`.
pub open spec fn not_in(s: Set<Seq<char>>) -> spec_fn(Seq<char>) -> bool {
    |n: Seq<char>| !s.contains(n)
}

/// The recipients among the first `upto` whose delivery failed.
pub open spec fn undelivered(
    recipients: Seq<Seq<char>>,
    delivered: Seq<bool>,
    upto: int,
) -> Set<Seq<char>> {
    Set::new(
        |n: Seq<char>|
            exists|j: int| 0 <= j < upto && #[trigger] recipients[j] == n && !delivered[j],
    )
}

proof fn lemma_filter_keeps_all(s: Seq<Seq<char>>, p: spec_fn(Seq<char>) -> bool)
    requires
        forall|i: int| 0 <= i < s.len() ==> #[trigger] p(s[i]),
    ensures
        s.filter(p) == s,
    decreases s.len(),
{
    reveal(Seq::filter);
    if s.len() > 0 {
        let d = s.drop_last();
        assert forall|i: int| 0 <= i < d.len() implies #[trigger] p(d[i]) by {
            assert(d[i] == s[i]);
        }
        lemma_filter_keeps_all(d, p);
        assert(p(s[s.len() - 1]));
        assert(d.push(s.last()) =~= s);
    }
}

proof fn lemma_filter_members(s: Seq<Seq<char>>, p: spec_fn(Seq<char>) -> bool)
    ensures
        forall|k: int| 0 <= k < s.filter(p).len() ==> s.contains(#[trigger] s.filter(p)[k]),
    decreases s.len(),
{
    reveal(Seq::filter);
    if s.len() > 0 {
        let d = s.drop_last();
        lemma_filter_members(d, p);
        assert forall|k: int| 0 <= k < s.filter(p).len() implies s.contains(
            #[trigger] s.filter(p)[k],
        ) by {
            if k < d.filter(p).len() {
                let j = choose|j: int| 0 <= j < d.len() && d[j] == d.filter(p)[k];
                assert(s[j] == d[j]);
            } else {
                assert(s[s.len() - 1] == s.filter(p)[k]);
            }
        }
    }
}

proof fn lemma_filter_no_duplicates(s: Seq<Seq<char>>, p: spec_fn(Seq<char>) -> bool)
    requires
        s.no_duplicates(),
    ensures
        s.filter(p).no_duplicates(),
    decreases s.len(),
{
    reveal(Seq::filter);
    if s.len() > 0 {
        let d = s.drop_last();
        lemma_filter_no_duplicates(d, p);
        lemma_filter_members(d, p);
        if p(s.last()) {
            let f = d.filter(p);
            assert forall|k: int| 0 <= k < f.len() implies #[trigger] f[k] != s.last() by {
                let j = choose|j: int| 0 <= j < d.len() && d[j] == f[k];
                assert(s[j] == d[j]);
            }
            let g = f.push(s.last());
            assert forall|a: int, b: int|
                0 <= a < g.len() && 0 <= b < g.len() && a != b implies g[a] != g[b] by {
                if a < f.len() && b < f.len() {
                } else if a < f.len() {
                    assert(f[a] != s.last());
                } else {
                    assert(f[b] != s.last());
                }
            }
        }
    }
}

proof fn lemma_filter_at(s: Seq<Seq<char>>, x: Seq<char>, i: int)
    requires
        s.no_duplicates(),
        0 <= i < s.len(),
        s[i] == x,
    ensures
        s.filter(other_than(x)) == s.remove(i),
    decreases s.len(),
{
    reveal(Seq::filter);
    let d = s.drop_last();
    if i == s.len() - 1 {
        assert forall|k: int| 0 <= k < d.len() implies #[trigger] other_than(x)(d[k]) by {
            assert(d[k] == s[k]);
        }
        lemma_filter_keeps_all(d, other_than(x));
        assert(s.remove(i) =~= d);
    } else {
        lemma_filter_at(d, x, i);
        assert(s.last() != x);
        assert(d.remove(i).push(s.last()) =~= s.remove(i));
    }
}

proof fn lemma_filter_filter(
    s: Seq<Seq<char>>,
    p: spec_fn(Seq<char>) -> bool,
    q: spec_fn(Seq<char>) -> bool,
    r: spec_fn(Seq<char>) -> bool,
)
    requires
        forall|e: Seq<char>| #[trigger] r(e) == (p(e) && q(e)),
    ensures
        s.filter(p).filter(q) == s.filter(r),
    decreases s.len(),
{
    reveal(Seq::filter);
    if s.len() > 0 {
        let d = s.drop_last();
        lemma_filter_filter(d, p, q, r);
        assert(r(s.last()) == (p(s.last()) && q(s.last())));
        if p(s.last()) {
            let f = s.filter(p);
            assert(f.drop_last() =~= d.filter(p));
        }
    }
}

/// A broadcast from `sender` over a roster with unique names never offers the
/// message to `sender`, and offers it to every other client on the roster
/// exactly once.
pub proof fn lemma_self_exclusion(roster: Seq<Seq<char>>, sender: Seq<char>, other: Seq<char>)
    requires
        roster.no_duplicates(),
        roster.contains(other),
        other != sender,
    ensures
        !roster.filter(other_than(sender)).contains(sender),
        roster.filter(other_than(sender)).contains(other),
        roster.filter(other_than(sender)).no_duplicates(),
{
    let r = roster.filter(other_than(sender));
    if r.contains(sender) {
        let k = choose|k: int| 0 <= k < r.len() && r[k] == sender;
        roster.lemma_filter_pred(other_than(sender), k);
    }
    let i = choose|i: int| 0 <= i < roster.len() && roster[i] == other;
    roster.lemma_filter_contains(other_than(sender), i);
    lemma_filter_no_duplicates(roster, other_than(sender));
}

/// Once a client is taken off the roster its name is absent, and no later
/// broadcast, whoever sends it, offers that client anything.
pub proof fn lemma_disconnect_cleanup(roster: Seq<Seq<char>>, gone: Seq<char>, sender: Seq<char>)
    ensures
        !roster.filter(other_than(gone)).contains(gone),
        !roster.filter(other_than(gone)).filter(other_than(sender)).contains(gone),
{
    let after = roster.filter(other_than(gone));
    if after.contains(gone) {
        let k = choose|k: int| 0 <= k < after.len() && after[k] == gone;
        roster.lemma_filter_pred(other_than(gone), k);
    }
    lemma_filter_members(after, other_than(sender));
}

/// Taking the undelivered off the roster removes exactly the clients whose
/// mailbox refused the message, and no others.
pub proof fn lemma_removal_exact(roster: Seq<Seq<char>>, failed: Set<Seq<char>>, n: Seq<char>)
    ensures
        roster.filter(not_in(failed)).contains(n) <==> (roster.contains(n) && !failed.contains(n)),
{
    let after = roster.filter(not_in(failed));
    lemma_filter_members(roster, not_in(failed));
    if after.contains(n) {
        let k = choose|k: int| 0 <= k < after.len() && after[k] == n;
        roster.lemma_filter_pred(not_in(failed), k);
    }
    if roster.contains(n) && !failed.contains(n) {
        let i = choose|i: int| 0 <= i < roster.len() && roster[i] == n;
        roster.lemma_filter_contains(not_in(failed), i);
    }
}

/// Admitting a name keeps the roster free of repeats, and the name is then on
/// it exactly once, whether or not it was there before.
pub proof fn lemma_admit_unique(roster: Seq<Seq<char>>, name: Seq<char>)
    requires
        roster.no_duplicates(),
    ensures
        ({
            let after = if roster.contains(name) {
                roster
            } else {
                roster.push(name)
            };
            after.no_duplicates() && after.contains(name)
        }),
{
    if !roster.contains(name) {
        let after = roster.push(name);
        assert(after[roster.len() as int] == name);
        assert forall|a: int, b: int|
            0 <= a < after.len() && 0 <= b < after.len() && a != b implies after[a] != after[b] by {
            if a < roster.len() && b < roster.len() {
            } else if a < roster.len() {
                assert(roster.contains(roster[a]));
            } else {
                assert(roster.contains(roster[b]));
            }
        }
    }
}

/// A connection task seen from the hub: the client's name, its mailbox and
/// the task itself, with a record of what the hub did to them.
pub struct ClientHandle {
    pub client_name: ClientName,
    pub to_client: UnboundedSender<ChatProtocol>,
    pub handle: JoinHandle<()>,
    /// Every message offered to the mailbox, in the order offered.
    pub offered: Ghost<Seq<MessageModel>>,
    /// Whether the mailbox refused the last message offered to it.
    pub refused: Ghost<bool>,
    /// Whether the task has been told to stop.
    pub aborted: Ghost<bool>,
}

/// `after` is `before` with `m` offered to its mailbox once more.
pub open spec fn offered_once(before: ClientHandle, after: ClientHandle, m: MessageModel) -> bool {
    &&& after.client_name == before.client_name
    &&& after.to_client == before.to_client
    &&& after.handle == before.handle
    &&& after.offered@ == before.offered@.push(m)
}

/// `after` is `before` with its task told to stop.
pub open spec fn stopped(before: ClientHandle, after: ClientHandle) -> bool {
    &&& after.client_name == before.client_name
    &&& after.to_client == before.to_client
    &&& after.handle == before.handle
    &&& after.offered == before.offered
    &&& after.refused == before.refused
    &&& after.aborted@
}

/// `h` is a new entry for this name, mailbox and task: nothing offered yet,
/// still running.
pub open spec fn fresh(
    h: ClientHandle,
    client_name: ClientName,
    to_client: UnboundedSender<ChatProtocol>,
    handle: JoinHandle<()>,
) -> bool {
    &&& h.client_name == client_name
    &&& h.to_client == to_client
    &&& h.handle == handle
    &&& h.offered@ == Seq::<MessageModel>::empty()
    &&& !h.refused@
    &&& !h.aborted@
}

/// What a broadcast from `sender` of `m` does to one entry: the sender's own
/// entry is left as it was; any other gets `m` offered once, and the entry's
/// task is left as it was.
pub open spec fn after_offer(
    before: ClientHandle,
    after: ClientHandle,
    sender: Seq<char>,
    m: MessageModel,
) -> bool {
    if before.client_name@ == sender {
        after == before
    } else {
        offered_once(before, after, m) && after.aborted == before.aborted
    }
}

/// The names of a list of entries.
pub open spec fn names_of(hs: Seq<ClientHandle>) -> Seq<Seq<char>> {
    hs.map_values(|c: ClientHandle| c.client_name@)
}

impl ClientHandle {
    /// Relies on tokio's `UnboundedSender::send`: it puts the message into the
    /// mailbox, or hands it back when the receiving half is closed; `ok` says
    /// which. The record notes the offer either way, and whether it was refused.
    #[verifier::external_body]
    fn offer(&mut self, m: ChatProtocol) -> (ok: bool)
        ensures
            offered_once(*old(self), *final(self), m@),
            final(self).aborted == old(self).aborted,
            final(self).refused@ == !ok,
    {
        self.to_client.send(m).is_ok()
    }

    /// Relies on tokio's `JoinHandle::abort`: it asks the runtime to cancel the
    /// task. The record notes that it was asked.
    #[verifier::external_body]
    fn stop(&mut self)
        ensures
            stopped(*old(self), *final(self)),
    {
        self.handle.abort()
    }
}

/// What handling an event did: the clients a broadcast tried, in roster
/// order, whether each mailbox took the message, and the entries taken off
/// the roster.
pub struct FanOut {
    pub recipients: Vec<ClientName>,
    pub delivered: Vec<bool>,
    pub removed: Vec<ClientHandle>,
}

impl FanOut {
    pub open spec fn recipient_names(&self) -> Seq<Seq<char>> {
        string_views(self.recipients@)
    }

    /// The recipients whose mailbox refused the message.
    pub open spec fn failed(&self) -> Set<Seq<char>> {
        undelivered(self.recipient_names(), self.delivered@, self.recipients@.len() as int)
    }
}

/// The hub's state: the roster, one entry per admitted name.
pub struct Server {
    clients: Vec<ClientHandle>,
}

impl View for Server {
    type V = Seq<Seq<char>>;

    /// The names on the roster, in the order they were admitted.
    open spec fn view(&self) -> Seq<Seq<char>> {
        names_of(self.handles())
    }
}

impl Server {
    /// The entries of the roster, in the order they were admitted.
    pub closed spec fn handles(&self) -> Seq<ClientHandle> {
        self.clients@
    }

    /// The roster holds each name at most once.
    pub open spec fn wf(&self) -> bool {
        self@.no_duplicates()
    }

    /// An empty roster.
    pub fn new() -> (r: Server)
        ensures
            r.wf(),
            r.handles() == Seq::<ClientHandle>::empty(),
    {
        let r = Server { clients: Vec::new() };
        assert(r.handles() =~= Seq::<ClientHandle>::empty());
        assert(r@ =~= Seq::<Seq<char>>::empty());
        r
    }

    fn position(&self, name: &ClientName) -> (r: Option<usize>)
        ensures
            match r {
                Some(i) => i < self@.len() && self@[i as int] == name@,
                None => !self@.contains(name@),
            },
    {
        let mut i: usize = 0;
        while i < self.clients.len()
            invariant
                i <= self.clients@.len(),
                forall|j: int| 0 <= j < i ==> self@[j] != name@,
            decreases self.clients@.len() - i,
        {
            if self.clients[i].client_name == *name {
                return Some(i);
            }
            i = i + 1;
        }
        None
    }

    /// Whether `name` is on the roster.
    pub fn contains(&self, name: &ClientName) -> (r: bool)
        ensures
            r == self@.contains(name@),
    {
        self.position(name).is_some()
    }

    /// How many clients are on the roster.
    pub fn len(&self) -> (r: usize)
        ensures
            r == self@.len(),
    {
        self.clients.len()
    }

    /// Takes `client_name` off the roster, if it is there, and tells its task
    /// to stop; gives back the entry taken off.
    pub fn remove_client(&mut self, client_name: &ClientName) -> (r: Option<ClientHandle>)
        requires
            old(self).wf(),
        ensures
            final(self).wf(),
            final(self)@ == old(self)@.filter(other_than(client_name@)),
            match r {
                Some(h) => exists|i: int|
                    0 <= i < old(self)@.len() && old(self)@[i] == client_name@ && stopped(
                        old(self).handles()[i],
                        h,
                    ) && final(self).handles() == old(self).handles().remove(i),
                None => !old(self)@.contains(client_name@) && final(self).handles() == old(
                    self,
                ).handles(),
            },
    {
        match self.position(client_name) {
            Some(i) => {
                let ghost before = self@;
                let ghost hs = self.handles();
                let mut gone = self.clients.remove(i);
                gone.stop();
                proof {
                    assert(self@ =~= before.remove(i as int));
                    lemma_filter_at(before, client_name@, i as int);
                    assert(stopped(hs[i as int], gone) && self.handles() == hs.remove(i as int));
                }
                Some(gone)
            },
            None => {
                proof {
                    assert forall|k: int| 0 <= k < self@.len() implies #[trigger] other_than(
                        client_name@,
                    )(self@[k]) by {
                        assert(self@.contains(self@[k]));
                    }
                    lemma_filter_keeps_all(self@, other_than(client_name@));
                }
                None
            },
        }
    }

    /// Puts a client on the roster. A client already there under the same
    /// name is replaced in place, its task told to stop, and its entry given
    /// back.
    pub fn admit_client(
        &mut self,
        client_name: ClientName,
        to_client: UnboundedSender<ChatProtocol>,
        handle: JoinHandle<()>,
    ) -> (r: Option<ClientHandle>)
        requires
            old(self).wf(),
        ensures
            final(self).wf(),
            final(self)@ == (if old(self)@.contains(client_name@) {
                old(self)@
            } else {
                old(self)@.push(client_name@)
            }),
            match r {
                Some(h) => exists|i: int|
                    0 <= i < old(self)@.len() && old(self)@[i] == client_name@ && stopped(
                        old(self).handles()[i],
                        h,
                    ) && fresh(final(self).handles()[i], client_name, to_client, handle)
                        && final(self).handles() == old(self).handles().update(
                        i,
                        final(self).handles()[i],
                    ),
                None => !old(self)@.contains(client_name@) && final(self).handles().len()
                    == old(self).handles().len() + 1 && final(self).handles().drop_last()
                    == old(self).handles() && fresh(
                    final(self).handles().last(),
                    client_name,
                    to_client,
                    handle,
                ),
            },
    {
        let ghost before = self@;
        let ghost hs = self.handles();
        let ghost (n0, t0, h0) = (client_name, to_client, handle);
        let entry = ClientHandle {
            client_name,
            to_client,
            handle,
            offered: Ghost(Seq::empty()),
            refused: Ghost(false),
            aborted: Ghost(false),
        };
        match self.position(&entry.client_name) {
            Some(i) => {
                let mut replaced = self.clients.remove(i);
                replaced.stop();
                self.clients.insert(i, entry);
                proof {
                    assert(self.handles() =~= hs.update(i as int, self.handles()[i as int]));
                    assert(self@ =~= before);
                    assert(stopped(hs[i as int], replaced));
                }
                Some(replaced)
            },
            None => {
                self.clients.push(entry);
                proof {
                    assert(self.handles().drop_last() =~= hs);
                    assert(self@ =~= before.push(n0@));
                    lemma_admit_unique(before, n0@);
                }
                None
            },
        }
    }

    /// Offers `m` to the mailbox of every client on the roster but `sender`,
    /// in roster order, and records which mailboxes took it.
    pub fn fan_out(&mut self, sender: &ClientName, m: &ChatProtocol) -> (r: FanOut)
        requires
            old(self).wf(),
        ensures
            final(self).wf(),
            final(self)@ == old(self)@,
            final(self).handles().len() == old(self).handles().len(),
            forall|j: int|
                0 <= j < old(self).handles().len() ==> after_offer(
                    old(self).handles()[j],
                    #[trigger] final(self).handles()[j],
                    sender@,
                    m@,
                ),
            r.recipient_names() == old(self)@.filter(other_than(sender@)),
            r.delivered@.len() == r.recipients@.len(),
            r.removed@.len() == 0,
            forall|j: int|
                0 <= j < old(self)@.len() && old(self)@[j] != sender@ ==> exists|k: int|
                    0 <= k < r.recipients@.len() && r.recipient_names()[k] == old(self)@[j]
                        && r.delivered@[k] == !(#[trigger] final(self).handles()[j]).refused@,
    {
        let ghost start = self.handles();
        let ghost names = self@;
        let mut recipients: Vec<ClientName> = Vec::new();
        let mut delivered: Vec<bool> = Vec::new();
        let mut i: usize = 0;
        proof {
            reveal(Seq::filter);
            assert(names.take(0).filter(other_than(sender@)) =~= Seq::<Seq<char>>::empty());
        }
        while i < self.clients.len()
            invariant
                i <= self.clients@.len(),
                self.handles().len() == start.len(),
                names == names_of(start),
                self@ == names,
                forall|j: int| i <= j < start.len() ==> #[trigger] self.handles()[j] == start[j],
                forall|j: int|
                    0 <= j < i ==> after_offer(start[j], #[trigger] self.handles()[j], sender@, m@),
                string_views(recipients@) == names.take(i as int).filter(other_than(sender@)),
                delivered@.len() == recipients@.len(),
                forall|j: int|
                    0 <= j < i && names[j] != sender@ ==> exists|k: int|
                        0 <= k < recipients@.len() && string_views(recipients@)[k] == names[j]
                            && delivered@[k] == !(#[trigger] self.handles()[j]).refused@,
            decreases self.clients@.len() - i,
        {
            let ghost prev = recipients@;
            let ghost prev_h = self.handles();
            let ghost prev_d = delivered@;
            if !(self.clients[i].client_name == *sender) {
                let mut client = self.clients.remove(i);
                let taken: bool = client.offer(m.duplicate());
                let name = client.client_name.clone();
                self.clients.insert(i, client);
                recipients.push(name);
                delivered.push(taken);
                proof {
                    assert(self.handles() =~= prev_h.update(i as int, client));
                    assert(string_views(recipients@) =~= string_views(prev).push(name@));
                    assert(names_of(self.handles()) =~= names);
                    assert(string_views(recipients@)[prev.len() as int] == names[i as int]);
                    assert forall|j: int|
                        0 <= j < i + 1 && names[j] != sender@ implies exists|k: int|
                            0 <= k < recipients@.len() && string_views(recipients@)[k] == names[j]
                                && delivered@[k] == !(#[trigger] self.handles()[j]).refused@ by {
                        if j < i {
                            let k = choose|k: int|
                                0 <= k < prev.len() && string_views(prev)[k] == names[j]
                                    && prev_d[k] == !prev_h[j].refused@;
                            assert(string_views(recipients@)[k] == names[j]);
                            assert(delivered@[k] == prev_d[k]);
                        } else {
                            assert(delivered@[prev.len() as int] == taken);
                        }
                    }
                }
            }
            proof {
                reveal(Seq::filter);
                assert(names.take(i + 1).drop_last() =~= names.take(i as int));
            }
            i = i + 1;
        }
        assert(names.take(i as int) =~= names);
        let r = FanOut { recipients, delivered, removed: Vec::new() };
        assert forall|j: int| 0 <= j < names.len() && names[j] != sender@ implies exists|k: int|
            0 <= k < r.recipients@.len() && r.recipient_names()[k] == names[j]
                && r.delivered@[k] == !(#[trigger] self.handles()[j]).refused@ by {
            let k = choose|k: int|
                0 <= k < r.recipients@.len() && string_views(r.recipients@)[k] == names[j]
                    && r.delivered@[k] == !self.handles()[j].refused@;
            assert(r.recipient_names()[k] == names[j]);
        }
        r
    }

    /// Takes off the roster exactly the recipients of `report` whose mailbox
    /// refused the message, tells their tasks to stop, and gives back the
    /// entries taken off. The entries left are untouched.
    #[verifier::rlimit(60)]
    pub fn remove_undelivered(&mut self, report: &FanOut) -> (out: Vec<ClientHandle>)
        requires
            old(self).wf(),
            report.delivered@.len() == report.recipients@.len(),
        ensures
            final(self).wf(),
            final(self)@ == old(self)@.filter(not_in(report.failed())),
            forall|j: int|
                0 <= j < final(self).handles().len() ==> old(self).handles().contains(
                    #[trigger] final(self).handles()[j],
                ),
            forall|q: int|
                0 <= q < out@.len() ==> report.failed().contains(
                    (#[trigger] out@[q]).client_name@,
                ),
            forall|i: int|
                0 <= i < old(self)@.len() && report.failed().contains(#[trigger] old(self)@[i])
                    ==> exists|q: int|
                    0 <= q < out@.len() && stopped(old(self).handles()[i], out@[q]),
    {
        let ghost start = self@;
        let ghost start_h = self.handles();
        let ghost rec = report.recipient_names();
        let ghost del = report.delivered@;
        let mut removed: Vec<ClientHandle> = Vec::new();
        let ghost mut origin: Seq<int> = Seq::empty();
        proof {
            assert forall|i: int| 0 <= i < start.len() implies #[trigger] not_in(
                undelivered(rec, del, 0),
            )(start[i]) by {}
            lemma_filter_keeps_all(start, not_in(undelivered(rec, del, 0)));
        }
        let mut k: usize = 0;
        while k < report.recipients.len()
            invariant
                k <= rec.len(),
                rec == report.recipient_names(),
                del == report.delivered@,
                del.len() == rec.len(),
                start == names_of(start_h),
                start.no_duplicates(),
                self.wf(),
                self@ == start.filter(not_in(undelivered(rec, del, k as int))),
                forall|j: int|
                    0 <= j < self.handles().len() ==> start_h.contains(
                        #[trigger] self.handles()[j],
                    ),
                origin.len() == removed@.len(),
                forall|q: int|
                    0 <= q < removed@.len() ==> 0 <= #[trigger] origin[q] < start.len() && stopped(
                        start_h[origin[q]],
                        removed@[q],
                    ),
                forall|q: int|
                    0 <= q < removed@.len() ==> undelivered(rec, del, k as int).contains(
                        (#[trigger] removed@[q]).client_name@,
                    ),
                forall|i: int|
                    0 <= i < start.len() && undelivered(rec, del, k as int).contains(
                        #[trigger] start[i],
                    ) ==> exists|q: int| 0 <= q < removed@.len() && stopped(start_h[i], removed@[q]),
            decreases rec.len() - k,
        {
            let ghost f = undelivered(rec, del, k as int);
            let ghost g = undelivered(rec, del, k + 1);
            if !report.delivered[k] {
                let ghost cur = self@;
                let ghost cur_h = self.handles();
                let ghost prev_r = removed@;
                let ghost x = rec[k as int];
                proof {
                    assert(g =~= f.insert(x));
                }
                match self.remove_client(&report.recipients[k]) {
                    Some(h) => {
                        let ghost i1 = choose|i1: int|
                            0 <= i1 < cur.len() && cur[i1] == x && stopped(cur_h[i1], h)
                                && self.handles() == cur_h.remove(i1);
                        proof {
                            assert(start_h.contains(cur_h[i1]));
                        }
                        let ghost i0 = choose|i0: int|
                            0 <= i0 < start_h.len() && start_h[i0] == cur_h[i1];
                        removed.push(h);
                        proof {
                            assert(start[i0] == x);
                            assert forall|j: int|
                                0 <= j < self.handles().len() implies start_h.contains(
                                    #[trigger] self.handles()[j],
                                ) by {
                                if j < i1 {
                                    assert(self.handles()[j] == cur_h[j]);
                                } else {
                                    assert(self.handles()[j] == cur_h[j + 1]);
                                }
                            }
                            assert(cur[i1] == cur_h[i1].client_name@);
                            let ghost prev_o = origin;
                            origin = origin.push(i0);
                            assert forall|q: int| 0 <= q < removed@.len() implies 0 <= #[trigger] origin[q]
                                < start.len() && stopped(start_h[origin[q]], removed@[q])
                                && g.contains(removed@[q].client_name@) by {
                                if q < prev_r.len() {
                                    assert(removed@[q] == prev_r[q]);
                                    assert(origin[q] == prev_o[q]);
                                } else {
                                    assert(removed@[q] == h);
                                    assert(g.contains(x));
                                }
                            }
                            assert forall|i: int|
                                0 <= i < start.len() && g.contains(#[trigger] start[i]) implies exists|
                                q: int,
                            | 0 <= q < removed@.len() && stopped(start_h[i], removed@[q]) by {
                                if f.contains(start[i]) {
                                    let q = choose|q: int|
                                        0 <= q < prev_r.len() && stopped(start_h[i], prev_r[q]);
                                    assert(removed@[q] == prev_r[q]);
                                } else {
                                    assert(start[i] == x);
                                    assert(i == i0);
                                    assert(removed@[prev_r.len() as int] == h);
                                }
                            }
                            lemma_filter_filter(start, not_in(f), other_than(x), not_in(g));
                        }
                    },
                    None => {
                        proof {
                            assert forall|i: int|
                                0 <= i < start.len() && g.contains(#[trigger] start[i]) implies exists|
                                q: int,
                            | 0 <= q < removed@.len() && stopped(start_h[i], removed@[q]) by {
                                if !f.contains(start[i]) {
                                    assert(start[i] == x);
                                    lemma_removal_exact(start, f, x);
                                    assert(start.contains(x));
                                }
                            }
                            assert forall|q: int| 0 <= q < removed@.len() implies g.contains(
                                (#[trigger] removed@[q]).client_name@,
                            ) by {
                                assert(f.contains(removed@[q].client_name@));
                            }
                            lemma_filter_filter(start, not_in(f), other_than(x), not_in(g));
                        }
                    },
                }
            } else {
                proof {
                    assert forall|n: Seq<char>| g.contains(n) implies f.contains(n) by {
                        let j = choose|j: int| 0 <= j < k + 1 && #[trigger] rec[j] == n && !del[j];
                        assert(j != k);
                    }
                    assert(g =~= f);
                }
            }
            k = k + 1;
        }
        removed
    }

    /// Offers `m` from `sender` to every other client on the roster; then
    /// takes off the clients whose mailbox refused it and stops their tasks.
    #[verifier::rlimit(80)]
    pub fn broadcast(&mut self, sender: &ClientName, m: &ChatProtocol) -> (r: FanOut)
        requires
            old(self).wf(),
        ensures
            final(self).wf(),
            r.recipient_names() == old(self)@.filter(other_than(sender@)),
            r.delivered@.len() == r.recipients@.len(),
            final(self)@ == old(self)@.filter(not_in(r.failed())),
            forall|q: int|
                        0 <= q < r.removed@.len() ==> r.failed().contains(
                            (#[trigger] r.removed@[q]).client_name@,
                        ),
            forall|i: int|
                        0 <= i < old(self)@.len() && r.failed().contains(#[trigger] old(self)@[i])
                            ==> old(self)@[i] != sender@ && exists|q: int|
                            #![trigger r.removed@[q]]
                            0 <= q < r.removed@.len() && offered_once(
                                old(self).handles()[i],
                                r.removed@[q],
                                m@,
                            ) && r.removed@[q].refused@ && r.removed@[q].aborted@,
            forall|i: int, j: int|
                0 <= i < old(self)@.len() && 0 <= j < final(self)@.len() && old(self)@[i]
                    == final(self)@[j] ==> after_offer(
                    #[trigger] old(self).handles()[i],
                    #[trigger] final(self).handles()[j],
                    sender@,
                    m@,
                ) && (old(self)@[i] != sender@ ==> !final(self).handles()[j].refused@),
    {
                let ghost old_h = self.handles();
                let ghost old_n = self@;
                let mut report = self.fan_out(sender, m);
                let ghost mid_h = self.handles();
                let removed = self.remove_undelivered(&report);
                proof {
                    lemma_filter_no_duplicates(old_n, other_than(sender@));
                    let rec = report.recipient_names();
                    let fl = report.failed();
                    assert forall|i: int, j: int|
                        0 <= i < old_n.len() && 0 <= j < self@.len() && old_n[i] == self@[j] implies after_offer(
                            #[trigger] old_h[i],
                            #[trigger] self.handles()[j],
                            sender@,
                            m@,
                        ) && (old_n[i] != sender@ ==> !self.handles()[j].refused@) by {
                        let i2 = choose|i2: int| 0 <= i2 < mid_h.len() && mid_h[i2] == self.handles()[j];
                        assert(old_n[i2] == mid_h[i2].client_name@);
                        assert(self@[j] == self.handles()[j].client_name@);
                        assert(i2 == i);
                        assert(after_offer(old_h[i], mid_h[i], sender@, m@));
                        assert(self@[j] == old_n[i]);
                        assert(!fl.contains(old_n[i])) by {
                            lemma_filter_members(old_n, not_in(fl));
                            old_n.lemma_filter_pred(not_in(fl), j);
                        }
                        if old_n[i] != sender@ {
                            let k = choose|k: int|
                                0 <= k < rec.len() && rec[k] == old_n[i] && report.delivered@[k]
                                    == !mid_h[i].refused@;
                            if !report.delivered@[k] {
                                assert(fl.contains(old_n[i]));
                            }
                        }
                    }
                    assert forall|i: int|
                        0 <= i < old_n.len() && fl.contains(#[trigger] old_n[i]) implies old_n[i]
                        != sender@ && exists|q: int|
                        0 <= q < removed@.len() && offered_once(old_h[i], removed@[q], m@)
                            && removed@[q].refused@ && removed@[q].aborted@ by {
                        let q = choose|q: int| 0 <= q < removed@.len() && stopped(mid_h[i], removed@[q]);
                        let k2 = choose|k2: int|
                            0 <= k2 < rec.len() && #[trigger] rec[k2] == old_n[i] && !report.delivered@[k2];
                        old_n.lemma_filter_pred(other_than(sender@), k2);
                        assert(old_n[i] != sender@);
                        let k = choose|k: int|
                            0 <= k < rec.len() && rec[k] == old_n[i] && report.delivered@[k]
                                == !mid_h[i].refused@;
                        assert(k == k2);
                        assert(after_offer(old_h[i], mid_h[i], sender@, m@));
                    }
                }
                report.removed = removed;
                proof {
                    assert forall|i: int|
                        0 <= i < old_n.len() && report.failed().contains(#[trigger] old_n[i]) implies exists|q: int|
                        #![trigger report.removed@[q]]
                        0 <= q < report.removed@.len() && offered_once(old_h[i], report.removed@[q], m@)
                            && report.removed@[q].refused@ && report.removed@[q].aborted@ by {
                        let q = choose|q: int|
                            0 <= q < removed@.len() && offered_once(old_h[i], removed@[q], m@)
                                && removed@[q].refused@ && removed@[q].aborted@;
                        assert(report.removed@[q] == removed@[q]);
                    }
                }
                report
    }

    /// Handles one event from a connection. A disconnect takes the client off
    /// the roster and stops its task. A message is offered to every other
    /// client on the roster; then the clients whose mailbox refused it are
    /// taken off and their tasks stopped.
    #[verifier::rlimit(80)]
    pub fn handle_event(&mut self, event: ClientStateMessage) -> (r: FanOut)
        requires
            old(self).wf(),
        ensures
            final(self).wf(),
            event.msg@ is Error ==> (final(self)@ == old(self)@.filter(other_than(event.client@))),
            event.msg@ is Error ==> (r.recipients@.len() == 0),
            event.msg@ is Error ==> (r.delivered@.len() == 0),
            event.msg@ is Error ==> (forall|j: int|
                        0 <= j < final(self).handles().len() ==> old(self).handles().contains(
                            #[trigger] final(self).handles()[j],
                        )),
            event.msg@ is Error ==> (r.removed@.len() == (if old(self)@.contains(event.client@) {
                        1int
                    } else {
                        0int
                    })),
            event.msg@ is Error ==> (forall|i: int|
                        0 <= i < old(self)@.len() && #[trigger] old(self)@[i] == event.client@
                            ==> stopped(old(self).handles()[i], r.removed@[0])),
            event.msg@ matches ReportModel::Message(m) ==> (r.recipient_names() == old(self)@.filter(other_than(event.client@))),
            event.msg@ matches ReportModel::Message(m) ==> (r.delivered@.len() == r.recipients@.len()),
            event.msg@ matches ReportModel::Message(m) ==> (final(self)@ == old(self)@.filter(not_in(r.failed()))),
            event.msg@ matches ReportModel::Message(m) ==> (forall|q: int|
                        0 <= q < r.removed@.len() ==> r.failed().contains(
                            (#[trigger] r.removed@[q]).client_name@,
                        )),
            event.msg@ matches ReportModel::Message(m) ==> (forall|i: int|
                        0 <= i < old(self)@.len() && r.failed().contains(#[trigger] old(self)@[i])
                            ==> old(self)@[i] != event.client@ && exists|q: int|
                            #![trigger r.removed@[q]]
                            0 <= q < r.removed@.len() && offered_once(
                                old(self).handles()[i],
                                r.removed@[q],
                                m,
                            ) && r.removed@[q].refused@ && r.removed@[q].aborted@),
            event.msg@ matches ReportModel::Message(m) ==> (forall|i: int, j: int|
                0 <= i < old(self)@.len() && 0 <= j < final(self)@.len() && old(self)@[i]
                    == final(self)@[j] ==> after_offer(
                    #[trigger] old(self).handles()[i],
                    #[trigger] final(self).handles()[j],
                    event.client@,
                    m,
                ) && (old(self)@[i] != event.client@ ==> !final(self).handles()[j].refused@)),
    {
        match event.msg {
            ClientStateMessageType::Error => {
                let ghost old_h = self.handles();
                let ghost old_n = self@;
                let mut removed: Vec<ClientHandle> = Vec::new();
                match self.remove_client(&event.client) {
                    Some(h) => {
                        removed.push(h);
                        proof {
                            let i = choose|i: int|
                                0 <= i < old_n.len() && old_n[i] == event.client@ && stopped(old_h[i], h)
                                    && self.handles() == old_h.remove(i);
                            assert forall|j: int| 0 <= j < self.handles().len() implies old_h.contains(
                                #[trigger] self.handles()[j],
                            ) by {
                                if j < i {
                                    assert(self.handles()[j] == old_h[j]);
                                } else {
                                    assert(self.handles()[j] == old_h[j + 1]);
                                }
                            }
                            assert(removed@[0] == h);
                            assert(old_n.contains(event.client@));
                            assert forall|i2: int|
                                0 <= i2 < old_n.len() && #[trigger] old_n[i2] == event.client@ implies stopped(
                                    old_h[i2],
                                    removed@[0],
                                ) by {
                                assert(i2 == i);
                            }
                        }
                    },
                    None => {
                        proof {
                            assert forall|j: int| 0 <= j < self.handles().len() implies old_h.contains(
                                #[trigger] self.handles()[j],
                            ) by {
                                assert(self.handles()[j] == old_h[j]);
                            }
                        }
                    },
                }
                FanOut { recipients: Vec::new(), delivered: Vec::new(), removed }
            },
            ClientStateMessageType::Message(m) => {
                self.broadcast(&event.client, &m)
            },
        }
    }
    /// The names on the roster.
    pub fn names(&self) -> (r: Vec<ClientName>)
        ensures
            string_views(r@) == self@,
    {
        let mut r: Vec<ClientName> = Vec::new();
        let mut i: usize = 0;
        while i < self.clients.len()
            invariant
                i <= self.clients@.len(),
                string_views(r@) == self@.take(i as int),
            decreases self.clients@.len() - i,
        {
            let ghost prev = r@;
            let name = self.clients[i].client_name.clone();
            r.push(name);
            proof {
                assert(r@ == prev.push(name));
                assert(string_views(r@) =~= string_views(prev).push(name@));
                assert(self@.take(i + 1) =~= self@.take(i as int).push(self@[i as int]));
            }
            i = i + 1;
        }
        assert(self@.take(i as int) =~= self@);
        r
    }
}

} // verus!
