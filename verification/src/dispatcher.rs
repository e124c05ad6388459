use vstd::prelude::*;
use crate::codec;
use crate::subscription_table::{
    distinct_views, in_prefix, lemma_views_set_push, map_add_val, map_remove_val, sorted_views,
    SubscriptionTable, views_set,
};
use crate::text::chars_lt;
use crate::types::Event;
use crate::ws::WsMessage;

verus! {

/// One operation for the dispatcher's serialization point, mirroring what
/// the per-socket handlers and the HTTP routes send it.
pub enum DispatcherMessage<H> {
    Event(Event),
    RegisterWS { socket_id: String, addr: H },
    Subscribe { socket_id: String, topic: String, request_id: String },
    Unsubscribe { socket_id: String, topic: String, request_id: String },
    Close(String),
    Reset,
}

/// What one dispatcher step asks its surroundings to do. The state mutation
/// already happened when the outcome is handed back; the remote calls and
/// socket sends it names are performed afterwards, off the serialization
/// point.
#[derive(Debug, PartialEq, Eq)]
pub enum DispatcherOutcome {
    /// Send `frame` to each recipient socket; no frame when the payload was
    /// not valid JSON (the event is then dropped).
    Broadcast { frame: Option<String>, recipients: Vec<String> },
    Registered,
    /// `notify_broker` is true on the structural transition (first local
    /// subscriber); `reply` is the acknowledgement frame for the socket,
    /// absent when the socket was already gone.
    Subscribed { notify_broker: bool, reply: Option<WsMessage> },
    /// Symmetric: `notify_broker` on the last local unsubscriber.
    Unsubscribed { notify_broker: bool, reply: Option<WsMessage> },
    /// Tell the broker to drop this instance's subscription for each topic,
    /// best-effort.
    Closed { notify_topics: Vec<String> },
    /// Tell the broker to drop every directory entry for this instance.
    ResetRequested,
}

/// The gateway's serialization point: owns the subscription index and the
/// registry of live socket handles; every mutation passes through `handle`,
/// one at a time.
pub struct Dispatcher<H> {
    subscription_table: SubscriptionTable,
    ws_table: Vec<(String, H)>,
}

impl<H> Dispatcher<H> {
    pub closed spec fn table(self) -> SubscriptionTable {
        self.subscription_table
    }

    pub closed spec fn conn_key_at(self, i: int) -> Seq<char> {
        self.ws_table@[i].0@
    }

    pub closed spec fn num_conns(self) -> int {
        self.ws_table@.len() as int
    }

    pub open spec fn has_conn(self, s: Seq<char>) -> bool {
        exists|i: int| 0 <= i < self.num_conns() && self.conn_key_at(i) == s
    }

    /// The registry: each live socket id mapped to its handle.
    pub closed spec fn conns(self) -> Map<Seq<char>, H> {
        Map::new(
            |k: Seq<char>| self.has_conn(k),
            |k: Seq<char>|
                self.ws_table@[choose|i: int|
                    0 <= i < self.num_conns() && self.conn_key_at(i) == k].1,
        )
    }

    pub closed spec fn conns_distinct(self) -> bool {
        forall|i: int, j: int|
            0 <= i < j < self.num_conns() ==> self.conn_key_at(i) != self.conn_key_at(j)
    }

    pub open spec fn wf(self) -> bool {
        self.table().wf() && self.conns_distinct()
    }

    proof fn lemma_conn_at(self, i: int)
        requires
            self.conns_distinct(),
            0 <= i < self.num_conns(),
        ensures
            self.conns().dom().contains(self.conn_key_at(i)),
            self.conns()[self.conn_key_at(i)] == self.ws_table@[i].1,
    {
        assert(self.has_conn(self.conn_key_at(i)));
        let j = choose|j: int| 0 <= j < self.num_conns() && self.conn_key_at(j) == self.conn_key_at(
            i,
        );
        if i < j {
            assert(self.conn_key_at(i) != self.conn_key_at(j));
        } else if j < i {
            assert(self.conn_key_at(j) != self.conn_key_at(i));
        }
    }

    /// Facts about the registry depend on the registry field alone.
    proof fn lemma_conns_frame(pre: Dispatcher<H>, post: Dispatcher<H>)
        requires
            pre.ws_table == post.ws_table,
            pre.conns_distinct(),
        ensures
            post.conns_distinct(),
            post.conns() == pre.conns(),
            forall|s: Seq<char>| #[trigger] post.has_conn(s) == pre.has_conn(s),
    {
        assert(post.num_conns() == pre.num_conns());
        assert forall|i: int, j: int| 0 <= i < j < post.num_conns() implies post.conn_key_at(i)
            != post.conn_key_at(j) by {
            assert(pre.conn_key_at(i) != pre.conn_key_at(j));
        }
        assert forall|s: Seq<char>| #[trigger] post.has_conn(s) == pre.has_conn(s) by {
            if pre.has_conn(s) {
                let i = choose|i: int| 0 <= i < pre.num_conns() && pre.conn_key_at(i) == s;
                assert(post.conn_key_at(i) == s);
            }
            if post.has_conn(s) {
                let i = choose|i: int| 0 <= i < post.num_conns() && post.conn_key_at(i) == s;
                assert(pre.conn_key_at(i) == s);
            }
        }
        assert forall|s: Seq<char>| #[trigger] pre.has_conn(s) implies post.conns()[s]
            == pre.conns()[s] by {
            let i = choose|i: int| 0 <= i < pre.num_conns() && pre.conn_key_at(i) == s;
            pre.lemma_conn_at(i);
            post.lemma_conn_at(i);
        }
        assert(post.conns() =~= pre.conns());
    }

    pub fn new() -> (r: Dispatcher<H>)
        ensures
            r.wf(),
            r.table().topic_sockets() == Map::<Seq<char>, Set<Seq<char>>>::empty(),
            r.table().socket_topics() == Map::<Seq<char>, Set<Seq<char>>>::empty(),
            r.conns() == Map::<Seq<char>, H>::empty(),
    {
        let r = Dispatcher { subscription_table: SubscriptionTable::new(), ws_table: Vec::new() };
        proof {
            assert(r.conns() =~= Map::<Seq<char>, H>::empty());
        }
        r
    }

    fn find_conn(&self, socket_id: &String) -> (r: Option<usize>)
        ensures
            match r {
                Some(i) => i < self.num_conns() && self.conn_key_at(i as int) == socket_id@,
                None => !self.has_conn(socket_id@),
            },
    {
        let n = self.ws_table.len();
        let mut i: usize = 0;
        while i < n
            invariant
                i <= n,
                n == self.num_conns(),
                forall|j: int| 0 <= j < i ==> self.conn_key_at(j) != socket_id@,
            decreases n - i,
        {
            if self.ws_table[i].0 == *socket_id {
                return Some(i);
            }
            i += 1;
        }
        None
    }

    /// Whether the socket is registered.
    pub fn has_connection(&self, socket_id: &String) -> (r: bool)
        ensures
            r == self.has_conn(socket_id@),
    {
        self.find_conn(socket_id).is_some()
    }

    /// The live handle for a socket id, for the caller to send frames on.
    pub fn get_handle(&self, socket_id: &String) -> (r: Option<&H>)
        requires
            self.wf(),
        ensures
            match r {
                Some(h) => self.has_conn(socket_id@) && *h == self.conns()[socket_id@],
                None => !self.has_conn(socket_id@),
            },
    {
        match self.find_conn(socket_id) {
            None => None,
            Some(i) => {
                proof {
                    self.lemma_conn_at(i as int);
                }
                Some(&self.ws_table[i].1)
            },
        }
    }

    /// Processes one message against the shared state and reports what to do
    /// next. This is the single writer: no two mutations interleave.
    pub fn handle(&mut self, msg: DispatcherMessage<H>) -> (r: DispatcherOutcome)
        requires
            old(self).wf(),
        ensures
            final(self).wf(),
            match msg {
                DispatcherMessage::Event(e) => {
                    &&& final(self).table() == old(self).table()
                    &&& final(self).conns() == old(self).conns()
                    &&& match codec::json_canon(e.message@) {
                        None => r matches DispatcherOutcome::Broadcast { frame, recipients }
                            && frame is None && recipients@.len() == 0,
                        Some(canon) => r matches DispatcherOutcome::Broadcast { frame, recipients }
                            && frame matches Some(f) && f@ == codec::spec_event_json(
                            e.topic@,
                            canon,
                        ) && distinct_views(recipients@) && sorted_views(recipients@)
                            && views_set(recipients@) == Set::new(
                            |s: Seq<char>|
                                old(self).table().subscribed(s, e.topic@) && old(self).has_conn(s),
                        ),
                    }
                },
                DispatcherMessage::RegisterWS { socket_id, addr } => {
                    &&& final(self).table() == old(self).table()
                    &&& final(self).conns() == old(self).conns().insert(socket_id@, addr)
                    &&& r matches DispatcherOutcome::Registered
                },
                DispatcherMessage::Subscribe { socket_id, topic, request_id } => {
                    &&& final(self).conns() == old(self).conns()
                    &&& if old(self).has_conn(socket_id@) {
                        &&& final(self).table().topic_sockets() == map_add_val(
                            old(self).table().topic_sockets(),
                            topic@,
                            socket_id@,
                        )
                        &&& final(self).table().socket_topics() == map_add_val(
                            old(self).table().socket_topics(),
                            socket_id@,
                            topic@,
                        )
                        &&& (r matches DispatcherOutcome::Subscribed { notify_broker, reply }
                            && (notify_broker == !old(self).table().topic_present(topic@)) && (
                        reply matches Some(m) && (m matches WsMessage::Subscription {
                            topic: t2,
                            request_id: r2,
                            subscribed,
                        } && t2@ == topic@ && r2@ == request_id@ && subscribed == true)))
                    } else {
                        &&& final(self).table() == old(self).table()
                        &&& r matches DispatcherOutcome::Subscribed { notify_broker, reply }
                            && notify_broker == false && reply is None
                    }
                },
                DispatcherMessage::Unsubscribe { socket_id, topic, request_id } => {
                    &&& final(self).conns() == old(self).conns()
                    &&& if old(self).has_conn(socket_id@) {
                        &&& final(self).table().topic_sockets() == map_remove_val(
                            old(self).table().topic_sockets(),
                            topic@,
                            socket_id@,
                        )
                        &&& final(self).table().socket_topics() == map_remove_val(
                            old(self).table().socket_topics(),
                            socket_id@,
                            topic@,
                        )
                        &&& (r matches DispatcherOutcome::Unsubscribed { notify_broker, reply }
                            && (notify_broker == (old(self).table().topic_present(topic@) && old(
                            self,
                        ).table().topic_sockets()[topic@] == set![socket_id@])) && (
                        reply matches Some(m) && (m matches WsMessage::Subscription {
                            topic: t2,
                            request_id: r2,
                            subscribed,
                        } && t2@ == topic@ && r2@ == request_id@ && subscribed == false)))
                    } else {
                        &&& final(self).table() == old(self).table()
                        &&& r matches DispatcherOutcome::Unsubscribed { notify_broker, reply }
                            && notify_broker == false && reply is None
                    }
                },
                DispatcherMessage::Close(socket_id) => {
                    &&& final(self).conns() == old(self).conns()
                    &&& forall|s: Seq<char>, t: Seq<char>| #[trigger]
                        final(self).table().subscribed(s, t) <==> (old(self).table().subscribed(
                            s,
                            t,
                        ) && s != socket_id@)
                    &&& !final(self).table().socket_present(socket_id@)
                    &&& r matches DispatcherOutcome::Closed { notify_topics } && distinct_views(
                        notify_topics@,
                    ) && sorted_views(notify_topics@) && views_set(notify_topics@) == Set::new(
                        |t: Seq<char>|
                            old(self).table().topic_present(t) && old(
                                self,
                            ).table().topic_sockets()[t] == set![socket_id@],
                    )
                },
                DispatcherMessage::Reset => {
                    &&& final(self).table() == old(self).table()
                    &&& final(self).conns() == old(self).conns()
                    &&& r matches DispatcherOutcome::ResetRequested
                },
            },
    {
        match msg {
            DispatcherMessage::Event(event) => {
                match codec::normalize_json(event.message.as_str()) {
                    None => DispatcherOutcome::Broadcast { frame: None, recipients: Vec::new() },
                    Some(canon) => {
                        let frame = codec::render_event(&event.topic, &canon);
                        let socket_ids = self.subscription_table.get(&event.topic);
                        let mut recipients: Vec<String> = Vec::new();
                        let n = socket_ids.len();
                        let mut k: usize = 0;
                        while k < n
                            invariant
                                k <= n,
                                n == socket_ids@.len(),
                                old(self).wf(),
                                self == old(self),
                                distinct_views(socket_ids@),
                                sorted_views(socket_ids@),
                                views_set(socket_ids@) == if old(self).table().topic_present(
                                    event.topic@,
                                ) {
                                    old(self).table().topic_sockets()[event.topic@]
                                } else {
                                    Set::<Seq<char>>::empty()
                                },
                                distinct_views(recipients@),
                                sorted_views(recipients@),
                                views_set(recipients@) == Set::new(
                                    |s: Seq<char>|
                                        in_prefix(socket_ids@, k as int, s) && old(
                                            self,
                                        ).has_conn(s),
                                ),
                            decreases n - k,
                        {
                            let ghost sk = socket_ids@[k as int]@;
                            let ghost pre = recipients@;
                            proof {
                                assert(!in_prefix(socket_ids@, k as int, sk)) by {
                                    if in_prefix(socket_ids@, k as int, sk) {
                                        let j = choose|j: int|
                                            0 <= j < k && socket_ids@[j]@ == sk;
                                        assert(socket_ids@[j]@ != socket_ids@[k as int]@);
                                    }
                                }
                            }
                            if self.has_connection(&socket_ids[k]) {
                                recipients.push(socket_ids[k].clone());
                                proof {
                                    lemma_views_set_push(pre, socket_ids@[k as int]);
                                    assert(!views_set(pre).contains(sk)) by {
                                        if views_set(pre).contains(sk) {
                                            assert(in_prefix(socket_ids@, k as int, sk));
                                        }
                                    }
                                    assert forall|a: int, b: int|
                                        0 <= a < b < recipients@.len() implies recipients@[a]@
                                        != recipients@[b]@ by {
                                        if b == recipients@.len() - 1 {
                                            assert(views_set(pre).contains(recipients@[a]@));
                                        } else {
                                            assert(pre[a]@ != pre[b]@);
                                        }
                                    }
                                    assert forall|a: int, b: int|
                                        0 <= a < b < recipients@.len() implies chars_lt(
                                        (#[trigger] recipients@[a])@,
                                        (#[trigger] recipients@[b])@,
                                    ) by {
                                        if b == recipients@.len() - 1 {
                                            assert(views_set(pre).contains(pre[a]@));
                                            assert(in_prefix(socket_ids@, k as int, pre[a]@));
                                            let j = choose|j: int|
                                                0 <= j < k && socket_ids@[j]@ == pre[a]@;
                                            assert(chars_lt(
                                                socket_ids@[j]@,
                                                socket_ids@[k as int]@,
                                            ));
                                        } else {
                                            assert(chars_lt(pre[a]@, pre[b]@));
                                        }
                                    }
                                    assert(views_set(recipients@) =~= Set::new(
                                        |s: Seq<char>|
                                            in_prefix(socket_ids@, k as int + 1, s) && old(
                                                self,
                                            ).has_conn(s),
                                    )) by {
                                        assert forall|s: Seq<char>|
                                            in_prefix(socket_ids@, k as int + 1, s) && old(
                                                self,
                                            ).has_conn(s) implies views_set(recipients@).contains(
                                            s,
                                        ) by {
                                            if s != sk {
                                                let j = choose|j: int|
                                                    0 <= j < k + 1 && socket_ids@[j]@ == s;
                                                assert(in_prefix(socket_ids@, k as int, s));
                                            }
                                        }
                                    }
                                }
                            } else {
                                proof {
                                    assert(views_set(recipients@) =~= Set::new(
                                        |s: Seq<char>|
                                            in_prefix(socket_ids@, k as int + 1, s) && old(
                                                self,
                                            ).has_conn(s),
                                    )) by {
                                        assert forall|s: Seq<char>|
                                            in_prefix(socket_ids@, k as int + 1, s) && old(
                                                self,
                                            ).has_conn(s) implies views_set(recipients@).contains(
                                            s,
                                        ) by {
                                            assert(s != sk);
                                            let j = choose|j: int|
                                                0 <= j < k + 1 && socket_ids@[j]@ == s;
                                            assert(in_prefix(socket_ids@, k as int, s));
                                        }
                                        assert forall|s: Seq<char>|
                                            views_set(recipients@).contains(s) implies in_prefix(
                                            socket_ids@,
                                            k as int + 1,
                                            s,
                                        ) && old(self).has_conn(s) by {
                                            assert(in_prefix(socket_ids@, k as int, s));
                                            let j = choose|j: int|
                                                0 <= j < k && socket_ids@[j]@ == s;
                                            assert(0 <= j < k + 1 && socket_ids@[j]@ == s);
                                        }
                                    }
                                }
                            }
                            k += 1;
                        }
                        proof {
                            assert(views_set(recipients@) =~= Set::new(
                                |s: Seq<char>|
                                    old(self).table().subscribed(s, event.topic@) && old(
                                        self,
                                    ).has_conn(s),
                            )) by {
                                assert forall|s: Seq<char>|
                                    in_prefix(socket_ids@, n as int, s) == views_set(
                                    socket_ids@,
                                ).contains(s) by {}
                            }
                        }
                        DispatcherOutcome::Broadcast { frame: Some(frame), recipients }
                    },
                }
            },
            DispatcherMessage::RegisterWS { socket_id, addr } => {
                match self.find_conn(&socket_id) {
                    None => {
                        self.ws_table.push((socket_id, addr));
                        proof {
                            let n = old(self).num_conns();
                            assert(forall|i: int|
                                0 <= i < n ==> self.conn_key_at(i) == old(self).conn_key_at(i)
                                    && self.ws_table@[i].1 == old(self).ws_table@[i].1);
                            assert(self.conns_distinct());
                            self.lemma_conn_at(n);
                            assert forall|k2: Seq<char>| #[trigger] old(self).has_conn(k2)
                                implies self.has_conn(k2) && (k2 != old(self).conn_key_at(n)
                                ==> self.conns()[k2] == old(self).conns()[k2]) by {
                                let i = choose|i: int|
                                    0 <= i < n && old(self).conn_key_at(i) == k2;
                                old(self).lemma_conn_at(i);
                                self.lemma_conn_at(i);
                            }
                            assert forall|k2: Seq<char>| self.has_conn(k2) && k2 != self.conn_key_at(
                                n,
                            ) implies old(self).has_conn(k2) by {
                                let i = choose|i: int|
                                    0 <= i < self.num_conns() && self.conn_key_at(i) == k2;
                                assert(i < n);
                            }
                            assert(self.conns() =~= old(self).conns().insert(
                                self.conn_key_at(n),
                                self.ws_table@[n].1,
                            ));
                        }
                        DispatcherOutcome::Registered
                    },
                    Some(i) => {
                        let _old_entry = self.ws_table.remove(i);
                        self.ws_table.insert(i, (socket_id, addr));
                        proof {
                            let n = old(self).num_conns();
                            assert(self.ws_table@ =~= old(self).ws_table@.update(
                                i as int,
                                self.ws_table@[i as int],
                            ));
                            assert(forall|a: int|
                                0 <= a < n && a != i ==> self.conn_key_at(a) == old(
                                    self,
                                ).conn_key_at(a) && self.ws_table@[a].1 == old(
                                    self,
                                ).ws_table@[a].1);
                            assert(self.conn_key_at(i as int) == old(self).conn_key_at(i as int));
                            assert(self.conns_distinct());
                            self.lemma_conn_at(i as int);
                            assert forall|k2: Seq<char>| #[trigger] old(self).has_conn(k2) && k2
                                != self.conn_key_at(i as int) implies self.has_conn(k2)
                                && self.conns()[k2] == old(self).conns()[k2] by {
                                let a = choose|a: int|
                                    0 <= a < n && old(self).conn_key_at(a) == k2;
                                old(self).lemma_conn_at(a);
                                self.lemma_conn_at(a);
                            }
                            assert forall|k2: Seq<char>| self.has_conn(k2) implies old(
                                self,
                            ).has_conn(k2) by {
                                let a = choose|a: int|
                                    0 <= a < self.num_conns() && self.conn_key_at(a) == k2;
                            }
                            assert(self.conns() =~= old(self).conns().insert(
                                self.conn_key_at(i as int),
                                self.ws_table@[i as int].1,
                            ));
                        }
                        DispatcherOutcome::Registered
                    },
                }
            },
            DispatcherMessage::Subscribe { socket_id, topic, request_id } => {
                if self.has_connection(&socket_id) {
                    let row_change = self.subscription_table.insert(&socket_id, &topic);
                    proof {
                        Self::lemma_conns_frame(*old(self), *self);
                    }
                    DispatcherOutcome::Subscribed {
                        notify_broker: row_change,
                        reply: Some(
                            WsMessage::Subscription { topic, request_id, subscribed: true },
                        ),
                    }
                } else {
                    DispatcherOutcome::Subscribed { notify_broker: false, reply: None }
                }
            },
            DispatcherMessage::Unsubscribe { socket_id, topic, request_id } => {
                if self.has_connection(&socket_id) {
                    let row_change = self.subscription_table.remove(&socket_id, &topic);
                    proof {
                        Self::lemma_conns_frame(*old(self), *self);
                    }
                    DispatcherOutcome::Unsubscribed {
                        notify_broker: row_change,
                        reply: Some(
                            WsMessage::Subscription { topic, request_id, subscribed: false },
                        ),
                    }
                } else {
                    DispatcherOutcome::Unsubscribed { notify_broker: false, reply: None }
                }
            },
            DispatcherMessage::Close(socket_id) => {
                let topics = self.subscription_table.remove_all(&socket_id);
                proof {
                    Self::lemma_conns_frame(*old(self), *self);
                }
                DispatcherOutcome::Closed { notify_topics: topics }
            },
            DispatcherMessage::Reset => DispatcherOutcome::ResetRequested,
        }
    }
}

} // verus!
