use vstd::prelude::*;
use crate::subscription_table::{distinct_views, sorted_views, views_set, SubscriptionTable};

verus! {

/// The broker's durable directory: which gateway instances (as `"host:port"`
/// texts) are subscribed to which topics, with the reverse index kept in
/// lockstep so `reset` stays cheap. Symmetric with the gateway's
/// SubscriptionTable but keyed by (target, topic).
pub struct DirectoryStore {
    entries: SubscriptionTable,
}

impl DirectoryStore {
    pub closed spec fn wf(self) -> bool {
        self.entries.wf()
    }

    pub closed spec fn topic_recorded(self, topic: Seq<char>) -> bool {
        self.entries.topic_present(topic)
    }

    /// The targets recorded for a topic; empty when the topic has no key.
    pub closed spec fn topic_targets(self, topic: Seq<char>) -> Set<Seq<char>> {
        if self.entries.topic_present(topic) {
            self.entries.topic_sockets()[topic]
        } else {
            Set::<Seq<char>>::empty()
        }
    }

    pub open spec fn registered(self, target: Seq<char>, topic: Seq<char>) -> bool {
        self.topic_targets(topic).contains(target)
    }

    pub fn new() -> (r: DirectoryStore)
        ensures
            r.wf(),
            forall|b: Seq<char>| #[trigger] r.topic_targets(b) == Set::<Seq<char>>::empty(),
            forall|b: Seq<char>| !(#[trigger] r.topic_recorded(b)),
    {
        DirectoryStore { entries: SubscriptionTable::new() }
    }

    /// Records the target under the topic and the topic under the target;
    /// adding an already-present member changes nothing, as in the store's
    /// set semantics.
    pub fn subscribe(&mut self, target: &String, topic: &String)
        requires
            old(self).wf(),
        ensures
            final(self).wf(),
            forall|b: Seq<char>| #[trigger]
                final(self).topic_targets(b) == if b == topic@ {
                    old(self).topic_targets(b).insert(target@)
                } else {
                    old(self).topic_targets(b)
                },
            forall|b: Seq<char>| #[trigger]
                final(self).topic_recorded(b) == (old(self).topic_recorded(b) || b == topic@),
    {
        self.entries.insert(target, topic);
    }

    /// Removes the pair from both sides; the topic's key disappears with its
    /// last member. Returns whether the key disappeared.
    pub fn unsubscribe(&mut self, target: &String, topic: &String) -> (removed_topic: bool)
        requires
            old(self).wf(),
        ensures
            final(self).wf(),
            removed_topic == (old(self).topic_targets(topic@) == set![target@]),
            forall|b: Seq<char>| #[trigger]
                final(self).topic_targets(b) == if b == topic@ {
                    old(self).topic_targets(b).remove(target@)
                } else {
                    old(self).topic_targets(b)
                },
            forall|b: Seq<char>| #[trigger]
                final(self).topic_recorded(b) == if b == topic@ {
                    old(self).topic_targets(b).remove(target@) != Set::<Seq<char>>::empty()
                } else {
                    old(self).topic_recorded(b)
                },
    {
        let removed_topic = self.entries.remove(target, topic);
        proof {
            if !old(self).topic_recorded(topic@) {
                assert(old(self).topic_targets(topic@) =~= Set::<Seq<char>>::empty());
                assert(old(self).topic_targets(topic@) != set![target@]) by {
                    assert(set![target@].contains(target@));
                }
                assert(old(self).topic_targets(topic@).remove(target@) =~= Set::<
                    Seq<char>,
                >::empty());
            }
        }
        removed_topic
    }

    /// Drops every directory entry recorded for the target: its reverse
    /// index key, and its membership in every topic's set. After the call no
    /// topic lists the target, however stale the entries were.
    pub fn reset(&mut self, target: &String)
        requires
            old(self).wf(),
        ensures
            final(self).wf(),
            forall|b: Seq<char>| !final(self).registered(target@, b),
            forall|b: Seq<char>| #[trigger]
                final(self).topic_targets(b) == old(self).topic_targets(b).remove(target@),
            forall|b: Seq<char>| #[trigger]
                final(self).topic_recorded(b) == (old(self).topic_targets(b).remove(target@)
                    != Set::<Seq<char>>::empty()),
    {
        let _removed = self.entries.remove_all(target);
        proof {
            let t0 = target@;
            self.entries.lemma_bidirectional_consistent();
            assert forall|b: Seq<char>| #[trigger]
                final(self).topic_recorded(b) == (old(self).topic_targets(b).remove(t0) != Set::<
                Seq<char>,
            >::empty()) by {
                if self.entries.topic_present(b) {
                    let s = choose|s: Seq<char>| self.entries.subscribed(s, b);
                    assert(old(self).entries.subscribed(s, b) && s != t0);
                    assert(old(self).topic_targets(b).remove(t0).contains(s));
                } else {
                    if old(self).topic_targets(b).remove(t0) != Set::<Seq<char>>::empty() {
                        assert(exists|x: Seq<char>|
                            old(self).topic_targets(b).remove(t0).contains(x)) by {
                            if !(exists|x: Seq<char>|
                                old(self).topic_targets(b).remove(t0).contains(x)) {
                                assert(old(self).topic_targets(b).remove(t0) =~= Set::<
                                    Seq<char>,
                                >::empty());
                            }
                        }
                        let x = choose|x: Seq<char>|
                            old(self).topic_targets(b).remove(t0).contains(x);
                        assert(old(self).entries.subscribed(x, b));
                        assert(self.entries.subscribed(x, b));
                    }
                }
            }
            assert forall|b: Seq<char>| #[trigger]
                final(self).topic_targets(b) == old(self).topic_targets(b).remove(t0) by {
                assert forall|x: Seq<char>| self.topic_targets(b).contains(x)
                    == old(self).topic_targets(b).remove(t0).contains(x) by {
                    assert(self.topic_targets(b).contains(x) == self.entries.subscribed(x, b));
                    assert(old(self).topic_targets(b).contains(x) == old(self).entries.subscribed(
                        x,
                        b,
                    ));
                }
                assert(self.topic_targets(b) =~= old(self).topic_targets(b).remove(t0));
            }
        }
    }

    /// The targets currently recorded for the topic, each exactly once and
    /// in ascending lexicographic order, so the fan-out iterates
    /// deterministically; empty when the topic has no key.
    pub fn targets_for(&self, topic: &String) -> (targets: Vec<String>)
        requires
            self.wf(),
        ensures
            distinct_views(targets@),
            sorted_views(targets@),
            views_set(targets@) == self.topic_targets(topic@),
            !self.topic_recorded(topic@) ==> targets@.len() == 0,
    {
        let targets = self.entries.get(topic);
        proof {
            if !self.topic_recorded(topic@) && targets@.len() > 0 {
                assert(views_set(targets@).contains(targets@[0]@));
            }
        }
        targets
    }
}

} // verus!
