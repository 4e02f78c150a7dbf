//! The subscription registry and the process-wide database.
//!
//! The registry maps each client identifier to its channel subscriptions;
//! it is authoritative, and each connection keeps a local copy of its own
//! row for delivery decisions. The database bundles the registry with the
//! expiring table that both value stores share.

use vstd::prelude::*;
use crate::assoc::{
    lemma_map_of_contains, lemma_map_of_index, lemma_remove_entry, lemma_set_entry, map_of,
    unique_keys,
};
use crate::strutil::str_eq;
use crate::table::Table;

verus! {

/// How a client subscribes to one channel.
#[derive(Clone, Copy, Debug, PartialEq, Eq, Hash, Structural)]
pub struct SubscriptionOptions {
    /// Deliver to this client the envelopes it sent itself on the channel.
    pub subscribe_to_self: bool,
}

impl View for SubscriptionOptions {
    type V = SubscriptionOptions;

    open spec fn view(&self) -> SubscriptionOptions {
        *self
    }
}

/// One client's subscriptions: channel name to options.
pub struct ChannelSubs {
    entries: Vec<(String, SubscriptionOptions)>,
}

impl View for ChannelSubs {
    type V = Map<Seq<char>, SubscriptionOptions>;

    closed spec fn view(&self) -> Map<Seq<char>, SubscriptionOptions> {
        map_of(self.entries@)
    }
}

impl ChannelSubs {
    /// The channels inside are pairwise distinct.
    pub closed spec fn wf(&self) -> bool {
        unique_keys(self.entries@)
    }

    /// The mapping held: channel name to options.
    pub open spec fn as_map(&self) -> Map<Seq<char>, SubscriptionOptions> {
        self.view()
    }

    /// No subscriptions.
    pub fn new() -> (r: ChannelSubs)
        ensures
            r.wf(),
            r.as_map() == Map::<Seq<char>, SubscriptionOptions>::empty(),
    {
        ChannelSubs { entries: Vec::new() }
    }

    /// The position of the entry for `channel`, if any.
    fn find(&self, channel: &str) -> (r: Option<usize>)
        ensures
            match r {
                Some(i) => i < self.entries@.len() && self.entries@[i as int].0@ == channel@,
                None => forall|i: int|
                    0 <= i < self.entries@.len() ==> self.entries@[i].0@ != channel@,
            },
    {
        let n: usize = self.entries.len();
        let mut i: usize = 0;
        while i < n
            invariant
                i <= n,
                n == self.entries@.len(),
                forall|j: int| 0 <= j < i ==> self.entries@[j].0@ != channel@,
            decreases n - i,
        {
            if str_eq(self.entries[i].0.as_str(), channel) {
                return Some(i);
            }
            i += 1;
        }
        None
    }

    /// Subscribe to a channel, or change how it is subscribed.
    pub fn upsert(&mut self, channel: String, options: SubscriptionOptions)
        requires
            old(self).wf(),
        ensures
            final(self).wf(),
            final(self).as_map() == old(self).as_map().insert(channel@, options),
    {
        let ghost old_entries = self.entries@;
        let ghost gc = channel@;
        match self.find(channel.as_str()) {
            Some(i) => {
                self.entries.set(i, (channel, options));
                proof {
                    lemma_set_entry(old_entries, i as int, self.entries@);
                }
            },
            None => {
                self.entries.push((channel, options));
                proof {
                    assert(self.entries@.drop_last() =~= old_entries);
                    lemma_map_of_contains(old_entries, gc);
                }
            },
        }
    }

    /// Drop a channel; nothing changes when it was not subscribed.
    pub fn remove(&mut self, channel: &str)
        requires
            old(self).wf(),
        ensures
            final(self).wf(),
            final(self).as_map() == old(self).as_map().remove(channel@),
    {
        let ghost old_entries = self.entries@;
        match self.find(channel) {
            Some(i) => {
                self.entries.remove(i);
                proof {
                    lemma_remove_entry(old_entries, i as int);
                    assert(self.entries@ =~= old_entries.remove(i as int));
                }
            },
            None => {
                proof {
                    lemma_map_of_contains(old_entries, channel@);
                    assert(self.as_map() =~= self.as_map().remove(channel@));
                }
            },
        }
    }

    /// The options under which `channel` is subscribed, if it is.
    pub fn lookup(&self, channel: &str) -> (r: Option<SubscriptionOptions>)
        requires
            self.wf(),
        ensures
            match r {
                Some(o) => self.as_map().dom().contains(channel@)
                    && self.as_map()[channel@] == o,
                None => !self.as_map().dom().contains(channel@),
            },
    {
        proof {
            lemma_map_of_contains(self.entries@, channel@);
        }
        match self.find(channel) {
            Some(i) => {
                proof {
                    lemma_map_of_index(self.entries@, i as int);
                }
                Some(self.entries[i].1)
            },
            None => None,
        }
    }

    /// A copy of the row: the views agree.
    pub fn duplicate(&self) -> (r: ChannelSubs)
        requires
            self.wf(),
        ensures
            r.wf(),
            r.as_map() == self.as_map(),
    {
        let n: usize = self.entries.len();
        let mut out: Vec<(String, SubscriptionOptions)> = Vec::new();
        let mut i: usize = 0;
        while i < n
            invariant
                i <= n,
                n == self.entries@.len(),
                out@ == self.entries@.subrange(0, i as int),
            decreases n - i,
        {
            let entry = &self.entries[i];
            out.push((entry.0.clone(), entry.1));
            proof {
                assert(out@ =~= self.entries@.subrange(0, i + 1 as int));
            }
            i += 1;
        }
        proof {
            assert(out@ =~= self.entries@);
        }
        ChannelSubs { entries: out }
    }
}

/// The process-wide state the connections share: the subscription
/// registry and the expiring table.
pub struct Database {
    /// The registry rows: client identifier to that client's subscriptions.
    pub subscriptions: Vec<(String, ChannelSubs)>,
    /// The expiring key-value table behind the set and get commands.
    pub db: Table,
}

/// The subscriptions a registry row stands for: the client's row when it
/// has one, and no subscriptions otherwise.
pub open spec fn row_or_empty(
    subs: Map<Seq<char>, Map<Seq<char>, SubscriptionOptions>>,
    client: Seq<char>,
) -> Map<Seq<char>, SubscriptionOptions> {
    if subs.dom().contains(client) {
        subs[client]
    } else {
        Map::empty()
    }
}

impl Database {
    /// Client keys are pairwise distinct, every row is well formed, and so
    /// is the table.
    pub open spec fn wf(&self) -> bool {
        unique_keys(self.subscriptions@) && (forall|i: int|
            0 <= i < self.subscriptions@.len() ==> (#[trigger] self.subscriptions@[i].1).wf())
            && self.db.wf()
    }

    /// The registry: client identifier to channel subscriptions.
    pub open spec fn subs(&self) -> Map<Seq<char>, Map<Seq<char>, SubscriptionOptions>> {
        map_of(self.subscriptions@)
    }

    /// An empty database.
    pub fn new() -> (r: Database)
        ensures
            r.wf(),
            r.subs() == Map::<Seq<char>, Map<Seq<char>, SubscriptionOptions>>::empty(),
            r.db.as_map() == Map::<Seq<char>, crate::db::ValueV>::empty(),
    {
        Database { subscriptions: Vec::new(), db: Table::new() }
    }

    /// The position of the row for `client_id`, if any.
    fn find(&self, client_id: &str) -> (r: Option<usize>)
        ensures
            match r {
                Some(i) => i < self.subscriptions@.len()
                    && self.subscriptions@[i as int].0@ == client_id@,
                None => forall|i: int|
                    0 <= i < self.subscriptions@.len()
                        ==> self.subscriptions@[i].0@ != client_id@,
            },
    {
        let n: usize = self.subscriptions.len();
        let mut i: usize = 0;
        while i < n
            invariant
                i <= n,
                n == self.subscriptions@.len(),
                forall|j: int| 0 <= j < i ==> self.subscriptions@[j].0@ != client_id@,
            decreases n - i,
        {
            if str_eq(self.subscriptions[i].0.as_str(), client_id) {
                return Some(i);
            }
            i += 1;
        }
        None
    }

    /// Subscribe a client to a channel, creating its row when absent.
    pub fn add_subscription(
        &mut self,
        client_id: String,
        channel: String,
        subscription: SubscriptionOptions,
    )
        requires
            old(self).wf(),
        ensures
            final(self).wf(),
            final(self).db == old(self).db,
            final(self).subs() == old(self).subs().insert(
                client_id@,
                row_or_empty(old(self).subs(), client_id@).insert(channel@, subscription),
            ),
    {
        let ghost old_entries = self.subscriptions@;
        let ghost gc = client_id@;
        match self.find(client_id.as_str()) {
            Some(i) => {
                proof {
                    lemma_map_of_index(self.subscriptions@, i as int);
                }
                let row = &mut self.subscriptions[i].1;
                row.upsert(channel, subscription);
                proof {
                    lemma_set_entry(old_entries, i as int, self.subscriptions@);
                }
            },
            None => {
                let mut row = ChannelSubs::new();
                row.upsert(channel, subscription);
                self.subscriptions.push((client_id, row));
                proof {
                    assert(self.subscriptions@.drop_last() =~= old_entries);
                    lemma_map_of_contains(old_entries, gc);
                    assert(row_or_empty(map_of(old_entries), gc) =~= Map::empty());
                }
            },
        }
    }

    /// Unsubscribe a client from a channel; a no-op when it was not
    /// subscribed. Touching an absent client creates its row empty, so
    /// every client named by a command afterwards has a row.
    pub fn remove_subscription(&mut self, client_id: String, channel: &str)
        requires
            old(self).wf(),
        ensures
            final(self).wf(),
            final(self).db == old(self).db,
            final(self).subs() == old(self).subs().insert(
                client_id@,
                row_or_empty(old(self).subs(), client_id@).remove(channel@),
            ),
    {
        let ghost old_entries = self.subscriptions@;
        let ghost gc = client_id@;
        match self.find(client_id.as_str()) {
            Some(i) => {
                proof {
                    lemma_map_of_index(self.subscriptions@, i as int);
                }
                let row = &mut self.subscriptions[i].1;
                row.remove(channel);
                proof {
                    lemma_set_entry(old_entries, i as int, self.subscriptions@);
                }
            },
            None => {
                let mut row = ChannelSubs::new();
                row.remove(channel);
                self.subscriptions.push((client_id, row));
                proof {
                    assert(self.subscriptions@.drop_last() =~= old_entries);
                    lemma_map_of_contains(old_entries, gc);
                    assert(row_or_empty(map_of(old_entries), gc).remove(channel@)
                        =~= Map::<Seq<char>, SubscriptionOptions>::empty().remove(channel@));
                }
            },
        }
    }

    /// A point-in-time copy of a client's subscriptions; empty when the
    /// client has none.
    pub fn get_subscriptions(&self, client_id: &str) -> (r: ChannelSubs)
        requires
            self.wf(),
        ensures
            r.wf(),
            r.as_map() == row_or_empty(self.subs(), client_id@),
    {
        proof {
            lemma_map_of_contains(self.subscriptions@, client_id@);
        }
        match self.find(client_id) {
            Some(i) => {
                proof {
                    lemma_map_of_index(self.subscriptions@, i as int);
                }
                self.subscriptions[i].1.duplicate()
            },
            None => ChannelSubs::new(),
        }
    }

    /// Drop a client's whole row.
    pub fn clear_subscriptions(&mut self, client_id: &str)
        requires
            old(self).wf(),
        ensures
            final(self).wf(),
            final(self).db == old(self).db,
            final(self).subs() == old(self).subs().remove(client_id@),
    {
        let ghost old_entries = self.subscriptions@;
        match self.find(client_id) {
            Some(i) => {
                self.subscriptions.remove(i);
                proof {
                    lemma_remove_entry(old_entries, i as int);
                    assert(self.subscriptions@ =~= old_entries.remove(i as int));
                }
            },
            None => {
                proof {
                    lemma_map_of_contains(old_entries, client_id@);
                    assert(self.subs() =~= self.subs().remove(client_id@));
                }
            },
        }
    }
}

impl Default for Database {
    /// An empty database.
    fn default() -> (r: Database)
        ensures
            r.wf(),
            r.subs() == Map::<Seq<char>, Map<Seq<char>, SubscriptionOptions>>::empty(),
            r.db.as_map() == Map::<Seq<char>, crate::db::ValueV>::empty(),
    {
        Database::new()
    }
}

/// Unsubscribing from a channel a client does not hold leaves every
/// client's subscriptions as they were.
pub proof fn lemma_unsubscribe_absent_noop(
    subs: Map<Seq<char>, Map<Seq<char>, SubscriptionOptions>>,
    client: Seq<char>,
    channel: Seq<char>,
)
    requires
        !row_or_empty(subs, client).dom().contains(channel),
    ensures
        forall|c: Seq<char>| row_or_empty(
            #[trigger] subs.insert(client, row_or_empty(subs, client).remove(channel)),
            c,
        ) == row_or_empty(subs, c),
{
    let after = subs.insert(client, row_or_empty(subs, client).remove(channel));
    assert forall|c: Seq<char>| row_or_empty(after, c) == row_or_empty(subs, c) by {
        if c == client {
            assert(row_or_empty(subs, client).remove(channel) =~= row_or_empty(subs, client));
        }
    }
}

/// Repeating the same subscribe leaves the registry exactly as one
/// subscribe leaves it.
pub proof fn lemma_subscribe_idempotent(
    subs: Map<Seq<char>, Map<Seq<char>, SubscriptionOptions>>,
    client: Seq<char>,
    channel: Seq<char>,
    options: SubscriptionOptions,
)
    ensures
        ({
            let once = subs.insert(
                client,
                row_or_empty(subs, client).insert(channel, options),
            );
            let twice = once.insert(
                client,
                row_or_empty(once, client).insert(channel, options),
            );
            twice == once
        }),
{
    let once = subs.insert(client, row_or_empty(subs, client).insert(channel, options));
    let twice = once.insert(client, row_or_empty(once, client).insert(channel, options));
    assert(row_or_empty(once, client).insert(channel, options) =~= row_or_empty(subs, client)
        .insert(channel, options));
    assert(twice =~= once);
}

} // verus!
