//! The broadcast hub: the subscriber set, registration, and the fan-out of
//! one notification to every subscriber, pruning the ones whose connection
//! is gone.
use vstd::prelude::*;

verus! {

use vstd::utf8::encode_utf8;

/// A file-change event, duplicated to each subscriber on broadcast.
#[derive(Clone)]
pub enum Notification {
    FileCreated(String),
    FileUpdated(String),
    FileRemoved(String),
    FileRenamed(String, String),
}

/// The channel sender type of std, opaque to the verifier.
#[verifier::external_type_specification]
#[verifier::external_body]
#[verifier::reject_recursive_types(T)]
pub struct ExSender<T>(std::sync::mpsc::Sender<T>);

/// A one-way handle through which the hub delivers notifications to one
/// connection's pusher.
pub struct Subscription {
    sender: std::sync::mpsc::Sender<Notification>,
}

impl Subscription {
    /// Wrap the outbound end of a connection's notification channel.
    pub fn new(sender: std::sync::mpsc::Sender<Notification>) -> (r: Subscription) {
        Subscription { sender }
    }
}

/// Relies on `std::sync::mpsc::Sender::send` (std): delivery fails exactly
/// when the receiving end is gone; the notification is cloned for this
/// subscriber. Nothing is promised of the outcome.
#[verifier::external_body]
fn try_deliver(sub: &Subscription, n: &Notification) -> (ok: bool) {
    sub.sender.send(n.clone()).is_ok()
}

/// The wire payload pushed for a notification: one of four fixed 12-byte
/// ASCII messages.
pub open spec fn message_bytes(n: Notification) -> Seq<u8> {
    match n {
        Notification::FileCreated(_) => encode_utf8("File created"@),
        Notification::FileUpdated(_) => encode_utf8("File updated"@),
        Notification::FileRemoved(_) => encode_utf8("File removed"@),
        Notification::FileRenamed(_, _) => encode_utf8("File renamed"@),
    }
}

/// The payload pushed for a notification.
pub fn notification_message(n: &Notification) -> (r: Vec<u8>)
    ensures
        r@ == message_bytes(*n),
{
    let mut v: Vec<u8> = Vec::new();
    match n {
        Notification::FileCreated(_) => {
            crate::text::push_bytes(&mut v, "File created".as_bytes());
        },
        Notification::FileUpdated(_) => {
            crate::text::push_bytes(&mut v, "File updated".as_bytes());
        },
        Notification::FileRemoved(_) => {
            crate::text::push_bytes(&mut v, "File removed".as_bytes());
        },
        Notification::FileRenamed(_, _) => {
            crate::text::push_bytes(&mut v, "File renamed".as_bytes());
        },
    }
    v
}

/// The indices are strictly ascending.
pub open spec fn strictly_ascending(idxs: Seq<usize>) -> bool {
    forall|a: int, b: int| 0 <= a < b < idxs.len() ==> idxs[a] < idxs[b]
}

/// The subscribers left after removing the entries at the given indices,
/// highest first, so that removals never shift the indices still to be
/// removed.
pub open spec fn remove_all(s: Seq<Subscription>, idxs: Seq<usize>) -> Seq<Subscription>
    decreases idxs.len(),
{
    if idxs.len() == 0 {
        s
    } else {
        remove_all(s.remove(idxs.last() as int), idxs.drop_last())
    }
}

/// Strictly ascending indices grow at least as fast as their positions.
proof fn lemma_ascending_gap(idxs: Seq<usize>, a: int, b: int)
    requires
        strictly_ascending(idxs),
        0 <= a <= b < idxs.len(),
    ensures
        idxs[b] >= idxs[a] + (b - a),
    decreases b - a,
{
    if a < b {
        lemma_ascending_gap(idxs, a, b - 1);
    }
}

/// Removing ascending in-range indices removes exactly that many entries.
pub proof fn lemma_remove_all_len(s: Seq<Subscription>, idxs: Seq<usize>)
    requires
        strictly_ascending(idxs),
        forall|a: int| 0 <= a < idxs.len() ==> idxs[a] < s.len(),
    ensures
        remove_all(s, idxs).len() == s.len() - idxs.len(),
    decreases idxs.len(),
{
    if idxs.len() > 0 {
        let s2 = s.remove(idxs.last() as int);
        let rest = idxs.drop_last();
        assert forall|a: int| 0 <= a < rest.len() implies rest[a] < s2.len() by {
            assert(rest[a] == idxs[a]);
            assert(idxs[a] < idxs[idxs.len() - 1]);
        }
        assert(strictly_ascending(rest)) by {
            assert(forall|a: int, b: int| 0 <= a < b < rest.len() ==> rest[a] == idxs[a]
                && rest[b] == idxs[b]);
        }
        lemma_remove_all_len(s2, rest);
    }
}

/// The broadcast hub's subscriber set. The hub is owned by a single actor:
/// registration and broadcast both run in its execution context.
pub struct Hub {
    subscribers: Vec<Subscription>,
}

impl View for Hub {
    type V = Seq<Subscription>;

    closed spec fn view(&self) -> Seq<Subscription> {
        self.subscribers@
    }
}

impl Hub {
    /// A hub with no subscribers.
    pub fn new() -> (r: Hub)
        ensures
            r@.len() == 0,
    {
        Hub { subscribers: Vec::new() }
    }

    /// Number of live subscriptions.
    pub fn subscriber_count(&self) -> (r: usize)
        ensures
            r == self@.len(),
    {
        self.subscribers.len()
    }

    /// Append a subscription to the set; registration happens exactly once
    /// per connection.
    pub fn register(&mut self, sub: Subscription)
        ensures
            final(self)@ == old(self)@.push(sub),
    {
        self.subscribers.push(sub);
    }

    /// Remove the marked entries, highest index first, so earlier removals
    /// never invalidate later indices.
    fn remove_marked(&mut self, marked: &Vec<usize>)
        requires
            strictly_ascending(marked@),
            forall|a: int| 0 <= a < marked@.len() ==> marked@[a] < old(self)@.len(),
        ensures
            final(self)@ == remove_all(old(self)@, marked@),
    {
        let mut j: usize = marked.len();
        proof {
            assert(marked@.subrange(0, marked@.len() as int) =~= marked@);
        }
        while j > 0
            invariant
                j <= marked@.len(),
                strictly_ascending(marked@),
                forall|a: int| 0 <= a < marked@.len() ==> marked@[a] < old(self)@.len(),
                self.subscribers@.len() == old(self)@.len() - (marked@.len() - j),
                remove_all(self.subscribers@, marked@.subrange(0, j as int)) == remove_all(
                    old(self)@,
                    marked@,
                ),
            decreases j,
        {
            j = j - 1;
            let idx = marked[j];
            proof {
                if j < marked@.len() - 1 {
                    lemma_ascending_gap(marked@, j as int, marked@.len() - 1);
                }
                assert(idx < self.subscribers@.len());
                let pre = marked@.subrange(0, j + 1);
                assert(pre.last() == marked@[j as int]);
                assert(pre.drop_last() =~= marked@.subrange(0, j as int));
            }
            self.subscribers.remove(idx);
        }
        proof {
            assert(marked@.subrange(0, 0) =~= Seq::<usize>::empty());
        }
    }

    /// Broadcast one notification: attempt delivery to every subscriber in
    /// order, then prune exactly those whose delivery failed, in descending
    /// index order. Every subscriber is attempted once, so the deliveries
    /// and the pruned subscribers together account for the whole set.
    pub fn broadcast(&mut self, n: &Notification) -> (delivered: usize)
        ensures
            exists|marked: Seq<usize>|
                {
                    &&& strictly_ascending(marked)
                    &&& (forall|a: int| 0 <= a < marked.len() ==> marked[a] < old(self)@.len())
                    &&& final(self)@ == remove_all(old(self)@, marked)
                    &&& delivered + marked.len() == old(self)@.len()
                    &&& final(self)@.len() == delivered
                },
    {
        let mut marked: Vec<usize> = Vec::new();
        let mut delivered: usize = 0;
        let n_subs = self.subscribers.len();
        let mut i: usize = 0;
        while i < n_subs
            invariant
                i <= n_subs,
                n_subs == self.subscribers@.len(),
                self.subscribers@ == old(self)@,
                strictly_ascending(marked@),
                forall|a: int| 0 <= a < marked@.len() ==> marked@[a] < i,
                delivered + marked@.len() == i,
            decreases n_subs - i,
        {
            let ok = try_deliver(&self.subscribers[i], n);
            if ok {
                delivered = delivered + 1;
            } else {
                let ghost prev = marked@;
                marked.push(i);
                proof {
                    assert forall|a: int, b: int| 0 <= a < b < marked@.len() implies marked@[a]
                        < marked@[b] by {
                        if b < prev.len() {
                            assert(marked@[a] == prev[a] && marked@[b] == prev[b]);
                        } else {
                            assert(marked@[b] == i as usize);
                            assert(marked@[a] == prev[a]);
                        }
                    }
                }
            }
            i = i + 1;
        }
        proof {
            lemma_remove_all_len(old(self)@, marked@);
        }
        self.remove_marked(&marked);
        proof {
            let w = marked@;
            assert({
                &&& strictly_ascending(w)
                &&& (forall|a: int| 0 <= a < w.len() ==> w[a] < old(self)@.len())
                &&& self@ == remove_all(old(self)@, w)
                &&& delivered + w.len() == old(self)@.len()
                &&& self@.len() == delivered
            });
        }
        delivered
    }
}

} // verus!
