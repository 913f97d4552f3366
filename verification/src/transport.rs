//! The outbound queue: messages that wait to be sent.

use crate::address::PeerAddress;
use crate::codec::encode_spec;
use crate::message::{Message, OutgoingMessage, OutgoingMessageView};
use std::collections::VecDeque;
use vstd::prelude::*;

verus! {

/// The items of `items` whose mark in `picked` is `want`, in their order.
///
/// `picked` marks the items place by place. With `want` true this is what a
/// drain takes out; with `want` false it is what the drain leaves behind.
pub open spec fn select<T>(items: Seq<T>, picked: Seq<bool>, want: bool) -> Seq<T>
    decreases items.len(),
{
    if items.len() == 0 || picked.len() != items.len() {
        Seq::empty()
    } else {
        let rest = select(items.drop_last(), picked.drop_last(), want);
        if picked.last() == want {
            rest.push(items.last())
        } else {
            rest
        }
    }
}

/// Whether `picked` marks each item as the predicate `wanted` judges it.
pub open spec fn marks_follow<T>(items: Seq<T>, picked: Seq<bool>, wanted: spec_fn(T) -> bool) -> bool {
    &&& picked.len() == items.len()
    &&& forall|i: int| 0 <= i < items.len() ==> #[trigger] picked[i] == wanted(items[i])
}

/// A drain loses nothing and invents nothing: what it takes out and what
/// it leaves behind are together exactly what was queued.
pub proof fn lemma_select_partition<T>(items: Seq<T>, picked: Seq<bool>)
    requires
        picked.len() == items.len(),
    ensures
        select(items, picked, true).len() + select(items, picked, false).len() == items.len(),
        select(items, picked, true).to_multiset().add(select(items, picked, false).to_multiset())
            == items.to_multiset(),
    decreases items.len(),
{
    broadcast use vstd::seq_lib::group_to_multiset_ensures;

    if items.len() > 0 {
        let head = items.drop_last();
        lemma_select_partition(head, picked.drop_last());
        assert(head.push(items.last()) =~= items);
        assert(select(items, picked, true).to_multiset().add(
            select(items, picked, false).to_multiset(),
        ) =~= items.to_multiset());
    } else {
        assert(select(items, picked, true).to_multiset().add(
            select(items, picked, false).to_multiset(),
        ) =~= items.to_multiset());
    }
}

/// Where every item is picked, everything is taken, in the order in which
/// it was queued, and nothing is left.
pub proof fn lemma_select_all<T>(items: Seq<T>, picked: Seq<bool>)
    requires
        picked.len() == items.len(),
        forall|i: int| 0 <= i < picked.len() ==> #[trigger] picked[i],
    ensures
        select(items, picked, true) == items,
        select(items, picked, false) == Seq::<T>::empty(),
    decreases items.len(),
{
    if items.len() > 0 {
        lemma_select_all(items.drop_last(), picked.drop_last());
        assert(items.drop_last().push(items.last()) =~= items);
    }
}

/// Where no item is picked, nothing is taken and everything is left as it
/// was.
pub proof fn lemma_select_none<T>(items: Seq<T>, picked: Seq<bool>)
    requires
        picked.len() == items.len(),
        forall|i: int| 0 <= i < picked.len() ==> !#[trigger] picked[i],
    ensures
        select(items, picked, true) == Seq::<T>::empty(),
        select(items, picked, false) == items,
    decreases items.len(),
{
    if items.len() > 0 {
        lemma_select_none(items.drop_last(), picked.drop_last());
        assert(items.drop_last().push(items.last()) =~= items);
    }
}

/// From an empty queue nothing is taken and nothing is left, whatever the
/// marks.
pub proof fn lemma_select_empty<T>(picked: Seq<bool>, want: bool)
    ensures
        select(Seq::<T>::empty(), picked, want) == Seq::<T>::empty(),
{
}

/// With marks that follow a predicate, what is taken is what the predicate
/// accepts and what is left is what it turns down, each in the order of
/// the queue.
pub proof fn lemma_select_by_predicate<T>(
    items: Seq<T>,
    picked: Seq<bool>,
    wanted: spec_fn(T) -> bool,
)
    requires
        marks_follow(items, picked, wanted),
    ensures
        select(items, picked, true) == items.filter(wanted),
        select(items, picked, false) == items.filter(|item: T| !wanted(item)),
    decreases items.len(),
{
    reveal(Seq::filter);
    if items.len() > 0 {
        lemma_select_by_predicate(items.drop_last(), picked.drop_last(), wanted);
    }
}

/// Draining twice by the same predicate: the second drain finds nothing to
/// take and leaves the queue as the first one left it.
pub proof fn lemma_drain_twice<T>(
    items: Seq<T>,
    wanted: spec_fn(T) -> bool,
    first: Seq<bool>,
    second: Seq<bool>,
)
    requires
        marks_follow(items, first, wanted),
        marks_follow(select(items, first, false), second, wanted),
    ensures
        select(select(items, first, false), second, true) == Seq::<T>::empty(),
        select(select(items, first, false), second, false) == select(items, first, false),
{
    let left = select(items, first, false);
    lemma_select_by_predicate(items, first, wanted);
    assert forall|i: int| 0 <= i < left.len() implies !#[trigger] second[i] by {
        let unwanted = |item: T| !wanted(item);
        items.lemma_filter_pred(unwanted, i);
        assert(unwanted(left[i]));
    }
    lemma_select_none(left, second);
}

/// The queue of messages to be sent, and the interface through which the
/// rest of the program sends.
///
/// Messages leave in the order in which they came. Nothing leaves the queue
/// but through [`Transport::drain_messages_to_send`].
pub struct Transport {
    messages: VecDeque<OutgoingMessage>,
}

impl View for Transport {
    type V = Seq<OutgoingMessage>;

    /// The queued messages, oldest first.
    closed spec fn view(&self) -> Seq<OutgoingMessage> {
        self.messages@
    }
}

impl Transport {
    /// Creates a new `Transport`, with nothing queued.
    #[must_use]
    pub fn new() -> (transport: Self)
        ensures
            transport@ == Seq::<OutgoingMessage>::empty(),
    {
        Self { messages: VecDeque::new() }
    }

    /// Encodes `message` for the socket's connected peer and puts it at the
    /// end of the queue, to be sent on the next tick.
    pub fn send(&mut self, message: Message)
        ensures
            final(self)@.len() == old(self)@.len() + 1,
            final(self)@.drop_last() == old(self)@,
            final(self)@.last()@ == (OutgoingMessageView {
                payload: encode_spec(message),
                destination: None,
            }),
    {
        let message = OutgoingMessage::new(message);
        self.messages.push_back(message);
        assert(self@.drop_last() =~= old(self)@);
    }

    /// Encodes `message` for the peer at `addr` and puts it at the end of
    /// the queue, to be sent on the next tick.
    pub fn send_to(&mut self, addr: PeerAddress, message: Message)
        ensures
            final(self)@.len() == old(self)@.len() + 1,
            final(self)@.drop_last() == old(self)@,
            final(self)@.last()@ == (OutgoingMessageView {
                payload: encode_spec(message),
                destination: Some(addr),
            }),
    {
        let message = OutgoingMessage::new_directed(addr, message);
        self.messages.push_back(message);
        assert(self@.drop_last() =~= old(self)@);
    }

    /// Returns true if there are messages enqueued to be sent.
    #[must_use]
    pub fn has_messages(&self) -> (pending: bool)
        ensures
            pending <==> self@.len() > 0,
    {
        self.messages.len() != 0
    }

    /// Returns a reference to the owned messages.
    #[must_use]
    pub fn get_messages(&self) -> (messages: &VecDeque<OutgoingMessage>)
        ensures
            messages@ == self@,
    {
        &self.messages
    }

    /// Drains the messages queue and returns the drained messages. The
    /// filter allows you to drain only messages that adhere to your filter.
    /// This might be useful in a scenario like draining messages with a
    /// particular urgency requirement.
    ///
    /// The filter is asked once about each queued message, oldest first.
    /// The messages it accepts leave the queue and are returned in their
    /// order; the others stay, in their order.
    pub fn drain_messages_to_send(
        &mut self,
        filter: impl Fn(&OutgoingMessage) -> bool,
    ) -> (drained: Vec<OutgoingMessage>)
        requires
            forall|i: int|
                0 <= i < old(self)@.len() ==> call_requires(filter, (&#[trigger] old(self)@[i],)),
        ensures
            exists|picked: Seq<bool>|
                {
                    &&& picked.len() == old(self)@.len()
                    &&& forall|i: int|
                        0 <= i < picked.len() ==> call_ensures(
                            filter,
                            (&old(self)@[i],),
                            #[trigger] picked[i],
                        )
                    &&& drained@ == select(old(self)@, picked, true)
                    &&& final(self)@ == select(old(self)@, picked, false)
                },
            drained@.len() + final(self)@.len() == old(self)@.len(),
    {
        let mut drained: Vec<OutgoingMessage> = Vec::with_capacity(self.messages.len());
        let ghost before = self@;
        let ghost mut picked: Seq<bool> = Seq::empty();
        let mut i: usize = 0;
        while i != self.messages.len()
            invariant
                before == old(self)@,
                picked.len() <= before.len(),
                forall|k: int| 0 <= k < before.len() ==> call_requires(filter, (&#[trigger] before[k],)),
                forall|k: int|
                    0 <= k < picked.len() ==> call_ensures(
                        filter,
                        (&before[k],),
                        #[trigger] picked[k],
                    ),
                drained@ == select(before.subrange(0, picked.len() as int), picked, true),
                i == select(before.subrange(0, picked.len() as int), picked, false).len(),
                self@ == select(before.subrange(0, picked.len() as int), picked, false)
                    + before.subrange(picked.len() as int, before.len() as int),
            decreases before.len() - picked.len(),
        {
            let ghost seen = before.subrange(0, picked.len() as int);
            let ghost next = before.subrange(0, picked.len() as int + 1);
            assert(self@[i as int] == before[picked.len() as int]);
            let take: bool = filter(&self.messages[i]);
            proof {
                assert(next.drop_last() =~= seen);
                assert(picked.push(take).drop_last() =~= picked);
                picked = picked.push(take);
            }
            if take {
                if let Some(m) = self.messages.remove(i) {
                    drained.push(m);
                }
            } else {
                i += 1;
            }
            assert(self@ =~= select(next, picked, false) + before.subrange(
                picked.len() as int,
                before.len() as int,
            ));
        }
        proof {
            assert(before.subrange(0, picked.len() as int) =~= before);
            assert(self@ =~= select(before, picked, false));
            lemma_select_partition(before, picked);
        }
        drained
    }
}

impl Default for Transport {
    fn default() -> (transport: Self)
        ensures
            transport@ == Seq::<OutgoingMessage>::empty(),
    {
        Self { messages: VecDeque::new() }
    }
}

} // verus!
