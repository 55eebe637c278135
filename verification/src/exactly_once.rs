//! What the parts amount to together: a client that a server cuts off again
//! and again hears every event exactly once, in order.

use crate::client::{
    a_cut_frame_is_not_heard, a_frame_is_heard_as_it_was_sent, all_handled, bytes_taken,
    chunks_do_not_matter, handled, lemma_one_handled, presented_by, LinkView, MessageView,
    Options,
};
use crate::cursor;
use crate::parse::{FrameView, ParserView};
use crate::protocol::{folded, opt_folded, EventView, PING, RESYNC};
use crate::ring::{self, Entry};
use crate::roundtrip::{between_frames, dispatch_of, hint_of, id_after};
use crate::server::log::{
    cursor_text, cursors_are_tokens, is_generation, issued_cursors_are_recognised, seq_behind,
    Published, Stored,
};
use crate::server::response::BuilderView;
use crate::session::opened_link;
use crate::testkit::frame_of;
use crate::text;
use vstd::prelude::*;

verus! {

/// How a server frames its events.
pub type Framing<E> = spec_fn(Entry<Stored<E>>) -> EventView;

/// What the profile asks of a frame for an entry: its `id:` is the cursor,
/// it has data, and its name is none of the profile's own.
pub open spec fn is_frame_for<E>(ev: EventView, e: Entry<Stored<E>>) -> bool {
    &&& ev.id == Some(e.payload.cursor@)
    &&& ev.data is Some
    &&& opt_folded(ev.name) != Some(PING@)
    &&& opt_folded(ev.name) != Some(RESYNC@)
}

/// Every entry is framed as the profile asks.
pub open spec fn frames_well<E>(framing: Framing<E>) -> bool {
    forall|e: Entry<Stored<E>>| is_frame_for(#[trigger] framing(e), e)
}

/// What goes out on a connection: the frame of an entry, or another frame.
pub enum Item<E> {
    Event(Entry<Stored<E>>),
    Other(EventView),
}

/// The frame of an item.
pub open spec fn frame_for<E>(framing: Framing<E>, item: Item<E>) -> EventView {
    match item {
        Item::Event(e) => framing(e),
        Item::Other(ev) => ev,
    }
}

/// A frame that carries no event and moves no cursor: a `ping`, or a frame
/// without data such as a `retry:` hint.
pub open spec fn is_quiet(ev: EventView) -> bool {
    &&& ev.id is None
    &&& ev.data is None || opt_folded(ev.name) == Some(PING@)
}

/// What goes out besides events is quiet.
pub open spec fn others_are_quiet<E>(items: Seq<Item<E>>) -> bool {
    forall|i: int|
        0 <= i < items.len() ==> ((#[trigger] items[i]) matches Item::Other(ev) ==> is_quiet(ev))
}

/// The bytes that go out for items.
pub open spec fn wire_of<E>(framing: Framing<E>, items: Seq<Item<E>>) -> Seq<u8>
    decreases items.len(),
{
    if items.len() == 0 {
        seq![]
    } else {
        wire_of(framing, items.drop_last()) + frame_for(framing, items.last()).encoded()
    }
}

/// The entries among items.
pub open spec fn events_in<E>(items: Seq<Item<E>>) -> Seq<Entry<Stored<E>>>
    decreases items.len(),
{
    if items.len() == 0 {
        seq![]
    } else {
        match items.last() {
            Item::Event(e) => events_in(items.drop_last()).push(e),
            Item::Other(_) => events_in(items.drop_last()),
        }
    }
}

/// What a subscriber hears of an entry: the data of its frame, under its
/// name and its cursor.
pub open spec fn message_for<E>(framing: Framing<E>, e: Entry<Stored<E>>) -> MessageView {
    MessageView::Event(
        FrameView {
            name: text::non_empty(opt_folded(framing(e).name)),
            data: text::joined(text::lines(framing(e).data->0)),
            id: Some(e.payload.cursor@),
        },
    )
}

/// What a subscriber hears of entries.
pub open spec fn heard_of<E>(framing: Framing<E>, entries: Seq<Entry<Stored<E>>>) -> Seq<
    MessageView,
> {
    entries.map_values(|e: Entry<Stored<E>>| message_for(framing, e))
}

/// The cursor after entries, when it was `last` before.
pub open spec fn cursor_after<E>(
    entries: Seq<Entry<Stored<E>>>,
    last: Option<Seq<char>>,
) -> Option<Seq<char>> {
    if entries.len() > 0 {
        Some(entries.last().payload.cursor@)
    } else {
        last
    }
}

/// Every cursor of the entries is a token.
pub open spec fn tokened<E>(entries: Seq<Entry<Stored<E>>>) -> bool {
    forall|i: int|
        0 <= i < entries.len() ==> cursor::is_token((#[trigger] entries[i]).payload.cursor@)
}

proof fn lemma_token_is_plain(token: Seq<char>)
    requires
        cursor::is_token(token),
    ensures
        folded(token) == token,
{
    assert forall|i: int| 0 <= i < token.len() implies folded(token)[i] == token[i] by {
        assert(cursor::unreserved(token[i]));
    }
    assert(folded(token) =~= token);
}

/// The frame of one entry is heard as that entry.
proof fn lemma_one_entry<E>(framing: Framing<E>, l: LinkView, e: Entry<Stored<E>>)
    requires
        frames_well(framing),
        between_frames(l.parser),
        cursor::is_token(e.payload.cursor@),
    ensures
        ({
            let heard = bytes_taken(l, framing(e).encoded());
            &&& heard.1 == seq![message_for(framing, e)]
            &&& heard.0.parser.last_event_id == Some(e.payload.cursor@)
            &&& between_frames(heard.0.parser)
        }),
{
    let ev = framing(e);
    assert(is_frame_for(framing(e), e));
    a_frame_is_heard_as_it_was_sent(l, ev);
    lemma_token_is_plain(e.payload.cursor@);
    let dispatch = dispatch_of(ev, l.parser.last_event_id);
    let hint = hint_of(ev);
    let begun = LinkView {
        parser: ParserView {
            at_start: false,
            last_event_id: id_after(ev, l.parser.last_event_id),
            ..l.parser
        },
        ..l
    };
    assert(dispatch =~= seq![dispatch[0]]);
    if hint.len() == 0 {
        assert(hint + dispatch =~= seq![dispatch[0]]);
        lemma_one_handled(begun, dispatch[0]);
    } else {
        assert(hint =~= seq![hint[0]]);
        let both = hint + dispatch;
        lemma_one_handled(begun, hint[0]);
        assert(both.drop_last() =~= hint);
        assert(both.last() == dispatch[0]);
        let hinted = all_handled(begun, hint);
        assert(all_handled(begun, both).1 == hinted.1 + handled(hinted.0, dispatch[0]).1);
        assert(hinted.1 + handled(hinted.0, dispatch[0]).1 =~= handled(
            hinted.0,
            dispatch[0],
        ).1);
    }
}

/// A quiet frame is heard as a `ping` or not at all, and leaves the cursor as
/// it was.
proof fn lemma_one_quiet(l: LinkView, ev: EventView)
    requires
        between_frames(l.parser),
        is_quiet(ev),
    ensures
        ({
            let heard = bytes_taken(l, ev.encoded());
            &&& heard.1 == seq![MessageView::Ping] || heard.1 == Seq::<MessageView>::empty()
            &&& heard.0.parser.last_event_id == l.parser.last_event_id
            &&& between_frames(heard.0.parser)
        }),
{
    reveal_strlit("ping");
    a_frame_is_heard_as_it_was_sent(l, ev);
    let dispatch = dispatch_of(ev, l.parser.last_event_id);
    let hint = hint_of(ev);
    let both = hint + dispatch;
    let begun = LinkView {
        parser: ParserView {
            at_start: false,
            last_event_id: id_after(ev, l.parser.last_event_id),
            ..l.parser
        },
        ..l
    };
    let none = Seq::<MessageView>::empty();
    assert(all_handled(begun, Seq::empty()) == (begun, none));
    let hinted = all_handled(begun, hint);
    if hint.len() > 0 {
        assert(hint =~= seq![hint[0]]);
        lemma_one_handled(begun, hint[0]);
    } else {
        assert(hint =~= Seq::empty());
    }
    assert(hinted.1 =~= none);
    if dispatch.len() > 0 {
        assert(dispatch =~= seq![dispatch[0]]);
        assert(both.drop_last() =~= hint);
        assert(both.last() == dispatch[0]);
        assert(none + handled(hinted.0, dispatch[0]).1 =~= handled(hinted.0, dispatch[0]).1);
    } else {
        assert(both =~= hint);
    }
}

/// The events among what a subscriber hears.
pub open spec fn events_among(messages: Seq<MessageView>) -> Seq<MessageView>
    decreases messages.len(),
{
    if messages.len() == 0 {
        seq![]
    } else if messages.last() is Event {
        events_among(messages.drop_last()).push(messages.last())
    } else {
        events_among(messages.drop_last())
    }
}

/// Whether nothing is heard but events and `ping`s.
pub open spec fn events_and_pings(messages: Seq<MessageView>) -> bool {
    forall|i: int|
        0 <= i < messages.len() ==> (#[trigger] messages[i]) is Event || messages[i] is Ping
}

proof fn lemma_events_among_concat(a: Seq<MessageView>, b: Seq<MessageView>)
    ensures
        events_among(a + b) == events_among(a) + events_among(b),
        events_and_pings(a) && events_and_pings(b) ==> events_and_pings(a + b),
    decreases b.len(),
{
    if b.len() == 0 {
        assert(a + b =~= a);
        assert(events_among(a) + events_among(b) =~= events_among(a));
    } else {
        lemma_events_among_concat(a, b.drop_last());
        assert((a + b).drop_last() =~= a + b.drop_last());
        assert((a + b).last() == b.last());
        assert(events_among(a + b) =~= events_among(a) + events_among(b));
    }
}

proof fn lemma_events_among_one(m: MessageView)
    ensures
        events_among(seq![m]) == if m is Event {
            seq![m]
        } else {
            Seq::<MessageView>::empty()
        },
{
    let one = seq![m];
    assert(one.drop_last() =~= Seq::<MessageView>::empty());
    assert(events_among(one.drop_last()) =~= Seq::<MessageView>::empty());
    assert(Seq::<MessageView>::empty().push(m) =~= one);
}

/// Whole frames are heard one for one: the events as they are, anything else
/// as a `ping` or not at all. They leave the cursor of the last event.
pub proof fn whole_frames_are_heard<E>(framing: Framing<E>, l: LinkView, items: Seq<Item<E>>)
    requires
        frames_well(framing),
        between_frames(l.parser),
        tokened(events_in(items)),
        others_are_quiet(items),
    ensures
        ({
            let heard = bytes_taken(l, wire_of(framing, items));
            &&& events_among(heard.1) == heard_of(framing, events_in(items))
            &&& events_and_pings(heard.1)
            &&& heard.0.parser.last_event_id == cursor_after(
                events_in(items),
                l.parser.last_event_id,
            )
            &&& between_frames(heard.0.parser)
        }),
    decreases items.len(),
{
    if items.len() == 0 {
        assert(heard_of(framing, events_in(items)) =~= seq![]);
    } else {
        let most = items.drop_last();
        let last = items.last();
        assert(items[items.len() - 1] == last);
        assert forall|i: int| 0 <= i < most.len() implies ((#[trigger] most[i]) matches Item::Other(
            ev,
        ) ==> is_quiet(ev)) by {
            assert(most[i] == items[i]);
        }
        assert forall|i: int| 0 <= i < events_in(most).len() implies cursor::is_token(
            (#[trigger] events_in(most)[i]).payload.cursor@,
        ) by {
            assert(events_in(most)[i] == events_in(items)[i]);
        }
        whole_frames_are_heard(framing, l, most);
        let mid = bytes_taken(l, wire_of(framing, most));
        let ev = frame_for(framing, last);
        let step = bytes_taken(mid.0, ev.encoded());
        chunks_do_not_matter(l, wire_of(framing, most), ev.encoded());
        lemma_events_among_concat(mid.1, step.1);
        match last {
            Item::Event(e) => {
                let all = events_in(items);
                assert(all[all.len() - 1] == e);
                lemma_one_entry(framing, mid.0, e);
                lemma_events_among_one(message_for(framing, e));
                assert(heard_of(framing, all) =~= heard_of(framing, events_in(most)) + seq![
                    message_for(framing, e),
                ]);
            },
            Item::Other(other) => {
                lemma_one_quiet(mid.0, other);
                lemma_events_among_one(MessageView::Ping);
                assert(heard_of(framing, events_in(most)) + Seq::<MessageView>::empty()
                    =~= heard_of(framing, events_in(most)));
            },
        }
    }
}

/// One connection and its end: what the server had to send, and where the
/// connection was cut — after `whole` frames and `part` bytes of the next, if
/// there is one.
pub struct Connection<E> {
    pub sent: Seq<Item<E>>,
    pub whole: int,
    pub part: int,
}

impl<E> Connection<E> {
    /// The cut is somewhere in what was sent.
    pub open spec fn wf(self, framing: Framing<E>) -> bool {
        &&& 0 <= self.whole <= self.sent.len()
        &&& self.whole < self.sent.len() ==> 0 <= self.part < frame_for(
            framing,
            self.sent[self.whole],
        ).encoded().len()
    }

    /// The bytes that arrive.
    pub open spec fn arrived(self, framing: Framing<E>) -> Seq<u8> {
        wire_of(framing, self.sent.take(self.whole)) + if self.whole < self.sent.len() {
            frame_for(framing, self.sent[self.whole]).encoded().take(self.part)
        } else {
            seq![]
        }
    }

    /// The entries whose frames arrive whole.
    pub open spec fn delivered(self) -> Seq<Entry<Stored<E>>> {
        events_in(self.sent.take(self.whole))
    }

    /// The server sends what comes after a sequence, in order and leaving
    /// nothing out, for as long as the connection lasts; what it sends
    /// besides — a `retry:` hint, a `ping` — is quiet.
    pub open spec fn serves(self, all: Seq<Entry<Stored<E>>>, seq: u64) -> bool {
        &&& events_in(self.sent).is_prefix_of(ring::after(all, seq))
        &&& others_are_quiet(self.sent)
    }
}

/// Wherever bytes that go out are cut, it is after some whole frames and part
/// of the next.
pub proof fn a_cut_is_between_or_inside_frames<E>(
    framing: Framing<E>,
    sent: Seq<Item<E>>,
    n: int,
) -> (c: Connection<E>)
    requires
        0 <= n <= wire_of(framing, sent).len(),
    ensures
        c.sent == sent,
        c.wf(framing),
        c.arrived(framing) == wire_of(framing, sent).take(n),
    decreases sent.len(),
{
    let all = wire_of(framing, sent);
    if n == all.len() {
        let c = Connection { sent, whole: sent.len() as int, part: 0 };
        assert(sent.take(sent.len() as int) =~= sent);
        assert(c.arrived(framing) =~= all.take(n));
        c
    } else {
        let most = sent.drop_last();
        let before = wire_of(framing, most);
        let k = sent.len() - 1;
        assert(sent.take(k) =~= most);
        if n >= before.len() {
            let c = Connection { sent, whole: k, part: n - before.len() };
            assert(c.arrived(framing) =~= all.take(n));
            c
        } else {
            let d = a_cut_is_between_or_inside_frames(framing, most, n);
            let c = Connection { sent, whole: d.whole, part: d.part };
            assert(sent.take(d.whole) =~= most.take(d.whole));
            assert(all.take(n) =~= before.take(n));
            if d.whole == most.len() {
                assert(most.take(d.whole) =~= most);
                assert(d.arrived(framing) =~= before);
            }
            c
        }
    }
}

proof fn lemma_delivered_is_prefix<E>(items: Seq<Item<E>>, k: int)
    requires
        0 <= k <= items.len(),
    ensures
        events_in(items.take(k)).is_prefix_of(events_in(items)),
    decreases items.len() - k,
{
    if k == items.len() {
        assert(items.take(k) =~= items);
    } else {
        lemma_delivered_is_prefix(items, k + 1);
        assert(items.take(k + 1).drop_last() =~= items.take(k));
        let a = events_in(items.take(k));
        let b = events_in(items.take(k + 1));
        assert(a.is_prefix_of(b)) by {
            assert(a =~= b.subrange(0, a.len() as int));
        }
        assert(a =~= events_in(items).subrange(0, a.len() as int));
    }
}

/// What a subscriber hears over connections, one after the other, and where
/// it then stands. Attempts that fail in between leave no mark: an opened
/// stream starts over but for the cursor and the hints.
pub open spec fn heard_over<E>(
    framing: Framing<E>,
    options: Options,
    connections: Seq<Connection<E>>,
) -> (LinkView, Seq<MessageView>)
    decreases connections.len(),
{
    if connections.len() == 0 {
        (LinkView::fresh(options), seq![])
    } else {
        let before = heard_over(framing, options, connections.drop_last());
        let heard = bytes_taken(
            opened_link(before.0, options),
            connections.last().arrived(framing),
        );
        (heard.0, before.1 + heard.1)
    }
}

/// Where a request asks a server to go on: after the sequence of its cursor,
/// or at `start` when it has none.
pub open spec fn asked_from(
    generation: Seq<char>,
    start: u64,
    cursor: Option<Seq<char>>,
) -> Option<u64> {
    match cursor {
        Some(token) => seq_behind(generation, token),
        None => Some(start),
    }
}

/// Every connection is served from the cursor that its request presented.
pub open spec fn all_served<E>(
    framing: Framing<E>,
    options: Options,
    all: Seq<Entry<Stored<E>>>,
    generation: Seq<char>,
    start: u64,
    connections: Seq<Connection<E>>,
) -> bool
    decreases connections.len(),
{
    connections.len() > 0 ==> {
        let most = connections.drop_last();
        &&& all_served(framing, options, all, generation, start, most)
        &&& connections.last().wf(framing)
        &&& asked_from(
            generation,
            start,
            presented_by(heard_over(framing, options, most).0, options),
        ) matches Some(seq) && connections.last().serves(all, seq)
    }
}

/// How many events are delivered over connections.
pub open spec fn delivered_over<E>(connections: Seq<Connection<E>>) -> nat
    decreases connections.len(),
{
    if connections.len() == 0 {
        0
    } else {
        delivered_over(connections.drop_last()) + connections.last().delivered().len()
    }
}

/// One connection of a client that has heard `n` of the events: it hears the
/// next ones, and its cursor is that of the last.
proof fn lemma_one_connection<E>(
    framing: Framing<E>,
    l: LinkView,
    all: Seq<Entry<Stored<E>>>,
    generation: Seq<char>,
    seq: u64,
    c: Connection<E>,
)
    requires
        frames_well(framing),
        is_generation(generation),
        forall|i: int|
            0 <= i < all.len() ==> (#[trigger] all[i]).payload.cursor@ == cursor_text(
                generation,
                all[i].seq,
            ),
        between_frames(l.parser),
        c.wf(framing),
        c.serves(all, seq),
    ensures
        ({
            let heard = bytes_taken(l, c.arrived(framing));
            &&& c.delivered().is_prefix_of(ring::after(all, seq))
            &&& events_among(heard.1) == heard_of(framing, c.delivered())
            &&& events_and_pings(heard.1)
            &&& heard.0.parser.last_event_id == cursor_after(
                c.delivered(),
                l.parser.last_event_id,
            )
        }),
{
    let following = ring::after(all, seq);
    let whole = c.sent.take(c.whole);
    let delivered = c.delivered();
    lemma_delivered_is_prefix(c.sent, c.whole);
    assert(delivered =~= following.subrange(0, delivered.len() as int));
    ring::what_follows_was_there(all, seq);
    assert forall|i: int| 0 <= i < delivered.len() implies cursor::is_token(
        (#[trigger] delivered[i]).payload.cursor@,
    ) by {
        assert(delivered[i] == following[i]);
        let j = choose|j: int| 0 <= j < all.len() && all[j] == following[i];
        assert(all[j].payload.cursor@ == cursor_text(generation, all[j].seq));
        cursors_are_tokens(generation, all[j].seq);
    }
    assert forall|i: int| 0 <= i < whole.len() implies ((#[trigger] whole[i]) matches Item::Other(
        ev,
    ) ==> is_quiet(ev)) by {
        assert(whole[i] == c.sent[i]);
    }
    whole_frames_are_heard(framing, l, whole);
    let mid = bytes_taken(l, wire_of(framing, whole));
    if c.whole < c.sent.len() {
        let ev = frame_for(framing, c.sent[c.whole]);
        a_cut_frame_is_not_heard(mid.0, ev, c.part);
        chunks_do_not_matter(l, wire_of(framing, whole), ev.encoded().take(c.part));
        assert(mid.1 + Seq::<MessageView>::empty() =~= mid.1);
    } else {
        assert(c.arrived(framing) =~= wire_of(framing, whole));
    }
}

/// Every event exactly once across cuts. `all` is what a server's log takes
/// in, and a new client joins it after `start` (a client that is cut off
/// before its first event joins again: `start` is where it joined when the
/// first event reached it). Let its connections be cut again and again,
/// anywhere — between frames, inside one, or in the `retry:` hint and the
/// `ping` that open a stream — and each be served from the cursor that the
/// client presents. Over all of them the client has heard exactly as many
/// events as were delivered whole: the first ones after `start`, each once
/// and in order, and besides them nothing but `ping`s. Its cursor is that of
/// the last one, and what a server sends for it next are exactly the events
/// that it has not heard.
pub proof fn every_event_exactly_once_across_cuts<E>(
    framing: Framing<E>,
    options: Options,
    all: Seq<Entry<Stored<E>>>,
    generation: Seq<char>,
    start: u64,
    connections: Seq<Connection<E>>,
)
    requires
        options.resume,
        frames_well(framing),
        is_generation(generation),
        ring::ascending(all),
        forall|i: int|
            0 <= i < all.len() ==> (#[trigger] all[i]).payload.cursor@ == cursor_text(
                generation,
                all[i].seq,
            ),
        all_served(framing, options, all, generation, start, connections),
    ensures
        ({
            let sent = ring::after(all, start);
            let total = delivered_over(connections) as int;
            let heard = heard_over(framing, options, connections);
            let cursor = heard.0.parser.last_event_id;
            &&& total <= sent.len()
            &&& events_among(heard.1) == heard_of(framing, sent.take(total))
            &&& events_and_pings(heard.1)
            &&& cursor == if total > 0 {
                Some(cursor_text(generation, sent[total - 1].seq))
            } else {
                None
            }
            &&& asked_from(generation, start, cursor) matches Some(next) && ring::after(all, next)
                == sent.skip(total)
        }),
    decreases connections.len(),
{
    let sent = ring::after(all, start);
    let total = delivered_over(connections) as int;
    let heard = heard_over(framing, options, connections);
    if connections.len() == 0 {
        assert(heard_of(framing, sent.take(0)) =~= Seq::<MessageView>::empty());
        assert(sent.skip(0) =~= sent);
    } else {
        let most = connections.drop_last();
        let c = connections.last();
        every_event_exactly_once_across_cuts(framing, options, all, generation, start, most);
        let n = delivered_over(most) as int;
        let before = heard_over(framing, options, most);
        let cursor = before.0.parser.last_event_id;
        let seq = asked_from(generation, start, cursor)->0;
        let l = opened_link(before.0, options);
        if n > 0 {
            assert(cursor_text(generation, sent[n - 1].seq).len() > 0);
        }
        assert(l.parser.last_event_id == cursor);
        lemma_one_connection(framing, l, all, generation, seq, c);
        let delivered = c.delivered();
        let following = sent.skip(n);
        assert(ring::after(all, seq) == following);
        assert(delivered =~= following.subrange(0, delivered.len() as int));
        assert(sent.take(total) =~= sent.take(n) + delivered);
        assert(heard_of(framing, sent.take(total)) =~= heard_of(framing, sent.take(n)) + heard_of(
            framing,
            delivered,
        ));
        let step = bytes_taken(l, c.arrived(framing));
        lemma_events_among_concat(before.1, step.1);
        if delivered.len() > 0 {
            assert(delivered.last() == sent[total - 1]);
            ring::what_follows_was_there(all, start);
            let j = choose|j: int| 0 <= j < all.len() && all[j] == sent[total - 1];
            assert(all[j].payload.cursor@ == cursor_text(generation, all[j].seq));
        }
        if total > 0 {
            ring::what_follows_can_be_taken_up(all, start, total);
            issued_cursors_are_recognised(generation, sent[total - 1].seq);
        } else {
            assert(sent.skip(0) =~= sent);
        }
    }
}

/// What opens a response that needs no `resync` is quiet, and so is every
/// keep-alive.
pub proof fn openings_are_quiet(b: BuilderView, draw: u64)
    requires
        b.head.len() == 0,
    ensures
        forall|i: int| 0 <= i < b.opening(draw).len() ==> is_quiet(#[trigger] b.opening(draw)[i]),
        is_quiet(EventView::ping(b.ping())),
{
    reveal_strlit("ping");
    assert(folded(PING@) =~= PING@);
}

/// How the server of the testkit frames its events.
pub open spec fn ticks() -> Framing<u64> {
    |e: Entry<Stored<u64>>|
        frame_of(Ok(Published { cursor: Some(e.payload.cursor), event: e.payload.event }))
}

/// The server of the testkit frames its events as the profile asks, and
/// their numbers are what is heard.
pub proof fn ticks_frame_well(e: Entry<Stored<u64>>)
    ensures
        frames_well(ticks()),
        message_for(ticks(), e) == MessageView::Event(
            FrameView {
                name: Some("tick"@),
                data: text::decimal(e.payload.event as nat),
                id: Some(e.payload.cursor@),
            },
        ),
{
    reveal_strlit("tick");
    reveal_strlit("ping");
    reveal_strlit("resync");
    assert(folded("tick"@) =~= "tick"@);
    assert("tick"@[0] != PING@[0]);
    assert("tick"@.len() != RESYNC@.len());
    let data = text::decimal(e.payload.event as nat);
    text::lemma_decimal(e.payload.event as nat);
    assert forall|i: int| 0 <= i < data.len() implies data[i] != '\r' by {
        assert(text::is_digit(data[i]));
    }
    text::joined_lines_are_the_text(data);
}

} // verus!
