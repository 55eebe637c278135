//! Per-topic rings of events, bounded by count and age: what every log in
//! memory is made of.

use crate::time::Duration;
use std::collections::VecDeque;
use vstd::hash_map::StringHashMap;
use vstd::prelude::*;

verus! {

/// One event in a ring.
pub struct Entry<P> {
    /// Its place in the log.
    pub seq: u64,
    /// When it was appended.
    pub at: Duration,
    /// The payload.
    pub payload: P,
}

/// A topic: what its ring holds, and what was ever appended to it.
#[verifier::ext_equal]
pub struct TopicView<P> {
    /// The entries still held, oldest first.
    pub ring: Seq<Entry<P>>,
    /// Highest sequence ever dropped from this ring — a cursor below it
    /// has lost events.
    pub trimmed_to: u64,
    /// Every entry the topic ever took, oldest first.
    pub history: Seq<Entry<P>>,
}

/// Sequences ascend, without a repeat, from 1.
pub open spec fn ascending<P>(s: Seq<Entry<P>>) -> bool {
    &&& forall|i: int, j: int| 0 <= i < j < s.len() ==> s[i].seq < s[j].seq
    &&& forall|i: int| 0 <= i < s.len() ==> (#[trigger] s[i]).seq > 0
}

/// The entries after a sequence, in order.
pub open spec fn after<P>(s: Seq<Entry<P>>, seq: u64) -> Seq<Entry<P>>
    decreases s.len(),
{
    if s.len() == 0 {
        Seq::empty()
    } else if s.last().seq > seq {
        after(s.drop_last(), seq).push(s.last())
    } else {
        after(s.drop_last(), seq)
    }
}

impl<P> TopicView<P> {
    /// A topic that never saw an event.
    pub open spec fn empty() -> TopicView<P> {
        TopicView { ring: Seq::empty(), trimmed_to: 0, history: Seq::empty() }
    }

    /// How many entries were dropped.
    pub open spec fn dropped(self) -> int {
        self.history.len() - self.ring.len()
    }

    /// The ring is the end of the history, and the mark names the last entry
    /// that is not in it.
    pub open spec fn wf(self) -> bool {
        &&& 0 <= self.dropped()
        &&& self.ring == self.history.skip(self.dropped())
        &&& self.trimmed_to == if self.dropped() == 0 {
            0
        } else {
            self.history[self.dropped() - 1].seq
        }
        &&& ascending(self.history)
    }

    /// The topic with one more entry.
    pub open spec fn appended(self, entry: Entry<P>) -> TopicView<P> {
        TopicView {
            ring: self.ring.push(entry),
            trimmed_to: self.trimmed_to,
            history: self.history.push(entry),
        }
    }

    /// Whether the oldest entry has to go: there are more than `capacity`,
    /// or it is older than `ttl`.
    pub open spec fn over(self, capacity: usize, ttl: Duration, now: Duration) -> bool {
        self.ring.len() > capacity || (self.ring.len() > 0 && now@ - self.ring[0].at@ > ttl@)
    }

    /// The topic without its oldest entry.
    pub open spec fn without_first(self) -> TopicView<P> {
        TopicView {
            ring: self.ring.drop_first(),
            trimmed_to: if self.trimmed_to >= self.ring[0].seq {
                self.trimmed_to
            } else {
                self.ring[0].seq
            },
            history: self.history,
        }
    }

    /// The topic without what is over `capacity` or older than `ttl`.
    pub open spec fn trimmed(self, capacity: usize, ttl: Duration, now: Duration) -> TopicView<P>
        decreases self.ring.len(),
    {
        if self.over(capacity, ttl, now) && self.ring.len() > 0 {
            self.without_first().trimmed(capacity, ttl, now)
        } else {
            self
        }
    }

    /// Whether a replay from `seq` would miss an entry that was dropped.
    pub open spec fn lost_after(self, seq: u64) -> bool {
        seq < self.trimmed_to
    }
}

/// Dropping the oldest entry keeps a topic well formed.
proof fn lemma_without_first<P>(t: TopicView<P>)
    requires
        t.wf(),
        t.ring.len() > 0,
    ensures
        t.without_first().wf(),
{
    let d = t.dropped();
    assert(t.ring[0] == t.history[d]);
    assert(t.without_first().ring =~= t.history.skip(d + 1));
}

/// Trimming keeps a topic well formed and its history as it was; it only
/// drops.
pub proof fn trimming_drops_the_oldest<P>(
    t: TopicView<P>,
    capacity: usize,
    ttl: Duration,
    now: Duration,
)
    requires
        t.wf(),
    ensures
        t.trimmed(capacity, ttl, now).wf(),
        t.trimmed(capacity, ttl, now).history == t.history,
        t.trimmed(capacity, ttl, now).ring.len() <= t.ring.len(),
        t.trimmed(capacity, ttl, now).ring.len() <= capacity,
        forall|i: int|
            0 <= i < t.trimmed(capacity, ttl, now).ring.len() ==> t.trimmed(
                capacity,
                ttl,
                now,
            ).ring[i] == t.ring[i + t.ring.len() - t.trimmed(capacity, ttl, now).ring.len()],
    decreases t.ring.len(),
{
    if t.over(capacity, ttl, now) && t.ring.len() > 0 {
        lemma_without_first(t);
        trimming_drops_the_oldest(t.without_first(), capacity, ttl, now);
    }
}

/// Retention: a trim drops entries from the old end, and only such as have to
/// go — those that are not among the last `capacity`, or are older than `ttl`
/// — and what is then the oldest need not go. So an entry among the last
/// `capacity` that is not older than `ttl` is still there after the trim.
pub proof fn what_is_recent_and_young_is_kept<P>(
    t: TopicView<P>,
    capacity: usize,
    ttl: Duration,
    now: Duration,
)
    ensures
        ({
            let left = t.trimmed(capacity, ttl, now).ring;
            let gone = t.ring.len() - left.len();
            &&& 0 <= gone
            &&& left == t.ring.skip(gone)
            &&& forall|i: int|
                0 <= i < gone ==> t.ring.len() - i > capacity || now@ - (
                #[trigger] t.ring[i]).at@ > ttl@
            &&& gone < t.ring.len() ==> t.ring.len() - gone <= capacity && now@ - t.ring[gone].at@
                <= ttl@
            &&& forall|i: int|
                0 <= i < t.ring.len() && t.ring.len() - i <= capacity && now@ - (
                #[trigger] t.ring[i]).at@ <= ttl@ ==> gone <= i && left[i - gone] == t.ring[i]
        }),
    decreases t.ring.len(),
{
    let left = t.trimmed(capacity, ttl, now).ring;
    if t.over(capacity, ttl, now) && t.ring.len() > 0 {
        let next = t.without_first();
        what_is_recent_and_young_is_kept(next, capacity, ttl, now);
        let gone = t.ring.len() - left.len();
        assert(next.ring.skip(gone - 1) =~= t.ring.skip(gone));
        assert forall|i: int| 0 <= i < gone implies t.ring.len() - i > capacity || now@ - (
        #[trigger] t.ring[i]).at@ > ttl@ by {
            if i > 0 {
                assert(next.ring[i - 1] == t.ring[i]);
            }
        }
        if gone < t.ring.len() {
            assert(next.ring[gone - 1] == t.ring[gone]);
        }
    } else {
        assert(t.ring.skip(0) =~= t.ring);
    }
}

/// As entries are appended in the order of time, a trim keeps exactly those
/// that are among the last `capacity` and not older than `ttl`.
pub proof fn a_trim_keeps_what_is_recent_and_young<P>(
    t: TopicView<P>,
    capacity: usize,
    ttl: Duration,
    now: Duration,
    i: int,
)
    requires
        forall|a: int, b: int|
            0 <= a < b < t.ring.len() ==> (#[trigger] t.ring[a]).at@ <= (
            #[trigger] t.ring[b]).at@,
        0 <= i < t.ring.len(),
    ensures
        i >= t.ring.len() - t.trimmed(capacity, ttl, now).ring.len() <==> t.ring.len() - i
            <= capacity && now@ - t.ring[i].at@ <= ttl@,
{
    what_is_recent_and_young_is_kept(t, capacity, ttl, now);
    let gone = t.ring.len() - t.trimmed(capacity, ttl, now).ring.len();
    if i > gone {
        assert(t.ring[gone].at@ <= t.ring[i].at@);
    }
}

/// An entry above all others keeps a topic well formed.
pub proof fn appending_to_the_end<P>(t: TopicView<P>, entry: Entry<P>)
    requires
        t.wf(),
        entry.seq > 0,
        forall|i: int| 0 <= i < t.history.len() ==> (#[trigger] t.history[i]).seq < entry.seq,
    ensures
        t.appended(entry).wf(),
{
    assert(t.appended(entry).ring =~= t.appended(entry).history.skip(t.dropped()));
}

/// What comes after a sequence in two parts is what does in each.
pub proof fn after_in_two_parts<P>(a: Seq<Entry<P>>, b: Seq<Entry<P>>, seq: u64)
    ensures
        after(a + b, seq) == after(a, seq) + after(b, seq),
    decreases b.len(),
{
    if b.len() == 0 {
        assert(a + b =~= a);
        assert(after(a, seq) + after(b, seq) =~= after(a, seq));
    } else {
        assert((a + b).drop_last() =~= a + b.drop_last());
        assert((a + b).last() == b.last());
        after_in_two_parts(a, b.drop_last(), seq);
        assert(after(a, seq) + after(b, seq) =~= if b.last().seq > seq {
            (after(a, seq) + after(b.drop_last(), seq)).push(b.last())
        } else {
            after(a, seq) + after(b.drop_last(), seq)
        });
    }
}

/// Nothing comes after the highest sequence.
pub proof fn nothing_follows_the_highest<P>(s: Seq<Entry<P>>, seq: u64)
    requires
        forall|i: int| 0 <= i < s.len() ==> (#[trigger] s[i]).seq <= seq,
    ensures
        after(s, seq) == Seq::<Entry<P>>::empty(),
    decreases s.len(),
{
    if s.len() > 0 {
        assert(s.last() == s[s.len() - 1]);
        assert forall|i: int| 0 <= i < s.drop_last().len() implies (#[trigger] s.drop_last()[i]).seq
            <= seq by {
            assert(s.drop_last()[i] == s[i]);
        }
        nothing_follows_the_highest(s.drop_last(), seq);
    }
}

/// Everything comes after a sequence below all others.
pub proof fn everything_follows_a_lower<P>(s: Seq<Entry<P>>, seq: u64)
    requires
        forall|i: int| 0 <= i < s.len() ==> (#[trigger] s[i]).seq > seq,
    ensures
        after(s, seq) == s,
    decreases s.len(),
{
    if s.len() > 0 {
        assert(s.last() == s[s.len() - 1]);
        assert forall|i: int| 0 <= i < s.drop_last().len() implies (#[trigger] s.drop_last()[i]).seq
            > seq by {
            assert(s.drop_last()[i] == s[i]);
        }
        everything_follows_a_lower(s.drop_last(), seq);
        assert(s.drop_last().push(s.last()) =~= s);
    } else {
        assert(after(s, seq) =~= s);
    }
}

/// When anything comes after a sequence, the last of ascending entries does;
/// when nothing does, none is above it.
pub proof fn the_last_that_follows_is_the_last<P>(s: Seq<Entry<P>>, seq: u64)
    requires
        forall|i: int, j: int| 0 <= i < j < s.len() ==> s[i].seq < s[j].seq,
    ensures
        after(s, seq).len() > 0 ==> s.len() > 0 && after(s, seq).last() == s.last() && s.last().seq
            > seq && forall|i: int| 0 <= i < s.len() ==> (#[trigger] s[i]).seq <= s.last().seq,
        after(s, seq).len() == 0 ==> forall|i: int|
            0 <= i < s.len() ==> (#[trigger] s[i]).seq <= seq,
    decreases s.len(),
{
    if s.len() > 0 {
        assert(s.last() == s[s.len() - 1]);
        if s.last().seq <= seq {
            assert forall|i: int| 0 <= i < s.len() implies (#[trigger] s[i]).seq <= seq by {
                if i < s.len() - 1 {
                    assert(s[i].seq < s[s.len() - 1].seq);
                }
            }
            nothing_follows_the_highest(s, seq);
        }
    }
}

/// In ascending entries, what comes after a sequence is the end of them.
proof fn lemma_after_split<P>(s: Seq<Entry<P>>, k: int, seq: u64)
    requires
        0 <= k <= s.len(),
        forall|i: int, j: int| 0 <= i < j < s.len() ==> s[i].seq < s[j].seq,
        forall|i: int| 0 <= i < k ==> (#[trigger] s[i]).seq <= seq,
        k < s.len() ==> s[k].seq > seq,
    ensures
        after(s, seq) == s.skip(k),
{
    let low = s.take(k);
    let high = s.skip(k);
    assert(s =~= low + high);
    after_in_two_parts(low, high, seq);
    assert forall|i: int| 0 <= i < low.len() implies (#[trigger] low[i]).seq <= seq by {
        assert(low[i] == s[i]);
    }
    nothing_follows_the_highest(low, seq);
    assert forall|i: int| 0 <= i < high.len() implies (#[trigger] high[i]).seq > seq by {
        assert(high[i] == s[i + k]);
        if i > 0 {
            assert(s[k].seq < s[i + k].seq);
        }
    }
    everything_follows_a_lower(high, seq);
    assert(after(s, seq) =~= high);
}

/// Where, in ascending entries, those after a sequence begin.
proof fn split_point<P>(s: Seq<Entry<P>>, seq: u64) -> (k: int)
    requires
        forall|i: int, j: int| 0 <= i < j < s.len() ==> s[i].seq < s[j].seq,
    ensures
        0 <= k <= s.len(),
        forall|i: int| 0 <= i < k ==> (#[trigger] s[i]).seq <= seq,
        k < s.len() ==> s[k].seq > seq,
    decreases s.len(),
{
    if s.len() == 0 {
        0
    } else if s.last().seq > seq {
        let rest = s.drop_last();
        let k = split_point(rest, seq);
        assert forall|i: int| 0 <= i < k implies (#[trigger] s[i]).seq <= seq by {
            assert(rest[i] == s[i]);
        }
        if k < rest.len() {
            assert(rest[k] == s[k]);
        }
        k
    } else {
        assert forall|i: int| 0 <= i < s.len() implies (#[trigger] s[i]).seq <= seq by {
            if i < s.len() - 1 {
                assert(s[i].seq < s[s.len() - 1].seq);
            }
        }
        s.len() as int
    }
}

/// What comes after one of the entries after a sequence is the rest of them.
pub proof fn what_follows_can_be_taken_up<P>(s: Seq<Entry<P>>, seq: u64, n: int)
    requires
        forall|i: int, j: int| 0 <= i < j < s.len() ==> s[i].seq < s[j].seq,
        0 < n <= after(s, seq).len(),
    ensures
        after(s, after(s, seq)[n - 1].seq) == after(s, seq).skip(n),
{
    let k = split_point(s, seq);
    lemma_after_split(s, k, seq);
    let at = s[k + n - 1].seq;
    assert forall|i: int| 0 <= i < k + n implies (#[trigger] s[i]).seq <= at by {
        if i < k + n - 1 {
            assert(s[i].seq < s[k + n - 1].seq);
        }
    }
    if k + n < s.len() {
        assert(s[k + n - 1].seq < s[k + n].seq);
    }
    lemma_after_split(s, k + n, at);
    assert(s.skip(k).skip(n) =~= s.skip(k + n));
}

/// The first of what comes after a sequence is the least above it.
pub proof fn the_first_that_follows_is_the_least<P>(s: Seq<Entry<P>>, seq: u64)
    requires
        forall|i: int, j: int| 0 <= i < j < s.len() ==> s[i].seq < s[j].seq,
        after(s, seq).len() > 0,
    ensures
        s.contains(after(s, seq)[0]),
        after(s, seq)[0].seq > seq,
        forall|j: int|
            0 <= j < s.len() && (#[trigger] s[j]).seq > seq ==> after(s, seq)[0].seq <= s[j].seq,
{
    let k = split_point(s, seq);
    lemma_after_split(s, k, seq);
    assert(after(s, seq)[0] == s[k]);
}

/// An entry above a sequence is among those after it.
pub proof fn what_is_above_follows<P>(s: Seq<Entry<P>>, seq: u64, i: int)
    requires
        0 <= i < s.len(),
        s[i].seq > seq,
    ensures
        after(s, seq).contains(s[i]),
    decreases s.len(),
{
    let rest = after(s.drop_last(), seq);
    if i == s.len() - 1 {
        assert(after(s, seq)[rest.len() as int] == s[i]);
    } else {
        what_is_above_follows(s.drop_last(), seq, i);
        let j = choose|j: int| 0 <= j < rest.len() && rest[j] == s.drop_last()[i];
        assert(after(s, seq)[j] == s[i]);
    }
}

/// What comes after a sequence was there, is above the sequence, and is no
/// more than there was.
pub proof fn what_follows_was_there<P>(s: Seq<Entry<P>>, seq: u64)
    ensures
        after(s, seq).len() <= s.len(),
        forall|i: int|
            0 <= i < after(s, seq).len() ==> s.contains(#[trigger] after(s, seq)[i]) && after(
                s,
                seq,
            )[i].seq > seq,
    decreases s.len(),
{
    if s.len() > 0 {
        let rest = s.drop_last();
        what_follows_was_there(rest, seq);
        assert forall|i: int| 0 <= i < after(s, seq).len() implies s.contains(
            #[trigger] after(s, seq)[i],
        ) && after(s, seq)[i].seq > seq by {
            if i < after(rest, seq).len() {
                let e = after(rest, seq)[i];
                let j = choose|j: int| 0 <= j < rest.len() && rest[j] == e;
                assert(s[j] == e);
            } else {
                assert(s[s.len() - 1] == s.last());
            }
        }
    }
}

/// As long as nothing above a sequence was dropped, the ring holds every
/// entry that the topic ever took after it.
pub proof fn ring_holds_what_follows<P>(t: TopicView<P>, seq: u64)
    requires
        t.wf(),
        !t.lost_after(seq),
    ensures
        after(t.ring, seq) == after(t.history, seq),
{
    let d = t.dropped();
    let gone = t.history.take(d);
    assert(t.history =~= gone + t.ring);
    after_in_two_parts(gone, t.ring, seq);
    assert forall|i: int| 0 <= i < gone.len() implies (#[trigger] gone[i]).seq <= seq by {
        assert(gone[i] == t.history[i]);
        if i < d - 1 {
            assert(t.history[i].seq < t.history[d - 1].seq);
        }
    }
    nothing_follows_the_highest(gone, seq);
    assert(after(t.history, seq) =~= after(t.ring, seq));
}

/// Once an entry above a sequence was dropped, the ring lacks an entry that
/// the topic took after it.
pub proof fn a_drop_above_loses_an_entry<P>(t: TopicView<P>, seq: u64)
    requires
        t.wf(),
        t.lost_after(seq),
    ensures
        after(t.ring, seq).len() < after(t.history, seq).len(),
{
    let d = t.dropped();
    let gone = t.history.take(d);
    assert(t.history =~= gone + t.ring);
    after_in_two_parts(gone, t.ring, seq);
    assert(gone.last() == t.history[d - 1]);
}

/// The ring of one topic.
pub struct Topic<P> {
    ring: VecDeque<Entry<P>>,
    trimmed_to: u64,
    history: Ghost<Seq<Entry<P>>>,
}

impl<P> View for Topic<P> {
    type V = TopicView<P>;

    closed spec fn view(&self) -> TopicView<P> {
        TopicView {
            ring: self.ring@,
            trimmed_to: self.trimmed_to,
            history: self.history@,
        }
    }
}

impl<P> Topic<P> {
    /// A topic that never saw an event.
    pub fn new() -> (t: Self)
        ensures
            t@ == TopicView::<P>::empty(),
            t@.wf(),
    {
        let t = Topic { ring: VecDeque::new(), trimmed_to: 0, history: Ghost(Seq::empty()) };
        assert(t@.ring =~= t@.history.skip(0));
        t
    }

    /// Take one more entry.
    pub fn push(&mut self, entry: Entry<P>)
        requires
            old(self)@.wf(),
            entry.seq > 0,
            forall|i: int|
                0 <= i < old(self)@.history.len() ==> (#[trigger] old(self)@.history[i]).seq
                    < entry.seq,
        ensures
            final(self)@ == old(self)@.appended(entry),
            final(self)@.wf(),
    {
        proof {
            appending_to_the_end(self@, entry);
        }
        self.history = Ghost(self.history@.push(entry));
        self.ring.push_back(entry);
    }

    /// Drop what is over `capacity` or older than `ttl`; a cursor below
    /// what was dropped has lost events.
    pub fn trim_to(&mut self, capacity: usize, ttl: &Duration, now: &Duration)
        requires
            old(self)@.wf(),
        ensures
            final(self)@ == old(self)@.trimmed(capacity, *ttl, *now),
            final(self)@.wf(),
            final(self)@.history == old(self)@.history,
            final(self)@.ring.len() <= old(self)@.ring.len(),
    {
        proof {
            trimming_drops_the_oldest(self@, capacity, *ttl, *now);
        }
        let ghost goal = self@.trimmed(capacity, *ttl, *now);
        while self.ring.len() > 0 && (self.ring.len() > capacity || now.is_past(
            &self.ring[0].at,
            ttl,
        ))
            invariant
                self@.wf(),
                self@.trimmed(capacity, *ttl, *now) == goal,
                self@.history == old(self)@.history,
            decreases self.ring.len(),
        {
            proof {
                lemma_without_first(self@);
            }
            let ghost before = self@;
            if let Some(dropped) = self.ring.pop_front() {
                if dropped.seq > self.trimmed_to {
                    self.trimmed_to = dropped.seq;
                }
                assert(dropped == before.ring[0]);
                assert(self.ring@ =~= before.ring.drop_first());
                assert(self@ == before.without_first());
            }
        }
    }

    /// How many entries the ring holds.
    pub fn len(&self) -> (n: usize)
        ensures
            n == self@.ring.len(),
    {
        self.ring.len()
    }

    /// One entry of the ring.
    pub fn entry(&self, i: usize) -> (e: &Entry<P>)
        requires
            i < self@.ring.len(),
        ensures
            *e == self@.ring[i as int],
    {
        &self.ring[i]
    }

    /// Where the entries after `seq` begin.
    pub fn position_after(&self, seq: u64) -> (k: usize)
        requires
            self@.wf(),
        ensures
            k <= self@.ring.len(),
            after(self@.ring, seq) == self@.ring.skip(k as int),
    {
        let n: usize = self.ring.len();
        let mut k: usize = 0;
        while k < n && self.ring[k].seq <= seq
            invariant
                n == self@.ring.len(),
                k <= n,
                forall|i: int| 0 <= i < k ==> (#[trigger] self@.ring[i]).seq <= seq,
            decreases n - k,
        {
            k += 1;
        }
        proof {
            let t = self@;
            assert forall|i: int, j: int| 0 <= i < j < t.ring.len() implies t.ring[i].seq
                < t.ring[j].seq by {
                assert(t.history[i + t.dropped()].seq < t.history[j + t.dropped()].seq);
            }
            lemma_after_split(t.ring, k as int, seq);
        }
        k
    }

    /// Highest sequence ever dropped from this ring (0 before the first).
    pub fn trimmed_to(&self) -> (seq: u64)
        ensures
            seq == self@.trimmed_to,
    {
        self.trimmed_to
    }
}

/// What a topic is in a log: one that was never published to is empty.
pub open spec fn topic_in<P>(topics: Map<Seq<char>, TopicView<P>>, name: Seq<char>) -> TopicView<
    P,
> {
    if topics.contains_key(name) {
        topics[name]
    } else {
        TopicView::empty()
    }
}

/// How many entries the rings of some topics hold.
pub open spec fn held<P>(topics: Map<Seq<char>, TopicView<P>>, names: Seq<Seq<char>>) -> nat
    decreases names.len(),
{
    if names.len() == 0 {
        0
    } else {
        held(topics, names.drop_last()) + topics[names.last()].ring.len()
    }
}

/// Every topic trimmed.
pub open spec fn all_trimmed<P>(
    topics: Map<Seq<char>, TopicView<P>>,
    capacity: usize,
    ttl: Duration,
    now: Duration,
) -> Map<Seq<char>, TopicView<P>> {
    topics.map_values(|t: TopicView<P>| t.trimmed(capacity, ttl, now))
}

/// Rings no larger hold no more.
pub proof fn smaller_rings_hold_less<P>(
    a: Map<Seq<char>, TopicView<P>>,
    b: Map<Seq<char>, TopicView<P>>,
    names: Seq<Seq<char>>,
)
    requires
        forall|i: int| 0 <= i < names.len() ==> a[#[trigger] names[i]].ring.len() <= b[names[i]].ring.len(),
    ensures
        held(a, names) <= held(b, names),
    decreases names.len(),
{
    if names.len() > 0 {
        let rest = names.drop_last();
        assert forall|i: int| 0 <= i < rest.len() implies a[#[trigger] rest[i]].ring.len()
            <= b[rest[i]].ring.len() by {
            assert(rest[i] == names[i]);
        }
        assert(names.last() == names[names.len() - 1]);
        smaller_rings_hold_less(a, b, rest);
    }
}

/// The same rings hold the same.
proof fn lemma_held_same<P>(
    a: Map<Seq<char>, TopicView<P>>,
    b: Map<Seq<char>, TopicView<P>>,
    names: Seq<Seq<char>>,
)
    requires
        forall|i: int| 0 <= i < names.len() ==> a[#[trigger] names[i]].ring == b[names[i]].ring,
    ensures
        held(a, names) == held(b, names),
{
    smaller_rings_hold_less(a, b, names);
    smaller_rings_hold_less(b, a, names);
}

/// A ring one longer at most adds one.
proof fn lemma_held_plus_one<P>(
    a: Map<Seq<char>, TopicView<P>>,
    b: Map<Seq<char>, TopicView<P>>,
    names: Seq<Seq<char>>,
    at: int,
)
    requires
        0 <= at < names.len(),
        forall|i: int|
            0 <= i < names.len() && i != at ==> a[#[trigger] names[i]].ring == b[names[i]].ring,
        a[names[at]].ring.len() <= b[names[at]].ring.len() + 1,
    ensures
        held(a, names) <= held(b, names) + 1,
    decreases names.len(),
{
    let rest = names.drop_last();
    if at == names.len() - 1 {
        assert forall|i: int| 0 <= i < rest.len() implies a[#[trigger] rest[i]].ring
            == b[rest[i]].ring by {
            assert(rest[i] == names[i]);
        }
        lemma_held_same(a, b, rest);
    } else {
        assert forall|i: int| 0 <= i < rest.len() && i != at implies a[#[trigger] rest[i]].ring
            == b[rest[i]].ring by {
            assert(rest[i] == names[i]);
        }
        assert(rest[at] == names[at]);
        lemma_held_plus_one(a, b, rest, at);
        assert(names.last() == names[names.len() - 1]);
    }
}

/// The topics of a log, by name.
pub struct Topics<P> {
    index: StringHashMap<usize>,
    items: Vec<Topic<P>>,
    names: Ghost<Seq<Seq<char>>>,
}

impl<P> View for Topics<P> {
    type V = Map<Seq<char>, TopicView<P>>;

    closed spec fn view(&self) -> Map<Seq<char>, TopicView<P>> {
        Map::new(|name: Seq<char>| self.index@.contains_key(name), |name: Seq<char>|
            self.items@[self.index@[name] as int]@)
    }
}

impl<P> Topics<P> {
    /// The names of the topics, in the order of their first event.
    pub closed spec fn names(self) -> Seq<Seq<char>> {
        self.names@
    }

    /// Every topic is found under its name alone, and is well formed.
    pub closed spec fn wf(self) -> bool {
        &&& self.names@.len() == self.items@.len()
        &&& forall|i: int|
            0 <= i < self.names@.len() ==> self.index@.contains_key(#[trigger] self.names@[i])
                && self.index@[self.names@[i]] == i
        &&& forall|name: Seq<char>|
            #[trigger] self.index@.contains_key(name) ==> self.index@[name] < self.items@.len()
                && self.names@[self.index@[name] as int] == name
        &&& forall|i: int| 0 <= i < self.items@.len() ==> (#[trigger] self.items@[i])@.wf()
    }

    /// The names are those of the topics, each once; every topic is well
    /// formed.
    pub proof fn names_are_the_topics(self)
        requires
            self.wf(),
        ensures
            self.names().no_duplicates(),
            forall|i: int|
                0 <= i < self.names().len() ==> self@.contains_key(#[trigger] self.names()[i]),
            forall|name: Seq<char>| #[trigger] self@.contains_key(name) ==> self.names().contains(name),
            forall|name: Seq<char>| #[trigger] self@.contains_key(name) ==> self@[name].wf(),
    {
        assert forall|i: int, j: int|
            0 <= i < self.names().len() && 0 <= j < self.names().len() && i != j implies self.names()[i]
            != self.names()[j] by {
            assert(self.index@[self.names@[i]] == i);
            assert(self.index@[self.names@[j]] == j);
        }
        assert forall|name: Seq<char>| #[trigger] self@.contains_key(name) implies self.names().contains(
            name,
        ) by {
            assert(self.index@.contains_key(name));
            assert(self.names()[self.index@[name] as int] == name);
        }
    }

    /// No topics yet.
    pub fn new() -> (t: Self)
        ensures
            t.wf(),
            t@ == Map::<Seq<char>, TopicView<P>>::empty(),
            t.names() == Seq::<Seq<char>>::empty(),
    {
        let t = Topics {
            index: StringHashMap::new(),
            items: Vec::new(),
            names: Ghost(Seq::empty()),
        };
        assert(t@ =~= Map::<Seq<char>, TopicView<P>>::empty());
        t
    }

    /// Append to a topic, made for its first event, and trim it.
    pub fn push(
        &mut self,
        name: &str,
        entry: Entry<P>,
        capacity: usize,
        ttl: &Duration,
        now: &Duration,
    )
        requires
            old(self).wf(),
            entry.seq > 0,
            forall|i: int|
                0 <= i < topic_in(old(self)@, name@).history.len() ==> (#[trigger] topic_in(
                    old(self)@,
                    name@,
                ).history[i]).seq < entry.seq,
        ensures
            final(self).wf(),
            final(self)@ == old(self)@.insert(
                name@,
                topic_in(old(self)@, name@).appended(entry).trimmed(capacity, *ttl, *now),
            ),
            final(self).names() == if old(self)@.contains_key(name@) {
                old(self).names()
            } else {
                old(self).names().push(name@)
            },
            topic_in(final(self)@, name@).history == topic_in(old(self)@, name@).history.push(entry),
            held(final(self)@, final(self).names()) <= held(old(self)@, old(self).names()) + 1,
    {
        let ghost was = *self;
        if !self.index.contains_key(name) {
            let n: usize = self.items.len();
            self.index.insert(name.to_owned(), n);
            self.items.push(Topic::new());
            self.names = Ghost(self.names@.push(name@));
            proof {
                let now_is = *self;
                assert(now_is@ =~= was@.insert(name@, TopicView::empty()));
                assert forall|i: int| 0 <= i < was.names@.len() implies now_is@[#[trigger] was.names@[i]].ring
                    == was@[was.names@[i]].ring by {
                    assert(was.index@.contains_key(was.names@[i]));
                }
                lemma_held_same(now_is@, was@, was.names@);
                assert(now_is.names@.drop_last() =~= was.names@);
            }
        }
        let ghost mid = *self;
        assert(topic_in(mid@, name@) == topic_in(was@, name@));
        assert(mid.wf());
        assert(held(mid@, mid.names()) == held(was@, was.names()));
        if let Some(i) = self.index.get(name) {
            let i: usize = *i;
            assert(mid@[name@] == mid.items@[i as int]@);
            let t = &mut self.items[i];
            t.push(entry);
            t.trim_to(capacity, ttl, now);
            proof {
                assert(self@ =~= mid@.insert(name@, self.items@[i as int]@));
                assert(self@ =~= was@.insert(name@, self.items@[i as int]@));
                assert forall|j: int| 0 <= j < mid.names@.len() && j != i implies self@[#[trigger] mid.names@[j]].ring
                    == mid@[mid.names@[j]].ring by {
                    assert(mid.index@[mid.names@[j]] == j);
                }
                lemma_held_plus_one(self@, mid@, mid.names@, i as int);
            }
        }
    }

    /// Trim one topic and hand it out; `None` when nothing was ever
    /// published on it.
    pub fn trimmed(
        &mut self,
        name: &str,
        capacity: usize,
        ttl: &Duration,
        now: &Duration,
    ) -> (t: Option<&Topic<P>>)
        requires
            old(self).wf(),
        ensures
            final(self).wf(),
            final(self).names() == old(self).names(),
            final(self)@ == if old(self)@.contains_key(name@) {
                old(self)@.insert(name@, old(self)@[name@].trimmed(capacity, *ttl, *now))
            } else {
                old(self)@
            },
            held(final(self)@, final(self).names()) <= held(old(self)@, old(self).names()),
            match t {
                Some(t) => old(self)@.contains_key(name@) && t@ == old(self)@[name@].trimmed(
                    capacity,
                    *ttl,
                    *now,
                ) && t@.wf(),
                None => !old(self)@.contains_key(name@),
            },
    {
        let ghost was = *self;
        match self.index.get(name) {
            Some(i) => {
                let i: usize = *i;
                let t = &mut self.items[i];
                t.trim_to(capacity, ttl, now);
                proof {
                    assert(self@ =~= was@.insert(name@, self.items@[i as int]@));
                    assert forall|j: int| 0 <= j < was.names@.len() implies self@[#[trigger] was.names@[j]].ring.len()
                        <= was@[was.names@[j]].ring.len() by {
                        assert(was.index@[was.names@[j]] == j);
                    }
                    smaller_rings_hold_less(self@, was@, was.names@);
                }
                Some(&self.items[i])
            },
            None => None,
        }
    }

    /// Trim every topic; how many entries were dropped.
    pub fn trim_all(&mut self, capacity: usize, ttl: &Duration, now: &Duration) -> (dropped: u64)
        requires
            old(self).wf(),
            held(old(self)@, old(self).names()) <= u64::MAX,
        ensures
            final(self).wf(),
            final(self).names() == old(self).names(),
            final(self)@ == all_trimmed(old(self)@, capacity, *ttl, *now),
            dropped == held(old(self)@, old(self).names()) - held(final(self)@, old(self).names()),
    {
        let ghost was = *self;
        let mut dropped: u64 = 0;
        let mut i: usize = 0;
        assert(was.names@.take(0) =~= Seq::<Seq<char>>::empty());
        while i < self.items.len()
            invariant
                was.wf(),
                self.wf(),
                self.names@ == was.names@,
                self.index@ == was.index@,
                i <= self.items@.len() == was.items@.len(),
                held(was@, was.names@) <= u64::MAX,
                forall|j: int|
                    0 <= j < i ==> (#[trigger] self.items@[j])@ == was.items@[j]@.trimmed(
                        capacity,
                        *ttl,
                        *now,
                    ),
                forall|j: int| i <= j < was.items@.len() ==> #[trigger] self.items@[j] == was.items@[j],
                dropped == held(was@, was.names@.take(i as int)) - held(
                    self@,
                    was.names@.take(i as int),
                ),
            decreases self.items.len() - i,
        {
            let ghost prior = *self;
            let before: usize = self.items[i].len();
            let t = &mut self.items[i];
            t.trim_to(capacity, ttl, now);
            let left: usize = self.items[i].len();
            proof {
                let name = was.names@[i as int];
                let low = was.names@.take(i as int);
                let next = was.names@.take(i + 1);
                assert(was.index@[name] == i);
                assert(next.drop_last() =~= low);
                assert forall|j: int| 0 <= j < low.len() implies self@[#[trigger] low[j]].ring
                    == prior@[low[j]].ring by {
                    assert(low[j] == was.names@[j]);
                    assert(was.index@[was.names@[j]] == j);
                }
                lemma_held_same(self@, prior@, low);
                assert(was@[name] == was.items@[i as int]@);
                assert(self@[name] == self.items@[i as int]@);
                assert(self.items@[i as int]@.ring.len() <= was.items@[i as int]@.ring.len());
                lemma_held_take(was@, was.names@, i + 1);
            }
            dropped = dropped + (before - left) as u64;
            i += 1;
        }
        proof {
            assert(was.names@.take(i as int) =~= was.names@);
            assert(self@ =~= all_trimmed(was@, capacity, *ttl, *now));
        }
        dropped
    }
}

/// Some of the topics hold no more than all.
proof fn lemma_held_take<P>(topics: Map<Seq<char>, TopicView<P>>, names: Seq<Seq<char>>, n: int)
    requires
        0 <= n <= names.len(),
    ensures
        held(topics, names.take(n)) <= held(topics, names),
    decreases names.len() - n,
{
    if n < names.len() {
        lemma_held_take(topics, names, n + 1);
        assert(names.take(n + 1).drop_last() =~= names.take(n));
    } else {
        assert(names.take(n) =~= names);
    }
}

/// What is held is counted ring by ring: every one of the topics, each once.
pub proof fn every_ring_is_counted<P>(
    topics: Map<Seq<char>, TopicView<P>>,
    names: Seq<Seq<char>>,
    i: int,
)
    requires
        0 <= i < names.len(),
    ensures
        held(topics, names) == held(topics, names.take(i)) + topics[names[i]].ring.len() + held(
            topics,
            names.skip(i + 1),
        ),
        held(topics, Seq::empty()) == 0,
    decreases names.len(),
{
    if i == names.len() - 1 {
        assert(names.take(i) =~= names.drop_last());
        assert(names.skip(i + 1) =~= Seq::<Seq<char>>::empty());
    } else {
        let most = names.drop_last();
        every_ring_is_counted(topics, most, i);
        assert(most.take(i) =~= names.take(i));
        assert(names.skip(i + 1).drop_last() =~= most.skip(i + 1));
        assert(names.skip(i + 1).last() == names.last());
    }
}

/// A trim of every topic trims each one as it would alone, and makes or removes
/// none.
pub proof fn every_topic_is_trimmed_alone<P>(
    topics: Map<Seq<char>, TopicView<P>>,
    capacity: usize,
    ttl: Duration,
    now: Duration,
    name: Seq<char>,
)
    ensures
        all_trimmed(topics, capacity, ttl, now).contains_key(name) <==> topics.contains_key(name),
        topics.contains_key(name) ==> all_trimmed(topics, capacity, ttl, now)[name]
            == topics[name].trimmed(capacity, ttl, now),
{
}

} // verus!
