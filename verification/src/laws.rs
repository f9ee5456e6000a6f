//! Engine-wide guarantees, stated and proved over the model.
//!
//! Each public proof function here states one ordering or consumption
//! guarantee of the matching engine for every junction state the engine can
//! reach, in the same vocabulary (`sat`, `consume`, `fired_args`,
//! `first_match`) that the contracts of `JunctionState` use.

use vstd::prelude::*;

verus! {

use crate::model::{
    consume, count_of, fired_args, first_match, first_match_from, has_id, lemma_count_zero,
    lemma_sat_count_le, sat,
};

/// The values of `args` at exactly the positions whose pattern entry is
/// channel `c`, kept in positional order.
pub open spec fn on_channel<M>(pat: Seq<usize>, args: Seq<M>, c: int) -> Seq<M>
    decreases pat.len(),
{
    if pat.len() == 0 {
        Seq::empty()
    } else if pat.last() as int == c {
        on_channel(pat.drop_last(), args.drop_last(), c).push(args.last())
    } else {
        on_channel(pat.drop_last(), args.drop_last(), c)
    }
}

/// The arguments a firing draws from channel `c` are precisely that queue's
/// oldest messages, one per occurrence of `c` in the pattern.
proof fn lemma_on_channel_fired<M>(qs: Seq<Seq<M>>, pat: Seq<usize>, c: int)
    requires
        0 <= c < qs.len(),
        count_of(pat, c) <= qs[c].len(),
    ensures
        on_channel(pat, fired_args(qs, pat), c) == qs[c].take(count_of(pat, c) as int),
    decreases pat.len(),
{
    let a = fired_args(qs, pat);
    if pat.len() == 0 {
        assert(on_channel(pat, a, c) =~= qs[c].take(0));
    } else {
        let n = pat.len() as int;
        let pat0 = pat.drop_last();
        let a0 = fired_args(qs, pat0);
        assert forall|idx: int| 0 <= idx < n - 1 implies a.drop_last()[idx] == a0[idx] by {
            assert(pat0.take(idx) =~= pat.take(idx));
            assert(pat0[idx] == pat[idx]);
        }
        assert(a.drop_last() =~= a0);
        lemma_on_channel_fired(qs, pat0, c);
        let cnt0 = count_of(pat0, c) as int;
        if pat.last() as int == c {
            assert(pat.take(n - 1) =~= pat0);
            assert(a.last() == qs[c][cnt0]);
            assert(qs[c].take(cnt0).push(qs[c][cnt0]) =~= qs[c].take(cnt0 + 1));
            assert(on_channel(pat, a, c) == qs[c].take(cnt0 + 1));
        }
    }
}

/// At-most-once consumption, per firing: on every channel `c`, the queue
/// splits into the messages handed to this firing's handler (each appearing
/// exactly once among the arguments, as `on_channel` collects them) followed
/// by the messages that remain queued.  No message is duplicated into two
/// argument positions and none is dropped.
pub proof fn lemma_at_most_once_consumption<M>(qs: Seq<Seq<M>>, pat: Seq<usize>, c: int)
    requires
        0 <= c < qs.len(),
        sat(qs, pat),
    ensures
        qs[c] == on_channel(pat, fired_args(qs, pat), c) + consume(qs, pat)[c],
        on_channel(pat, fired_args(qs, pat), c).len() == count_of(pat, c),
{
    lemma_sat_count_le(qs, pat, c);
    if !has_id(pat, c) {
        lemma_count_zero(pat, c);
    }
    lemma_on_channel_fired(qs, pat, c);
    let cnt = count_of(pat, c) as int;
    assert(qs[c] =~= qs[c].take(cnt) + qs[c].skip(cnt));
    assert(consume(qs, pat)[c] == qs[c].skip(cnt));
}

/// FIFO per channel: the messages a firing consumes from channel `c` are the
/// oldest ones, delivered in the order they were sent, and the remaining
/// queue is the untouched suffix, still in send order.
pub proof fn lemma_fifo_per_channel<M>(qs: Seq<Seq<M>>, pat: Seq<usize>, c: int)
    requires
        0 <= c < qs.len(),
        sat(qs, pat),
    ensures
        on_channel(pat, fired_args(qs, pat), c) == qs[c].take(count_of(pat, c) as int),
        consume(qs, pat)[c] == qs[c].skip(count_of(pat, c) as int),
        forall|j: int|
            0 <= j < count_of(pat, c) ==> on_channel(pat, fired_args(qs, pat), c)[j] == qs[c][j],
{
    lemma_sat_count_le(qs, pat, c);
    if !has_id(pat, c) {
        lemma_count_zero(pat, c);
    }
    lemma_on_channel_fired(qs, pat, c);
}

/// FIFO across successive firings: when one firing is followed by another on
/// the queues it left behind, the two firings draw disjoint messages from
/// channel `c` — the first takes the oldest ones, the second the next oldest
/// — and together they consume an uninterrupted prefix of the queue in send
/// order.  No message reaches both argument lists.
pub proof fn lemma_fifo_across_firings<M>(qs: Seq<Seq<M>>, pat1: Seq<usize>, pat2: Seq<usize>, c: int)
    requires
        0 <= c < qs.len(),
        sat(qs, pat1),
        sat(consume(qs, pat1), pat2),
    ensures
        on_channel(pat1, fired_args(qs, pat1), c) == qs[c].take(count_of(pat1, c) as int),
        on_channel(pat2, fired_args(consume(qs, pat1), pat2), c) == qs[c].skip(
            count_of(pat1, c) as int,
        ).take(count_of(pat2, c) as int),
        on_channel(pat1, fired_args(qs, pat1), c) + on_channel(
            pat2,
            fired_args(consume(qs, pat1), pat2),
            c,
        ) == qs[c].take(count_of(pat1, c) as int + count_of(pat2, c) as int),
{
    let qs2 = consume(qs, pat1);
    let cnt1 = count_of(pat1, c) as int;
    let cnt2 = count_of(pat2, c) as int;
    lemma_fifo_per_channel(qs, pat1, c);
    lemma_fifo_per_channel(qs2, pat2, c);
    lemma_sat_count_le(qs, pat1, c);
    if !has_id(pat1, c) {
        lemma_count_zero(pat1, c);
    }
    lemma_sat_count_le(qs2, pat2, c);
    if !has_id(pat2, c) {
        lemma_count_zero(pat2, c);
    }
    assert(qs2[c] == qs[c].skip(cnt1));
    assert(cnt1 <= qs[c].len());
    assert(qs2[c].len() == qs[c].len() - cnt1);
    assert(cnt2 <= qs[c].len() - cnt1);
    assert(qs[c].take(cnt1) + qs[c].skip(cnt1).take(cnt2) =~= qs[c].take(cnt1 + cnt2));
}

proof fn lemma_first_match_exists<M>(qs: Seq<Seq<M>>, pats: Seq<Seq<usize>>, c: int, p0: int, p: int)
    requires
        0 <= p0 <= p < pats.len(),
        has_id(pats[p], c),
        sat(qs, pats[p]),
    ensures
        first_match_from(qs, pats, c, p0) matches Some(r) && p0 <= r <= p,
    decreases p - p0,
{
    if !(has_id(pats[p0], c) && sat(qs, pats[p0])) {
        lemma_first_match_exists(qs, pats, c, p0 + 1, p);
    }
}

/// A message is never silently dropped by matching: when, after the enqueue,
/// any registered pattern naming the sent channel is satisfiable, the
/// matching step selects a pattern to fire.
pub proof fn lemma_eligible_send_fires<M>(qs: Seq<Seq<M>>, pats: Seq<Seq<usize>>, c: int, p: int)
    requires
        0 <= p < pats.len(),
        has_id(pats[p], c),
        sat(qs, pats[p]),
    ensures
        first_match(qs, pats, c) is Some,
{
    lemma_first_match_exists(qs, pats, c, 0, p);
}

/// Registration-order tie-break: when two registered patterns both name the
/// channel that just received a message and both are satisfiable, the engine
/// selects the earlier-registered one (or an even earlier candidate), never
/// the later one.
pub proof fn lemma_registration_order_tiebreak<M>(
    qs: Seq<Seq<M>>,
    pats: Seq<Seq<usize>>,
    c: int,
    p1: int,
    p2: int,
)
    requires
        0 <= p1 < p2 < pats.len(),
        has_id(pats[p1], c),
        sat(qs, pats[p1]),
        has_id(pats[p2], c),
        sat(qs, pats[p2]),
    ensures
        first_match(qs, pats, c) is Some,
        first_match(qs, pats, c)->Some_0 <= p1,
        first_match(qs, pats, c) != Some(p2),
{
    lemma_first_match_exists(qs, pats, c, 0, p1);
}

/// A channel a pattern does not name keeps its queue untouched by a firing:
/// the losing pattern's other messages stay queued for a later match.
pub proof fn lemma_unreferenced_channel_untouched<M>(qs: Seq<Seq<M>>, pat: Seq<usize>, c: int)
    requires
        0 <= c < qs.len(),
        !has_id(pat, c),
    ensures
        consume(qs, pat)[c] == qs[c],
{
    lemma_count_zero(pat, c);
    assert(qs[c].skip(0) =~= qs[c]);
}

} // verus!
