//! The mathematical model of a junction.
//!
//! A junction's state is a sequence of channel queues (one `Seq<M>` per
//! channel, oldest message first) and a sequence of registered patterns (one
//! `Seq<usize>` of channel identities per pattern, in registration order).
//! The functions here say which pattern a message arrival selects and what
//! the queues and the handler's arguments look like after a firing.

use vstd::prelude::*;

verus! {

/// Number of occurrences of channel identity `c` in the pattern `s`.
pub open spec fn count_of(s: Seq<usize>, c: int) -> nat
    decreases s.len(),
{
    if s.len() == 0 {
        0
    } else {
        count_of(s.drop_last(), c) + if s.last() as int == c {
            1nat
        } else {
            0nat
        }
    }
}

/// Whether the pattern `s` names channel identity `c` at all.
pub open spec fn has_id(s: Seq<usize>, c: int) -> bool {
    exists|k: int| 0 <= k < s.len() && s[k] as int == c
}

/// Every channel identity in `pat` was minted by a junction with `n` channels.
pub open spec fn channels_valid(pat: Seq<usize>, n: nat) -> bool {
    forall|i: int| 0 <= i < pat.len() ==> (#[trigger] pat[i]) < n
}

/// A pattern is satisfiable when every channel it names holds at least as
/// many queued messages as the pattern has occurrences of that channel.
pub open spec fn sat<M>(qs: Seq<Seq<M>>, pat: Seq<usize>) -> bool {
    forall|i: int|
        0 <= i < pat.len() ==> count_of(pat, (#[trigger] pat[i]) as int) <= qs[pat[i] as int].len()
}

/// The queues after a message `m` is appended to channel `c`.
pub open spec fn enqueue<M>(qs: Seq<Seq<M>>, c: int, m: M) -> Seq<Seq<M>> {
    qs.update(c, qs[c].push(m))
}

/// The queues after a firing of `pat`: each channel loses its oldest
/// messages, one per occurrence of the channel in the pattern.
pub open spec fn consume<M>(qs: Seq<Seq<M>>, pat: Seq<usize>) -> Seq<Seq<M>> {
    Seq::new(qs.len(), |c: int| qs[c].skip(count_of(pat, c) as int))
}

/// The positional arguments a firing of `pat` hands to its handler: position
/// `i` receives the oldest message of channel `pat[i]` not already claimed by
/// an earlier occurrence of the same channel.
pub open spec fn fired_args<M>(qs: Seq<Seq<M>>, pat: Seq<usize>) -> Seq<M> {
    Seq::new(
        pat.len(),
        |i: int| qs[pat[i] as int][count_of(pat.take(i), pat[i] as int) as int],
    )
}

/// The first pattern at index `p0` or later that names channel `c` and is
/// satisfiable, scanning in registration order.
pub open spec fn first_match_from<M>(
    qs: Seq<Seq<M>>,
    pats: Seq<Seq<usize>>,
    c: int,
    p0: int,
) -> Option<int>
    decreases pats.len() - p0,
{
    if p0 < 0 || p0 >= pats.len() {
        None
    } else if has_id(pats[p0], c) && sat(qs, pats[p0]) {
        Some(p0)
    } else {
        first_match_from(qs, pats, c, p0 + 1)
    }
}

/// The pattern a message arrival on channel `c` selects: the earliest
/// registered pattern that names `c` and is satisfiable, if any.
pub open spec fn first_match<M>(qs: Seq<Seq<M>>, pats: Seq<Seq<usize>>, c: int) -> Option<int> {
    first_match_from(qs, pats, c, 0)
}

pub proof fn lemma_take_succ(s: Seq<usize>, i: int)
    requires
        0 <= i < s.len(),
    ensures
        s.take(i + 1) =~= s.take(i).push(s[i]),
{
}

pub proof fn lemma_count_take_step(s: Seq<usize>, c: int, i: int)
    requires
        0 <= i < s.len(),
    ensures
        count_of(s.take(i + 1), c) == count_of(s.take(i), c) + if s[i] as int == c {
            1nat
        } else {
            0nat
        },
{
    assert(s.take(i + 1).drop_last() =~= s.take(i));
    assert(s.take(i + 1).last() == s[i]);
}

pub proof fn lemma_count_take_le(s: Seq<usize>, c: int, i: int, j: int)
    requires
        0 <= i <= j <= s.len(),
    ensures
        count_of(s.take(i), c) <= count_of(s.take(j), c),
    decreases j - i,
{
    if i < j {
        lemma_count_take_le(s, c, i, j - 1);
        lemma_count_take_step(s, c, j - 1);
    }
}

pub proof fn lemma_count_take_full(s: Seq<usize>, c: int)
    ensures
        count_of(s.take(s.len() as int), c) == count_of(s, c),
{
    assert(s.take(s.len() as int) =~= s);
}

/// A channel occurs in a pattern exactly when its occurrence count is positive.
pub proof fn lemma_count_zero(s: Seq<usize>, c: int)
    ensures
        (count_of(s, c) == 0) <==> !has_id(s, c),
    decreases s.len(),
{
    if s.len() > 0 {
        lemma_count_zero(s.drop_last(), c);
        if has_id(s, c) {
            let k = choose|k: int| 0 <= k < s.len() && s[k] as int == c;
            if k < s.len() - 1 {
                assert(s.drop_last()[k] as int == c);
                assert(has_id(s.drop_last(), c));
            }
        }
        if has_id(s.drop_last(), c) {
            let k = choose|k: int| 0 <= k < s.drop_last().len() && s.drop_last()[k] as int == c;
            assert(s[k] as int == c);
            assert(has_id(s, c));
        }
    }
}

pub proof fn lemma_has_id_push(s: Seq<usize>, x: usize, c: int)
    ensures
        has_id(s.push(x), c) == (has_id(s, c) || x as int == c),
{
    if has_id(s.push(x), c) {
        let k = choose|k: int| 0 <= k < s.push(x).len() && s.push(x)[k] as int == c;
        if k < s.len() {
            assert(s[k] as int == c);
        }
    }
    if has_id(s, c) {
        let k = choose|k: int| 0 <= k < s.len() && s[k] as int == c;
        assert(s.push(x)[k] as int == c);
    }
    if x as int == c {
        assert(s.push(x)[s.len() as int] as int == c);
    }
}

/// A satisfiable pattern never asks for more messages than its channel holds.
pub proof fn lemma_sat_count_le<M>(qs: Seq<Seq<M>>, pat: Seq<usize>, c: int)
    requires
        sat(qs, pat),
    ensures
        has_id(pat, c) ==> count_of(pat, c) <= qs[c].len(),
{
    if has_id(pat, c) {
        let k = choose|k: int| 0 <= k < pat.len() && pat[k] as int == c;
        assert(count_of(pat, pat[k] as int) <= qs[pat[k] as int].len());
    }
}

/// Popping the front of a queue's suffix lengthens the suffix by one.
pub proof fn lemma_skip_remove_front<M>(s: Seq<M>, a: int)
    requires
        0 <= a < s.len(),
    ensures
        s.skip(a).remove(0) =~= s.skip(a + 1),
{
}

pub proof fn lemma_first_match_at<M>(qs: Seq<Seq<M>>, pats: Seq<Seq<usize>>, c: int, p0: int, p: int)
    requires
        0 <= p0 <= p < pats.len(),
        has_id(pats[p], c) && sat(qs, pats[p]),
        forall|q: int|
            p0 <= q < p ==> !(has_id(#[trigger] pats[q], c) && sat(qs, pats[q])),
    ensures
        first_match_from(qs, pats, c, p0) == Some(p),
    decreases p - p0,
{
    if p0 < p {
        lemma_first_match_at(qs, pats, c, p0 + 1, p);
    }
}

pub proof fn lemma_first_match_none<M>(qs: Seq<Seq<M>>, pats: Seq<Seq<usize>>, c: int, p0: int)
    requires
        0 <= p0,
        forall|q: int|
            p0 <= q < pats.len() ==> !(has_id(#[trigger] pats[q], c) && sat(qs, pats[q])),
    ensures
        first_match_from(qs, pats, c, p0) is None,
    decreases pats.len() - p0,
{
    if p0 < pats.len() {
        lemma_first_match_none(qs, pats, c, p0 + 1);
    }
}

/// What a selected pattern satisfies: it names the channel, it is
/// satisfiable, and no earlier registered pattern naming the channel is.
pub proof fn lemma_first_match_least<M>(qs: Seq<Seq<M>>, pats: Seq<Seq<usize>>, c: int, p0: int, p: int)
    requires
        0 <= p0,
        first_match_from(qs, pats, c, p0) == Some(p),
    ensures
        p0 <= p < pats.len(),
        has_id(pats[p], c),
        sat(qs, pats[p]),
        forall|q: int|
            p0 <= q < p ==> !(has_id(#[trigger] pats[q], c) && sat(qs, pats[q])),
    decreases pats.len() - p0,
{
    if !(has_id(pats[p0], c) && sat(qs, pats[p0])) {
        lemma_first_match_least(qs, pats, c, p0 + 1, p);
    }
}

} // verus!
