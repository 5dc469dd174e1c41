//! Composition of tasks: sequential chaining, where one task's result feeds
//! the construction of the next and the second body starts strictly after the
//! first has finished, and concurrent joining, where two tasks are advanced
//! together with no barrier between them until both complete. The ordering
//! each combinator guarantees is stated over the driver's marker log.

use vstd::prelude::*;

use crate::task::{Step, Task, run_to_completion};

verus! {

/// `s` is one of the ways the markers of `a` and of `b` can be merged: every
/// marker of both appears in `s`, the markers of `a` keep their order among
/// themselves, the markers of `b` keep theirs, and nothing else is in `s`.
pub open spec fn is_interleaving(s: Seq<u64>, a: Seq<u64>, b: Seq<u64>) -> bool
    decreases s.len(),
{
    if s.len() == 0 {
        a.len() == 0 && b.len() == 0
    } else {
        ||| (a.len() > 0 && s.last() == a.last() && is_interleaving(s.drop_last(), a.drop_last(), b))
        ||| (b.len() > 0 && s.last() == b.last() && is_interleaving(s.drop_last(), a, b.drop_last()))
    }
}

/// Extending the merge with one more marker of the first constituent keeps it
/// a merge.
proof fn lemma_interleaving_push_left(s: Seq<u64>, a: Seq<u64>, b: Seq<u64>, e: u64)
    requires
        is_interleaving(s, a, b),
    ensures
        is_interleaving(s.push(e), a.push(e), b),
{
    assert(s.push(e).drop_last() =~= s);
    assert(a.push(e).drop_last() =~= a);
}

/// Extending the merge with one more marker of the second constituent keeps
/// it a merge.
proof fn lemma_interleaving_push_right(s: Seq<u64>, a: Seq<u64>, b: Seq<u64>, e: u64)
    requires
        is_interleaving(s, a, b),
    ensures
        is_interleaving(s.push(e), a, b.push(e)),
{
    assert(s.push(e).drop_last() =~= s);
    assert(b.push(e).drop_last() =~= b);
}

/// Law: a join skips neither constituent. Any merge of `a` and `b` carries
/// exactly the markers of both: its length is the two lengths added, and as a
/// multiset it is exactly the markers of `a` together with those of `b`.
pub proof fn lemma_interleaving_complete(s: Seq<u64>, a: Seq<u64>, b: Seq<u64>)
    requires
        is_interleaving(s, a, b),
    ensures
        s.len() == a.len() + b.len(),
        s.to_multiset() == a.to_multiset().add(b.to_multiset()),
    decreases s.len(),
{
    broadcast use vstd::seq_lib::group_to_multiset_ensures;

    if s.len() == 0 {
        assert(s.to_multiset() =~= a.to_multiset().add(b.to_multiset()));
    } else if a.len() > 0 && s.last() == a.last() && is_interleaving(
        s.drop_last(),
        a.drop_last(),
        b,
    ) {
        lemma_interleaving_complete(s.drop_last(), a.drop_last(), b);
        assert(s =~= s.drop_last().push(s.last()));
        assert(a =~= a.drop_last().push(a.last()));
        assert(s.to_multiset() =~= a.to_multiset().add(b.to_multiset()));
    } else {
        lemma_interleaving_complete(s.drop_last(), a, b.drop_last());
        assert(s =~= s.drop_last().push(s.last()));
        assert(b =~= b.drop_last().push(b.last()));
        assert(s.to_multiset() =~= a.to_multiset().add(b.to_multiset()));
    }
}

/// Law: after a sequential composition, the first task's markers stand in the
/// log as one block strictly before the second task's block. With `full` the
/// log a sequence leaves behind (what was already there, then the first
/// body's markers, then the second's), the marker `i` of the first body sits
/// at position `pre.len() + i`, and every such position is smaller than the
/// position `pre.len() + a.len() + j` of any marker `j` of the second body.
pub proof fn lemma_sequence_orders_events(pre: Seq<u64>, a: Seq<u64>, b: Seq<u64>, full: Seq<u64>)
    requires
        full == pre + a + b,
    ensures
        full.len() == pre.len() + a.len() + b.len(),
        forall|i: int| 0 <= i < a.len() ==> full[pre.len() + i] == a[i],
        forall|j: int| 0 <= j < b.len() ==> full[pre.len() + a.len() + j] == b[j],
{
}

/// Sequential composition: drives `first` to completion, hands its result to
/// `factory`, then drives the task `factory` built to completion and returns
/// that task's result. The second body therefore starts strictly after the
/// first has produced its result: the log ends up extended by all of the
/// first task's markers and then all of the second's. The factory is applied
/// to exactly the result the first task yielded, and never runs at all if
/// this combinator is not called.
pub fn sequence<A, B, F: FnOnce(A) -> Task<B>>(log: &mut Vec<u64>, first: Task<A>, factory: F) -> (r:
    B)
    requires
        first.wf(),
        first.is_created(),
        call_requires(factory, (first.result(),)),
        forall|x: A, t: Task<B>| #[trigger] call_ensures(factory, (x,), t) ==> (t.wf()
            && t.is_created()),
    ensures
        exists|second: Task<B>|
            (#[trigger] call_ensures(factory, (first.result(),), second) && r == second.result()
                && final(log)@ == old(log)@ + first.events() + second.events()),
{
    let ghost first_result = first.result();
    let a_result = run_to_completion(log, first);
    let second = factory(a_result);
    let r = run_to_completion(log, second);
    proof {
        assert(call_ensures(factory, (first_result,), second));
    }
    r
}

/// Concurrent composition: advances `left` and `right` together, alternating
/// between whichever of the two still has work left, and returns only when
/// both have completed, with both results. Neither task waits for the other
/// between steps and neither task's completion is skipped: the log grows by
/// some merge of the two bodies' markers, holding all markers of both, each
/// body's in their own order.
pub fn join<A, B>(log: &mut Vec<u64>, left: Task<A>, right: Task<B>) -> (r: (A, B))
    requires
        left.wf(),
        left.is_created(),
        right.wf(),
        right.is_created(),
    ensures
        r.0 == left.result(),
        r.1 == right.result(),
        final(log)@.len() == old(log)@.len() + left.events().len() + right.events().len(),
        final(log)@.take(old(log)@.len() as int) == old(log)@,
        is_interleaving(
            final(log)@.skip(old(log)@.len() as int),
            left.events(),
            right.events(),
        ),
{
    let mut a = left;
    let mut b = right;
    let mut ra: Option<A> = None;
    let mut rb: Option<B> = None;
    let ghost mut mix: Seq<u64> = Seq::empty();
    proof {
        assert(log@ == old(log)@ + mix) by {
            assert(old(log)@ + mix =~= old(log)@);
        }
        assert(a.events().take(0) =~= Seq::<u64>::empty());
        assert(b.events().take(0) =~= Seq::<u64>::empty());
    }
    loop
        invariant
            a.wf(),
            b.wf(),
            a.events() == left.events(),
            b.events() == right.events(),
            (ra is None) <==> !a.is_completed(),
            (rb is None) <==> !b.is_completed(),
            ra matches Some(v) ==> v == left.result(),
            rb matches Some(v) ==> v == right.result(),
            !a.is_completed() ==> a.result() == left.result(),
            !b.is_completed() ==> b.result() == right.result(),
            ra is None || rb is None,
            log@ == old(log)@ + mix,
            mix.len() == a.emitted() + b.emitted(),
            is_interleaving(mix, a.events().take(a.emitted() as int), b.events().take(b.emitted() as int)),
        decreases a.remaining() + b.remaining(),
    {
        if ra.is_none() {
            let ghost k: nat = a.emitted();
            match a.advance(log) {
                Step::Ready(v) => {
                    proof {
                        if k < a.events().len() {
                            advance_updates_mix_left(mix, a, b, k);
                            assert((old(log)@ + mix).push(a.events()[k as int]) =~= old(log)@
                                + mix.push(a.events()[k as int]));
                            mix = mix.push(a.events()[k as int]);
                        }
                    }
                    ra = Some(v);
                },
                Step::Pending => {
                    proof {
                        advance_updates_mix_left(mix, a, b, k);
                        assert((old(log)@ + mix).push(a.events()[k as int]) =~= old(log)@
                            + mix.push(a.events()[k as int]));
                        mix = mix.push(a.events()[k as int]);
                    }
                },
            }
        }
        if rb.is_none() {
            let ghost k: nat = b.emitted();
            match b.advance(log) {
                Step::Ready(v) => {
                    proof {
                        if k < b.events().len() {
                            advance_updates_mix_right(mix, a, b, k);
                            assert((old(log)@ + mix).push(b.events()[k as int]) =~= old(log)@
                                + mix.push(b.events()[k as int]));
                            mix = mix.push(b.events()[k as int]);
                        }
                    }
                    rb = Some(v);
                },
                Step::Pending => {
                    proof {
                        advance_updates_mix_right(mix, a, b, k);
                        assert((old(log)@ + mix).push(b.events()[k as int]) =~= old(log)@
                            + mix.push(b.events()[k as int]));
                        mix = mix.push(b.events()[k as int]);
                    }
                },
            }
        }
        if ra.is_some() && rb.is_some() {
            proof {
                assert(a.events().take(a.emitted() as int) =~= a.events());
                assert(b.events().take(b.emitted() as int) =~= b.events());
                lemma_interleaving_complete(mix, a.events(), b.events());
                assert(log@.take(old(log)@.len() as int) =~= old(log)@);
                assert(log@.skip(old(log)@.len() as int) =~= mix);
            }
            return (ra.unwrap(), rb.unwrap());
        }
    }
}

/// One advancement of the first joined task extends the merge invariant by
/// the marker it just emitted.
proof fn advance_updates_mix_left<A, B>(mix: Seq<u64>, a: Task<A>, b: Task<B>, k: nat)
    requires
        k < a.emitted(),
        a.emitted() <= a.events().len(),
        b.emitted() <= b.events().len(),
        a.emitted() == k + 1,
        is_interleaving(mix, a.events().take(k as int), b.events().take(b.emitted() as int)),
    ensures
        is_interleaving(
            mix.push(a.events()[k as int]),
            a.events().take(a.emitted() as int),
            b.events().take(b.emitted() as int),
        ),
{
    lemma_interleaving_push_left(
        mix,
        a.events().take(k as int),
        b.events().take(b.emitted() as int),
        a.events()[k as int],
    );
    crate::task::lemma_take_one_more(a.events(), k as int);
}

/// One advancement of the second joined task extends the merge invariant by
/// the marker it just emitted.
proof fn advance_updates_mix_right<A, B>(mix: Seq<u64>, a: Task<A>, b: Task<B>, k: nat)
    requires
        k < b.emitted(),
        a.emitted() <= a.events().len(),
        b.emitted() <= b.events().len(),
        b.emitted() == k + 1,
        is_interleaving(mix, a.events().take(a.emitted() as int), b.events().take(k as int)),
    ensures
        is_interleaving(
            mix.push(b.events()[k as int]),
            a.events().take(a.emitted() as int),
            b.events().take(b.emitted() as int),
        ),
{
    lemma_interleaving_push_right(
        mix,
        a.events().take(a.emitted() as int),
        b.events().take(k as int),
        b.events()[k as int],
    );
    crate::task::lemma_take_one_more(b.events(), k as int);
}

} // verus!
