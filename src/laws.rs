//! Laws relating several operations of [`LinkedList`](crate::linked_list::LinkedList).
//!
//! Each spec function below replays, on the list's view, what the contracts
//! of the list's methods say one call does; the proof functions state what
//! follows for whole sequences of calls.

use vstd::prelude::*;

verus! {

/// The end of the list at which a push adds its element.
pub enum End {
    Front,
    Back,
}

/// The view of a list after the pushes in `ops` are made in order on a list
/// whose view is `s`: `push_front` prepends its element, `push_back` appends it.
pub open spec fn after_pushes<T>(s: Seq<T>, ops: Seq<(End, T)>) -> Seq<T>
    decreases ops.len(),
{
    if ops.len() == 0 {
        s
    } else {
        let next = match ops[0].0 {
            End::Front => seq![ops[0].1] + s,
            End::Back => s.push(ops[0].1),
        };
        after_pushes(next, ops.drop_first())
    }
}

/// The results of `n` successive `pop_front` calls on a list whose view is `s`.
pub open spec fn pops_front<T>(s: Seq<T>, n: nat) -> Seq<Option<T>>
    decreases n,
{
    if n == 0 {
        Seq::empty()
    } else if s.len() == 0 {
        seq![None] + pops_front(s, (n - 1) as nat)
    } else {
        seq![Some(s[0])] + pops_front(s.drop_first(), (n - 1) as nat)
    }
}

/// The pushes of `xs`, in order, all at the end `end`.
pub open spec fn pushes_at<T>(end: End, xs: Seq<T>) -> Seq<(End, T)> {
    xs.map_values(|x: T| (end, x))
}

/// Every push adds exactly one element: after any sequence of pushes the
/// length has grown by the number of pushes.
pub proof fn lemma_push_count<T>(s: Seq<T>, ops: Seq<(End, T)>)
    ensures
        after_pushes(s, ops).len() == s.len() + ops.len(),
    decreases ops.len(),
{
    if ops.len() > 0 {
        let next = match ops[0].0 {
            End::Front => seq![ops[0].1] + s,
            End::Back => s.push(ops[0].1),
        };
        lemma_push_count(next, ops.drop_first());
    }
}

/// Pushing `xs` at the back appends them in their order.
pub proof fn lemma_push_back_all<T>(s: Seq<T>, xs: Seq<T>)
    ensures
        after_pushes(s, pushes_at(End::Back, xs)) == s + xs,
    decreases xs.len(),
{
    if xs.len() == 0 {
        assert(s + xs =~= s);
    } else {
        assert(pushes_at(End::Back, xs).drop_first() =~= pushes_at(End::Back, xs.drop_first()));
        lemma_push_back_all(s.push(xs[0]), xs.drop_first());
        assert(s.push(xs[0]) + xs.drop_first() =~= s + xs);
    }
}

/// Pushing `xs` at the front prepends them in reverse order.
pub proof fn lemma_push_front_all<T>(s: Seq<T>, xs: Seq<T>)
    ensures
        after_pushes(s, pushes_at(End::Front, xs)) == xs.reverse() + s,
    decreases xs.len(),
{
    if xs.len() == 0 {
        assert(xs.reverse() + s =~= s);
    } else {
        assert(pushes_at(End::Front, xs).drop_first() =~= pushes_at(
            End::Front,
            xs.drop_first(),
        ));
        lemma_push_front_all(seq![xs[0]] + s, xs.drop_first());
        assert(xs.drop_first().reverse() + (seq![xs[0]] + s) =~= xs.reverse() + s);
    }
}

/// Popping at the front as many times as there are elements yields every
/// element, front to back.
pub proof fn lemma_pop_front_all<T>(s: Seq<T>)
    ensures
        pops_front(s, s.len()) == s.map_values(|x: T| Some(x)),
    decreases s.len(),
{
    if s.len() == 0 {
        assert(pops_front(s, 0) =~= s.map_values(|x: T| Some(x)));
    } else {
        lemma_pop_front_all(s.drop_first());
        assert(pops_front(s, s.len()) =~= s.map_values(|x: T| Some(x)));
    }
}

/// Pushing `xs` at the back of an empty list and then popping at the front
/// `xs.len()` times gives the elements back first in, first out.
pub proof fn lemma_fifo<T>(xs: Seq<T>)
    ensures
        pops_front(after_pushes(Seq::empty(), pushes_at(End::Back, xs)), xs.len())
            == xs.map_values(|x: T| Some(x)),
{
    lemma_push_back_all(Seq::<T>::empty(), xs);
    assert(Seq::<T>::empty() + xs =~= xs);
    lemma_pop_front_all(xs);
}

/// Pushing `xs` at the front of an empty list and then popping at the front
/// `xs.len()` times gives the elements back last in, first out.
pub proof fn lemma_lifo<T>(xs: Seq<T>)
    ensures
        pops_front(after_pushes(Seq::empty(), pushes_at(End::Front, xs)), xs.len())
            == xs.reverse().map_values(|x: T| Some(x)),
{
    lemma_push_front_all(Seq::<T>::empty(), xs);
    assert(xs.reverse() + Seq::<T>::empty() =~= xs.reverse());
    lemma_pop_front_all(xs.reverse());
}

/// On a list holding the single element `x`, two `pop_front` calls return
/// `x` and then nothing; on an empty list `pop_front` returns nothing.
pub proof fn lemma_pop_front_single<T>(x: T)
    ensures
        pops_front(seq![x], 2) == seq![Some(x), None],
        pops_front(Seq::<T>::empty(), 1) == seq![None::<T>],
{
    assert(seq![x].drop_first() =~= Seq::<T>::empty());
    assert(pops_front(Seq::<T>::empty(), 0) == Seq::<Option<T>>::empty());
    assert(seq![None::<T>] + Seq::<Option<T>>::empty() =~= seq![None::<T>]);
    assert(pops_front(Seq::<T>::empty(), 1) =~= seq![None::<T>]);
    assert(pops_front(seq![x], 2) =~= seq![Some(x), None]);
}

/// Inserting at position 0 is pushing at the front; inserting at position
/// `len` is pushing at the back.
pub proof fn lemma_insert_at_ends<T>(s: Seq<T>, x: T)
    ensures
        s.insert(0, x) == seq![x] + s,
        s.insert(s.len() as int, x) == s.push(x),
{
    assert(s.insert(0, x) =~= seq![x] + s);
    assert(s.insert(s.len() as int, x) =~= s.push(x));
}

} // verus!
